//! The builder: systems are registered one by one, and `build` plans their
//! stages and binds the plan to a resource store.
use crate::access::Access;
use crate::ledger::all_below;
use crate::resources::{indices, ResourceId, Resources};
use crate::scheduler::plan::plan_from;
use crate::scheduler::planner::{
    assign, decls_of, lemma_planned, overlap, plan_stages, shares, staged,
};
use crate::scheduler::{declared, Scheduler};
use crate::system::{access_of, RawSystem};
use vstd::prelude::*;

verus! {

/// Why no plan could be made.
#[derive(Debug, Clone, Copy, PartialEq, Eq, Structural)]
pub enum PlannerError {
    /// A registered system names a resource for which the store holds no
    /// value.
    MissingResource(ResourceId),
}

/// What the systems declare, in registration order.
pub open spec fn declarations<S: RawSystem>(systems: Seq<S>) -> Seq<Access> {
    Seq::new(systems.len(), |i: int| access_of(systems[i]))
}

/// The store holds a value for every resource that `access` names.
pub open spec fn present<V>(access: Access, store: Resources<V>) -> bool {
    forall|x: usize| access.touches(x) ==> store.holds(ResourceId(x))
}

/// `x` is the first of `ids` for which the store holds no value.
pub open spec fn first_gap<V>(ids: Seq<usize>, store: Resources<V>, x: usize) -> bool {
    exists|p: int|
        0 <= p < ids.len() && #[trigger] ids[p] == x && !store.holds(ResourceId(x)) && forall|q: int|
            0 <= q < p ==> store.holds(ResourceId(#[trigger] ids[q]))
}

/// The items of a slice as a vector.
fn to_vec(ids: &[ResourceId]) -> (copy: Vec<ResourceId>)
    ensures
        copy@ == ids@,
{
    let mut copy: Vec<ResourceId> = Vec::new();
    let mut i: usize = 0;
    while i < ids.len()
        invariant
            i <= ids@.len(),
            copy@ == ids@.take(i as int),
        decreases ids@.len() - i,
    {
        copy.push(ids[i]);
        assert(ids@.take(i + 1) =~= ids@.take(i as int).push(ids@[i as int]));
        i += 1;
    }
    assert(ids@.take(ids@.len() as int) =~= ids@);
    copy
}

/// The position of the first of `ids` for which the store holds no value.
fn first_absent<V>(ids: &Vec<ResourceId>, store: &Resources<V>) -> (gap: Option<usize>)
    ensures
        match gap {
            Some(p) => p < ids@.len() && !store.holds(ids@[p as int]) && forall|q: int|
                0 <= q < p ==> store.holds(#[trigger] ids@[q]),
            None => forall|q: int| 0 <= q < ids@.len() ==> store.holds(#[trigger] ids@[q]),
        },
{
    let mut p: usize = 0;
    while p < ids.len()
        invariant
            p <= ids@.len(),
            forall|q: int| 0 <= q < p ==> store.holds(#[trigger] ids@[q]),
        decreases ids@.len() - p,
    {
        if !store.contains(ids[p]) {
            return Some(p);
        }
        p += 1;
    }
    None
}

/// Whether a system keeps its reads apart from its writes, as `with` asks.
pub fn declares_disjoint<S: RawSystem>(system: &S) -> (apart: bool)
    ensures
        apart == access_of(*system).disjoint(),
{
    let reads = to_vec(system.resource_reads());
    let writes = to_vec(system.resource_writes());
    let common = shares(&reads, &writes);
    proof {
        let access = access_of(*system);
        if overlap(access.reads, access.writes) {
            let x = choose|x: usize| access.reads.contains(x) && access.writes.contains(x);
            assert(!access.disjoint());
        }
    }
    !common
}

/// Collects the systems of a scheduler, in registration order.
pub struct SchedulerBuilder<S> {
    systems: Vec<S>,
}

impl<S: RawSystem> SchedulerBuilder<S> {
    /// The systems registered so far, first to last.
    pub closed spec fn registered(&self) -> Seq<S> {
        self.systems@
    }

    /// No registered system reads what it writes.
    pub open spec fn wf(&self) -> bool {
        forall|i: int|
            0 <= i < self.registered().len() ==> (#[trigger] access_of(
                self.registered()[i],
            )).disjoint()
    }

    /// A builder without systems.
    pub fn new() -> (builder: Self)
        ensures
            builder.registered() == Seq::<S>::empty(),
            builder.wf(),
    {
        SchedulerBuilder { systems: Vec::new() }
    }

    /// Registers a system. Its id is the number of systems registered
    /// before it.
    pub fn with(self, system: S) -> (builder: Self)
        requires
            self.wf(),
            access_of(system).disjoint(),
        ensures
            builder.registered() == self.registered().push(system),
            builder.wf(),
    {
        let mut builder = self;
        builder.systems.push(system);
        proof {
            assert forall|i: int| 0 <= i < builder.registered().len() implies (#[trigger] access_of(
                builder.registered()[i],
            )).disjoint() by {
                if i < self.registered().len() {
                    assert(builder.registered()[i] == self.registered()[i]);
                    assert(access_of(self.registered()[i]).disjoint());
                }
            }
        }
        builder
    }

    /// Plans the stages and binds the plan to `resources`. The plan is the
    /// earliest fit of the systems in registration order. A system that
    /// names a resource without a value in `resources` stops the build: the
    /// error names the first such resource, going through the systems in
    /// registration order and through the reads of each before its writes.
    pub fn build<V>(self, resources: Resources<V>) -> (built: Result<
        Scheduler<S, V>,
        PlannerError,
    >)
        requires
            self.wf(),
        ensures
            match built {
                Ok(scheduler) => {
                    let decls = declarations(self.registered());
                    &&& forall|s: int| 0 <= s < decls.len() ==> present(#[trigger] decls[s], resources)
                    &&& scheduler.wf()
                    &&& scheduler.is_idle()
                    &&& scheduler.plan() == plan_from(
                        staged(assign(decls, decls.len())),
                        Seq::new(decls.len(), |i: int| decls[i].reads),
                        Seq::new(decls.len(), |i: int| decls[i].writes),
                    )
                    &&& scheduler.system_objects() == self.registered()
                    &&& scheduler.store() == resources
                    &&& scheduler.reads_held().len() == resources@.len()
                },
                Err(PlannerError::MissingResource(id)) => {
                    let decls = declarations(self.registered());
                    exists|s: int|
                        0 <= s < decls.len() && first_gap(
                            (#[trigger] decls[s]).reads + decls[s].writes,
                            resources,
                            id.0,
                        ) && forall|t: int| 0 <= t < s ==> present(#[trigger] decls[t], resources)
                },
            },
    {
        let ghost decls = declarations(self.registered());
        let n = self.systems.len();
        let mut reads: Vec<Vec<ResourceId>> = Vec::new();
        let mut writes: Vec<Vec<ResourceId>> = Vec::new();
        let mut i: usize = 0;
        while i < n
            invariant
                i <= n == self.systems@.len() == decls.len(),
                decls == declarations(self.systems@),
                reads@.len() == i,
                writes@.len() == i,
                forall|s: int|
                    0 <= s < i ==> {
                        &&& indices((#[trigger] reads@[s])@) == decls[s].reads
                        &&& indices(writes@[s]@) == decls[s].writes
                    },
                forall|s: int| 0 <= s < i ==> present(#[trigger] decls[s], resources),
            decreases n - i,
        {
            let system_reads = to_vec(self.systems[i].resource_reads());
            let system_writes = to_vec(self.systems[i].resource_writes());
            let ghost all = decls[i as int].reads + decls[i as int].writes;
            assert(indices(system_reads@) == decls[i as int].reads);
            assert(indices(system_writes@) == decls[i as int].writes);
            match first_absent(&system_reads, &resources) {
                Some(p) => {
                    proof {
                        assert(all[p as int] == system_reads@[p as int].0);
                        assert forall|q: int| 0 <= q < p implies resources.holds(
                            ResourceId(#[trigger] all[q]),
                        ) by {
                            assert(resources.holds(system_reads@[q]));
                        }
                        assert(first_gap(all, resources, system_reads@[p as int].0));
                        assert(first_gap(
                            decls[i as int].reads + decls[i as int].writes,
                            resources,
                            system_reads@[p as int].0,
                        ));
                        let id = system_reads@[p as int];
                        let all_decls = declarations(self.registered());
                        assert(all_decls == decls);
                        assert(exists|s: int|
                            0 <= s < all_decls.len() && first_gap(
                                (#[trigger] all_decls[s]).reads + all_decls[s].writes,
                                resources,
                                id.0,
                            ) && forall|t: int|
                                0 <= t < s ==> present(#[trigger] all_decls[t], resources));
                    }
                    return Err(PlannerError::MissingResource(system_reads[p]));
                },
                None => {},
            }
            match first_absent(&system_writes, &resources) {
                Some(p) => {
                    proof {
                        let at = system_reads@.len() + p;
                        assert(all[at] == system_writes@[p as int].0);
                        assert forall|q: int| 0 <= q < at implies resources.holds(
                            ResourceId(#[trigger] all[q]),
                        ) by {
                            if q < system_reads@.len() {
                                assert(resources.holds(system_reads@[q]));
                            } else {
                                assert(resources.holds(system_writes@[q - system_reads@.len()]));
                            }
                        }
                        assert(first_gap(all, resources, system_writes@[p as int].0));
                        assert(first_gap(
                            decls[i as int].reads + decls[i as int].writes,
                            resources,
                            system_writes@[p as int].0,
                        ));
                        let id = system_writes@[p as int];
                        let all_decls = declarations(self.registered());
                        assert(all_decls == decls);
                        assert(exists|s: int|
                            0 <= s < all_decls.len() && first_gap(
                                (#[trigger] all_decls[s]).reads + all_decls[s].writes,
                                resources,
                                id.0,
                            ) && forall|t: int|
                                0 <= t < s ==> present(#[trigger] all_decls[t], resources));
                    }
                    return Err(PlannerError::MissingResource(system_writes[p]));
                },
                None => {},
            }
            proof {
                assert forall|x: usize| decls[i as int].touches(x) implies resources.holds(
                    ResourceId(x),
                ) by {
                    if decls[i as int].reads.contains(x) {
                        let q = choose|q: int|
                            0 <= q < decls[i as int].reads.len() && decls[i as int].reads[q] == x;
                        assert(resources.holds(system_reads@[q]));
                    } else {
                        let q = choose|q: int|
                            0 <= q < decls[i as int].writes.len() && decls[i as int].writes[q] == x;
                        assert(resources.holds(system_writes@[q]));
                    }
                }
            }
            reads.push(system_reads);
            writes.push(system_writes);
            i += 1;
        }
        let stages = plan_stages(&reads, &writes);
        proof {
            let all_reads = declared(reads@);
            let all_writes = declared(writes@);
            assert forall|s: int| 0 <= s < decls.len() implies all_reads[s] == decls[s].reads
                && all_writes[s] == decls[s].writes && present(decls[s], resources) by {
                assert(indices(reads@[s]@) == decls[s].reads);
            }
            assert(all_reads =~= Seq::new(decls.len(), |i: int| decls[i].reads));
            assert(all_writes =~= Seq::new(decls.len(), |i: int| decls[i].writes));
            assert(decls_of(reads@, writes@) =~= decls);
            assert(decls =~= Seq::new(
                all_reads.len(),
                |i: int| Access { reads: all_reads[i], writes: all_writes[i] },
            ));
            assert forall|s: int| 0 <= s < all_reads.len() implies {
                &&& all_below(#[trigger] all_reads[s], resources@.len() as int)
                &&& all_below(all_writes[s], resources@.len() as int)
                &&& (Access { reads: all_reads[s], writes: all_writes[s] }).disjoint()
            } by {
                assert(present(decls[s], resources));
                assert(access_of(self.registered()[s]).disjoint());
                assert forall|p: int| 0 <= p < all_reads[s].len() implies all_reads[s][p]
                    < resources@.len() by {
                    assert(decls[s].reads.contains(all_reads[s][p]));
                    assert(decls[s].touches(all_reads[s][p]));
                }
                assert forall|p: int| 0 <= p < all_writes[s].len() implies all_writes[s][p]
                    < resources@.len() by {
                    assert(decls[s].writes.contains(all_writes[s][p]));
                    assert(decls[s].touches(all_writes[s][p]));
                }
            }
            lemma_planned(all_reads, all_writes, resources@.len());
        }
        Ok(Scheduler::from_plan(self.systems, &stages, &reads, &writes, resources))
    }
}

} // verus!
