//! The execution plan as the dispatcher sees it: stages of systems, and what
//! each system and each stage reads and writes.
use crate::access::{conflict, writes_into, Access};
use crate::ledger::{all_below, lemma_occurrences_bound, occurrences};
use crate::scheduler::Task;
use vstd::prelude::*;

verus! {

/// The lists of the `members`, one after the other.
pub open spec fn gather(members: Seq<usize>, lists: Seq<Seq<usize>>) -> Seq<usize>
    decreases members.len(),
{
    if members.len() == 0 {
        Seq::empty()
    } else {
        gather(members.drop_last(), lists) + lists[members.last() as int]
    }
}

/// The number of systems in the first `k` stages.
pub open spec fn systems_in(stages: Seq<Seq<usize>>, k: int) -> nat
    decreases k,
{
    if k <= 0 {
        0
    } else {
        systems_in(stages, k - 1) + stages[k - 1].len()
    }
}

/// An execution plan. Systems and stages are named by their indices.
pub struct Plan {
    /// The systems of each stage.
    pub stages: Seq<Seq<usize>>,
    /// What each system reads.
    pub system_reads: Seq<Seq<usize>>,
    /// What each system writes.
    pub system_writes: Seq<Seq<usize>>,
    /// What each stage reads: the reads of its systems, one after the other.
    pub stage_reads: Seq<Seq<usize>>,
    /// What each stage writes: the writes of its systems, one after the other.
    pub stage_writes: Seq<Seq<usize>>,
}

/// The plan with the given stages and declarations.
pub open spec fn plan_from(
    stages: Seq<Seq<usize>>,
    reads: Seq<Seq<usize>>,
    writes: Seq<Seq<usize>>,
) -> Plan {
    Plan {
        stages,
        system_reads: reads,
        system_writes: writes,
        stage_reads: Seq::new(stages.len(), |k: int| gather(stages[k], reads)),
        stage_writes: Seq::new(stages.len(), |k: int| gather(stages[k], writes)),
    }
}

impl Plan {
    pub open spec fn system_count(self) -> nat {
        self.system_reads.len()
    }

    pub open spec fn stage_count(self) -> nat {
        self.stages.len()
    }

    /// What system `s` declares.
    pub open spec fn system(self, s: int) -> Access {
        Access { reads: self.system_reads[s], writes: self.system_writes[s] }
    }

    /// What stage `k` declares as a whole.
    pub open spec fn stage(self, k: int) -> Access {
        Access { reads: self.stage_reads[k], writes: self.stage_writes[k] }
    }

    /// The task names a stage or a system of the plan.
    pub open spec fn has_task(self, task: Task) -> bool {
        match task {
            Task::Stage(id) => id.0 < self.stages.len(),
            Task::Oneshot(id) => id.0 < self.system_reads.len(),
        }
    }

    /// What a task borrows while it runs.
    pub open spec fn access(self, task: Task) -> Access {
        match task {
            Task::Stage(id) => self.stage(id.0 as int),
            Task::Oneshot(id) => self.system(id.0 as int),
        }
    }

    /// The number of systems that a task runs.
    pub open spec fn size(self, task: Task) -> nat {
        match task {
            Task::Stage(id) => self.stages[id.0 as int].len(),
            Task::Oneshot(_) => 1,
        }
    }

    /// The systems that a task runs.
    pub open spec fn members(self, task: Task) -> Seq<usize> {
        match task {
            Task::Stage(id) => self.stages[id.0 as int],
            Task::Oneshot(id) => seq![id.0],
        }
    }

    /// What the declarations have to be for a store of `resources` slots:
    /// every declared resource has a slot, no system reads what it writes,
    /// and the systems of one stage do not conflict.
    pub open spec fn sound(self, resources: nat) -> bool {
        &&& self.system_writes.len() == self.system_reads.len()
        &&& self.stage_reads.len() == self.stages.len()
        &&& self.stage_writes.len() == self.stages.len()
        &&& forall|s: int|
            0 <= s < self.system_count() ==> {
                &&& all_below(#[trigger] self.system_reads[s], resources as int)
                &&& all_below(self.system_writes[s], resources as int)
                &&& self.system(s).disjoint()
            }
        &&& forall|k: int|
            0 <= k < self.stage_count() ==> {
                &&& all_below(#[trigger] self.stages[k], self.system_count() as int)
                &&& self.stage_reads[k] == gather(self.stages[k], self.system_reads)
                &&& self.stage_writes[k] == gather(self.stages[k], self.system_writes)
            }
        &&& forall|k: int, p: int, q: int|
            0 <= k < self.stage_count() && 0 <= p < self.stages[k].len() && 0 <= q
                < self.stages[k].len() && p != q ==> !conflict(
                self.system(#[trigger] self.stages[k][p] as int),
                self.system(#[trigger] self.stages[k][q] as int),
            )
    }

    /// No system stands at two places of the plan, and the stages hold as
    /// many systems as there are.
    pub open spec fn partitioned(self) -> bool {
        &&& forall|k: int, p: int, l: int, q: int|
            0 <= k < self.stage_count() && 0 <= p < self.stages[k].len() && 0 <= l
                < self.stage_count() && 0 <= q < self.stages[l].len() && (k != l || p != q)
                ==> #[trigger] self.stages[k][p] != #[trigger] self.stages[l][q]
        &&& systems_in(self.stages, self.stages.len() as int) == self.system_count()
    }

    /// The plan is sound for a store of `resources` slots, and every system
    /// stands in exactly one stage.
    pub open spec fn wf(self, resources: nat) -> bool {
        self.sound(resources) && self.partitioned()
    }
}

/// The number of systems that stand before stage `k`, where stage `j` holds
/// `sizes[j]` systems.
pub open spec fn offset(sizes: Seq<nat>, k: int) -> nat
    decreases k,
{
    if k <= 0 {
        0
    } else {
        offset(sizes, k - 1) + sizes[k - 1]
    }
}

/// Stages of the given sizes over systems that are numbered stage by stage.
pub open spec fn consecutive(sizes: Seq<nat>) -> Seq<Seq<usize>> {
    Seq::new(
        sizes.len(),
        |k: int| Seq::new(sizes[k], |p: int| (offset(sizes, k) + p) as usize),
    )
}

pub(crate) proof fn lemma_offset_grows(sizes: Seq<nat>, k: int, l: int)
    requires
        0 <= k <= l,
    ensures
        offset(sizes, k) <= offset(sizes, l),
    decreases l - k,
{
    if k < l {
        lemma_offset_grows(sizes, k, l - 1);
    }
}

pub(crate) proof fn lemma_systems_in_consecutive(sizes: Seq<nat>, k: int)
    requires
        0 <= k <= sizes.len(),
    ensures
        systems_in(consecutive(sizes), k) == offset(sizes, k),
    decreases k,
{
    if k > 0 {
        lemma_systems_in_consecutive(sizes, k - 1);
    }
}

/// Stages over systems that are numbered stage by stage hold every system
/// once.
pub(crate) proof fn lemma_consecutive_partitioned(sizes: Seq<nat>, plan: Plan)
    requires
        plan.stages == consecutive(sizes),
        plan.system_count() == offset(sizes, sizes.len() as int),
        plan.system_count() <= usize::MAX,
    ensures
        plan.partitioned(),
        forall|k: int|
            0 <= k < plan.stage_count() ==> all_below(
                #[trigger] plan.stages[k],
                plan.system_count() as int,
            ),
{
    let n = sizes.len() as int;
    lemma_systems_in_consecutive(sizes, n);
    assert forall|k: int, p: int| 0 <= k < n && 0 <= p < sizes[k] implies offset(sizes, k) + p
        < offset(sizes, k + 1) <= plan.system_count() && #[trigger] plan.stages[k][p] == offset(
        sizes,
        k,
    ) + p by {
        lemma_offset_grows(sizes, k + 1, n);
    }
    assert forall|k: int, p: int, l: int, q: int|
        0 <= k < plan.stage_count() && 0 <= p < plan.stages[k].len() && 0 <= l
            < plan.stage_count() && 0 <= q < plan.stages[l].len() && (k != l || p
            != q) implies #[trigger] plan.stages[k][p] != #[trigger] plan.stages[l][q] by {
        if k < l {
            lemma_offset_grows(sizes, k + 1, l);
        } else if l < k {
            lemma_offset_grows(sizes, l + 1, k);
        }
    }
}

/// The tasks of a dispatch: the stages in plan order.
pub open spec fn stage_tasks(stages: nat) -> Seq<Task> {
    Seq::new(stages, |k: int| Task::Stage(crate::scheduler::StageId(k as usize)))
}

/// The number of systems that the tasks run, all together.
pub open spec fn work(plan: Plan, tasks: Seq<Task>) -> nat
    decreases tasks.len(),
{
    if tasks.len() == 0 {
        0
    } else {
        work(plan, tasks.drop_last()) + plan.size(tasks.last())
    }
}

/// How many readers of `r` the tasks in flight add up to.
pub open spec fn held_reads(plan: Plan, flight: Seq<Task>, r: usize) -> nat
    decreases flight.len(),
{
    if flight.len() == 0 {
        0
    } else {
        held_reads(plan, flight.drop_last(), r) + occurrences(plan.access(flight.last()).reads, r)
    }
}

/// A task in flight writes `r`.
pub open spec fn holds_write(plan: Plan, flight: Seq<Task>, r: usize) -> bool {
    exists|i: int| 0 <= i < flight.len() && (#[trigger] plan.access(flight[i])).writes.contains(r)
}

pub(crate) proof fn lemma_work_push(plan: Plan, tasks: Seq<Task>, task: Task)
    ensures
        work(plan, tasks.push(task)) == work(plan, tasks) + plan.size(task),
{
    assert(tasks.push(task).drop_last() =~= tasks);
}

pub(crate) proof fn lemma_work_remove(plan: Plan, tasks: Seq<Task>, i: int)
    requires
        0 <= i < tasks.len(),
    ensures
        work(plan, tasks.remove(i)) + plan.size(tasks[i]) == work(plan, tasks),
    decreases tasks.len(),
{
    if i == tasks.len() - 1 {
        assert(tasks.remove(i) =~= tasks.drop_last());
    } else {
        lemma_work_remove(plan, tasks.drop_last(), i);
        assert(tasks.remove(i).drop_last() =~= tasks.drop_last().remove(i));
        assert(tasks.remove(i).last() == tasks.last());
    }
}

/// The stages of a plan, taken as tasks, run as many systems as they hold.
pub(crate) proof fn lemma_work_of_stages(plan: Plan, k: nat)
    requires
        k <= plan.stages.len() <= usize::MAX,
    ensures
        work(plan, stage_tasks(k)) == systems_in(plan.stages, k as int),
    decreases k,
{
    if k > 0 {
        lemma_work_of_stages(plan, (k - 1) as nat);
        assert(stage_tasks(k).drop_last() =~= stage_tasks((k - 1) as nat));
    }
}

pub(crate) proof fn lemma_held_reads_push(plan: Plan, flight: Seq<Task>, task: Task, r: usize)
    ensures
        held_reads(plan, flight.push(task), r) == held_reads(plan, flight, r) + occurrences(
            plan.access(task).reads,
            r,
        ),
{
    assert(flight.push(task).drop_last() =~= flight);
}

pub(crate) proof fn lemma_held_reads_remove(plan: Plan, flight: Seq<Task>, i: int, r: usize)
    requires
        0 <= i < flight.len(),
    ensures
        held_reads(plan, flight.remove(i), r) + occurrences(plan.access(flight[i]).reads, r)
            == held_reads(plan, flight, r),
    decreases flight.len(),
{
    if i == flight.len() - 1 {
        assert(flight.remove(i) =~= flight.drop_last());
    } else {
        lemma_held_reads_remove(plan, flight.drop_last(), i, r);
        assert(flight.remove(i).drop_last() =~= flight.drop_last().remove(i));
        assert(flight.remove(i).last() == flight.last());
    }
}

/// A read is held on `r` exactly when a task in flight reads `r`.
pub proof fn lemma_held_reads_positive(plan: Plan, flight: Seq<Task>, r: usize)
    ensures
        held_reads(plan, flight, r) > 0 <==> exists|i: int|
            0 <= i < flight.len() && (#[trigger] plan.access(flight[i])).reads.contains(r),
    decreases flight.len(),
{
    if flight.len() > 0 {
        let front = flight.drop_last();
        lemma_held_reads_positive(plan, front, r);
        lemma_occurrences_bound(plan.access(flight.last()).reads, r);
        if held_reads(plan, flight, r) > 0 {
            if held_reads(plan, front, r) > 0 {
                let i = choose|i: int|
                    0 <= i < front.len() && (#[trigger] plan.access(front[i])).reads.contains(r);
                assert(plan.access(flight[i]).reads.contains(r));
            } else {
                assert(plan.access(flight[flight.len() - 1]).reads.contains(r));
            }
        }
        if exists|i: int|
            0 <= i < flight.len() && (#[trigger] plan.access(flight[i])).reads.contains(r) {
            let i = choose|i: int|
                0 <= i < flight.len() && (#[trigger] plan.access(flight[i])).reads.contains(r);
            if i < flight.len() - 1 {
                assert(plan.access(front[i]).reads.contains(r));
            }
        }
    }
}

/// No task in flight writes what another task in flight reads or writes.
pub open spec fn apart(plan: Plan, flight: Seq<Task>) -> bool {
    forall|i: int, j: int|
        0 <= i < flight.len() && 0 <= j < flight.len() && i != j ==> !writes_into(
            #[trigger] plan.access(flight[i]),
            #[trigger] plan.access(flight[j]),
        )
}

pub(crate) proof fn lemma_gather_step(members: Seq<usize>, lists: Seq<Seq<usize>>, p: int)
    requires
        0 <= p < members.len(),
    ensures
        gather(members.take(p + 1), lists) == gather(members.take(p), lists) + lists[members[p] as int],
{
    assert(members.take(p + 1).drop_last() =~= members.take(p));
}

/// An item stands in the gathered list exactly when it stands in the list of
/// a member.
pub proof fn lemma_gather_contains(members: Seq<usize>, lists: Seq<Seq<usize>>, x: usize)
    ensures
        gather(members, lists).contains(x) <==> exists|p: int|
            0 <= p < members.len() && (#[trigger] lists[members[p] as int]).contains(x),
    decreases members.len(),
{
    if members.len() > 0 {
        let front = members.drop_last();
        let last = lists[members.last() as int];
        lemma_gather_contains(front, lists, x);
        if gather(members, lists).contains(x) {
            let i = choose|i: int|
                0 <= i < gather(members, lists).len() && gather(members, lists)[i] == x;
            if i < gather(front, lists).len() {
                assert(gather(front, lists)[i] == x);
                let p = choose|p: int|
                    0 <= p < front.len() && (#[trigger] lists[front[p] as int]).contains(x);
                assert(lists[members[p] as int].contains(x));
            } else {
                assert(last[i - gather(front, lists).len()] == x);
                assert(lists[members[members.len() - 1] as int].contains(x));
            }
        }
        if exists|p: int|
            0 <= p < members.len() && (#[trigger] lists[members[p] as int]).contains(x) {
            let p = choose|p: int|
                0 <= p < members.len() && (#[trigger] lists[members[p] as int]).contains(x);
            if p < members.len() - 1 {
                assert(lists[front[p] as int].contains(x));
                let i = choose|i: int|
                    0 <= i < gather(front, lists).len() && gather(front, lists)[i] == x;
                assert(gather(members, lists)[i] == x);
            } else {
                let i = choose|i: int| 0 <= i < last.len() && last[i] == x;
                assert(gather(members, lists)[gather(front, lists).len() + i] == x);
            }
        }
    }
}

/// What a task of a sound plan borrows: resources that have a slot, none
/// both read and written.
pub proof fn lemma_task_access(plan: Plan, resources: nat, task: Task)
    requires
        plan.wf(resources),
        plan.has_task(task),
    ensures
        all_below(plan.access(task).reads, resources as int),
        all_below(plan.access(task).writes, resources as int),
        plan.access(task).disjoint(),
{
    match task {
        Task::Oneshot(id) => {
            assert(all_below(plan.system_reads[id.0 as int], resources as int));
        },
        Task::Stage(id) => {
            let k = id.0 as int;
            let members = plan.stages[k];
            assert(all_below(members, plan.system_count() as int));
            let access = plan.stage(k);
            assert forall|i: int| 0 <= i < access.reads.len() implies access.reads[i]
                < resources by {
                let x = access.reads[i];
                lemma_gather_contains(members, plan.system_reads, x);
                assert(access.reads.contains(x));
                let p = choose|p: int|
                    0 <= p < members.len() && (#[trigger] plan.system_reads[members[p] as int]).contains(x);
                assert(all_below(plan.system_reads[members[p] as int], resources as int));
            }
            assert forall|i: int| 0 <= i < access.writes.len() implies access.writes[i]
                < resources by {
                let x = access.writes[i];
                lemma_gather_contains(members, plan.system_writes, x);
                assert(access.writes.contains(x));
                let p = choose|p: int|
                    0 <= p < members.len() && (#[trigger] plan.system_writes[members[p] as int]).contains(x);
                assert(all_below(plan.system_reads[members[p] as int], resources as int));
            }
            assert forall|x: usize| !(access.reads.contains(x) && access.writes.contains(
                x,
            )) by {
                if access.reads.contains(x) && access.writes.contains(x) {
                    lemma_gather_contains(members, plan.system_reads, x);
                    lemma_gather_contains(members, plan.system_writes, x);
                    let p = choose|p: int|
                        0 <= p < members.len() && (#[trigger] plan.system_reads[members[p] as int]).contains(x);
                    let q = choose|q: int|
                        0 <= q < members.len() && (#[trigger] plan.system_writes[members[q] as int]).contains(x);
                    let a = plan.system(members[q] as int);
                    let b = plan.system(members[p] as int);
                    assert(all_below(plan.system_reads[members[p] as int], resources as int));
                    if p == q {
                        assert(0 <= members[p] < plan.system_count());
                        assert(plan.system(members[p] as int).disjoint());
                        assert(a.reads.contains(x) && a.writes.contains(x));
                        assert(false);
                    } else {
                        assert(b.touches(x));
                        assert(writes_into(a, b));
                        assert(!conflict(
                            plan.system(plan.stages[k][q] as int),
                            plan.system(plan.stages[k][p] as int),
                        ));
                        assert(false);
                    }
                }
            }
        },
    }
}

} // verus!
