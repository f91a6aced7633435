//! The stage planner: each system, in registration order, goes into the
//! earliest stage that holds no system in conflict with it.
use crate::access::{conflict, writes_into, Access};
use crate::resources::{indices, ResourceId};
use crate::ledger::all_below;
use crate::scheduler::plan::{gather, lemma_gather_contains, plan_from, systems_in};
use crate::scheduler::{declared, views};
use vstd::prelude::*;

verus! {

/// The next system, whose number is `placed.len()`, fits into stage `k`: it
/// conflicts with no system that stands there.
pub open spec fn fits(decls: Seq<Access>, placed: Seq<nat>, k: nat) -> bool {
    forall|j: int|
        0 <= j < placed.len() && placed[j] == k ==> !conflict(
            decls[placed.len() as int],
            #[trigger] decls[j],
        )
}

/// The earliest stage from `k` on into which the next system fits.
pub open spec fn first_fit(decls: Seq<Access>, placed: Seq<nat>, k: nat) -> nat
    decreases placed.len() - k,
{
    if k >= placed.len() || fits(decls, placed, k) {
        k
    } else {
        first_fit(decls, placed, k + 1)
    }
}

/// The stage of each of the first `n` systems.
pub open spec fn assign(decls: Seq<Access>, n: nat) -> Seq<nat>
    decreases n,
{
    if n == 0 {
        Seq::empty()
    } else {
        let placed = assign(decls, (n - 1) as nat);
        placed.push(first_fit(decls, placed, 0))
    }
}

/// The number of stages in use: one more than the last stage that holds a
/// system.
pub open spec fn stages_used(placed: Seq<nat>) -> nat
    decreases placed.len(),
{
    if placed.len() == 0 {
        0
    } else {
        let before = stages_used(placed.drop_last());
        if placed.last() + 1 > before {
            placed.last() + 1
        } else {
            before
        }
    }
}

/// The systems of stage `k`, in registration order.
pub open spec fn members_of(placed: Seq<nat>, k: nat) -> Seq<usize>
    decreases placed.len(),
{
    if placed.len() == 0 {
        Seq::empty()
    } else {
        let before = members_of(placed.drop_last(), k);
        if placed.last() == k {
            before.push((placed.len() - 1) as usize)
        } else {
            before
        }
    }
}

/// The stages that an assignment describes.
pub open spec fn staged(placed: Seq<nat>) -> Seq<Seq<usize>> {
    Seq::new(stages_used(placed), |k: int| members_of(placed, k as nat))
}

/// System `i` conflicts with a system that was registered before it and
/// stands in stage `k`.
pub open spec fn clashes(decls: Seq<Access>, placed: Seq<nat>, i: int, k: nat) -> bool {
    exists|j: int| 0 <= j < i && placed[j] == k && conflict(decls[i], #[trigger] decls[j])
}

/// `placed` is what earliest fit gives: the stage of a system is the first
/// one in which it clashes with no system registered before it.
pub open spec fn earliest_fit(decls: Seq<Access>, placed: Seq<nat>) -> bool {
    forall|i: int, k: nat|
        0 <= i < placed.len() && k <= placed[i] ==> (#[trigger] clashes(decls, placed, i, k) <==> k
            < placed[i])
}

pub(crate) proof fn lemma_assign_len(decls: Seq<Access>, n: nat)
    ensures
        assign(decls, n).len() == n,
    decreases n,
{
    if n > 0 {
        lemma_assign_len(decls, (n - 1) as nat);
    }
}

pub(crate) proof fn lemma_assign_prefix(decls: Seq<Access>, n: nat, i: int)
    requires
        0 <= i < n,
    ensures
        assign(decls, n).len() == n,
        assign(decls, n).take(i) == assign(decls, i as nat),
        assign(decls, n)[i] == first_fit(decls, assign(decls, i as nat), 0),
    decreases n,
{
    lemma_assign_len(decls, n);
    lemma_assign_len(decls, (n - 1) as nat);
    let before = assign(decls, (n - 1) as nat);
    if i == n - 1 {
        assert(assign(decls, n).take(i) =~= before);
    } else {
        lemma_assign_prefix(decls, (n - 1) as nat, i);
        assert(assign(decls, n).take(i) =~= before.take(i));
    }
}

/// What `first_fit` finds: a stage that fits or is past every system, with
/// no stage that fits between `k` and it.
pub(crate) proof fn lemma_first_fit(decls: Seq<Access>, placed: Seq<nat>, k: nat)
    ensures
        k <= first_fit(decls, placed, k),
        first_fit(decls, placed, k) >= placed.len() || fits(
            decls,
            placed,
            first_fit(decls, placed, k),
        ),
        first_fit(decls, placed, k) <= placed.len() || first_fit(decls, placed, k) == k,
        forall|l: nat| k <= l < first_fit(decls, placed, k) ==> !fits(decls, placed, l),
    decreases placed.len() - k,
{
    if !(k >= placed.len() || fits(decls, placed, k)) {
        lemma_first_fit(decls, placed, k + 1);
    }
}

/// Every stage in use is below `stages_used`, which is at most the number of
/// systems.
pub(crate) proof fn lemma_stages_used(placed: Seq<nat>)
    ensures
        forall|j: int| 0 <= j < placed.len() ==> #[trigger] placed[j] < stages_used(placed),
        placed.len() > 0 ==> exists|j: int|
            0 <= j < placed.len() && #[trigger] placed[j] + 1 == stages_used(placed),
        placed.len() == 0 ==> stages_used(placed) == 0,
    decreases placed.len(),
{
    if placed.len() > 0 {
        let front = placed.drop_last();
        lemma_stages_used(front);
        assert forall|j: int| 0 <= j < placed.len() implies #[trigger] placed[j] < stages_used(
            placed,
        ) by {
            if j < front.len() {
                assert(front[j] == placed[j]);
            }
        }
        if placed.last() + 1 > stages_used(front) {
            assert(placed[placed.len() - 1] + 1 == stages_used(placed));
        } else {
            let j = choose|j: int| 0 <= j < front.len() && #[trigger] front[j] + 1 == stages_used(front);
            assert(placed[j] + 1 == stages_used(placed));
        }
    }
}

/// The members of a stage are the systems placed there, in rising order.
pub(crate) proof fn lemma_members(placed: Seq<nat>, k: nat)
    requires
        placed.len() <= usize::MAX,
    ensures
        forall|p: int|
            0 <= p < members_of(placed, k).len() ==> (#[trigger] members_of(placed, k)[p])
                < placed.len() && placed[members_of(placed, k)[p] as int] == k,
        forall|p: int, q: int|
            0 <= p < q < members_of(placed, k).len() ==> members_of(placed, k)[p] < members_of(
                placed,
                k,
            )[q],
        forall|i: int|
            0 <= i < placed.len() && placed[i] == k ==> members_of(placed, k).contains(i as usize),
    decreases placed.len(),
{
    if placed.len() > 0 {
        let front = placed.drop_last();
        lemma_members(front, k);
        let before = members_of(front, k);
        let all = members_of(placed, k);
        assert forall|p: int| 0 <= p < all.len() implies (#[trigger] all[p]) < placed.len()
            && placed[all[p] as int] == k by {
            if p < before.len() {
                assert(before[p] == all[p]);
                assert(front[before[p] as int] == k);
            }
        }
        assert forall|p: int, q: int| 0 <= p < q < all.len() implies all[p] < all[q] by {
            if q < before.len() {
                assert(before[p] < before[q]);
            } else {
                assert(before[p] < front.len());
            }
        }
        assert forall|i: int| 0 <= i < placed.len() && placed[i] == k implies all.contains(
            i as usize,
        ) by {
            if i < front.len() {
                assert(front[i] == k);
                assert(before.contains(i as usize));
                let p = choose|p: int| 0 <= p < before.len() && before[p] == i as usize;
                assert(all[p] == i as usize);
            } else {
                assert(all[all.len() - 1] == i as usize);
            }
        }
    }
}

/// The assignment that `assign` computes is an earliest fit.
pub proof fn lemma_assign_is_earliest_fit(decls: Seq<Access>, n: nat)
    ensures
        assign(decls, n).len() == n,
        earliest_fit(decls, assign(decls, n)),
{
    lemma_assign_len(decls, n);
    let placed = assign(decls, n);
    assert forall|i: int, k: nat| 0 <= i < placed.len() && k <= placed[i] implies (
    #[trigger] clashes(decls, placed, i, k) <==> k < placed[i]) by {
        lemma_assign_prefix(decls, n, i);
        let before = assign(decls, i as nat);
        lemma_assign_len(decls, i as nat);
        lemma_first_fit(decls, before, 0);
        let at = first_fit(decls, before, 0);
        assert(placed[i] == at);
        if k < at {
            assert(!fits(decls, before, k));
            let j = choose|j: int|
                0 <= j < before.len() && before[j] == k && conflict(
                    decls[before.len() as int],
                    #[trigger] decls[j],
                );
            assert(before[j] == placed.take(i)[j]);
            assert(clashes(decls, placed, i, k));
        } else if clashes(decls, placed, i, k) {
            let j = choose|j: int|
                0 <= j < i && placed[j] == k && conflict(decls[i], #[trigger] decls[j]);
            assert(before[j] == placed.take(i)[j]);
            assert(at < before.len()) by {
                lemma_assign_prefix(decls, n, j);
                lemma_assign_len(decls, j as nat);
                lemma_first_fit(decls, assign(decls, j as nat), 0);
            }
            assert(fits(decls, before, at));
        }
    }
}

/// Only one assignment is an earliest fit: planning the same systems again
/// gives the same stages.
pub proof fn lemma_earliest_fit_unique(decls: Seq<Access>, a: Seq<nat>, b: Seq<nat>)
    requires
        a.len() == b.len(),
        earliest_fit(decls, a),
        earliest_fit(decls, b),
    ensures
        a == b,
{
    assert forall|i: int| 0 <= i < a.len() implies a[i] == b[i] by {
        lemma_unique_upto(decls, a, b, i);
    }
    assert(a =~= b);
}

proof fn lemma_unique_upto(decls: Seq<Access>, a: Seq<nat>, b: Seq<nat>, i: int)
    requires
        a.len() == b.len(),
        earliest_fit(decls, a),
        earliest_fit(decls, b),
        0 <= i < a.len(),
    ensures
        forall|j: int| 0 <= j <= i ==> a[j] == b[j],
    decreases i,
{
    if i > 0 {
        lemma_unique_upto(decls, a, b, i - 1);
    }
    if a[i] < b[i] {
        let k = a[i];
        assert(clashes(decls, b, i, k));
        let j = choose|j: int| 0 <= j < i && b[j] == k && conflict(decls[i], #[trigger] decls[j]);
        assert(a[j] == k);
        assert(clashes(decls, a, i, k));
    } else if b[i] < a[i] {
        let k = b[i];
        assert(clashes(decls, a, i, k));
        let j = choose|j: int| 0 <= j < i && a[j] == k && conflict(decls[i], #[trigger] decls[j]);
        assert(b[j] == k);
        assert(clashes(decls, b, i, k));
    }
}

/// Systems of one stage do not conflict.
pub proof fn lemma_stage_mates_agree(decls: Seq<Access>, placed: Seq<nat>, one: int, other: int)
    requires
        earliest_fit(decls, placed),
        0 <= one < placed.len(),
        0 <= other < placed.len(),
        one != other,
        placed[one] == placed[other],
    ensures
        !conflict(decls[one], decls[other]),
{
    let k = placed[one];
    if one < other {
        assert(!clashes(decls, placed, other, k));
    } else {
        assert(!clashes(decls, placed, one, k));
    }
}

/// Of two systems in conflict, the later one never shares the stage of the
/// earlier one. It stands in a later stage exactly when it clashes in every
/// stage before that of the earlier one; otherwise it went into one of those.
pub proof fn lemma_conflict_orders(decls: Seq<Access>, placed: Seq<nat>, earlier: int, later: int)
    requires
        earliest_fit(decls, placed),
        0 <= earlier < later < placed.len(),
        conflict(decls[earlier], decls[later]),
    ensures
        placed[earlier] != placed[later],
        placed[earlier] < placed[later] <==> forall|k: nat|
            k < placed[earlier] ==> #[trigger] clashes(decls, placed, later, k),
{
    if placed[earlier] == placed[later] {
        lemma_stage_mates_agree(decls, placed, earlier, later);
    }
    if placed[earlier] < placed[later] {
        assert forall|k: nat| k < placed[earlier] implies #[trigger] clashes(decls, placed, later, k) by {
        }
    }
    if placed[later] < placed[earlier] {
        assert(!clashes(decls, placed, later, placed[later]));
    }
}

/// Where every system writes one common resource, each system has a stage of
/// its own, in registration order.
pub proof fn lemma_common_write_serializes(decls: Seq<Access>, placed: Seq<nat>, r: usize, i: int)
    requires
        earliest_fit(decls, placed),
        forall|j: int| 0 <= j < placed.len() ==> (#[trigger] decls[j]).writes.contains(r),
        0 <= i < placed.len(),
    ensures
        placed[i] == i,
    decreases i,
{
    if placed[i] < i {
        let j = placed[i] as int;
        lemma_common_write_serializes(decls, placed, r, j);
        assert(decls[j].writes.contains(r));
        assert(decls[i].touches(r));
        assert(writes_into(decls[j], decls[i]));
        assert(clashes(decls, placed, i, placed[i]));
    } else if placed[i] > i {
        assert(clashes(decls, placed, i, i as nat));
        let j = choose|j: int|
            0 <= j < i && placed[j] == i as nat && conflict(decls[i], #[trigger] decls[j]);
        lemma_common_write_serializes(decls, placed, r, j);
    }
}

/// Where no system writes, all systems stand in the first stage.
pub proof fn lemma_readers_share_a_stage(decls: Seq<Access>, placed: Seq<nat>, i: int)
    requires
        earliest_fit(decls, placed),
        forall|j: int| 0 <= j < placed.len() ==> (#[trigger] decls[j]).writes.len() == 0,
        0 <= i < placed.len(),
    ensures
        placed[i] == 0,
{
    if placed[i] > 0 {
        assert(clashes(decls, placed, i, 0));
        let j = choose|j: int|
            0 <= j < i && placed[j] == 0 && conflict(decls[i], #[trigger] decls[j]);
        assert(decls[i].writes.len() == 0);
    }
}

/// Where each system has the stage of its own number, there are as many
/// stages as systems, each with one system.
pub proof fn lemma_serial_stages(placed: Seq<nat>)
    requires
        placed.len() <= usize::MAX,
        forall|i: int| 0 <= i < placed.len() ==> placed[i] == i,
    ensures
        staged(placed).len() == placed.len(),
        forall|k: int| 0 <= k < placed.len() ==> #[trigger] staged(placed)[k] == seq![k as usize],
    decreases placed.len(),
{
    if placed.len() > 0 {
        let front = placed.drop_last();
        lemma_serial_stages(front);
        assert forall|k: int| 0 <= k < placed.len() implies #[trigger] staged(placed)[k]
            == seq![k as usize] by {
            if k < front.len() {
                assert(staged(front)[k] == seq![k as usize]);
            } else {
                lemma_unused_stage(front, k as nat);
                assert(members_of(placed, k as nat) =~= seq![k as usize]);
            }
        }
    }
}

/// Where every system stands in the first stage, that stage is the only
/// one and holds all systems in registration order.
pub proof fn lemma_single_stage(placed: Seq<nat>)
    requires
        0 < placed.len() <= usize::MAX,
        forall|i: int| 0 <= i < placed.len() ==> placed[i] == 0,
    ensures
        staged(placed).len() == 1,
        staged(placed)[0] == Seq::new(placed.len(), |i: int| i as usize),
    decreases placed.len(),
{
    let front = placed.drop_last();
    assert(placed.last() == placed[placed.len() - 1]);
    if front.len() > 0 {
        lemma_single_stage(front);
        assert(members_of(placed, 0) =~= Seq::new(placed.len(), |i: int| i as usize));
    } else {
        assert(stages_used(front) == 0);
        assert(members_of(front, 0) =~= Seq::<usize>::empty());
        assert(members_of(placed, 0) =~= Seq::new(placed.len(), |i: int| i as usize));
    }
}

/// Without systems there are no stages.
pub proof fn lemma_no_systems(decls: Seq<Access>)
    ensures
        staged(assign(decls, 0)).len() == 0,
{
}

/// What each system declares, in registration order.
pub open spec fn decls_of(reads: Seq<Vec<ResourceId>>, writes: Seq<Vec<ResourceId>>) -> Seq<
    Access,
> {
    Seq::new(
        reads.len(),
        |i: int| Access { reads: indices(reads[i]@), writes: indices(writes[i]@) },
    )
}

/// The two lists have a resource in common.
pub open spec fn overlap(a: Seq<usize>, b: Seq<usize>) -> bool {
    exists|x: usize| a.contains(x) && b.contains(x)
}

pub(crate) proof fn lemma_assign_bound(decls: Seq<Access>, n: nat)
    ensures
        assign(decls, n).len() == n,
        forall|j: int| 0 <= j < n ==> #[trigger] assign(decls, n)[j] <= j,
        stages_used(assign(decls, n)) <= n,
{
    lemma_assign_len(decls, n);
    let placed = assign(decls, n);
    assert forall|j: int| 0 <= j < n implies #[trigger] placed[j] <= j by {
        lemma_assign_prefix(decls, n, j);
        lemma_assign_len(decls, j as nat);
        lemma_first_fit(decls, assign(decls, j as nat), 0);
    }
    lemma_stages_used(placed);
}

proof fn lemma_first_fit_from(decls: Seq<Access>, placed: Seq<nat>, from: nat, k: nat)
    requires
        from <= k <= placed.len(),
        forall|l: nat| from <= l < k ==> !fits(decls, placed, l),
    ensures
        first_fit(decls, placed, from) == first_fit(decls, placed, k),
    decreases k - from,
{
    if from < k {
        lemma_first_fit_from(decls, placed, from + 1, k);
    }
}

/// Whether two lists of resources have a resource in common.
pub fn shares(a: &Vec<ResourceId>, b: &Vec<ResourceId>) -> (common: bool)
    ensures
        common == overlap(indices(a@), indices(b@)),
{
    let mut i: usize = 0;
    while i < a.len()
        invariant
            i <= a.len(),
            forall|p: int, q: int| 0 <= p < i && 0 <= q < b@.len() ==> a@[p].0 != b@[q].0,
        decreases a.len() - i,
    {
        let mut j: usize = 0;
        while j < b.len()
            invariant
                i < a.len(),
                j <= b.len(),
                forall|q: int| 0 <= q < j ==> a@[i as int].0 != b@[q].0,
            decreases b.len() - j,
        {
            if a[i].0 == b[j].0 {
                proof {
                    assert(indices(a@)[i as int] == a@[i as int].0);
                    assert(indices(b@)[j as int] == b@[j as int].0);
                    assert(indices(a@).contains(a@[i as int].0));
                    assert(indices(b@).contains(a@[i as int].0));
                }
                return true;
            }
            j += 1;
        }
        i += 1;
    }
    proof {
        if overlap(indices(a@), indices(b@)) {
            let x = choose|x: usize| indices(a@).contains(x) && indices(b@).contains(x);
            let p = choose|p: int| 0 <= p < indices(a@).len() && indices(a@)[p] == x;
            let q = choose|q: int| 0 <= q < indices(b@).len() && indices(b@)[q] == x;
            assert(a@[p].0 != b@[q].0);
        }
    }
    false
}

/// Whether a system may join a stage: it writes nothing that the stage reads
/// or writes, and reads nothing that the stage writes.
pub fn compatible(
    reads: &Vec<ResourceId>,
    writes: &Vec<ResourceId>,
    stage_reads: &Vec<ResourceId>,
    stage_writes: &Vec<ResourceId>,
) -> (joins: bool)
    ensures
        joins == !conflict(
            Access { reads: indices(reads@), writes: indices(writes@) },
            Access { reads: indices(stage_reads@), writes: indices(stage_writes@) },
        ),
{
    let ghost system = Access { reads: indices(reads@), writes: indices(writes@) };
    let ghost stage = Access { reads: indices(stage_reads@), writes: indices(stage_writes@) };
    let joins = !shares(writes, stage_reads) && !shares(writes, stage_writes) && !shares(
        reads,
        stage_writes,
    );
    proof {
        if writes_into(system, stage) {
            let x = choose|x: usize| system.writes.contains(x) && stage.touches(x);
            assert(overlap(system.writes, stage.reads) || overlap(system.writes, stage.writes));
        }
        if writes_into(stage, system) {
            let x = choose|x: usize| stage.writes.contains(x) && system.touches(x);
            assert(overlap(system.reads, stage.writes) || overlap(system.writes, stage.writes));
        }
        if overlap(system.writes, stage.reads) {
            let x = choose|x: usize| system.writes.contains(x) && stage.reads.contains(x);
            assert(stage.touches(x));
        }
        if overlap(system.writes, stage.writes) {
            let x = choose|x: usize| system.writes.contains(x) && stage.writes.contains(x);
            assert(stage.touches(x));
        }
        if overlap(system.reads, stage.writes) {
            let x = choose|x: usize| system.reads.contains(x) && stage.writes.contains(x);
            assert(system.touches(x));
        }
    }
    joins
}

/// A system conflicts with a stage as a whole exactly when it conflicts with
/// one of its members.
pub(crate) proof fn lemma_stage_conflict(
    system: Access,
    members: Seq<usize>,
    reads: Seq<Seq<usize>>,
    writes: Seq<Seq<usize>>,
)
    ensures
        conflict(
            system,
            Access { reads: gather(members, reads), writes: gather(members, writes) },
        ) <==> exists|p: int|
            0 <= p < members.len() && conflict(
                system,
                Access {
                    reads: reads[#[trigger] members[p] as int],
                    writes: writes[members[p] as int],
                },
            ),
{
    let stage = Access { reads: gather(members, reads), writes: gather(members, writes) };
    let member = |p: int|
        Access { reads: reads[members[p] as int], writes: writes[members[p] as int] };
    if writes_into(system, stage) {
        let x = choose|x: usize| system.writes.contains(x) && stage.touches(x);
        lemma_gather_contains(members, reads, x);
        lemma_gather_contains(members, writes, x);
        if stage.reads.contains(x) {
            let p = choose|p: int|
                0 <= p < members.len() && (#[trigger] reads[members[p] as int]).contains(x);
            assert(member(p).touches(x));
            assert(writes_into(system, member(p)));
            assert(conflict(
                system,
                Access { reads: reads[members[p] as int], writes: writes[members[p] as int] },
            ));
        } else {
            let p = choose|p: int|
                0 <= p < members.len() && (#[trigger] writes[members[p] as int]).contains(x);
            assert(member(p).touches(x));
            assert(writes_into(system, member(p)));
            assert(conflict(
                system,
                Access { reads: reads[members[p] as int], writes: writes[members[p] as int] },
            ));
        }
    }
    if writes_into(stage, system) {
        let x = choose|x: usize| stage.writes.contains(x) && system.touches(x);
        lemma_gather_contains(members, writes, x);
        let p = choose|p: int|
            0 <= p < members.len() && (#[trigger] writes[members[p] as int]).contains(x);
        assert(writes_into(member(p), system));
        assert(conflict(
            system,
            Access { reads: reads[members[p] as int], writes: writes[members[p] as int] },
        ));
    }
    if exists|p: int|
        0 <= p < members.len() && conflict(
            system,
            Access { reads: reads[#[trigger] members[p] as int], writes: writes[members[p] as int] },
        ) {
        let p = choose|p: int|
            0 <= p < members.len() && conflict(
                system,
                Access {
                    reads: reads[#[trigger] members[p] as int],
                    writes: writes[members[p] as int],
                },
            );
        let m = member(p);
        if writes_into(system, m) {
            let x = choose|x: usize| system.writes.contains(x) && m.touches(x);
            lemma_gather_contains(members, reads, x);
            lemma_gather_contains(members, writes, x);
            if m.reads.contains(x) {
                assert(reads[members[p] as int].contains(x));
            } else {
                assert(writes[members[p] as int].contains(x));
            }
            assert(stage.touches(x));
            assert(writes_into(system, stage));
        } else {
            let x = choose|x: usize| m.writes.contains(x) && system.touches(x);
            lemma_gather_contains(members, writes, x);
            assert(writes[members[p] as int].contains(x));
            assert(writes_into(stage, system));
        }
    }
}

/// A stage that is not in use has no members.
pub(crate) proof fn lemma_unused_stage(placed: Seq<nat>, k: nat)
    requires
        placed.len() <= usize::MAX,
        k >= stages_used(placed),
    ensures
        members_of(placed, k) == Seq::<usize>::empty(),
{
    lemma_members(placed, k);
    lemma_stages_used(placed);
    if members_of(placed, k).len() > 0 {
        let e = members_of(placed, k)[0];
        assert(placed[e as int] == k);
    }
    assert(members_of(placed, k) =~= Seq::<usize>::empty());
}

/// The number of systems in the stages below `k`.
pub open spec fn placed_below(placed: Seq<nat>, k: nat) -> nat
    decreases k,
{
    if k == 0 {
        0
    } else {
        placed_below(placed, (k - 1) as nat) + members_of(placed, (k - 1) as nat).len()
    }
}

proof fn lemma_placed_below_step(placed: Seq<nat>, k: nat)
    requires
        placed.len() > 0,
    ensures
        placed_below(placed, k) == placed_below(placed.drop_last(), k) + if placed.last() < k {
            1nat
        } else {
            0nat
        },
    decreases k,
{
    if k > 0 {
        lemma_placed_below_step(placed, (k - 1) as nat);
    }
}

proof fn lemma_placed_below_all(placed: Seq<nat>, k: nat)
    requires
        k >= stages_used(placed),
    ensures
        placed_below(placed, k) == placed.len(),
    decreases placed.len(), k,
{
    if placed.len() == 0 {
        if k > 0 {
            lemma_placed_below_all(placed, (k - 1) as nat);
        }
    } else {
        lemma_placed_below_step(placed, k);
        lemma_placed_below_all(placed.drop_last(), k);
    }
}

proof fn lemma_systems_in_staged(placed: Seq<nat>, k: nat)
    requires
        k <= stages_used(placed),
    ensures
        systems_in(staged(placed), k as int) == placed_below(placed, k),
    decreases k,
{
    if k > 0 {
        lemma_systems_in_staged(placed, (k - 1) as nat);
    }
}

/// The plan that earliest fit gives is sound and holds every system once,
/// where every declared resource has a slot and no system reads what it
/// writes.
pub proof fn lemma_planned(reads: Seq<Seq<usize>>, writes: Seq<Seq<usize>>, resources: nat)
    requires
        reads.len() == writes.len(),
        reads.len() <= usize::MAX,
        forall|s: int|
            0 <= s < reads.len() ==> {
                &&& all_below(#[trigger] reads[s], resources as int)
                &&& all_below(writes[s], resources as int)
                &&& (Access { reads: reads[s], writes: writes[s] }).disjoint()
            },
    ensures
        plan_from(
            staged(
                assign(
                    Seq::new(reads.len(), |i: int| Access { reads: reads[i], writes: writes[i] }),
                    reads.len(),
                ),
            ),
            reads,
            writes,
        ).wf(resources),
{
    let n = reads.len();
    let decls = Seq::new(n, |i: int| Access { reads: reads[i], writes: writes[i] });
    let placed = assign(decls, n);
    let plan = plan_from(staged(placed), reads, writes);
    lemma_assign_is_earliest_fit(decls, n);
    lemma_stages_used(placed);
    assert forall|k: int| 0 <= k < plan.stage_count() implies {
        &&& all_below(#[trigger] plan.stages[k], plan.system_count() as int)
        &&& plan.stage_reads[k] == gather(plan.stages[k], plan.system_reads)
        &&& plan.stage_writes[k] == gather(plan.stages[k], plan.system_writes)
    } by {
        lemma_members(placed, k as nat);
    }
    assert forall|k: int, p: int, q: int|
        0 <= k < plan.stage_count() && 0 <= p < plan.stages[k].len() && 0 <= q
            < plan.stages[k].len() && p != q implies !conflict(
        plan.system(#[trigger] plan.stages[k][p] as int),
        plan.system(#[trigger] plan.stages[k][q] as int),
    ) by {
        lemma_members(placed, k as nat);
        let a = plan.stages[k][p] as int;
        let b = plan.stages[k][q] as int;
        if p < q {
            assert(plan.stages[k][p] < plan.stages[k][q]);
        } else {
            assert(plan.stages[k][q] < plan.stages[k][p]);
        }
        lemma_stage_mates_agree(decls, placed, a, b);
        assert(plan.system(a) == decls[a]);
        assert(plan.system(b) == decls[b]);
    }
    assert forall|s: int| 0 <= s < plan.system_count() implies {
        &&& all_below(#[trigger] plan.system_reads[s], resources as int)
        &&& all_below(plan.system_writes[s], resources as int)
        &&& plan.system(s).disjoint()
    } by {
        assert(all_below(reads[s], resources as int));
    }
    assert forall|k: int, p: int, l: int, q: int|
        0 <= k < plan.stage_count() && 0 <= p < plan.stages[k].len() && 0 <= l
            < plan.stage_count() && 0 <= q < plan.stages[l].len() && (k != l || p
            != q) implies #[trigger] plan.stages[k][p] != #[trigger] plan.stages[l][q] by {
        lemma_members(placed, k as nat);
        lemma_members(placed, l as nat);
        if k == l {
            if p < q {
                assert(plan.stages[k][p] < plan.stages[k][q]);
            } else {
                assert(plan.stages[k][q] < plan.stages[k][p]);
            }
        }
    }
    lemma_systems_in_staged(placed, stages_used(placed));
    lemma_placed_below_all(placed, stages_used(placed));
}

/// Appends the items of `from` to `into`.
fn append_ids(into: &mut Vec<ResourceId>, from: &Vec<ResourceId>)
    ensures
        final(into)@ == old(into)@ + from@,
{
    let mut i: usize = 0;
    while i < from.len()
        invariant
            i <= from.len(),
            into@ == old(into)@ + from@.take(i as int),
        decreases from.len() - i,
    {
        into.push(from[i]);
        assert(from@.take(i + 1) =~= from@.take(i as int).push(from@[i as int]));
        i += 1;
    }
    assert(from@.take(from@.len() as int) =~= from@);
}

/// Plans the stages: the systems are taken in registration order, and each
/// goes into the first stage whose systems it does not conflict with, or
/// into a new last stage.
pub fn plan_stages(reads: &Vec<Vec<ResourceId>>, writes: &Vec<Vec<ResourceId>>) -> (stages: Vec<
    Vec<usize>,
>)
    requires
        reads@.len() == writes@.len(),
    ensures
        views(stages@) == staged(assign(decls_of(reads@, writes@), reads@.len())),
{
    let ghost decls = decls_of(reads@, writes@);
    let ghost all_reads = declared(reads@);
    let ghost all_writes = declared(writes@);
    let n = reads.len();
    let mut stages: Vec<Vec<usize>> = Vec::new();
    let mut stage_reads: Vec<Vec<ResourceId>> = Vec::new();
    let mut stage_writes: Vec<Vec<ResourceId>> = Vec::new();
    let ghost mut placed: Seq<nat> = Seq::empty();
    let mut i: usize = 0;
    while i < n
        invariant
            i <= n == reads@.len() == writes@.len(),
            decls == decls_of(reads@, writes@),
            all_reads == declared(reads@),
            all_writes == declared(writes@),
            placed == assign(decls, i as nat),
            placed.len() == i,
            stages@.len() == stages_used(placed),
            stage_reads@.len() == stages@.len(),
            stage_writes@.len() == stages@.len(),
            forall|k: int|
                0 <= k < stages@.len() ==> {
                    &&& (#[trigger] stages@[k])@ == members_of(placed, k as nat)
                    &&& indices(stage_reads@[k]@) == gather(stages@[k]@, all_reads)
                    &&& indices(stage_writes@[k]@) == gather(stages@[k]@, all_writes)
                },
        decreases n - i,
    {
        let mut k: usize = 0;
        let mut found = false;
        while k < stages.len() && !found
            invariant
                i < n == reads@.len() == writes@.len(),
                decls == decls_of(reads@, writes@),
                all_reads == declared(reads@),
                all_writes == declared(writes@),
                placed.len() == i,
                k <= stages@.len() == stages_used(placed),
                stage_reads@.len() == stages@.len(),
                stage_writes@.len() == stages@.len(),
                forall|l: int|
                    0 <= l < stages@.len() ==> {
                        &&& (#[trigger] stages@[l])@ == members_of(placed, l as nat)
                        &&& indices(stage_reads@[l]@) == gather(stages@[l]@, all_reads)
                        &&& indices(stage_writes@[l]@) == gather(stages@[l]@, all_writes)
                    },
                forall|l: nat| l < k ==> !fits(decls, placed, l),
                found ==> k < stages@.len() && fits(decls, placed, k as nat),
            decreases stages@.len() - k + if found { 0int } else { 1int },
        {
            let joins = compatible(&reads[i], &writes[i], &stage_reads[k], &stage_writes[k]);
            proof {
                let members = stages@[k as int]@;
                assert(members == members_of(placed, k as nat));
                lemma_members(placed, k as nat);
                lemma_stage_conflict(decls[i as int], members, all_reads, all_writes);
                if joins {
                    assert forall|j: int| 0 <= j < placed.len() && placed[j] == k implies !conflict(
                        decls[placed.len() as int],
                        #[trigger] decls[j],
                    ) by {
                        assert(members.contains(j as usize));
                        let p = choose|p: int| 0 <= p < members.len() && members[p] == j as usize;
                        assert(decls[j] == Access {
                            reads: all_reads[members[p] as int],
                            writes: all_writes[members[p] as int],
                        });
                    }
                } else {
                    let p = choose|p: int|
                        0 <= p < members.len() && conflict(
                            decls[i as int],
                            Access {
                                reads: all_reads[#[trigger] members[p] as int],
                                writes: all_writes[members[p] as int],
                            },
                        );
                    let j = members[p] as int;
                    assert(placed[j] == k);
                    assert(decls[j] == Access { reads: all_reads[j], writes: all_writes[j] });
                    assert(!fits(decls, placed, k as nat));
                }
            }
            if joins {
                found = true;
            } else {
                k += 1;
            }
        }
        proof {
            lemma_assign_bound(decls, i as nat);
            lemma_stages_used(placed);
            lemma_first_fit_from(decls, placed, 0, k as nat);
            if !found {
                assert(fits(decls, placed, k as nat) || k >= placed.len());
            }
            assert(first_fit(decls, placed, 0) == k);
            if !found {
                lemma_unused_stage(placed, k as nat);
            }
        }
        if !found {
            stages.push(Vec::new());
            stage_reads.push(Vec::new());
            stage_writes.push(Vec::new());
            proof {
                assert(indices(Seq::<ResourceId>::empty()) =~= Seq::<usize>::empty());
            }
        }
        let ghost before = stages@;
        let ghost before_reads = stage_reads@;
        let ghost before_writes = stage_writes@;
        assert forall|l: int| 0 <= l < before.len() implies {
            &&& (#[trigger] before[l])@ == members_of(placed, l as nat)
            &&& indices(before_reads[l]@) == gather(before[l]@, all_reads)
            &&& indices(before_writes[l]@) == gather(before[l]@, all_writes)
        } by {
            if !found && l == k {
                assert(before[l]@ =~= Seq::<usize>::empty());
                assert(indices(before_reads[l]@) =~= Seq::<usize>::empty());
                assert(indices(before_writes[l]@) =~= Seq::<usize>::empty());
            }
        }
        stages[k].push(i);
        append_ids(&mut stage_reads[k], &reads[i]);
        append_ids(&mut stage_writes[k], &writes[i]);
        proof {
            let next = placed.push(k as nat);
            assert(next.drop_last() =~= placed);
            assert(stages@.len() == before.len());
            assert(stage_reads@.len() == before.len());
            assert(stage_writes@.len() == before.len());
            assert(stages@[k as int]@ == before[k as int]@.push(i));
            assert(stage_reads@[k as int]@ == before_reads[k as int]@ + reads@[i as int]@);
            assert(stages@.len() == stages_used(next));
            assert forall|l: int| 0 <= l < stages@.len() implies {
                &&& (#[trigger] stages@[l])@ == members_of(next, l as nat)
                &&& indices(stage_reads@[l]@) == gather(stages@[l]@, all_reads)
                &&& indices(stage_writes@[l]@) == gather(stages@[l]@, all_writes)
            } by {
                if l == k {
                    let members = before[l]@;
                    assert(stages@[l]@ == members.push(i));
                    assert(members.push(i).drop_last() =~= members);
                    assert(members_of(next, l as nat) == members_of(placed, l as nat).push(
                        i as usize,
                    ));
                    assert(gather(members.push(i), all_reads) == gather(members, all_reads)
                        + all_reads[i as int]);
                    assert(gather(members.push(i), all_writes) == gather(members, all_writes)
                        + all_writes[i as int]);
                    assert(indices(stage_reads@[l]@) =~= indices(before_reads[l]@) + indices(
                        reads@[i as int]@,
                    ));
                    assert(indices(stage_writes@[l]@) =~= indices(before_writes[l]@) + indices(
                        writes@[i as int]@,
                    ));
                } else {
                    assert(stages@[l] == before[l]);
                    assert(stage_reads@[l] == before_reads[l]);
                    assert(stage_writes@[l] == before_writes[l]);
                }
            }
            placed = next;
        }
        i += 1;
    }
    assert(views(stages@) =~= staged(placed));
    stages
}

} // verus!
