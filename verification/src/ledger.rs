//! The borrow ledger: which resources are held right now, and in what mode.
//!
//! A resource is held either by any number of readers or by one writer. The
//! ledger is a count of readers for each resource and a set of the resources
//! that a writer holds.
use crate::id_list::{id_list_items, IdList};
use crate::id_set::{id_set_members, IdSet};
use vstd::prelude::*;

verus! {

/// How often `r` occurs in `s`.
pub open spec fn occurrences(s: Seq<usize>, r: usize) -> nat
    decreases s.len(),
{
    if s.len() == 0 {
        0
    } else {
        occurrences(s.drop_last(), r) + if s.last() == r {
            1nat
        } else {
            0nat
        }
    }
}

/// Every item of `s` is below `bound`.
pub open spec fn all_below(s: Seq<usize>, bound: int) -> bool {
    forall|i: int| 0 <= i < s.len() ==> s[i] < bound
}

/// No resource is both read-held and write-held.
pub open spec fn exclusive(reads_held: Seq<usize>, writes_held: Set<usize>) -> bool {
    forall|r: usize| r < reads_held.len() && writes_held.contains(r) ==> reads_held[r as int] == 0
}

/// Nothing is held.
pub open spec fn empty_ledger(reads_held: Seq<usize>, writes_held: Set<usize>) -> bool {
    &&& forall|r: usize| r < reads_held.len() ==> reads_held[r as int] == 0
    &&& forall|r: usize| !writes_held.contains(r)
}

/// A task that reads `reads` and writes `writes` cannot start while the
/// ledger is as given: a writer holds one of its resources, a reader holds
/// one that it writes, or a reader count has no room left for its reads.
pub open spec fn blocked(
    reads: Seq<usize>,
    writes: Seq<usize>,
    reads_held: Seq<usize>,
    writes_held: Set<usize>,
) -> bool {
    ||| exists|i: int| 0 <= i < reads.len() && writes_held.contains(#[trigger] reads[i])
    ||| exists|i: int| 0 <= i < writes.len() && writes_held.contains(#[trigger] writes[i])
    ||| exists|i: int| 0 <= i < writes.len() && reads_held[#[trigger] writes[i] as int] > 0
    ||| exists|i: int|
        0 <= i < reads.len() && reads_held[#[trigger] reads[i] as int] + reads.len() > usize::MAX
}

/// `after` is `before` with every read of `reads` counted in.
pub open spec fn counted_in(before: Seq<usize>, after: Seq<usize>, reads: Seq<usize>) -> bool {
    &&& after.len() == before.len()
    &&& forall|r: usize|
        #![trigger after[r as int]]
        #![trigger occurrences(reads, r)]
        r < before.len() ==> after[r as int] == before[r as int] + occurrences(reads, r)
}

pub(crate) proof fn lemma_occurrences_bound(s: Seq<usize>, r: usize)
    ensures
        occurrences(s, r) <= s.len(),
        occurrences(s, r) > 0 <==> s.contains(r),
    decreases s.len(),
{
    if s.len() > 0 {
        lemma_occurrences_bound(s.drop_last(), r);
        if s.contains(r) {
            let i = choose|i: int| 0 <= i < s.len() && s[i] == r;
            if i < s.len() - 1 {
                assert(s.drop_last()[i] == r);
            }
        }
        if s.drop_last().contains(r) {
            let i = choose|i: int| 0 <= i < s.drop_last().len() && s.drop_last()[i] == r;
            assert(s[i] == r);
        }
        if s.last() == r {
            assert(s[s.len() - 1] == r);
        }
    }
}

pub(crate) proof fn lemma_occurrences_prefix(s: Seq<usize>, n: int, r: usize)
    requires
        0 <= n < s.len(),
    ensures
        occurrences(s.take(n + 1), r) == occurrences(s.take(n), r) + if s[n] == r {
            1nat
        } else {
            0nat
        },
{
    assert(s.take(n + 1).drop_last() =~= s.take(n));
}

pub(crate) proof fn lemma_occurrences_concat(a: Seq<usize>, b: Seq<usize>, r: usize)
    ensures
        occurrences(a + b, r) == occurrences(a, r) + occurrences(b, r),
    decreases b.len(),
{
    if b.len() == 0 {
        assert(a + b =~= a);
    } else {
        lemma_occurrences_concat(a, b.drop_last(), r);
        assert((a + b).drop_last() =~= a + b.drop_last());
    }
}

pub(crate) proof fn lemma_occurrences_take(s: Seq<usize>, n: int, r: usize)
    requires
        0 <= n <= s.len(),
    ensures
        occurrences(s.take(n), r) <= occurrences(s, r),
{
    lemma_occurrences_concat(s.take(n), s.skip(n), r);
    assert(s.take(n) + s.skip(n) =~= s);
}

/// Puts every item of `list` into `set`.
pub(crate) fn insert_each(set: &mut IdSet, list: &IdList)
    requires
        all_below(id_list_items(*list), usize::MAX as int),
    ensures
        id_set_members(*final(set)) == id_set_members(*old(set)).union(
            id_list_items(*list).to_set(),
        ),
{
    let ghost items = id_list_items(*list);
    let ghost set0 = id_set_members(*set);
    let n = list.len();
    let mut i: usize = 0;
    while i < n
        invariant
            i <= n == items.len(),
            items == id_list_items(*list),
            all_below(items, usize::MAX as int),
            id_set_members(*set) == set0.union(items.take(i as int).to_set()),
        decreases n - i,
    {
        let item = list.get(i);
        set.insert(item);
        proof {
            assert(items.take(i + 1) =~= items.take(i as int).push(item));
            assert(items.take(i + 1).to_set() =~= items.take(i as int).to_set().insert(item)) by {
                broadcast use vstd::seq_lib::group_seq_properties;
            }
        }
        i += 1;
    }
    assert(items.take(items.len() as int) =~= items);
}

/// Takes every item of `list` out of `set`.
pub(crate) fn remove_each(set: &mut IdSet, list: &IdList)
    ensures
        id_set_members(*final(set)) == id_set_members(*old(set)).difference(
            id_list_items(*list).to_set(),
        ),
{
    let ghost items = id_list_items(*list);
    let ghost set0 = id_set_members(*set);
    let n = list.len();
    let mut i: usize = 0;
    while i < n
        invariant
            i <= n == items.len(),
            items == id_list_items(*list),
            id_set_members(*set) == set0.difference(items.take(i as int).to_set()),
        decreases n - i,
    {
        let item = list.get(i);
        set.remove(item);
        proof {
            assert(items.take(i + 1) =~= items.take(i as int).push(item));
            assert(items.take(i + 1).to_set() =~= items.take(i as int).to_set().insert(item)) by {
                broadcast use vstd::seq_lib::group_seq_properties;
            }
        }
        i += 1;
    }
    assert(items.take(items.len() as int) =~= items);
}

/// Attempts to acquire the resources of a task. Either the task is
/// `blocked` and the ledger stays as it was, or each read is counted and each
/// write enters the set of held writes.
pub(crate) fn try_obtain_resources(
    reads: &IdList,
    writes: &IdList,
    reads_held: &mut Vec<usize>,
    writes_held: &mut IdSet,
) -> (outcome: Result<(), ()>)
    requires
        all_below(id_list_items(*reads), old(reads_held)@.len() as int),
        all_below(id_list_items(*writes), old(reads_held)@.len() as int),
    ensures
        outcome is Err <==> blocked(
            id_list_items(*reads),
            id_list_items(*writes),
            old(reads_held)@,
            id_set_members(*old(writes_held)),
        ),
        outcome is Err ==> final(reads_held)@ == old(reads_held)@ && id_set_members(
            *final(writes_held),
        ) == id_set_members(*old(writes_held)),
        outcome is Ok ==> counted_in(old(reads_held)@, final(reads_held)@, id_list_items(*reads)),
        outcome is Ok ==> id_set_members(*final(writes_held)) == id_set_members(
            *old(writes_held),
        ).union(id_list_items(*writes).to_set()),
{
    let ghost rs = id_list_items(*reads);
    let ghost ws = id_list_items(*writes);
    let ghost held0 = reads_held@;
    let ghost set0 = id_set_members(*writes_held);
    let n_reads = reads.len();
    let n_writes = writes.len();
    let n_resources = reads_held.len();

    let mut i: usize = 0;
    while i < n_reads
        invariant
            i <= n_reads == rs.len(),
            rs == id_list_items(*reads),
            set0 == id_set_members(*writes_held),
            forall|j: int| 0 <= j < i ==> !set0.contains(#[trigger] rs[j]),
        decreases n_reads - i,
    {
        if writes_held.contains(reads.get(i)) {
            return Err(());
        }
        i += 1;
    }
    let mut i: usize = 0;
    while i < n_writes
        invariant
            i <= n_writes == ws.len(),
            ws == id_list_items(*writes),
            set0 == id_set_members(*writes_held),
            held0 == reads_held@,
            all_below(ws, held0.len() as int),
            forall|j: int| 0 <= j < i ==> !set0.contains(#[trigger] ws[j]),
            forall|j: int| 0 <= j < i ==> held0[#[trigger] ws[j] as int] == 0,
        decreases n_writes - i,
    {
        let w = writes.get(i);
        if writes_held.contains(w) {
            return Err(());
        }
        if reads_held[w] > 0 {
            return Err(());
        }
        i += 1;
    }
    let mut i: usize = 0;
    while i < n_reads
        invariant
            i <= n_reads == rs.len(),
            rs == id_list_items(*reads),
            held0 == reads_held@,
            all_below(rs, held0.len() as int),
            forall|j: int| 0 <= j < i ==> held0[#[trigger] rs[j] as int] + rs.len() <= usize::MAX,
        decreases n_reads - i,
    {
        if reads_held[reads.get(i)] > usize::MAX - n_reads {
            return Err(());
        }
        i += 1;
    }
    assert(!blocked(rs, ws, held0, set0));

    let mut i: usize = 0;
    while i < n_reads
        invariant
            i <= n_reads == rs.len(),
            rs == id_list_items(*reads),
            reads_held@.len() == held0.len(),
            all_below(rs, held0.len() as int),
            forall|j: int| 0 <= j < rs.len() ==> held0[#[trigger] rs[j] as int] + rs.len() <= usize::MAX,
            counted_in(held0, reads_held@, rs.take(i as int)),
        decreases n_reads - i,
    {
        let r = reads.get(i);
        proof {
            lemma_occurrences_bound(rs.take(i as int), r);
            assert forall|q: usize| q < held0.len() implies #[trigger] occurrences(
                rs.take(i + 1),
                q,
            ) == occurrences(rs.take(i as int), q) + if q == r {
                1nat
            } else {
                0nat
            } by {
                lemma_occurrences_prefix(rs, i as int, q);
            }
        }
        let c = reads_held[r];
        reads_held.set(r, c + 1);
        i += 1;
    }
    assert(rs.take(rs.len() as int) =~= rs);

    insert_each(writes_held, writes);
    Ok(())
}

/// Gives back the resources of a task that has finished: each of its reads
/// is counted out and each of its writes leaves the set of held writes.
pub(crate) fn release_resources(
    reads: &IdList,
    writes: &IdList,
    reads_held: &mut Vec<usize>,
    writes_held: &mut IdSet,
)
    requires
        all_below(id_list_items(*reads), old(reads_held)@.len() as int),
        forall|r: usize|
            r < old(reads_held)@.len() ==> #[trigger] occurrences(id_list_items(*reads), r) <= old(
                reads_held,
            )@[r as int],
    ensures
        counted_in(final(reads_held)@, old(reads_held)@, id_list_items(*reads)),
        id_set_members(*final(writes_held)) == id_set_members(*old(writes_held)).difference(
            id_list_items(*writes).to_set(),
        ),
{
    let ghost rs = id_list_items(*reads);
    let ghost ws = id_list_items(*writes);
    let ghost held0 = reads_held@;
    let ghost set0 = id_set_members(*writes_held);
    let n_reads = reads.len();
    let n_writes = writes.len();

    let mut i: usize = 0;
    while i < n_reads
        invariant
            i <= n_reads == rs.len(),
            rs == id_list_items(*reads),
            all_below(rs, held0.len() as int),
            forall|r: usize| r < held0.len() ==> #[trigger] occurrences(rs, r) <= held0[r as int],
            counted_in(reads_held@, held0, rs.take(i as int)),
        decreases n_reads - i,
    {
        let r = reads.get(i);
        proof {
            lemma_occurrences_take(rs, i + 1, r);
            assert forall|q: usize| q < held0.len() implies #[trigger] occurrences(
                rs.take(i + 1),
                q,
            ) == occurrences(rs.take(i as int), q) + if q == r {
                1nat
            } else {
                0nat
            } by {
                lemma_occurrences_prefix(rs, i as int, q);
            }
        }
        let c = reads_held[r];
        reads_held.set(r, c - 1);
        i += 1;
    }
    assert(rs.take(rs.len() as int) =~= rs);

    remove_each(writes_held, writes);
}

} // verus!
