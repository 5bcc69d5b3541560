//! The mathematical model of the cache tree: a forest of branches, one
//! sequence of branches per level, ordered by value.

use vstd::prelude::*;
use crate::heap::offer;
use crate::value::precedes;

verus! {

/// One entry of a level: a value, the time it was last seen, and for an
/// interior entry the level below it.
pub struct Branch {
    pub value: Seq<u8>,
    pub last_seen: i64,
    pub child: Option<Seq<Branch>>,
}

/// The values of a level come in strictly ascending order.
pub open spec fn ascending(t: Seq<Branch>) -> bool {
    forall|i: int, j: int| 0 <= i < j < t.len() ==> precedes(#[trigger] t[i].value, #[trigger] t[j].value)
}

/// A tree of exactly `depth` levels whose every level is in ascending order.
/// Entries of the last level are leaves, all others are interior.
pub open spec fn well_formed(t: Seq<Branch>, depth: nat) -> bool
    decreases depth,
{
    &&& depth >= 1
    &&& ascending(t)
    &&& forall|i: int|
        0 <= i < t.len() ==> match (#[trigger] t[i]).child {
            None => depth == 1,
            Some(c) => depth > 1 && well_formed(c, (depth - 1) as nat),
        }
}

/// The number of leaves below one entry.
pub open spec fn branch_leaves(b: Branch) -> nat
    decreases b,
{
    match b.child {
        None => 1,
        Some(c) => leaf_count(c),
    }
}

/// The number of leaves of a tree.
pub open spec fn leaf_count(t: Seq<Branch>) -> nat
    decreases t,
{
    if t.len() == 0 {
        0
    } else {
        leaf_count(t.drop_last()) + branch_leaves(t.last())
    }
}

/// The leaves of two runs of entries add up.
pub proof fn lemma_leaf_count_concat(a: Seq<Branch>, b: Seq<Branch>)
    ensures
        leaf_count(a + b) == leaf_count(a) + leaf_count(b),
    decreases b.len(),
{
    if b.len() == 0 {
        assert(a + b =~= a);
    } else {
        assert((a + b).drop_last() =~= a + b.drop_last());
        assert((a + b).last() == b.last());
        lemma_leaf_count_concat(a, b.drop_last());
    }
}

/// The leaves of a single entry are those below it.
pub proof fn lemma_leaf_count_one(b: Branch)
    ensures
        leaf_count(seq![b]) == branch_leaves(b),
{
    assert(seq![b].drop_last() =~= Seq::<Branch>::empty());
    assert(leaf_count(Seq::<Branch>::empty()) == 0);
}

/// The leaves of the first `i + 1` entries are those of the first `i` and
/// those below entry `i`.
pub proof fn lemma_leaf_count_step(t: Seq<Branch>, i: int)
    requires
        0 <= i < t.len(),
    ensures
        leaf_count(t.subrange(0, i + 1)) == leaf_count(t.subrange(0, i)) + branch_leaves(t[i]),
        leaf_count(t.subrange(0, i + 1)) <= leaf_count(t),
{
    assert(t.subrange(0, i + 1).drop_last() =~= t.subrange(0, i));
    assert(t =~= t.subrange(0, i + 1) + t.subrange(i + 1, t.len() as int));
    lemma_leaf_count_concat(t.subrange(0, i + 1), t.subrange(i + 1, t.len() as int));
}


/// The first index from `i` on whose value does not come before `v`, or the
/// length of `t` where there is none.
pub open spec fn slot_from(t: Seq<Branch>, v: Seq<u8>, i: int) -> int
    decreases t.len() - i,
{
    if i < 0 || i >= t.len() || !precedes(t[i].value, v) {
        i
    } else {
        slot_from(t, v, i + 1)
    }
}

/// Where `v` stands in the level `t`, or where it would be put.
pub open spec fn slot(t: Seq<Branch>, v: Seq<u8>) -> int {
    slot_from(t, v, 0)
}

/// Whether the level `t` has an entry for `v`.
pub open spec fn holds(t: Seq<Branch>, v: Seq<u8>) -> bool {
    0 <= slot(t, v) < t.len() && t[slot(t, v)].value == v
}

/// Whether the values of `tuple` from position `k` on are a path of `t`.
pub open spec fn has_path_from(t: Seq<Branch>, tuple: Seq<Seq<u8>>, k: int) -> bool
    decreases tuple.len() - k,
{
    if k < 0 || k >= tuple.len() {
        true
    } else {
        holds(t, tuple[k]) && match t[slot(t, tuple[k])].child {
            None => true,
            Some(c) => has_path_from(c, tuple, k + 1),
        }
    }
}

/// Whether `tuple` is a path of `t`.
pub open spec fn has_path(t: Seq<Branch>, tuple: Seq<Seq<u8>>) -> bool {
    has_path_from(t, tuple, 0)
}

/// The tree after the values of `tuple` from position `k` on were seen at
/// `time`: every entry on the path is created where it is missing, in its
/// place in the order, and carries `time`.
pub open spec fn inserted_from(t: Seq<Branch>, tuple: Seq<Seq<u8>>, k: int, time: i64) -> Seq<Branch>
    decreases tuple.len() - k,
{
    if k < 0 || k >= tuple.len() {
        t
    } else {
        let v = tuple[k];
        let i = slot(t, v);
        if holds(t, v) {
            t.update(
                i,
                Branch {
                    value: v,
                    last_seen: time,
                    child: match t[i].child {
                        Some(c) => Some(inserted_from(c, tuple, k + 1, time)),
                        None => None,
                    },
                },
            )
        } else {
            t.insert(
                i,
                Branch {
                    value: v,
                    last_seen: time,
                    child: if k + 1 < tuple.len() {
                        Some(inserted_from(Seq::empty(), tuple, k + 1, time))
                    } else {
                        None
                    },
                },
            )
        }
    }
}

/// The tree after `tuple` was seen at `time`.
pub open spec fn inserted(t: Seq<Branch>, tuple: Seq<Seq<u8>>, time: i64) -> Seq<Branch> {
    inserted_from(t, tuple, 0, time)
}

/// What is left of one entry when all that was last seen at `time` or
/// before is removed: nothing, or the entry with its child pruned.
pub open spec fn pruned_branch(b: Branch, time: i64) -> Option<Branch>
    decreases b,
{
    match b.child {
        None => if b.last_seen > time {
            Some(b)
        } else {
            None
        },
        Some(c) => {
            let below = pruned(c, time);
            if b.last_seen > time || below.len() > 0 {
                Some(Branch { value: b.value, last_seen: b.last_seen, child: Some(below) })
            } else {
                None
            }
        },
    }
}

/// The tree without what was last seen at `time` or before.
pub open spec fn pruned(t: Seq<Branch>, time: i64) -> Seq<Branch>
    decreases t,
{
    if t.len() == 0 {
        t
    } else {
        match pruned_branch(t.last(), time) {
            Some(b) => pruned(t.drop_last(), time).push(b),
            None => pruned(t.drop_last(), time),
        }
    }
}

/// Pruning the first `i + 1` entries prunes the first `i` and then entry `i`.
pub proof fn lemma_pruned_step(t: Seq<Branch>, i: int, time: i64)
    requires
        0 <= i < t.len(),
    ensures
        pruned(t.subrange(0, i + 1), time) == match pruned_branch(t[i], time) {
            Some(b) => pruned(t.subrange(0, i), time).push(b),
            None => pruned(t.subrange(0, i), time),
        },
{
    assert(t.subrange(0, i + 1).drop_last() =~= t.subrange(0, i));
}


/// A condition on the values of one level: membership in a set, or the
/// absence from it.
pub struct Filter {
    pub negated: bool,
    pub values: Set<Seq<u8>>,
}

/// Whether `v` passes the filter; where there is no filter, every value does.
pub open spec fn admits(f: Option<Filter>, v: Seq<u8>) -> bool {
    match f {
        None => true,
        Some(f) => f.negated != f.values.contains(v),
    }
}

/// Whether an entry is read: it was seen after `expired` and passes the filter.
pub open spec fn is_candidate(b: Branch, expired: i64, f: Option<Filter>) -> bool {
    b.last_seen > expired && admits(f, b.value)
}

/// The entries of a level that are read, in the order of the level.
pub open spec fn candidates(t: Seq<Branch>, expired: i64, f: Option<Filter>) -> Seq<Branch>
    decreases t.len(),
{
    if t.len() == 0 {
        t
    } else if is_candidate(t.last(), expired, f) {
        candidates(t.drop_last(), expired, f).push(t.last())
    } else {
        candidates(t.drop_last(), expired, f)
    }
}

/// Each row with `v` put in front of it.
pub open spec fn prefixed(v: Seq<u8>, rows: Seq<Seq<Seq<u8>>>) -> Seq<Seq<Seq<u8>>> {
    rows.map_values(|r: Seq<Seq<u8>>| seq![v] + r)
}

/// The rows that one entry picked at level `k` gives: one for a leaf, and
/// for an interior entry its value in front of each row from below.
pub open spec fn branch_rows(b: Branch, expired: i64, filters: Seq<Option<Filter>>, k: int) -> Seq<Seq<Seq<u8>>>
    decreases filters.len() - k, 0int, 1int,
{
    match b.child {
        None => seq![seq![b.value]],
        Some(below) => if 0 <= k && k + 1 < filters.len() {
            prefixed(b.value, walk(candidates(below, expired, filters[k + 1]), expired, filters, k + 1))
        } else {
            Seq::empty()
        },
    }
}

/// The rows that the entries `c`, picked at level `k`, give, in their order.
pub open spec fn walk(c: Seq<Branch>, expired: i64, filters: Seq<Option<Filter>>, k: int) -> Seq<Seq<Seq<u8>>>
    decreases filters.len() - k, c.len(), 0int,
{
    if c.len() == 0 {
        Seq::empty()
    } else {
        walk(c.drop_last(), expired, filters, k) + branch_rows(c.last(), expired, filters, k)
    }
}

/// The rows read from the tree `t` that stands at level `k`: one per path
/// to a leaf on which every entry was seen after `expired` and passes the
/// filter of its level, in ascending order.
pub open spec fn rows_from(t: Seq<Branch>, expired: i64, filters: Seq<Option<Filter>>, k: int) -> Seq<Seq<Seq<u8>>> {
    if 0 <= k < filters.len() {
        walk(candidates(t, expired, filters[k]), expired, filters, k)
    } else {
        Seq::empty()
    }
}

/// The rows read from a whole tree.
pub open spec fn rows(t: Seq<Branch>, expired: i64, filters: Seq<Option<Filter>>) -> Seq<Seq<Seq<u8>>> {
    rows_from(t, expired, filters, 0)
}

/// The values at position `d` of the rows; the empty string for a row
/// that is shorter.
pub open spec fn column(rows: Seq<Seq<Seq<u8>>>, d: int) -> Seq<Seq<u8>> {
    rows.map_values(
        |r: Seq<Seq<u8>>|
            if 0 <= d < r.len() {
                r[d]
            } else {
                Seq::empty()
            },
    )
}

/// Reading the first `i + 1` entries reads the first `i` and then entry `i`.
pub proof fn lemma_candidates_step(t: Seq<Branch>, i: int, expired: i64, f: Option<Filter>)
    requires
        0 <= i < t.len(),
    ensures
        candidates(t.subrange(0, i + 1), expired, f) == if is_candidate(t[i], expired, f) {
            candidates(t.subrange(0, i), expired, f).push(t[i])
        } else {
            candidates(t.subrange(0, i), expired, f)
        },
{
    assert(t.subrange(0, i + 1).drop_last() =~= t.subrange(0, i));
}

/// The rows of the first `i + 1` entries are those of the first `i` and those
/// of entry `i`.
pub proof fn lemma_walk_step(c: Seq<Branch>, i: int, expired: i64, filters: Seq<Option<Filter>>, k: int)
    requires
        0 <= i < c.len(),
    ensures
        walk(c.subrange(0, i + 1), expired, filters, k) == walk(c.subrange(0, i), expired, filters, k)
            + branch_rows(c[i], expired, filters, k),
{
    assert(c.subrange(0, i + 1).drop_last() =~= c.subrange(0, i));
}

/// The entries picked from a well-formed level have well-formed children.
pub proof fn lemma_candidates_well_formed(t: Seq<Branch>, expired: i64, f: Option<Filter>, depth: nat)
    requires
        well_formed(t, depth),
    ensures
        forall|k: int|
            0 <= k < candidates(t, expired, f).len() ==> match (#[trigger] candidates(t, expired, f)[k]).child {
                None => depth == 1,
                Some(c) => depth > 1 && well_formed(c, (depth - 1) as nat),
            },
    decreases t.len(),
{
    if t.len() > 0 {
        let head = t.drop_last();
        assert forall|i: int| 0 <= i < head.len() implies match (#[trigger] head[i]).child {
            None => depth == 1,
            Some(c) => depth > 1 && well_formed(c, (depth - 1) as nat),
        } by {
            assert(head[i] == t[i]);
        }
        assert forall|i: int, j: int| 0 <= i < j < head.len() implies precedes(
            #[trigger] head[i].value,
            #[trigger] head[j].value,
        ) by {
            assert(head[i] == t[i] && head[j] == t[j]);
        }
        lemma_candidates_well_formed(head, expired, f, depth);
        assert(t.last() == t[t.len() - 1]);
    }
}


/// The times kept after every leaf of one entry was offered, in order.
pub open spec fn oldest_branch(b: Branch, n: nat, h: Seq<i64>) -> Seq<i64>
    decreases b,
{
    match b.child {
        None => offer(h, n, b.last_seen),
        Some(c) => oldest(c, n, h),
    }
}

/// The times kept after every leaf of `t` was offered to `h`, in the order
/// of the tree, where at most `n` times are kept: interior entries offer
/// nothing of their own.
pub open spec fn oldest(t: Seq<Branch>, n: nat, h: Seq<i64>) -> Seq<i64>
    decreases t,
{
    if t.len() == 0 {
        h
    } else {
        oldest_branch(t.last(), n, oldest(t.drop_last(), n, h))
    }
}

/// Offering the first `i + 1` entries offers the first `i` and then entry `i`.
pub proof fn lemma_oldest_step(t: Seq<Branch>, i: int, n: nat, h: Seq<i64>)
    requires
        0 <= i < t.len(),
    ensures
        oldest(t.subrange(0, i + 1), n, h) == oldest_branch(t[i], n, oldest(t.subrange(0, i), n, h)),
{
    assert(t.subrange(0, i + 1).drop_last() =~= t.subrange(0, i));
}

} // verus!
