//! What insertion and pruning keep true of a tree.

use vstd::prelude::*;
use crate::heap::{count_at_most, lemma_count_all, lemma_offer, offer, sorted};
use crate::tree::{
    ascending, branch_leaves, has_path_from, holds, inserted, inserted_from, leaf_count, lemma_leaf_count_concat,
    lemma_leaf_count_one, oldest, oldest_branch, pruned, pruned_branch, slot, slot_from, well_formed, Branch,
};
use crate::value::{lemma_precedes_connected, lemma_precedes_irreflexive, lemma_precedes_transitive, precedes};

verus! {

/// The slot of `v` lies within the level, and every entry before it comes
/// before `v`, while the entry at the slot does not.
pub proof fn lemma_slot_from(t: Seq<Branch>, v: Seq<u8>, i: int)
    requires
        0 <= i <= t.len(),
    ensures
        i <= slot_from(t, v, i) <= t.len(),
        forall|j: int| i <= j < slot_from(t, v, i) ==> precedes(t[j].value, v),
        slot_from(t, v, i) < t.len() ==> !precedes(t[slot_from(t, v, i)].value, v),
    decreases t.len() - i,
{
    if i < t.len() && precedes(t[i].value, v) {
        lemma_slot_from(t, v, i + 1);
    }
}

/// An index before which every entry comes before `v`, and at which none
/// does, is the slot of `v`.
pub proof fn lemma_slot_is(t: Seq<Branch>, v: Seq<u8>, k: int, i: int)
    requires
        0 <= k <= i <= t.len(),
        forall|j: int| 0 <= j < i ==> precedes(#[trigger] t[j].value, v),
        i < t.len() ==> !precedes(t[i].value, v),
    ensures
        slot_from(t, v, k) == i,
    decreases i - k,
{
    if k < i {
        assert(precedes(t[k].value, v));
        lemma_slot_is(t, v, k + 1, i);
    }
}

/// The slot of `v` depends only on the values of the entries.
pub proof fn lemma_slot_from_same_values(t: Seq<Branch>, u: Seq<Branch>, v: Seq<u8>, i: int)
    requires
        0 <= i,
        t.len() == u.len(),
        forall|j: int| 0 <= j < t.len() ==> t[j].value == u[j].value,
    ensures
        slot_from(t, v, i) == slot_from(u, v, i),
    decreases t.len() - i,
{
    if i < t.len() && precedes(t[i].value, v) {
        lemma_slot_from_same_values(t, u, v, i + 1);
    }
}

/// After an entry for `v` was put at the slot of `v`, that is still its slot.
pub proof fn lemma_slot_from_after_insert(t: Seq<Branch>, b: Branch, i: int)
    requires
        0 <= i <= slot(t, b.value) <= t.len(),
        forall|j: int| 0 <= j < slot(t, b.value) ==> precedes(t[j].value, b.value),
    ensures
        slot_from(t.insert(slot(t, b.value), b), b.value, i) == slot(t, b.value),
    decreases slot(t, b.value) - i,
{
    let p = slot(t, b.value);
    let u = t.insert(p, b);
    if i < p {
        assert(u[i] == t[i]);
        lemma_slot_from_after_insert(t, b, i + 1);
    } else {
        assert(u[p] == b);
        lemma_precedes_irreflexive(b.value);
    }
}

/// Replacing an entry changes the number of leaves by those below it.
pub proof fn lemma_leaf_count_update(t: Seq<Branch>, i: int, b: Branch)
    requires
        0 <= i < t.len(),
    ensures
        leaf_count(t.update(i, b)) + branch_leaves(t[i]) == leaf_count(t) + branch_leaves(b),
{
    let head = t.subrange(0, i);
    let tail = t.subrange(i + 1, t.len() as int);
    assert(t =~= head + seq![t[i]] + tail);
    assert(t.update(i, b) =~= head + seq![b] + tail);
    lemma_leaf_count_concat(head + seq![t[i]], tail);
    lemma_leaf_count_concat(head, seq![t[i]]);
    lemma_leaf_count_concat(head + seq![b], tail);
    lemma_leaf_count_concat(head, seq![b]);
    lemma_leaf_count_one(t[i]);
    lemma_leaf_count_one(b);
}

/// Putting an entry in adds the leaves below it.
pub proof fn lemma_leaf_count_insert(t: Seq<Branch>, i: int, b: Branch)
    requires
        0 <= i <= t.len(),
    ensures
        leaf_count(t.insert(i, b)) == leaf_count(t) + branch_leaves(b),
{
    let head = t.subrange(0, i);
    let tail = t.subrange(i, t.len() as int);
    assert(t =~= head + tail);
    assert(t.insert(i, b) =~= head + seq![b] + tail);
    lemma_leaf_count_concat(head, tail);
    lemma_leaf_count_concat(head + seq![b], tail);
    lemma_leaf_count_concat(head, seq![b]);
    lemma_leaf_count_one(b);
}

/// An insertion adds one leaf where the tuple was no path of the tree, and
/// none where it was.
pub proof fn lemma_inserted_leaf_count(t: Seq<Branch>, tuple: Seq<Seq<u8>>, k: int, time: i64)
    requires
        0 <= k,
    ensures
        leaf_count(inserted_from(t, tuple, k, time)) == leaf_count(t) + if has_path_from(t, tuple, k) {
            0nat
        } else {
            1nat
        },
    decreases tuple.len() - k,
{
    if k < tuple.len() {
        let v = tuple[k];
        let i = slot(t, v);
        lemma_slot_from(t, v, 0);
        if holds(t, v) {
            let b = inserted_from(t, tuple, k, time)[i];
            match t[i].child {
                Some(c) => {
                    lemma_inserted_leaf_count(c, tuple, k + 1, time);
                },
                None => {},
            }
            lemma_leaf_count_update(t, i, b);
        } else {
            let b = inserted_from(t, tuple, k, time)[i];
            if k + 1 < tuple.len() {
                let none = Seq::<Branch>::empty();
                lemma_inserted_leaf_count(none, tuple, k + 1, time);
                assert(!holds(none, tuple[k + 1]));
                assert(!has_path_from(none, tuple, k + 1));
                assert(leaf_count(none) == 0);
            }
            lemma_leaf_count_insert(t, i, b);
        }
    }
}

/// An insertion into a tree of as many levels as the tuple has values
/// leaves every level in ascending order and the number of levels as it was.
pub proof fn lemma_inserted_well_formed(t: Seq<Branch>, tuple: Seq<Seq<u8>>, k: int, time: i64)
    requires
        0 <= k < tuple.len(),
        well_formed(t, (tuple.len() - k) as nat),
    ensures
        well_formed(inserted_from(t, tuple, k, time), (tuple.len() - k) as nat),
    decreases tuple.len() - k,
{
    let depth = (tuple.len() - k) as nat;
    let v = tuple[k];
    let i = slot(t, v);
    let r = inserted_from(t, tuple, k, time);
    lemma_slot_from(t, v, 0);
    if holds(t, v) {
        match t[i].child {
            Some(c) => {
                if k + 1 < tuple.len() {
                    lemma_inserted_well_formed(c, tuple, k + 1, time);
                } else {
                    assert(inserted_from(c, tuple, k + 1, time) == c);
                }
            },
            None => {},
        }
        assert forall|a: int, b: int| 0 <= a < b < r.len() implies precedes(
            #[trigger] r[a].value,
            #[trigger] r[b].value,
        ) by {
            assert(r[a].value == t[a].value && r[b].value == t[b].value);
        }
        assert forall|a: int| 0 <= a < r.len() implies match (#[trigger] r[a]).child {
            None => depth == 1,
            Some(c) => depth > 1 && well_formed(c, (depth - 1) as nat),
        } by {
            if a != i {
                assert(r[a] == t[a]);
            } else {
                assert(t[i].child is Some <==> r[i].child is Some);
            }
        }
    } else {
        if k + 1 < tuple.len() {
            let none = Seq::<Branch>::empty();
            assert(well_formed(none, (depth - 1) as nat));
            lemma_inserted_well_formed(none, tuple, k + 1, time);
        }
        if i < t.len() && !precedes(v, t[i].value) {
            lemma_precedes_connected(t[i].value, v);
        }
        assert forall|a: int, b: int| 0 <= a < b < r.len() implies precedes(
            #[trigger] r[a].value,
            #[trigger] r[b].value,
        ) by {
            if b == i {
            } else if a == i {
                if b - 1 > i {
                    assert(precedes(t[i].value, t[b - 1].value));
                    lemma_precedes_transitive(v, t[i].value, t[b - 1].value);
                }
            } else {
                let a0 = if a < i { a } else { a - 1 };
                let b0 = if b < i { b } else { b - 1 };
                assert(precedes(t[a0].value, t[b0].value));
            }
        }
        assert forall|a: int| 0 <= a < r.len() implies match (#[trigger] r[a]).child {
            None => depth == 1,
            Some(c) => depth > 1 && well_formed(c, (depth - 1) as nat),
        } by {
            if a < i {
                assert(r[a] == t[a]);
            } else if a > i {
                assert(r[a] == t[a - 1]);
            }
        }
    }
}

/// Every value of the level comes before `v`.
pub open spec fn bounded_by(t: Seq<Branch>, v: Seq<u8>) -> bool {
    forall|i: int| 0 <= i < t.len() ==> precedes(#[trigger] t[i].value, v)
}

/// Pruning keeps every value before `v` where all were.
pub proof fn lemma_pruned_bounded(t: Seq<Branch>, time: i64, v: Seq<u8>)
    requires
        bounded_by(t, v),
    ensures
        bounded_by(pruned(t, time), v),
    decreases t.len(),
{
    if t.len() > 0 {
        let head = t.drop_last();
        assert forall|i: int| 0 <= i < head.len() implies precedes(#[trigger] head[i].value, v) by {
            assert(head[i] == t[i]);
        }
        lemma_pruned_bounded(head, time, v);
        assert(precedes(t[t.len() - 1].value, v));
        let kept = pruned(head, time);
        let r = pruned(t, time);
        match pruned_branch(t.last(), time) {
            Some(b) => {
                assert(b.value == t.last().value);
                assert forall|i: int| 0 <= i < r.len() implies precedes(#[trigger] r[i].value, v) by {
                    if i < kept.len() {
                        assert(r[i] == kept[i]);
                    }
                }
            },
            None => {},
        }
    }
}

/// Pruning leaves every level in ascending order and the number of levels
/// as it was.
pub proof fn lemma_pruned_well_formed(t: Seq<Branch>, time: i64, depth: nat)
    requires
        well_formed(t, depth),
    ensures
        well_formed(pruned(t, time), depth),
    decreases t,
{
    if t.len() > 0 {
        let head = t.drop_last();
        let last = t.last();
        assert(last == t[t.len() - 1]);
        assert forall|i: int| 0 <= i < head.len() implies (#[trigger] head[i]) == t[i] by {}
        assert(well_formed(head, depth)) by {
            assert forall|i: int, j: int| 0 <= i < j < head.len() implies precedes(
                #[trigger] head[i].value,
                #[trigger] head[j].value,
            ) by {
                assert(precedes(t[i].value, t[j].value));
            }
            assert forall|i: int| 0 <= i < head.len() implies match (#[trigger] head[i]).child {
                None => depth == 1,
                Some(c) => depth > 1 && well_formed(c, (depth - 1) as nat),
            } by {
                assert(head[i] == t[i]);
            }
        }
        assert(bounded_by(head, last.value)) by {
            assert forall|i: int| 0 <= i < head.len() implies precedes(#[trigger] head[i].value, last.value) by {
                assert(precedes(t[i].value, t[t.len() - 1].value));
            }
        }
        lemma_pruned_well_formed(head, time, depth);
        lemma_pruned_bounded(head, time, last.value);
        match last.child {
            Some(c) => {
                lemma_pruned_well_formed(c, time, (depth - 1) as nat);
            },
            None => {},
        }
        let kept = pruned(head, time);
        let r = pruned(t, time);
        match pruned_branch(last, time) {
            Some(b) => {
                assert(r == kept.push(b));
                assert forall|i: int, j: int| 0 <= i < j < r.len() implies precedes(
                    #[trigger] r[i].value,
                    #[trigger] r[j].value,
                ) by {
                    if j < kept.len() {
                        assert(precedes(kept[i].value, kept[j].value));
                    } else {
                        assert(precedes(kept[i].value, last.value));
                    }
                }
                assert forall|i: int| 0 <= i < r.len() implies match (#[trigger] r[i]).child {
                    None => depth == 1,
                    Some(c) => depth > 1 && well_formed(c, (depth - 1) as nat),
                } by {
                    if i < kept.len() {
                        assert(r[i] == kept[i]);
                    }
                }
            },
            None => {},
        }
    }
}

/// The number of leaves below one entry that were seen after `time`.
pub open spec fn branch_leaves_after(b: Branch, time: i64) -> nat
    decreases b,
{
    match b.child {
        None => if b.last_seen > time {
            1
        } else {
            0
        },
        Some(c) => leaves_after(c, time),
    }
}

/// The number of leaves of a tree that were seen after `time`.
pub open spec fn leaves_after(t: Seq<Branch>, time: i64) -> nat
    decreases t,
{
    if t.len() == 0 {
        0
    } else {
        leaves_after(t.drop_last(), time) + branch_leaves_after(t.last(), time)
    }
}

/// Every leaf of the tree was seen after `time`.
pub open spec fn leaves_all_after(t: Seq<Branch>, time: i64) -> bool
    decreases t,
{
    forall|i: int|
        0 <= i < t.len() ==> match (#[trigger] t[i]).child {
            None => t[i].last_seen > time,
            Some(c) => leaves_all_after(c, time),
        }
}

/// Pruning keeps exactly the leaves that were seen after the given time.
pub proof fn lemma_pruned_leaf_count(t: Seq<Branch>, time: i64)
    ensures
        leaf_count(pruned(t, time)) == leaves_after(t, time),
        leaves_after(t, time) <= leaf_count(t),
    decreases t,
{
    if t.len() > 0 {
        let head = t.drop_last();
        let last = t.last();
        lemma_pruned_leaf_count(head, time);
        match last.child {
            Some(c) => {
                lemma_pruned_leaf_count(c, time);
                if pruned(c, time).len() == 0 {
                    assert(leaf_count(pruned(c, time)) == 0);
                }
            },
            None => {},
        }
        match pruned_branch(last, time) {
            Some(b) => {
                assert(pruned(head, time).push(b).drop_last() =~= pruned(head, time));
                assert(pruned(t, time) == pruned(head, time).push(b));
                assert(leaf_count(pruned(t, time)) == leaf_count(pruned(head, time)) + branch_leaves(b));
                assert(branch_leaves(b) == branch_leaves_after(last, time));
            },
            None => {
                assert(pruned(t, time) == pruned(head, time));
                assert(branch_leaves_after(last, time) == 0);
            },
        }
        assert(branch_leaves_after(last, time) <= branch_leaves(last));
    }
}

/// After pruning no leaf is left that was last seen at the given time or
/// before; and what held of all leaves for a time `bound` still holds.
pub proof fn lemma_pruned_leaves_all_after(t: Seq<Branch>, time: i64, bound: i64)
    requires
        bound == time || leaves_all_after(t, bound),
    ensures
        leaves_all_after(pruned(t, time), bound),
    decreases t,
{
    if t.len() > 0 {
        let head = t.drop_last();
        let last = t.last();
        assert(last == t[t.len() - 1]);
        if bound != time {
            assert forall|i: int| 0 <= i < head.len() implies match (#[trigger] head[i]).child {
                None => head[i].last_seen > bound,
                Some(c) => leaves_all_after(c, bound),
            } by {
                assert(head[i] == t[i]);
            }
        }
        lemma_pruned_leaves_all_after(head, time, bound);
        match last.child {
            Some(c) => {
                lemma_pruned_leaves_all_after(c, time, bound);
            },
            None => {},
        }
        let kept = pruned(head, time);
        let r = pruned(t, time);
        match pruned_branch(last, time) {
            Some(b) => {
                assert forall|i: int| 0 <= i < r.len() implies match (#[trigger] r[i]).child {
                    None => r[i].last_seen > bound,
                    Some(c) => leaves_all_after(c, bound),
                } by {
                    if i < kept.len() {
                        assert(r[i] == kept[i]);
                    }
                }
            },
            None => {},
        }
    }
}

/// Offering the leaves of a tree keeps the times ascending and at most `n`
/// of them, as many as there is room and leaves for; and for any time `c`,
/// each kept time that is `c` or before is one held at the start or that of
/// a leaf seen at `c` or before.
pub proof fn lemma_oldest(t: Seq<Branch>, n: nat, h: Seq<i64>, c: i64)
    requires
        sorted(h),
        h.len() <= n,
    ensures
        sorted(oldest(t, n, h)),
        oldest(t, n, h).len() == if h.len() + leaf_count(t) <= n {
            h.len() + leaf_count(t)
        } else {
            n
        },
        leaves_after(t, c) <= leaf_count(t),
        count_at_most(oldest(t, n, h), c) + leaves_after(t, c) <= count_at_most(h, c) + leaf_count(t),
    decreases t,
{
    if t.len() > 0 {
        let head = t.drop_last();
        let last = t.last();
        lemma_oldest(head, n, h, c);
        let mid = oldest(head, n, h);
        assert(oldest(t, n, h) == oldest_branch(last, n, mid));
        assert(leaves_after(t, c) == leaves_after(head, c) + branch_leaves_after(last, c));
        assert(leaf_count(t) == leaf_count(head) + branch_leaves(last));
        match last.child {
            Some(below) => {
                lemma_oldest(below, n, mid, c);
                assert(oldest(t, n, h) == oldest(below, n, mid));
                assert(branch_leaves(last) == leaf_count(below));
                assert(branch_leaves_after(last, c) == leaves_after(below, c));
            },
            None => {
                lemma_offer(mid, n, last.last_seen, c);
                assert(oldest(t, n, h) == offer(mid, n, last.last_seen));
                assert(branch_leaves(last) == 1);
                assert(branch_leaves_after(last, c) == if last.last_seen > c {
                    1nat
                } else {
                    0nat
                });
            },
        }
    }
}

/// Pruning at the newest of the `n` oldest leaf times removes at least `n`
/// leaves, where the tree has that many.
pub proof fn lemma_prune_oldest_removes(t: Seq<Branch>, n: nat)
    requires
        1 <= n <= leaf_count(t),
    ensures
        oldest(t, n, Seq::empty()).len() == n,
        leaf_count(pruned(t, oldest(t, n, Seq::empty()).last())) + n <= leaf_count(t),
{
    let none = Seq::<i64>::empty();
    let kept = oldest(t, n, none);
    lemma_oldest(t, n, none, 0);
    let cutoff = kept.last();
    lemma_oldest(t, n, none, cutoff);
    assert forall|i: int| 0 <= i < kept.len() implies kept[i] <= cutoff by {
        assert(kept[i] <= kept[kept.len() - 1]);
    }
    lemma_count_all(kept, cutoff);
    assert(count_at_most(none, cutoff) == 0);
    lemma_pruned_leaf_count(t, cutoff);
}

/// Whether the values of `tuple` from position `k` on are a path of `t`
/// on which every entry was last seen at `time`.
pub open spec fn path_seen_at(t: Seq<Branch>, tuple: Seq<Seq<u8>>, k: int, time: i64) -> bool
    decreases tuple.len() - k,
{
    if k < 0 || k >= tuple.len() {
        true
    } else {
        &&& holds(t, tuple[k])
        &&& t[slot(t, tuple[k])].last_seen == time
        &&& match t[slot(t, tuple[k])].child {
            None => true,
            Some(c) => path_seen_at(c, tuple, k + 1, time),
        }
    }
}

/// After an insertion the tuple is a path of the tree, and every entry on
/// it carries the time of the insertion.
pub proof fn lemma_inserted_path(t: Seq<Branch>, tuple: Seq<Seq<u8>>, k: int, time: i64)
    requires
        0 <= k,
    ensures
        path_seen_at(inserted_from(t, tuple, k, time), tuple, k, time),
        has_path_from(inserted_from(t, tuple, k, time), tuple, k),
    decreases tuple.len() - k,
{
    if k < tuple.len() {
        let v = tuple[k];
        let i = slot(t, v);
        let r = inserted_from(t, tuple, k, time);
        lemma_slot_from(t, v, 0);
        if holds(t, v) {
            lemma_slot_from_same_values(t, r, v, 0);
            match t[i].child {
                Some(c) => {
                    lemma_inserted_path(c, tuple, k + 1, time);
                },
                None => {},
            }
        } else {
            lemma_slot_from_after_insert(t, r[i], 0);
            assert(r == t.insert(i, r[i]));
            if k + 1 < tuple.len() {
                lemma_inserted_path(Seq::<Branch>::empty(), tuple, k + 1, time);
            }
        }
        assert(slot(r, v) == i);
        assert(r[i].value == v);
    }
}

/// Inserting the same tuple a second time, no earlier than the first,
/// leaves the number of leaves as it was and sets every entry on the path
/// of the tuple to the second time.
pub proof fn lemma_insert_twice(t: Seq<Branch>, tuple: Seq<Seq<u8>>, first: i64, second: i64)
    requires
        first <= second,
    ensures
        leaf_count(inserted(inserted(t, tuple, first), tuple, second)) == leaf_count(
            inserted(t, tuple, first),
        ),
        path_seen_at(inserted(inserted(t, tuple, first), tuple, second), tuple, 0, second),
{
    let once = inserted(t, tuple, first);
    lemma_inserted_path(t, tuple, 0, first);
    lemma_inserted_leaf_count(once, tuple, 0, second);
    lemma_inserted_path(once, tuple, 0, second);
}

/// The latest time at which a leaf of the tree was seen; the least time
/// there is for a tree without leaves.
pub open spec fn newest_leaf(t: Seq<Branch>) -> int
    decreases t,
{
    if t.len() == 0 {
        i64::MIN as int
    } else {
        let rest = newest_leaf(t.drop_last());
        let last = match t.last().child {
            None => t.last().last_seen as int,
            Some(c) => newest_leaf(c),
        };
        if rest >= last {
            rest
        } else {
            last
        }
    }
}

/// The latest time at which a leaf below one entry was seen.
pub open spec fn branch_newest(b: Branch) -> int {
    match b.child {
        None => b.last_seen as int,
        Some(c) => newest_leaf(c),
    }
}

/// Every interior entry has a leaf below it and was last seen when the
/// newest of the leaves below it was.
pub open spec fn max_kept(t: Seq<Branch>) -> bool
    decreases t,
{
    forall|i: int|
        0 <= i < t.len() ==> match (#[trigger] t[i]).child {
            None => true,
            Some(c) => leaf_count(c) > 0 && t[i].last_seen == newest_leaf(c) && max_kept(c),
        }
}

/// No tree has a newest leaf before the least time.
pub proof fn lemma_newest_leaf_least(t: Seq<Branch>)
    ensures
        newest_leaf(t) >= i64::MIN,
    decreases t,
{
    if t.len() > 0 {
        lemma_newest_leaf_least(t.drop_last());
    }
}

/// The newest leaf of two runs of entries is the newer of their newest.
pub proof fn lemma_newest_leaf_concat(a: Seq<Branch>, b: Seq<Branch>)
    ensures
        newest_leaf(a + b) == if newest_leaf(a) >= newest_leaf(b) {
            newest_leaf(a)
        } else {
            newest_leaf(b)
        },
    decreases b.len(),
{
    lemma_newest_leaf_least(a);
    if b.len() == 0 {
        assert(a + b =~= a);
    } else {
        assert((a + b).drop_last() =~= a + b.drop_last());
        assert((a + b).last() == b.last());
        lemma_newest_leaf_concat(a, b.drop_last());
    }
}

/// The newest leaf of a single entry is the newest below it.
pub proof fn lemma_newest_leaf_one(b: Branch)
    ensures
        newest_leaf(seq![b]) == branch_newest(b),
{
    assert(seq![b].drop_last() =~= Seq::<Branch>::empty());
    assert(newest_leaf(Seq::<Branch>::empty()) == i64::MIN);
    match b.child {
        Some(c) => {
            lemma_newest_leaf_least(c);
        },
        None => {},
    }
}

/// The newest leaf of a tree in which entry `i` is replaced or put in.
pub proof fn lemma_newest_leaf_split(t: Seq<Branch>, i: int, b: Branch)
    requires
        0 <= i <= t.len(),
    ensures
        i < t.len() ==> branch_newest(t[i]) <= newest_leaf(t),
        i < t.len() && branch_newest(b) >= newest_leaf(t) ==> newest_leaf(t.update(i, b)) == branch_newest(b),
        branch_newest(b) >= newest_leaf(t) ==> newest_leaf(t.insert(i, b)) == branch_newest(b),
{
    let head = t.subrange(0, i);
    if i < t.len() {
        let tail = t.subrange(i + 1, t.len() as int);
        assert(t =~= head + seq![t[i]] + tail);
        assert(t.update(i, b) =~= head + seq![b] + tail);
        lemma_newest_leaf_concat(head + seq![t[i]], tail);
        lemma_newest_leaf_concat(head, seq![t[i]]);
        lemma_newest_leaf_concat(head + seq![b], tail);
        lemma_newest_leaf_concat(head, seq![b]);
        lemma_newest_leaf_one(t[i]);
    }
    let rest = t.subrange(i, t.len() as int);
    assert(t =~= head + rest);
    assert(t.insert(i, b) =~= head + seq![b] + rest);
    lemma_newest_leaf_concat(head, rest);
    lemma_newest_leaf_concat(head + seq![b], rest);
    lemma_newest_leaf_concat(head, seq![b]);
    lemma_newest_leaf_one(b);
}

/// Where every interior entry carries the time of the newest leaf below
/// it, it still does after an insertion at a time that is no earlier than
/// any leaf of the tree; and that time is then the newest of the tree.
pub proof fn lemma_inserted_max_kept(t: Seq<Branch>, tuple: Seq<Seq<u8>>, k: int, time: i64)
    requires
        0 <= k < tuple.len(),
        well_formed(t, (tuple.len() - k) as nat),
        max_kept(t),
        time >= newest_leaf(t),
    ensures
        max_kept(inserted_from(t, tuple, k, time)),
        newest_leaf(inserted_from(t, tuple, k, time)) == time,
        leaf_count(inserted_from(t, tuple, k, time)) > 0,
    decreases tuple.len() - k,
{
    let v = tuple[k];
    let i = slot(t, v);
    let r = inserted_from(t, tuple, k, time);
    lemma_slot_from(t, v, 0);
    lemma_inserted_leaf_count(t, tuple, k, time);
    lemma_inserted_path(t, tuple, k, time);
    if holds(t, v) {
        lemma_newest_leaf_split(t, i, r[i]);
        match t[i].child {
            Some(c) => {
                lemma_inserted_max_kept(c, tuple, k + 1, time);
            },
            None => {},
        }
        assert(branch_newest(r[i]) == time);
        assert(r == t.update(i, r[i]));
        assert forall|a: int| 0 <= a < r.len() implies match (#[trigger] r[a]).child {
            None => true,
            Some(c) => leaf_count(c) > 0 && r[a].last_seen == newest_leaf(c) && max_kept(c),
        } by {
            if a != i {
                assert(r[a] == t[a]);
            }
        }
        lemma_leaf_count_update(t, i, r[i]);
        lemma_leaf_count_at_least(t, i);
    } else {
        if k + 1 < tuple.len() {
            let none = Seq::<Branch>::empty();
            assert(well_formed(none, (tuple.len() - k - 1) as nat));
            assert(max_kept(none));
            lemma_inserted_max_kept(none, tuple, k + 1, time);
        }
        assert(r == t.insert(i, r[i]));
        assert(branch_newest(r[i]) == time);
        lemma_newest_leaf_split(t, i, r[i]);
        assert forall|a: int| 0 <= a < r.len() implies match (#[trigger] r[a]).child {
            None => true,
            Some(c) => leaf_count(c) > 0 && r[a].last_seen == newest_leaf(c) && max_kept(c),
        } by {
            if a < i {
                assert(r[a] == t[a]);
            } else if a > i {
                assert(r[a] == t[a - 1]);
            }
        }
        lemma_leaf_count_insert(t, i, r[i]);
    }
}

/// A tree has at least the leaves below any one of its entries.
pub proof fn lemma_leaf_count_at_least(t: Seq<Branch>, i: int)
    requires
        0 <= i < t.len(),
    ensures
        leaf_count(t) >= branch_leaves(t[i]),
{
    lemma_leaf_count_update(t, i, t[i]);
    let head = t.subrange(0, i);
    let tail = t.subrange(i + 1, t.len() as int);
    assert(t =~= head + seq![t[i]] + tail);
    lemma_leaf_count_concat(head + seq![t[i]], tail);
    lemma_leaf_count_concat(head, seq![t[i]]);
    lemma_leaf_count_one(t[i]);
}

/// The newest leaf of a pruned tree is that of the tree, where that was
/// seen after the given time; else the pruned tree has no leaf.
pub proof fn lemma_pruned_newest_leaf(t: Seq<Branch>, time: i64)
    ensures
        newest_leaf(pruned(t, time)) == if newest_leaf(t) > time {
            newest_leaf(t)
        } else {
            i64::MIN as int
        },
        newest_leaf(t) > time ==> leaves_after(t, time) > 0,
    decreases t,
{
    if t.len() > 0 {
        let head = t.drop_last();
        let last = t.last();
        lemma_pruned_newest_leaf(head, time);
        lemma_newest_leaf_least(head);
        lemma_newest_leaf_least(pruned(head, time));
        match last.child {
            Some(c) => {
                lemma_pruned_newest_leaf(c, time);
                lemma_newest_leaf_least(c);
                if pruned(c, time).len() == 0 {
                    assert(newest_leaf(pruned(c, time)) == i64::MIN);
                }
            },
            None => {},
        }
        match pruned_branch(last, time) {
            Some(b) => {
                assert(pruned(t, time) == pruned(head, time).push(b));
                assert(pruned(head, time).push(b).drop_last() =~= pruned(head, time));
                assert(pruned(head, time).push(b).last() == b);
            },
            None => {
                assert(pruned(t, time) == pruned(head, time));
            },
        }
        assert(leaves_after(t, time) == leaves_after(head, time) + branch_leaves_after(last, time));
    }
}

/// Where every interior entry carries the time of the newest leaf below
/// it, pruning at a time that no leaf was seen after leaves nothing.
pub proof fn lemma_pruned_all(t: Seq<Branch>, time: i64)
    requires
        max_kept(t),
        newest_leaf(t) <= time,
    ensures
        pruned(t, time).len() == 0,
    decreases t,
{
    if t.len() > 0 {
        let head = t.drop_last();
        let last = t.last();
        assert(last == t[t.len() - 1]);
        assert forall|i: int| 0 <= i < head.len() implies match (#[trigger] head[i]).child {
            None => true,
            Some(c) => leaf_count(c) > 0 && head[i].last_seen == newest_leaf(c) && max_kept(c),
        } by {
            assert(head[i] == t[i]);
        }
        lemma_newest_leaf_least(head);
        lemma_pruned_all(head, time);
        match last.child {
            Some(c) => {
                lemma_pruned_all(c, time);
            },
            None => {},
        }
        assert(pruned_branch(last, time).is_none());
    }
}

/// Where every interior entry carries the time of the newest leaf below
/// it, it still does after pruning.
pub proof fn lemma_pruned_max_kept(t: Seq<Branch>, time: i64)
    requires
        max_kept(t),
    ensures
        max_kept(pruned(t, time)),
    decreases t,
{
    if t.len() > 0 {
        let head = t.drop_last();
        let last = t.last();
        assert(last == t[t.len() - 1]);
        assert forall|i: int| 0 <= i < head.len() implies match (#[trigger] head[i]).child {
            None => true,
            Some(c) => leaf_count(c) > 0 && head[i].last_seen == newest_leaf(c) && max_kept(c),
        } by {
            assert(head[i] == t[i]);
        }
        lemma_pruned_max_kept(head, time);
        let kept = pruned(head, time);
        let r = pruned(t, time);
        match last.child {
            Some(c) => {
                lemma_pruned_max_kept(c, time);
                lemma_pruned_newest_leaf(c, time);
                lemma_pruned_leaf_count(c, time);
                if last.last_seen <= time {
                    lemma_pruned_all(c, time);
                }
            },
            None => {},
        }
        match pruned_branch(last, time) {
            Some(b) => {
                assert(r == kept.push(b));
                assert forall|i: int| 0 <= i < r.len() implies match (#[trigger] r[i]).child {
                    None => true,
                    Some(c) => leaf_count(c) > 0 && r[i].last_seen == newest_leaf(c) && max_kept(c),
                } by {
                    if i < kept.len() {
                        assert(r[i] == kept[i]);
                    }
                }
            },
            None => {},
        }
    }
}

} // verus!
