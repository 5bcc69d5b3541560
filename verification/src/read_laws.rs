//! What holds of the rows read from a tree.

use vstd::prelude::*;
use crate::laws::{lemma_slot_from, lemma_slot_is};
use crate::tree::{
    admits, ascending, branch_rows, candidates, holds, is_candidate, prefixed, rows, rows_from, slot, walk,
    Branch, Filter,
};
use crate::value::{lemma_precedes_irreflexive, lemma_precedes_transitive, precedes};

verus! {

/// Whether `r` follows a path of the tree `t`, which stands at level `k`,
/// from one of its entries down to a leaf, on which every entry was seen
/// after `expired` and passes the filter of its level.
pub open spec fn live_path(t: Seq<Branch>, expired: i64, filters: Seq<Option<Filter>>, k: int, r: Seq<Seq<u8>>) -> bool
    decreases filters.len() - k, 1int,
{
    &&& 0 <= k < filters.len()
    &&& r.len() >= 1
    &&& exists|i: int| 0 <= i < t.len() && live_step(#[trigger] t[i], expired, filters, k, r)
}

/// Whether `r` starts with the value of the entry `b` of level `k`, which
/// is read, and goes on below it as a live path, or ends where `b` is a leaf.
pub open spec fn live_step(b: Branch, expired: i64, filters: Seq<Option<Filter>>, k: int, r: Seq<Seq<u8>>) -> bool
    decreases filters.len() - k, 0int,
{
    &&& 0 <= k < filters.len()
    &&& r.len() >= 1
    &&& b.value == r[0]
    &&& is_candidate(b, expired, filters[k])
    &&& match b.child {
        None => r.len() == 1,
        Some(c) => k + 1 < filters.len() && live_path(c, expired, filters, k + 1, r.skip(1)),
    }
}

/// Whatever the first filters admit, the second admit too, level by level.
pub open spec fn narrower(first: Seq<Option<Filter>>, second: Seq<Option<Filter>>) -> bool {
    &&& first.len() == second.len()
    &&& forall|k: int, v: Seq<u8>| 0 <= k < first.len() && admits(first[k], v) ==> admits(second[k], v)
}

/// The entries read are the entries of the level that are candidates.
pub proof fn lemma_candidates_member(t: Seq<Branch>, expired: i64, f: Option<Filter>, b: Branch)
    ensures
        candidates(t, expired, f).contains(b) <==> t.contains(b) && is_candidate(b, expired, f),
    decreases t.len(),
{
    let c = candidates(t, expired, f);
    if t.len() > 0 {
        let head = t.drop_last();
        let last = t.last();
        let ch = candidates(head, expired, f);
        lemma_candidates_member(head, expired, f, b);
        if c.contains(b) {
            let i = choose|i: int| 0 <= i < c.len() && c[i] == b;
            if is_candidate(last, expired, f) && i == ch.len() {
                assert(t[t.len() - 1] == b);
            } else {
                assert(ch[i] == b);
                let j = choose|j: int| 0 <= j < head.len() && head[j] == b;
                assert(t[j] == b);
            }
        }
        if t.contains(b) && is_candidate(b, expired, f) {
            let j = choose|j: int| 0 <= j < t.len() && t[j] == b;
            if j == t.len() - 1 {
                assert(c == ch.push(last));
                assert(c[ch.len() as int] == b);
            } else {
                assert(head[j] == b);
                let i = choose|i: int| 0 <= i < ch.len() && ch[i] == b;
                assert(c[i] == b);
            }
        }
    }
}

/// A row among those of the entries `c` is among those of one of them.
pub proof fn lemma_walk_member_from(
    c: Seq<Branch>,
    expired: i64,
    filters: Seq<Option<Filter>>,
    k: int,
    r: Seq<Seq<u8>>,
) -> (i: int)
    requires
        walk(c, expired, filters, k).contains(r),
    ensures
        0 <= i < c.len(),
        branch_rows(c[i], expired, filters, k).contains(r),
    decreases c.len(),
{
    let w = walk(c, expired, filters, k);
    if c.len() == 0 {
        assert(false);
        0
    } else {
        let head = c.drop_last();
        let wh = walk(head, expired, filters, k);
        let part = branch_rows(c.last(), expired, filters, k);
        assert(w == wh + part);
        let x = choose|x: int| 0 <= x < w.len() && w[x] == r;
        if x < wh.len() {
            assert(wh[x] == r);
            assert(wh.contains(r));
            let i = lemma_walk_member_from(head, expired, filters, k, r);
            assert(c[i] == head[i]);
            i
        } else {
            assert(part[x - wh.len()] == r);
            assert(part.contains(r));
            c.len() - 1
        }
    }
}

/// A row among those of one of the entries `c` is among those of all.
pub proof fn lemma_walk_member_of(
    c: Seq<Branch>,
    expired: i64,
    filters: Seq<Option<Filter>>,
    k: int,
    r: Seq<Seq<u8>>,
    i: int,
)
    requires
        0 <= i < c.len(),
        branch_rows(c[i], expired, filters, k).contains(r),
    ensures
        walk(c, expired, filters, k).contains(r),
    decreases c.len(),
{
    let w = walk(c, expired, filters, k);
    let head = c.drop_last();
    let wh = walk(head, expired, filters, k);
    let part = branch_rows(c.last(), expired, filters, k);
    assert(w == wh + part);
    if i == c.len() - 1 {
        let y = choose|y: int| 0 <= y < part.len() && part[y] == r;
        assert(w[wh.len() + y] == r);
    } else {
        assert(head[i] == c[i]);
        lemma_walk_member_of(head, expired, filters, k, r, i);
        let x = choose|x: int| 0 <= x < wh.len() && wh[x] == r;
        assert(w[x] == r);
    }
}

/// Each row read corresponds to a path from an entry of the tree down to a
/// leaf on which every entry is unexpired and passes its filter; and each
/// such path gives a row.
pub proof fn lemma_rows_are_live_paths(
    t: Seq<Branch>,
    expired: i64,
    filters: Seq<Option<Filter>>,
    k: int,
    r: Seq<Seq<u8>>,
)
    ensures
        rows_from(t, expired, filters, k).contains(r) <==> live_path(t, expired, filters, k, r),
    decreases filters.len() - k, 1int,
{
    if 0 <= k < filters.len() {
        let c = candidates(t, expired, filters[k]);
        if rows_from(t, expired, filters, k).contains(r) {
            let i = lemma_walk_member_from(c, expired, filters, k, r);
            let b = c[i];
            lemma_candidates_member(t, expired, filters[k], b);
            let j = choose|j: int| 0 <= j < t.len() && t[j] == b;
            lemma_branch_rows_are_live_steps(b, expired, filters, k, r);
            assert(live_step(t[j], expired, filters, k, r));
        }
        if live_path(t, expired, filters, k, r) {
            let j = choose|j: int| 0 <= j < t.len() && live_step(#[trigger] t[j], expired, filters, k, r);
            let b = t[j];
            lemma_candidates_member(t, expired, filters[k], b);
            let i = choose|i: int| 0 <= i < c.len() && c[i] == b;
            lemma_branch_rows_are_live_steps(b, expired, filters, k, r);
            lemma_walk_member_of(c, expired, filters, k, r, i);
        }
    } else {
        assert(!Seq::<Seq<Seq<u8>>>::empty().contains(r));
    }
}

/// The rows that an entry gives are the live paths through it.
pub proof fn lemma_branch_rows_are_live_steps(
    b: Branch,
    expired: i64,
    filters: Seq<Option<Filter>>,
    k: int,
    r: Seq<Seq<u8>>,
)
    requires
        0 <= k < filters.len(),
        is_candidate(b, expired, filters[k]),
    ensures
        branch_rows(b, expired, filters, k).contains(r) <==> live_step(b, expired, filters, k, r),
    decreases filters.len() - k, 0int,
{
    let part = branch_rows(b, expired, filters, k);
    match b.child {
        None => {
            if part.contains(r) {
                let x = choose|x: int| 0 <= x < part.len() && part[x] == r;
                assert(r == seq![b.value]);
            }
            if live_step(b, expired, filters, k, r) {
                assert(r =~= seq![b.value]);
                assert(part[0] == r);
            }
        },
        Some(below) => {
            if k + 1 < filters.len() {
                let sub = rows_from(below, expired, filters, k + 1);
                assert(part == prefixed(b.value, sub));
                if part.contains(r) {
                    let x = choose|x: int| 0 <= x < part.len() && part[x] == r;
                    assert(r == seq![b.value] + sub[x]);
                    assert(r.skip(1) =~= sub[x]);
                    assert(sub.contains(r.skip(1)));
                    lemma_rows_are_live_paths(below, expired, filters, k + 1, r.skip(1));
                }
                if live_step(b, expired, filters, k, r) {
                    lemma_rows_are_live_paths(below, expired, filters, k + 1, r.skip(1));
                    let x = choose|x: int| 0 <= x < sub.len() && sub[x] == r.skip(1);
                    assert(seq![b.value] + sub[x] =~= r);
                    assert(part[x] == r);
                }
            } else {
                assert(!part.contains(r));
            }
        },
    }
}

/// A live path under filters stays one under filters that admit more.
pub proof fn lemma_live_path_monotone(
    t: Seq<Branch>,
    expired: i64,
    first: Seq<Option<Filter>>,
    second: Seq<Option<Filter>>,
    k: int,
    r: Seq<Seq<u8>>,
)
    requires
        narrower(first, second),
        live_path(t, expired, first, k, r),
    ensures
        live_path(t, expired, second, k, r),
    decreases first.len() - k,
{
    let j = choose|j: int| 0 <= j < t.len() && live_step(#[trigger] t[j], expired, first, k, r);
    match t[j].child {
        Some(c) => {
            lemma_live_path_monotone(c, expired, first, second, k + 1, r.skip(1));
        },
        None => {},
    }
    assert(admits(first[k], t[j].value));
    assert(live_step(t[j], expired, second, k, r));
}

/// Filters that admit more read more: every row read with the first
/// filters is read with the second too.
pub proof fn lemma_rows_monotone(
    t: Seq<Branch>,
    expired: i64,
    first: Seq<Option<Filter>>,
    second: Seq<Option<Filter>>,
    r: Seq<Seq<u8>>,
)
    requires
        narrower(first, second),
        rows(t, expired, first).contains(r),
    ensures
        rows(t, expired, second).contains(r),
{
    lemma_rows_are_live_paths(t, expired, first, 0, r);
    lemma_live_path_monotone(t, expired, first, second, 0, r);
    lemma_rows_are_live_paths(t, expired, second, 0, r);
}

/// An inclusion set within another reads a part of what the other reads.
pub proof fn lemma_in_monotone(
    t: Seq<Branch>,
    expired: i64,
    filters: Seq<Option<Filter>>,
    d: int,
    small: Set<Seq<u8>>,
    large: Set<Seq<u8>>,
    r: Seq<Seq<u8>>,
)
    requires
        0 <= d < filters.len(),
        small.subset_of(large),
        rows(t, expired, filters.update(d, Some(Filter { negated: false, values: small }))).contains(r),
    ensures
        rows(t, expired, filters.update(d, Some(Filter { negated: false, values: large }))).contains(r),
{
    let first = filters.update(d, Some(Filter { negated: false, values: small }));
    let second = filters.update(d, Some(Filter { negated: false, values: large }));
    assert(narrower(first, second)) by {
        assert forall|k: int, v: Seq<u8>| 0 <= k < first.len() && admits(first[k], v) implies admits(
            second[k],
            v,
        ) by {
            if k == d {
                assert(small.contains(v));
            }
        }
    }
    lemma_rows_monotone(t, expired, first, second, r);
}

/// An exclusion set within another lets through all that the other does.
pub proof fn lemma_not_in_monotone(
    t: Seq<Branch>,
    expired: i64,
    filters: Seq<Option<Filter>>,
    d: int,
    small: Set<Seq<u8>>,
    large: Set<Seq<u8>>,
    r: Seq<Seq<u8>>,
)
    requires
        0 <= d < filters.len(),
        small.subset_of(large),
        rows(t, expired, filters.update(d, Some(Filter { negated: true, values: large }))).contains(r),
    ensures
        rows(t, expired, filters.update(d, Some(Filter { negated: true, values: small }))).contains(r),
{
    let first = filters.update(d, Some(Filter { negated: true, values: large }));
    let second = filters.update(d, Some(Filter { negated: true, values: small }));
    assert(narrower(first, second)) by {
        assert forall|k: int, v: Seq<u8>| 0 <= k < first.len() && admits(first[k], v) implies admits(
            second[k],
            v,
        ) by {
            if k == d && small.contains(v) {
                assert(large.contains(v));
            }
        }
    }
    lemma_rows_monotone(t, expired, first, second, r);
}

/// The entries read from a level in ascending order come in ascending order.
pub proof fn lemma_candidates_ascending(t: Seq<Branch>, expired: i64, f: Option<Filter>)
    requires
        ascending(t),
    ensures
        ascending(candidates(t, expired, f)),
    decreases t.len(),
{
    if t.len() > 0 {
        let head = t.drop_last();
        let last = t.last();
        let ch = candidates(head, expired, f);
        assert forall|i: int, j: int| 0 <= i < j < head.len() implies precedes(
            #[trigger] head[i].value,
            #[trigger] head[j].value,
        ) by {
            assert(head[i] == t[i] && head[j] == t[j]);
        }
        lemma_candidates_ascending(head, expired, f);
        if is_candidate(last, expired, f) {
            let c = ch.push(last);
            assert forall|i: int, j: int| 0 <= i < j < c.len() implies precedes(
                #[trigger] c[i].value,
                #[trigger] c[j].value,
            ) by {
                if j < ch.len() {
                    assert(precedes(ch[i].value, ch[j].value));
                } else {
                    lemma_candidates_member(head, expired, f, ch[i]);
                    let x = choose|x: int| 0 <= x < head.len() && head[x] == ch[i];
                    assert(precedes(t[x].value, t[t.len() - 1].value));
                }
            }
        }
    }
}

/// Two levels in ascending order that hold the same entries are the same.
pub proof fn lemma_ascending_same_members(a: Seq<Branch>, b: Seq<Branch>)
    requires
        ascending(a),
        ascending(b),
        forall|x: Branch| a.contains(x) <==> b.contains(x),
    ensures
        a == b,
    decreases a.len(),
{
    if a.len() == 0 {
        if b.len() > 0 {
            assert(b.contains(b[0]));
        }
        assert(a =~= b);
    } else {
        let la = a.last();
        assert(a[a.len() - 1] == la);
        assert(a.contains(la));
        let j = choose|j: int| 0 <= j < b.len() && b[j] == la;
        let lb = b.last();
        assert(b[b.len() - 1] == lb);
        assert(b.contains(lb));
        let i = choose|i: int| 0 <= i < a.len() && a[i] == lb;
        if i < a.len() - 1 && j < b.len() - 1 {
            assert(precedes(a[i].value, a[a.len() - 1].value));
            assert(precedes(b[j].value, b[b.len() - 1].value));
            lemma_precedes_transitive(lb.value, la.value, lb.value);
            lemma_precedes_irreflexive(lb.value);
        }
        assert(la == lb);
        let a0 = a.drop_last();
        let b0 = b.drop_last();
        assert forall|x: int, y: int| 0 <= x < y < a0.len() implies precedes(
            #[trigger] a0[x].value,
            #[trigger] a0[y].value,
        ) by {
            assert(precedes(a[x].value, a[y].value));
        }
        assert forall|x: int, y: int| 0 <= x < y < b0.len() implies precedes(
            #[trigger] b0[x].value,
            #[trigger] b0[y].value,
        ) by {
            assert(precedes(b[x].value, b[y].value));
        }
        assert forall|x: Branch| a0.contains(x) <==> b0.contains(x) by {
            lemma_precedes_irreflexive(la.value);
            if a0.contains(x) {
                let k = choose|k: int| 0 <= k < a0.len() && a0[k] == x;
                assert(a[k] == x);
                assert(precedes(a[k].value, a[a.len() - 1].value));
                assert(a.contains(x));
                let m = choose|m: int| 0 <= m < b.len() && b[m] == x;
                assert(b0[m] == x);
            }
            if b0.contains(x) {
                let k = choose|k: int| 0 <= k < b0.len() && b0[k] == x;
                assert(b[k] == x);
                assert(precedes(b[k].value, b[b.len() - 1].value));
                assert(b.contains(x));
                let m = choose|m: int| 0 <= m < a.len() && a[m] == x;
                assert(a0[m] == x);
            }
        }
        lemma_ascending_same_members(a0, b0);
        assert(a =~= a0.push(la));
        assert(b =~= b0.push(lb));
    }
}

/// The filter that lets through exactly the values of a set.
pub open spec fn including(values: Set<Seq<u8>>) -> Option<Filter> {
    Some(Filter { negated: false, values })
}

/// In a level in ascending order, an entry stands at the slot of its value.
pub proof fn lemma_slot_of_member(t: Seq<Branch>, j: int)
    requires
        ascending(t),
        0 <= j < t.len(),
    ensures
        slot(t, t[j].value) == j,
        holds(t, t[j].value),
{
    lemma_precedes_irreflexive(t[j].value);
    assert forall|k: int| 0 <= k < j implies precedes(#[trigger] t[k].value, t[j].value) by {}
    lemma_slot_is(t, t[j].value, 0, j);
}

/// An empty inclusion set reads nothing.
pub proof fn lemma_candidates_of_none(t: Seq<Branch>, expired: i64)
    ensures
        candidates(t, expired, including(Set::empty())) == Seq::<Branch>::empty(),
{
    let c = candidates(t, expired, including(Set::empty()));
    if c.len() > 0 {
        lemma_candidates_member(t, expired, including(Set::empty()), c[0]);
        assert(c.contains(c[0]));
    }
    assert(c =~= Seq::<Branch>::empty());
}

/// Looking up one more value, which comes after all that were looked up
/// before, adds the entry at its slot to what is read, where that entry
/// holds the value and was seen after `expired`, and nothing else.
pub proof fn lemma_candidates_one_more(t: Seq<Branch>, expired: i64, known: Set<Seq<u8>>, s: Seq<u8>)
    requires
        ascending(t),
        forall|v: Seq<u8>| known.contains(v) ==> precedes(v, s),
    ensures
        candidates(t, expired, including(known.insert(s))) == if holds(t, s) && t[slot(t, s)].last_seen
            > expired {
            candidates(t, expired, including(known)).push(t[slot(t, s)])
        } else {
            candidates(t, expired, including(known))
        },
{
    let wide = including(known.insert(s));
    let a = candidates(t, expired, wide);
    let base = candidates(t, expired, including(known));
    let i = slot(t, s);
    lemma_slot_from(t, s, 0);
    lemma_candidates_ascending(t, expired, wide);
    lemma_candidates_ascending(t, expired, including(known));
    let hit = holds(t, s) && t[i].last_seen > expired;
    let b = if hit {
        base.push(t[i])
    } else {
        base
    };
    if hit {
        assert forall|x: int, y: int| 0 <= x < y < b.len() implies precedes(
            #[trigger] b[x].value,
            #[trigger] b[y].value,
        ) by {
            if y < base.len() {
                assert(precedes(base[x].value, base[y].value));
            } else {
                assert(base.contains(base[x]));
                lemma_candidates_member(t, expired, including(known), base[x]);
            }
        }
    }
    assert forall|x: Branch| a.contains(x) <==> b.contains(x) by {
        lemma_candidates_member(t, expired, wide, x);
        lemma_candidates_member(t, expired, including(known), x);
        if a.contains(x) {
            if known.contains(x.value) {
                let k = choose|k: int| 0 <= k < base.len() && base[k] == x;
                assert(b[k] == x);
            } else {
                let j = choose|j: int| 0 <= j < t.len() && t[j] == x;
                lemma_slot_of_member(t, j);
                assert(b[base.len() as int] == x);
            }
        }
        if b.contains(x) {
            let k = choose|k: int| 0 <= k < b.len() && b[k] == x;
            if k < base.len() {
                assert(base[k] == x);
                assert(base.contains(x));
            } else {
                assert(t.contains(x));
            }
        }
    }
    lemma_ascending_same_members(a, b);
}

} // verus!
