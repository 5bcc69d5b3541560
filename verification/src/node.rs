//! One level of the cache tree, held as a vector of entries in ascending
//! order of their values.

use vstd::prelude::*;
use crate::heap::TimeHeap;
use crate::laws::{lemma_inserted_well_formed, lemma_oldest, lemma_pruned_well_formed, lemma_slot_is};
use crate::predicate::{strictly_ascending, Predicate, ValueSet};
use crate::read_laws::{including, lemma_candidates_of_none, lemma_candidates_one_more};
use crate::tree::{
    ascending, branch_rows, candidates, column, has_path_from, inserted_from, is_candidate, leaf_count,
    lemma_candidates_step, lemma_candidates_well_formed, lemma_leaf_count_step, lemma_oldest_step,
    lemma_pruned_step, oldest,
    lemma_walk_step, prefixed, pruned, pruned_branch, rows_from, slot, slot_from, walk, well_formed,
    Branch, Filter,
};
use crate::value::{lemma_precedes_transitive, precedes, Value};

verus! {

/// An entry of a node.
#[derive(Debug)]
pub struct Entry {
    value: Value,
    last_seen_ns: i64,
    child: Option<Node>,
}

/// A node of the cache tree.
#[derive(Debug)]
pub struct Node {
    entries: Vec<Entry>,
}

impl Entry {
    /// The branch that this entry stands for.
    pub closed spec fn model(&self) -> Branch
        decreases self,
    {
        Branch {
            value: self.value@,
            last_seen: self.last_seen_ns,
            child: match self.child {
                Some(n) => Some(n.model()),
                None => None,
            },
        }
    }
}

impl View for Entry {
    type V = Branch;

    open spec fn view(&self) -> Branch {
        self.model()
    }
}

impl View for Node {
    type V = Seq<Branch>;

    open spec fn view(&self) -> Seq<Branch> {
        self.model()
    }
}

/// The byte strings of a tuple of values.
pub open spec fn tuple_of(values: Seq<Value>) -> Seq<Seq<u8>> {
    values.map_values(|v: Value| v@)
}

/// The filter that a predicate stands for.
pub open spec fn filter_of(predicate: Option<&Predicate>) -> Option<Filter> {
    match predicate {
        Some(p) => Some(Filter { negated: p.negated(), values: p.set()@ }),
        None => None,
    }
}

/// The filters of the levels, one per predicate position.
pub open spec fn filters_of(predicates: Seq<Option<&Predicate>>) -> Seq<Option<Filter>> {
    predicates.map_values(|p: Option<&Predicate>| filter_of(p))
}

/// The first `k` of the byte strings `items`, as a set.
pub open spec fn first_values(items: Seq<Seq<u8>>, k: int) -> Set<Seq<u8>> {
    Set::new(|v: Seq<u8>| exists|y: int| 0 <= y < k && #[trigger] items[y] == v)
}

/// The picked values and nodes are those of the entries `c`, in order.
pub open spec fn stands_for(picked: Seq<(Value, Option<&Node>)>, c: Seq<Branch>) -> bool {
    &&& picked.len() == c.len()
    &&& forall|k: int|
        0 <= k < picked.len() ==> {
            &&& (#[trigger] picked[k]).0@ == c[k].value
            &&& match picked[k].1 {
                Some(n) => c[k].child == Some(n@),
                None => c[k].child is None,
            }
        }
}

impl Node {
    /// The level that this node stands for, with all that is below it.
    pub closed spec fn model(&self) -> Seq<Branch>
        decreases self,
    {
        Seq::new(
            self.entries@.len(),
            |i: int|
                if 0 <= i < self.entries@.len() {
                    self.entries@[i].model()
                } else {
                    arbitrary()
                },
        )
    }

    /// How the model of a node follows from its entries.
    proof fn lemma_view(&self)
        ensures
            self@.len() == self.entries@.len(),
            forall|i: int|
                #![trigger self@[i]]
                #![trigger self.entries@[i]]
                0 <= i < self.entries@.len() ==> {
                    &&& self@[i] == self.entries@[i]@
                    &&& self@[i].value == self.entries@[i].value@
                    &&& self@[i].last_seen == self.entries@[i].last_seen_ns
                    &&& match self.entries@[i].child {
                        Some(c) => self@[i].child == Some(c@),
                        None => self@[i].child.is_none(),
                    }
                },
    {
    }

    /// An empty node.
    pub fn new() -> (res: Node)
        ensures
            res@ == Seq::<Branch>::empty(),
    {
        let res = Node { entries: Vec::new() };
        assert(res@ =~= Seq::<Branch>::empty());
        res
    }

    /// The number of entries of this node.
    pub fn len(&self) -> (res: usize)
        ensures
            res == self@.len(),
    {
        proof {
            self.lemma_view();
        }
        self.entries.len()
    }

    /// The value of entry `i`, counted in ascending order of the values.
    pub fn value_at(&self, i: usize) -> (res: &Value)
        requires
            i < self@.len(),
        ensures
            res@ == self@[i as int].value,
    {
        proof {
            self.lemma_view();
        }
        &self.entries[i].value
    }

    /// The time at which entry `i` was last seen.
    pub fn last_seen_at(&self, i: usize) -> (res: i64)
        requires
            i < self@.len(),
        ensures
            res == self@[i as int].last_seen,
    {
        proof {
            self.lemma_view();
        }
        self.entries[i].last_seen_ns
    }

    /// The node below entry `i`, where it is an interior entry.
    pub fn child_at(&self, i: usize) -> (res: Option<&Node>)
        requires
            i < self@.len(),
        ensures
            match res {
                Some(n) => self@[i as int].child == Some(n@),
                None => self@[i as int].child is None,
            },
    {
        proof {
            self.lemma_view();
        }
        match &self.entries[i].child {
            Some(n) => Some(n),
            None => None,
        }
    }

    /// The number of leaves below this node, expired ones included.
    pub fn cardinality(&self) -> (res: usize)
        requires
            leaf_count(self@) <= usize::MAX,
        ensures
            res == leaf_count(self@),
        decreases self,
    {
        let mut total: usize = 0;
        let mut i: usize = 0;
        proof {
            self.lemma_view();
        }
        while i < self.entries.len()
            invariant
                i <= self.entries.len(),
                self@.len() == self.entries.len(),
                total == leaf_count(self@.subrange(0, i as int)),
                leaf_count(self@) <= usize::MAX,
            decreases self.entries.len() - i,
        {
            proof {
                self.lemma_view();
                lemma_leaf_count_step(self@, i as int);
            }
            let below: usize = match &self.entries[i].child {
                Some(c) => c.cardinality(),
                None => 1,
            };
            total = total + below;
            i += 1;
        }
        assert(self@.subrange(0, i as int) =~= self@);
        total
    }

    /// Where `v` stands among the entries, or where it would be put: found
    /// by halving the range in which it can be.
    fn slot(&self, v: &Value) -> (res: usize)
        requires
            ascending(self@),
        ensures
            res == slot(self@, v@),
            res <= self@.len(),
    {
        let mut lo: usize = 0;
        let mut hi: usize = self.entries.len();
        proof {
            self.lemma_view();
        }
        while lo < hi
            invariant
                lo <= hi <= self.entries.len(),
                self@.len() == self.entries.len(),
                ascending(self@),
                forall|k: int| 0 <= k < self.entries@.len() ==> (#[trigger] self@[k]).value == self.entries@[k].value@,
                forall|k: int| 0 <= k < lo ==> precedes(#[trigger] self@[k].value, v@),
                forall|k: int| hi <= k < self@.len() ==> !precedes(#[trigger] self@[k].value, v@),
            decreases hi - lo,
        {
            let mid = lo + (hi - lo) / 2;
            if self.entries[mid].value.precedes(v) {
                proof {
                    assert forall|k: int| 0 <= k < mid + 1 implies precedes(#[trigger] self@[k].value, v@) by {
                        if k < mid {
                            assert(precedes(self@[k].value, self@[mid as int].value));
                            lemma_precedes_transitive(self@[k].value, self@[mid as int].value, v@);
                        }
                    }
                }
                lo = mid + 1;
            } else {
                proof {
                    assert forall|k: int| mid <= k < self@.len() implies !precedes(
                        #[trigger] self@[k].value,
                        v@,
                    ) by {
                        if k > mid && precedes(self@[k].value, v@) {
                            assert(precedes(self@[mid as int].value, self@[k].value));
                            lemma_precedes_transitive(self@[mid as int].value, self@[k].value, v@);
                        }
                    }
                }
                hi = mid;
            }
        }
        proof {
            lemma_slot_is(self@, v@, 0, lo as int);
        }
        lo
    }

    /// Records that the values from position `from` on were seen at
    /// `time_ns`, in a tree of one level for each of them, and tells whether
    /// that made a new leaf.
    pub fn insert(&mut self, values: &Vec<Value>, from: usize, time_ns: i64) -> (is_new: bool)
        requires
            from < values.len(),
            well_formed(old(self)@, (values.len() - from) as nat),
        ensures
            final(self)@ == inserted_from(old(self)@, tuple_of(values@), from as int, time_ns),
            is_new == !has_path_from(old(self)@, tuple_of(values@), from as int),
            well_formed(final(self)@, (values.len() - from) as nat),
        decreases values.len() - from,
    {
        proof {
            lemma_inserted_well_formed(self@, tuple_of(values@), from as int, time_ns);
        }
        let i = self.slot(&values[from]);
        let last = from + 1 == values.len();
        let ghost before = self@;
        let ghost tuple = tuple_of(values@);
        proof {
            self.lemma_view();
            assert(tuple[from as int] == values@[from as int]@);
        }
        let ghost entries_before = self.entries@;
        if i < self.entries.len() && self.entries[i].value.same(&values[from]) {
            let entry = &mut self.entries[i];
            entry.last_seen_ns = time_ns;
            let is_new = match &mut entry.child {
                Some(c) => if last {
                    false
                } else {
                    c.insert(values, from + 1, time_ns)
                },
                None => false,
            };
            proof {
                self.lemma_view();
                assert(forall|k: int| 0 <= k < self@.len() && k != i ==> self.entries@[k] == entries_before[k]);
                if last && before[i as int].child is Some {
                    let c = before[i as int].child.unwrap();
                    assert(inserted_from(c, tuple, from + 1, time_ns) == c);
                    assert(has_path_from(c, tuple, from + 1));
                }
                assert(self@ =~= inserted_from(before, tuple, from as int, time_ns));
            }
            is_new
        } else {
            let child = if last {
                None
            } else {
                let mut below = Node::new();
                assert(well_formed(below@, (values.len() - from - 1) as nat));
                below.insert(values, from + 1, time_ns);
                Some(below)
            };
            let entry = Entry { value: values[from].clone(), last_seen_ns: time_ns, child };
            self.entries.insert(i, entry);
            proof {
                self.lemma_view();
                assert(self@ =~= inserted_from(before, tuple, from as int, time_ns));
            }
            true
        }
    }

    /// Removes every entry last seen at `time_ns` or before, and tells
    /// whether the node is empty afterwards. An interior entry stays while
    /// it was seen after `time_ns` or something below it is left.
    pub fn remove_before(&mut self, time_ns: i64) -> (became_empty: bool)
        ensures
            final(self)@ == pruned(old(self)@, time_ns),
            became_empty == (final(self)@.len() == 0),
            forall|depth: nat| well_formed(old(self)@, depth) ==> well_formed(final(self)@, depth),
        decreases old(self)@,
    {
        let ghost orig = self@;
        proof {
            self.lemma_view();
            assert forall|depth: nat| well_formed(orig, depth) implies well_formed(
                pruned(orig, time_ns),
                depth,
            ) by {
                lemma_pruned_well_formed(orig, time_ns, depth);
            }
        }
        let mut rest: Vec<Entry> = Vec::new();
        std::mem::swap(&mut rest, &mut self.entries);
        let ghost all = rest@;
        let mut i: usize = 0;
        proof {
            self.lemma_view();
            assert(self@ =~= pruned(orig.subrange(0, 0), time_ns));
        }
        while i < rest.len()
            invariant
                i <= rest.len(),
                rest.len() == all.len(),
                all.len() == orig.len(),
                forall|k: int| i <= k < rest.len() ==> rest@[k] == all[k],
                forall|k: int| 0 <= k < all.len() ==> (#[trigger] all[k])@ == orig[k],
                self@ == pruned(orig.subrange(0, i as int), time_ns),
                orig == old(self)@,
            decreases rest.len() - i,
        {
            let mut entry = Entry { value: Value::new(String::new()), last_seen_ns: 0, child: None };
            std::mem::swap(&mut entry, &mut rest[i]);
            proof {
                lemma_pruned_step(orig, i as int, time_ns);
                assert(entry == all[i as int]);
                assert(entry@ == orig[i as int]);
            }
            let keep = match &mut entry.child {
                Some(c) => {
                    let empty = c.remove_before(time_ns);
                    entry.last_seen_ns > time_ns || !empty
                },
                None => entry.last_seen_ns > time_ns,
            };
            proof {
                assert(keep == pruned_branch(orig[i as int], time_ns).is_some());
                assert(keep ==> entry@ == pruned_branch(orig[i as int], time_ns).unwrap());
            }
            if keep {
                let ghost prev = self@;
                self.entries.push(entry);
                proof {
                    self.lemma_view();
                    assert(self@ =~= prev.push(entry@));
                }
            }
            i += 1;
        }
        proof {
            self.lemma_view();
            assert(orig.subrange(0, i as int) =~= orig);
        }
        self.entries.is_empty()
    }

    /// The entries seen after `expired_time_ns` that pass `predicate`, where
    /// there is one, each with the node below it.
    fn select<'a>(&'a self, expired_time_ns: i64, predicate: Option<&Predicate>) -> (res: Vec<
        (Value, Option<&'a Node>),
    >)
        ensures
            stands_for(res@, candidates(self@, expired_time_ns, filter_of(predicate))),
    {
        let mut out: Vec<(Value, Option<&'a Node>)> = Vec::new();
        let mut i: usize = 0;
        let ghost f = filter_of(predicate);
        proof {
            self.lemma_view();
        }
        while i < self.entries.len()
            invariant
                i <= self.entries.len(),
                self@.len() == self.entries.len(),
                f == filter_of(predicate),
                stands_for(out@, candidates(self@.subrange(0, i as int), expired_time_ns, f)),
            decreases self.entries.len() - i,
        {
            proof {
                self.lemma_view();
                lemma_candidates_step(self@, i as int, expired_time_ns, f);
            }
            let entry = &self.entries[i];
            let pass = entry.last_seen_ns > expired_time_ns && match predicate {
                Some(p) => p.test(&entry.value),
                None => true,
            };
            assert(pass == is_candidate(self@[i as int], expired_time_ns, f));
            if pass {
                let below: Option<&'a Node> = match &entry.child {
                    Some(n) => Some(n),
                    None => None,
                };
                out.push((entry.value.clone(), below));
            }
            i += 1;
        }
        assert(self@.subrange(0, i as int) =~= self@);
        out
    }

    /// The entries seen after `expired_time_ns` whose values are among
    /// `wanted`, each with the node below it: every wanted value is looked
    /// up in turn.
    fn lookup_each<'a>(&'a self, expired_time_ns: i64, wanted: &ValueSet) -> (res: Vec<
        (Value, Option<&'a Node>),
    >)
        requires
            ascending(self@),
        ensures
            stands_for(res@, candidates(self@, expired_time_ns, including(wanted@))),
    {
        let mut out: Vec<(Value, Option<&'a Node>)> = Vec::new();
        let n = wanted.len();
        let ghost items = wanted.sequence();
        let mut k: usize = 0;
        proof {
            self.lemma_view();
            lemma_candidates_of_none(self@, expired_time_ns);
            assert(first_values(items, 0) =~= Set::<Seq<u8>>::empty());
        }
        while k < n
            invariant
                k <= n,
                n == items.len(),
                items == wanted.sequence(),
                strictly_ascending(items),
                ascending(self@),
                self@.len() == self.entries.len(),
                stands_for(out@, candidates(self@, expired_time_ns, including(first_values(items, k as int)))),
            decreases n - k,
        {
            let v = wanted.get(k);
            let i = self.slot(v);
            proof {
                self.lemma_view();
                let known = first_values(items, k as int);
                let s = items[k as int];
                assert forall|x: Seq<u8>| first_values(items, k + 1).contains(x) <==> known.insert(s).contains(
                    x,
                ) by {
                    if first_values(items, k + 1).contains(x) {
                        let y = choose|y: int| 0 <= y < k + 1 && #[trigger] items[y] == x;
                        if y < k {
                            assert(known.contains(x));
                        }
                    }
                    if known.contains(x) {
                        let y = choose|y: int| 0 <= y < k && #[trigger] items[y] == x;
                        assert(0 <= y < k + 1 && items[y] == x);
                    }
                    if x == s {
                        assert(0 <= k < k + 1 && items[k as int] == x);
                    }
                }
                assert(first_values(items, k + 1) =~= known.insert(s));
                assert forall|x: Seq<u8>| known.contains(x) implies precedes(x, s) by {
                    let y = choose|y: int| 0 <= y < k && #[trigger] items[y] == x;
                    assert(precedes(items[y], items[k as int]));
                }
                lemma_candidates_one_more(self@, expired_time_ns, known, s);
            }
            if i < self.entries.len() {
                let entry = &self.entries[i];
                if entry.last_seen_ns > expired_time_ns && entry.value.same(v) {
                    let below: Option<&'a Node> = match &entry.child {
                        Some(n) => Some(n),
                        None => None,
                    };
                    out.push((entry.value.clone(), below));
                }
            }
            k += 1;
        }
        proof {
            assert forall|x: Seq<u8>| first_values(items, n as int).contains(x) <==> wanted@.contains(x) by {
                if first_values(items, n as int).contains(x) {
                    let y = choose|y: int| 0 <= y < n && #[trigger] items[y] == x;
                    assert(items.contains(x));
                }
                if wanted@.contains(x) {
                    let y = choose|y: int| 0 <= y < items.len() && items[y] == x;
                    assert(0 <= y < n && items[y] == x);
                }
            }
            assert(first_values(items, n as int) =~= wanted@);
        }
        out
    }

    /// The entries seen after `expired_time_ns` that pass `predicate`, in
    /// ascending order, each with the node below it. The values of an
    /// inclusion set are looked up; for an exclusion set every entry is
    /// tested.
    pub fn evaluate_predicate<'a>(&'a self, expired_time_ns: i64, predicate: &Predicate) -> (res: Vec<
        (Value, Option<&'a Node>),
    >)
        requires
            ascending(self@),
        ensures
            stands_for(res@, candidates(self@, expired_time_ns, filter_of(Some(predicate)))),
    {
        match predicate {
            Predicate::In(in_list) => self.lookup_each(expired_time_ns, in_list),
            Predicate::NotIn(_) => self.select(expired_time_ns, Some(predicate)),
        }
    }

    /// Reads the tree below this node, which stands at `level`, into one
    /// column of values per level: every path to a leaf on which each entry
    /// was seen after `expired_time_ns` and passes the predicate of its
    /// level adds one value to each column from `level` on. Returns the
    /// number of rows added.
    pub fn evaluate_predicates(
        &self,
        expired_time_ns: i64,
        predicates: &Vec<Option<&Predicate>>,
        level: usize,
        builders: &mut Vec<Vec<Value>>,
    ) -> (count: usize)
        requires
            level < predicates.len(),
            old(builders).len() == predicates.len(),
            well_formed(self@, (predicates.len() - level) as nat),
        ensures
            final(builders).len() == old(builders).len(),
            count == rows_from(self@, expired_time_ns, filters_of(predicates@), level as int).len(),
            forall|d: int| 0 <= d < level ==> final(builders)[d] == old(builders)[d],
            forall|d: int|
                level <= d < predicates.len() ==> tuple_of(#[trigger] final(builders)[d]@) == tuple_of(
                    old(builders)[d]@,
                ) + column(
                    rows_from(self@, expired_time_ns, filters_of(predicates@), level as int),
                    d - level,
                ),
        decreases predicates.len() - level,
    {
        let picked = match predicates[level] {
            Some(predicate) => self.evaluate_predicate(expired_time_ns, predicate),
            None => self.select(expired_time_ns, None),
        };
        let ghost filters = filters_of(predicates@);
        let ghost cands = candidates(self@, expired_time_ns, filters[level as int]);
        let ghost depth = (predicates.len() - level) as nat;
        let ghost start = *builders;
        proof {
            lemma_candidates_well_formed(self@, expired_time_ns, filters[level as int], depth);
            assert(cands.subrange(0, 0) =~= Seq::<Branch>::empty());
            assert forall|d: int| level <= d < predicates.len() implies tuple_of(
                #[trigger] builders[d]@,
            ) =~= tuple_of(start[d]@) + column(
                walk(cands.subrange(0, 0), expired_time_ns, filters, level as int),
                d - level,
            ) by {}
        }
        let mut total: usize = 0;
        let mut i: usize = 0;
        while i < picked.len()
            invariant
                i <= picked.len(),
                level < predicates.len(),
                builders.len() == predicates.len(),
                start.len() == predicates.len(),
                filters == filters_of(predicates@),
                cands == candidates(self@, expired_time_ns, filters[level as int]),
                stands_for(picked@, cands),
                depth == predicates.len() - level,
                forall|k: int|
                    0 <= k < cands.len() ==> match (#[trigger] cands[k]).child {
                        None => depth == 1,
                        Some(c) => depth > 1 && well_formed(c, (depth - 1) as nat),
                    },
                total == walk(cands.subrange(0, i as int), expired_time_ns, filters, level as int).len(),
                forall|d: int| 0 <= d < level ==> builders[d] == start[d],
                forall|d: int|
                    level <= d < predicates.len() ==> tuple_of(#[trigger] builders[d]@) == tuple_of(start[d]@)
                        + column(
                        walk(cands.subrange(0, i as int), expired_time_ns, filters, level as int),
                        d - level,
                    ),
            decreases picked.len() - i,
        {
            let ghost done = walk(cands.subrange(0, i as int), expired_time_ns, filters, level as int);
            let ghost part = branch_rows(cands[i as int], expired_time_ns, filters, level as int);
            let ghost prev = *builders;
            let ghost v = cands[i as int].value;
            proof {
                lemma_walk_step(cands, i as int, expired_time_ns, filters, level as int);
                assert(tuple_of(prev[level as int]@) == tuple_of(start[level as int]@) + column(done, 0));
                assert(tuple_of(prev[level as int]@).len() == prev[level as int]@.len());
                assert(column(done, 0).len() == done.len());
                assert(prev[level as int]@.len() >= done.len());
            }
            match picked[i].1 {
                Some(child) => {
                    let ghost sub = rows_from(child@, expired_time_ns, filters, level + 1);
                    let count = child.evaluate_predicates(expired_time_ns, predicates, level + 1, builders);
                    let ghost mid = *builders;
                    proof {
                        assert(part == prefixed(v, sub));
                        assert(count == part.len());
                        assert(mid[level as int] == prev[level as int]);
                    }
                    if count > 0 {
                        let mut n: usize = 0;
                        while n < count
                            invariant
                                n <= count,
                                i < picked.len(),
                                level < predicates.len(),
                                builders.len() == predicates.len(),
                                mid.len() == predicates.len(),
                                picked[i as int].0@ == v,
                                forall|d: int| 0 <= d < builders.len() && d != level ==> builders[d] == mid[d],
                                tuple_of(builders[level as int]@) == tuple_of(mid[level as int]@) + Seq::new(
                                    n as nat,
                                    |x: int| v,
                                ),
                            decreases count - n,
                        {
                            let ghost before = builders[level as int]@;
                            let value = picked[i].0.clone();
                            builders[level].push(value);
                            proof {
                                assert(tuple_of(builders[level as int]@) =~= tuple_of(before).push(v));
                                assert(tuple_of(before).push(v) =~= tuple_of(mid[level as int]@) + Seq::new(
                                    (n + 1) as nat,
                                    |x: int| v,
                                ));
                            }
                            n += 1;
                        }
                        proof {
                            assert(tuple_of(builders[level as int]@).len() == builders[level as int]@.len());
                            assert(builders[level as int]@.len() == prev[level as int]@.len() + count);
                            assert(builders[level as int].len() == builders[level as int]@.len());
                        }
                        total += count;
                    }
                    proof {
                        assert forall|d: int| level <= d < predicates.len() implies tuple_of(
                            #[trigger] builders[d]@,
                        ) == tuple_of(start[d]@) + column(done + part, d - level) by {
                            assert(column(done + part, d - level) =~= column(done, d - level) + column(
                                part,
                                d - level,
                            ));
                            if d == level {
                                assert(column(part, 0) =~= Seq::new(count as nat, |x: int| v));
                                assert(tuple_of(builders[d]@) =~= tuple_of(start[d]@) + column(done, 0) + column(
                                    part,
                                    0,
                                ));
                            } else {
                                assert(builders[d] == mid[d]);
                                assert(tuple_of(mid[d]@) == tuple_of(prev[d]@) + column(sub, d - (level + 1)));
                                assert(tuple_of(prev[d]@) == tuple_of(start[d]@) + column(done, d - level));
                                assert(column(part, d - level) =~= column(sub, d - level - 1));
                                assert(tuple_of(builders[d]@) =~= tuple_of(start[d]@) + column(done, d - level)
                                    + column(part, d - level));
                            }
                        }
                    }
                },
                None => {
                    let ghost before = builders[level as int]@;
                    let value = picked[i].0.clone();
                    builders[level].push(value);
                    proof {
                        assert(part == seq![seq![v]]);
                        assert(tuple_of(builders[level as int]@) =~= tuple_of(before).push(v));
                        assert(builders[level as int]@.len() == before.len() + 1);
                        assert(builders[level as int].len() == builders[level as int]@.len());
                        assert forall|d: int| level <= d < predicates.len() implies tuple_of(
                            #[trigger] builders[d]@,
                        ) == tuple_of(start[d]@) + column(done + part, d - level) by {
                            assert(d == level);
                            assert(column(done + part, 0) =~= column(done, 0).push(v));
                            assert(tuple_of(builders[d]@) =~= tuple_of(start[d]@) + column(done + part, 0));
                        }
                    }
                    total += 1;
                },
            }
            i += 1;
        }
        proof {
            assert(cands.subrange(0, i as int) =~= cands);
        }
        total
    }

    /// Offers the time of every leaf below this node to `times_heap`, which
    /// keeps at most `n_to_remove` times: the oldest that it was offered.
    pub fn find_n_oldest(&self, n_to_remove: usize, times_heap: &mut TimeHeap)
        ensures
            final(times_heap)@ == oldest(self@, n_to_remove as nat, old(times_heap)@),
        decreases self,
    {
        let ghost start = times_heap@;
        let mut i: usize = 0;
        proof {
            self.lemma_view();
            assert(self@.subrange(0, 0) =~= Seq::<Branch>::empty());
        }
        while i < self.entries.len()
            invariant
                i <= self.entries.len(),
                self@.len() == self.entries.len(),
                times_heap@ == oldest(self@.subrange(0, i as int), n_to_remove as nat, start),
            decreases self.entries.len() - i,
        {
            proof {
                self.lemma_view();
                lemma_oldest_step(self@, i as int, n_to_remove as nat, start);
            }
            match &self.entries[i].child {
                Some(node) => node.find_n_oldest(n_to_remove, times_heap),
                None => times_heap.offer(n_to_remove, self.entries[i].last_seen_ns),
            }
            i += 1;
        }
        assert(self@.subrange(0, i as int) =~= self@);
    }

    /// Removes the `n_to_remove` oldest leaves, and with them every leaf
    /// that is no newer than the newest of those.
    pub fn remove_n_oldest(&mut self, n_to_remove: usize)
        requires
            n_to_remove > 0,
            leaf_count(old(self)@) > 0,
        ensures
            final(self)@ == pruned(old(self)@, oldest(old(self)@, n_to_remove as nat, Seq::empty()).last()),
            forall|depth: nat| well_formed(old(self)@, depth) ==> well_formed(final(self)@, depth),
    {
        let mut times = TimeHeap::new();
        proof {
            lemma_oldest(self@, n_to_remove as nat, Seq::empty(), 0);
        }
        self.find_n_oldest(n_to_remove, &mut times);
        match times.peek() {
            Some(newest) => {
                self.remove_before(newest);
            },
            None => {},
        }
    }
}

} // verus!
