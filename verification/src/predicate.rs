//! Inclusion and exclusion sets of values, one per column position.

use vstd::prelude::*;
use vstd::string::*;
use crate::value::{lemma_precedes_connected, lemma_precedes_transitive, precedes, Value};

verus! {

/// The values of `items` come in strictly ascending order.
pub open spec fn strictly_ascending(items: Seq<Seq<u8>>) -> bool {
    forall|i: int, j: int| 0 <= i < j < items.len() ==> precedes(#[trigger] items[i], #[trigger] items[j])
}

/// The byte strings of values.
pub open spec fn bytes_of(items: Seq<Value>) -> Seq<Seq<u8>> {
    items.map_values(|v: Value| v@)
}

/// A set of values, kept in ascending order.
#[derive(Debug, PartialEq, Eq)]
pub struct ValueSet {
    items: Vec<Value>,
}

impl Clone for ValueSet {
    fn clone(&self) -> (res: Self)
        ensures
            res.sequence() == self.sequence(),
            res@ == self@,
    {
        proof {
            use_type_invariant(self);
        }
        let mut items: Vec<Value> = Vec::new();
        let mut i: usize = 0;
        while i < self.items.len()
            invariant
                i <= self.items.len(),
                bytes_of(items@) == bytes_of(self.items@).subrange(0, i as int),
            decreases self.items.len() - i,
        {
            let ghost prev = bytes_of(items@);
            let item = self.items[i].clone();
            assert(item@ == bytes_of(self.items@)[i as int]);
            items.push(item);
            assert(bytes_of(items@) =~= prev.push(item@));
            assert(bytes_of(items@) =~= bytes_of(self.items@).subrange(0, i as int + 1));
            i += 1;
        }
        assert(bytes_of(self.items@).subrange(0, i as int) =~= bytes_of(self.items@));
        ValueSet { items }
    }
}

impl View for ValueSet {
    type V = Set<Seq<u8>>;

    /// The byte strings that the set holds.
    open spec fn view(&self) -> Set<Seq<u8>> {
        Set::new(|v: Seq<u8>| self.sequence().contains(v))
    }
}

impl ValueSet {
    /// The byte strings of the set in the order in which they are kept.
    pub closed spec fn sequence(&self) -> Seq<Seq<u8>> {
        bytes_of(self.items@)
    }

    #[verifier::type_invariant]
    spec fn ordered(&self) -> bool {
        strictly_ascending(bytes_of(self.items@))
    }



    /// The strings of the set, as characters, in the order in which they are kept.
    pub closed spec fn texts(&self) -> Seq<Seq<char>> {
        self.items@.map_values(|v: Value| v.chars())
    }

    /// The byte strings of the set are the UTF-8 encodings of its strings.
    pub proof fn lemma_texts(&self)
        ensures
            self.texts().len() == self.sequence().len(),
            forall|i: int|
                0 <= i < self.texts().len() ==> #[trigger] self.sequence()[i] == vstd::utf8::encode_utf8(
                    self.texts()[i],
                ),
    {
        assert forall|i: int| 0 <= i < self.texts().len() implies #[trigger] self.sequence()[i]
            == vstd::utf8::encode_utf8(self.texts()[i]) by {
            self.items@[i].lemma_bytes();
        }
    }

    /// The set holds no value twice and keeps its values in ascending order.
    pub open spec fn wf(&self) -> bool {
        strictly_ascending(self.sequence())
    }

    /// The empty set.
    pub fn new() -> (res: ValueSet)
        ensures
            res.wf(),
            res.sequence() == Seq::<Seq<u8>>::empty(),
            res@ == Set::<Seq<u8>>::empty(),
    {
        let res = ValueSet { items: Vec::new() };
        assert(res.sequence() =~= Seq::<Seq<u8>>::empty());
        assert(res@ =~= Set::<Seq<u8>>::empty());
        res
    }

    /// The number of values in the set, which are in ascending order.
    pub fn len(&self) -> (res: usize)
        ensures
            res == self.sequence().len(),
            self.wf(),
    {
        proof {
            use_type_invariant(self);
        }
        self.items.len()
    }

    /// The value at position `i` of the ascending order.
    pub fn get(&self, i: usize) -> (res: &Value)
        requires
            i < self.sequence().len(),
        ensures
            res@ == self.sequence()[i as int],
            res.chars() == self.texts()[i as int],
    {
        &self.items[i]
    }

    /// Whether the set holds `v`.
    pub fn contains(&self, v: &Value) -> (res: bool)
        ensures
            res == self@.contains(v@),
    {
        let mut i: usize = 0;
        while i < self.items.len()
            invariant
                i <= self.items.len(),
                forall|k: int| 0 <= k < i ==> self.sequence()[k] != v@,
            decreases self.items.len() - i,
        {
            if self.items[i].same(v) {
                assert(self.sequence()[i as int] == v@);
                return true;
            }
            i += 1;
        }
        false
    }

    /// Adds `v` to the set, in its place in the order, unless the set holds it.
    pub fn insert(&mut self, v: Value)
        ensures
            final(self).wf(),
            final(self)@ == old(self)@.insert(v@),
    {
        proof {
            use_type_invariant(&*self);
        }
        let ghost before = self.sequence();
        let mut items: Vec<Value> = Vec::new();
        std::mem::swap(&mut items, &mut self.items);
        let mut i: usize = 0;
        while i < items.len() && items[i].precedes(&v)
            invariant
                i <= items.len(),
                bytes_of(items@) == before,
                forall|k: int| 0 <= k < i ==> precedes(before[k], v@),
            decreases items.len() - i,
        {
            i += 1;
        }
        if i < items.len() && items[i].same(&v) {
            assert(before[i as int] == v@);
            self.items = items;
            assert(self@ =~= old(self)@.insert(v@));
        } else {
            items.insert(i, v);
            let ghost after = bytes_of(items@);
            proof {
                assert(after =~= before.insert(i as int, v@));
                if i < before.len() && !precedes(v@, before[i as int]) {
                    lemma_precedes_connected(before[i as int], v@);
                }
                assert forall|a: int, b: int| 0 <= a < b < after.len() implies precedes(
                    #[trigger] after[a],
                    #[trigger] after[b],
                ) by {
                    if b == i {
                    } else if a == i {
                        if b - 1 > i {
                            lemma_precedes_transitive(v@, before[i as int], before[b - 1]);
                        }
                    } else {
                        let a0 = if a < i { a } else { a - 1 };
                        let b0 = if b < i { b } else { b - 1 };
                        assert(precedes(before[a0], before[b0]));
                    }
                }
            }
            self.items = items;
            proof {
                assert forall|x: Seq<u8>| self@.contains(x) <==> old(self)@.insert(v@).contains(x) by {
                    if after.contains(x) {
                        let k = choose|k: int| 0 <= k < after.len() && after[k] == x;
                        if k < i {
                            assert(before[k] == x);
                        } else if k > i {
                            assert(before[k - 1] == x);
                        }
                    }
                    if before.contains(x) {
                        let k = choose|k: int| 0 <= k < before.len() && before[k] == x;
                        if k < i {
                            assert(after[k] == x);
                        } else {
                            assert(after[k + 1] == x);
                        }
                    }
                    if x == v@ {
                        assert(after[i as int] == x);
                    }
                }
                assert(self@ =~= old(self)@.insert(v@));
            }
        }
    }
}

/// The set of the byte strings of `texts`.
pub open spec fn byte_strings(texts: Seq<String>) -> Set<Seq<u8>> {
    Set::new(|v: Seq<u8>| exists|i: int| 0 <= i < texts.len() && vstd::utf8::encode_utf8(#[trigger] texts[i]@) == v)
}

/// The strings with a comma between each two.
pub open spec fn joined(texts: Seq<Seq<char>>) -> Seq<char>
    decreases texts.len(),
{
    if texts.len() == 0 {
        Seq::empty()
    } else if texts.len() == 1 {
        texts[0]
    } else {
        joined(texts.drop_last()) + seq![','] + texts.last()
    }
}

/// How a predicate over the strings `texts` reads.
pub open spec fn rendering(negated: bool, texts: Seq<Seq<char>>) -> Seq<char> {
    (if negated {
        "NOT IN ("@
    } else {
        "IN ("@
    }) + joined(texts) + ")"@
}

/// A condition on the values of one column: to be one of a set, or to be
/// none of a set.
#[derive(Debug, Clone, PartialEq, Eq)]
pub enum Predicate {
    In(ValueSet),
    NotIn(ValueSet),
}

impl Predicate {
    /// Whether the predicate excludes its values.
    pub open spec fn negated(&self) -> bool {
        self is NotIn
    }

    /// The values that the predicate names.
    pub open spec fn set(&self) -> ValueSet {
        match *self {
            Predicate::In(s) => s,
            Predicate::NotIn(s) => s,
        }
    }

    /// The sets of both kinds keep their order.
    pub open spec fn wf(&self) -> bool {
        self.set().wf()
    }

    /// Whether a column value passes the predicate.
    pub open spec fn accepts(&self, v: Seq<u8>) -> bool {
        self.negated() != self.set()@.contains(v)
    }

    /// The set of the values of the strings.
    fn collect(vals: Vec<String>) -> (res: ValueSet)
        ensures
            res.wf(),
            res@ == byte_strings(vals@),
    {
        let mut set = ValueSet::new();
        let mut i: usize = 0;
        while i < vals.len()
            invariant
                i <= vals.len(),
                set.wf(),
                set@ == byte_strings(vals@.subrange(0, i as int)),
            decreases vals.len() - i,
        {
            let ghost prev = set@;
            set.insert(Value::new(vals[i].clone()));
            proof {
                let head = vals@.subrange(0, i as int);
                let next = vals@.subrange(0, i as int + 1);
                assert forall|x: Seq<u8>| byte_strings(next).contains(x) <==> prev.insert(
                    vstd::utf8::encode_utf8(vals@[i as int]@),
                ).contains(x) by {
                    if byte_strings(next).contains(x) {
                        let k = choose|k: int| 0 <= k < next.len() && vstd::utf8::encode_utf8(#[trigger] next[k]@) == x;
                        if k < i {
                            assert(head[k] == next[k]);
                        }
                    }
                    if prev.contains(x) {
                        let k = choose|k: int| 0 <= k < head.len() && vstd::utf8::encode_utf8(#[trigger] head[k]@) == x;
                        assert(next[k] == head[k]);
                    }
                    if x == vstd::utf8::encode_utf8(vals@[i as int]@) {
                        assert(next[i as int] == vals@[i as int]);
                    }
                }
                assert(set@ =~= byte_strings(next));
            }
            i += 1;
        }
        assert(vals@.subrange(0, i as int) =~= vals@);
        set
    }

    /// The predicate that accepts exactly the given values.
    pub fn new_in(in_vals: Vec<String>) -> (res: Predicate)
        ensures
            res is In,
            res.wf(),
            res.set()@ == byte_strings(in_vals@),
    {
        Predicate::In(Self::collect(in_vals))
    }

    /// The predicate that accepts everything but the given values.
    pub fn new_not_in(in_vals: Vec<String>) -> (res: Predicate)
        ensures
            res is NotIn,
            res.wf(),
            res.set()@ == byte_strings(in_vals@),
    {
        Predicate::NotIn(Self::collect(in_vals))
    }

    /// The values that the predicate names, in ascending order.
    pub fn values(&self) -> (res: &ValueSet)
        ensures
            *res == self.set(),
    {
        match self {
            Predicate::In(vals) => vals,
            Predicate::NotIn(vals) => vals,
        }
    }

    /// Whether `v` passes the predicate.
    pub fn test(&self, v: &Value) -> (res: bool)
        ensures
            res == self.accepts(v@),
    {
        match self {
            Predicate::In(vals) => vals.contains(v),
            Predicate::NotIn(vals) => !vals.contains(v),
        }
    }

    /// The predicate as text: `IN (` or `NOT IN (`, its values in ascending
    /// order with commas between them, and `)`.
    pub fn render(&self) -> (res: String)
        ensures
            res@ == rendering(self.negated(), self.set().texts()),
    {
        let mut out = match self {
            Predicate::In(_) => String::from_str("IN ("),
            Predicate::NotIn(_) => String::from_str("NOT IN ("),
        };
        let values = self.values();
        let ghost head = out@;
        let ghost texts = values.texts();
        let mut i: usize = 0;
        proof {
            reveal_strlit(",");
            assert(texts.subrange(0, 0) =~= Seq::<Seq<char>>::empty());
            assert(head + joined(texts.subrange(0, 0)) =~= head);
            values.lemma_texts();
        }
        while i < values.len()
            invariant
                i <= values.sequence().len(),
                texts == values.texts(),
                texts.len() == values.sequence().len(),
                ","@ == seq![','],
                out@ == head + joined(texts.subrange(0, i as int)),
            decreases values.sequence().len() - i,
        {
            let ghost done = texts.subrange(0, i as int);
            let ghost next = texts.subrange(0, i as int + 1);
            proof {
                assert(next.drop_last() =~= done);
                assert(next.last() == texts[i as int]);
            }
            if i > 0 {
                out.append(",");
                proof {
                    assert(out@ =~= head + (joined(done) + seq![',']));
                }
            } else {
                proof {
                    assert(joined(done) =~= Seq::<char>::empty());
                }
            }
            out.append(values.get(i).as_str());
            proof {
                assert(out@ =~= head + joined(next));
            }
            i += 1;
        }
        proof {
            assert(texts.subrange(0, i as int) =~= texts);
        }
        out.append(")");
        proof {
            assert(out@ =~= head + joined(texts) + ")"@);
        }
        out
    }
}

} // verus!
