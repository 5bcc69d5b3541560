//! Cache values and their byte-wise lexicographic order.

use vstd::prelude::*;
use vstd::string::*;
use vstd::utf8::*;

verus! {

/// Whether `a` comes strictly before `b` lexicographically, looking only at
/// the bytes from index `i` on.
pub open spec fn precedes_from(a: Seq<u8>, b: Seq<u8>, i: int) -> bool
    decreases a.len() - i,
{
    if i < 0 || i >= b.len() {
        false
    } else if i >= a.len() {
        true
    } else if a[i] != b[i] {
        a[i] < b[i]
    } else {
        precedes_from(a, b, i + 1)
    }
}

/// The strict lexicographic order on byte strings.
pub open spec fn precedes(a: Seq<u8>, b: Seq<u8>) -> bool {
    precedes_from(a, b, 0)
}

/// Whether `a` and `b` hold the same bytes from index `i` on.
pub open spec fn same_from(a: Seq<u8>, b: Seq<u8>, i: int) -> bool {
    &&& a.len() == b.len()
    &&& forall|j: int| i <= j < a.len() ==> a[j] == b[j]
}

/// From no index on does a byte string come before itself.
pub proof fn lemma_precedes_from_irreflexive(a: Seq<u8>, i: int)
    ensures
        !precedes_from(a, a, i),
    decreases a.len() - i,
{
    if 0 <= i < a.len() {
        lemma_precedes_from_irreflexive(a, i + 1);
    }
}

/// From any index on the order is transitive.
pub proof fn lemma_precedes_from_transitive(a: Seq<u8>, b: Seq<u8>, c: Seq<u8>, i: int)
    requires
        precedes_from(a, b, i),
        precedes_from(b, c, i),
    ensures
        precedes_from(a, c, i),
    decreases a.len() - i,
{
    if i < a.len() && a[i] == b[i] && b[i] == c[i] {
        lemma_precedes_from_transitive(a, b, c, i + 1);
    }
}

/// Two byte strings of which, from `i` on, neither comes before the other
/// are the same from `i` on.
pub proof fn lemma_precedes_from_connected(a: Seq<u8>, b: Seq<u8>, i: int)
    requires
        0 <= i <= a.len(),
        i <= b.len(),
        !precedes_from(a, b, i),
        !precedes_from(b, a, i),
    ensures
        same_from(a, b, i),
    decreases a.len() - i,
{
    if i < a.len() && i < b.len() {
        lemma_precedes_from_connected(a, b, i + 1);
    }
}

/// No byte string comes before itself.
pub proof fn lemma_precedes_irreflexive(a: Seq<u8>)
    ensures
        !precedes(a, a),
{
    lemma_precedes_from_irreflexive(a, 0);
}

/// The order is transitive.
pub proof fn lemma_precedes_transitive(a: Seq<u8>, b: Seq<u8>, c: Seq<u8>)
    requires
        precedes(a, b),
        precedes(b, c),
    ensures
        precedes(a, c),
{
    lemma_precedes_from_transitive(a, b, c, 0);
}

/// Two byte strings of which neither comes before the other are equal.
pub proof fn lemma_precedes_connected(a: Seq<u8>, b: Seq<u8>)
    requires
        !precedes(a, b),
        !precedes(b, a),
    ensures
        a == b,
{
    lemma_precedes_from_connected(a, b, 0);
    assert(a =~= b);
}

/// One column value: an immutable string, ordered by its bytes.
#[derive(Debug, PartialEq, Eq, PartialOrd, Ord, Hash)]
pub struct Value {
    text: String,
}

impl View for Value {
    type V = Seq<u8>;

    /// The UTF-8 bytes of the string.
    closed spec fn view(&self) -> Seq<u8> {
        encode_utf8(self.text@)
    }
}

impl Clone for Value {
    fn clone(&self) -> (res: Self)
        ensures
            res == *self,
    {
        Value { text: self.text.clone() }
    }
}

impl From<String> for Value {
    fn from(value: String) -> (res: Value) {
        Value { text: value }
    }
}

impl vstd::std_specs::convert::FromSpecImpl<String> for Value {
    open spec fn obeys_from_spec() -> bool {
        true
    }

    closed spec fn from_spec(value: String) -> Value {
        Value { text: value }
    }
}

impl Value {
    /// The characters of the string.
    pub closed spec fn chars(&self) -> Seq<char> {
        self.text@
    }

    /// The bytes of a value are the UTF-8 encoding of its characters.
    pub proof fn lemma_bytes(&self)
        ensures
            self@ == encode_utf8(self.chars()),
    {
    }

    /// The value made from a string holds its characters.
    pub proof fn lemma_from(text: String)
        ensures
            <Value as vstd::std_specs::convert::FromSpec<String>>::from_spec(text).chars() == text@,
    {
    }

    /// Wraps a string.
    pub fn new(text: String) -> (res: Self)
        ensures
            res.chars() == text@,
            res@ == encode_utf8(text@),
    {
        Value { text }
    }

    /// The string itself.
    pub fn as_str(&self) -> (res: &str)
        ensures
            res@ == self.chars(),
            res.spec_bytes() == self@,
    {
        self.text.as_str()
    }

    /// The number of bytes of the string.
    pub fn len(&self) -> (res: usize)
        ensures
            res == self@.len(),
    {
        self.text.as_str().as_bytes().len()
    }

    /// Whether both values hold the same string.
    pub fn same(&self, other: &Value) -> (res: bool)
        ensures
            res == (self@ == other@),
    {
        proof {
            encode_utf8_decode_utf8(self.text@);
            encode_utf8_decode_utf8(other.text@);
        }
        self.text == other.text
    }

    /// Whether this value comes strictly before `other`.
    pub fn precedes(&self, other: &Value) -> (res: bool)
        ensures
            res == precedes(self@, other@),
    {
        let a = self.text.as_str().as_bytes();
        let b = other.text.as_str().as_bytes();
        let mut i: usize = 0;
        while i < a.len() && i < b.len()
            invariant
                a@ == self@,
                b@ == other@,
                i <= a.len(),
                i <= b.len(),
                precedes(a@, b@) == precedes_from(a@, b@, i as int),
            decreases a.len() - i,
        {
            if a[i] != b[i] {
                return a[i] < b[i];
            }
            i += 1;
        }
        i < b.len()
    }
}

} // verus!
