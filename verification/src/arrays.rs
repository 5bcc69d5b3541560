//! Arrow string-view arrays made from the columns read from a cache.

use arrow::array::StringViewArray;
use vstd::prelude::*;
use crate::cache::ColumnBatch;
use crate::node::tuple_of;
use crate::value::Value;

verus! {

/// The greatest number of values that is put into one array.
pub const MAX_ARRAY_VALUES: usize = 0x07ff_ffff;

/// The greatest number of bytes of a value that is put into an array.
pub const MAX_VALUE_BYTES: usize = 0x7fff_ffff;

/// An Arrow array of strings without nulls. Of what it holds nothing is
/// known here but what `array_values` names.
#[verifier::external_body]
#[derive(Debug)]
pub struct Column {
    pub array: StringViewArray,
}

/// The strings that an array holds, as bytes, in their order.
pub uninterp spec fn array_values(column: Column) -> Seq<Seq<u8>>;

/// `StringViewArray::from_iter_values`: the array of the given strings, in
/// their order, none of them null. This is believed of Arrow, not proved.
/// Arrow refuses strings and block counts beyond what 32 bits hold, and
/// reserves 16 bytes for each value at once: the bounds keep clear of both.
#[verifier::external_body]
fn string_view_array(values: &Vec<Value>) -> (res: Column)
    requires
        fits(values@),
    ensures
        array_values(res) == tuple_of(values@),
{
    Column { array: StringViewArray::from_iter_values(values.iter().map(|v| v.as_str())) }
}

/// Whether the values are few and short enough for one array.
pub open spec fn fits(values: Seq<Value>) -> bool {
    &&& values.len() <= MAX_ARRAY_VALUES
    &&& forall|i: int| 0 <= i < values.len() ==> (#[trigger] values[i])@.len() <= MAX_VALUE_BYTES
}

/// Whether the values are few and short enough for one array.
pub fn check_fits(values: &Vec<Value>) -> (res: bool)
    ensures
        res == fits(values@),
{
    if values.len() > MAX_ARRAY_VALUES {
        return false;
    }
    let mut i: usize = 0;
    while i < values.len()
        invariant
            i <= values.len(),
            values.len() <= MAX_ARRAY_VALUES,
            forall|k: int| 0 <= k < i ==> (#[trigger] values@[k])@.len() <= MAX_VALUE_BYTES,
        decreases values.len() - i,
    {
        if values[i].len() > MAX_VALUE_BYTES {
            return false;
        }
        i += 1;
    }
    true
}

impl ColumnBatch {
    /// The columns as Arrow arrays, each of the values of its column in
    /// their order; nothing where a column is too long for an array or
    /// holds a value that is.
    pub fn to_arrays(&self) -> (res: Option<Vec<Column>>)
        ensures
            match res {
                Some(arrays) => {
                    &&& arrays@.len() == self.columns@.len()
                    &&& forall|d: int|
                        0 <= d < arrays@.len() ==> array_values(#[trigger] arrays@[d]) == tuple_of(
                            self.columns@[d]@,
                        )
                    &&& forall|d: int| 0 <= d < self.columns@.len() ==> fits(#[trigger] self.columns@[d]@)
                },
                None => exists|d: int| 0 <= d < self.columns@.len() && !fits(#[trigger] self.columns@[d]@),
            },
    {
        let mut arrays: Vec<Column> = Vec::new();
        let mut d: usize = 0;
        while d < self.columns.len()
            invariant
                d <= self.columns.len(),
                arrays@.len() == d,
                forall|k: int| 0 <= k < d ==> array_values(#[trigger] arrays@[k]) == tuple_of(self.columns@[k]@),
                forall|k: int| 0 <= k < d ==> fits(#[trigger] self.columns@[k]@),
            decreases self.columns.len() - d,
        {
            if !check_fits(&self.columns[d]) {
                return None;
            }
            arrays.push(string_view_array(&self.columns[d]));
            d += 1;
        }
        Some(arrays)
    }
}

} // verus!
