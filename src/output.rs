//! The materialized form of a map: the parts of a columnar byte array.
use vstd::prelude::*;

use crate::model::Key;

verus! {

/// Whether values are text or raw bytes.
#[derive(Clone, Copy, Debug, PartialEq, Eq, Structural)]
pub enum OutputType {
    /// UTF-8 text.
    Utf8,
    /// Arbitrary bytes.
    Binary,
}

/// The integer width of an array's offsets.
#[derive(Clone, Copy, Debug, PartialEq, Eq, Structural)]
pub enum OffsetWidth {
    /// 32-bit signed offsets.
    Standard,
    /// 64-bit signed offsets.
    Large,
}

impl OffsetWidth {
    /// The largest byte offset that the width can hold.
    pub open spec fn max_offset(self) -> nat {
        match self {
            OffsetWidth::Standard => 0x7fff_ffff,
            OffsetWidth::Large => 0x7fff_ffff_ffff_ffff,
        }
    }
}

/// A columnar byte array: value `i` is `values[offsets[i]..offsets[i + 1]]`,
/// or null where `validity` is present and false at `i`.
pub struct BytesArray {
    pub output_type: OutputType,
    pub offset_width: OffsetWidth,
    pub offsets: Vec<usize>,
    pub values: Vec<u8>,
    pub validity: Option<Vec<bool>>,
}

impl BytesArray {
    /// Number of values.
    pub open spec fn num_values(&self) -> int {
        self.offsets@.len() - 1
    }

    /// Value `i`, `None` for null.
    pub open spec fn value_at(&self, i: int) -> Key {
        if self.validity matches Some(v) && !v@[i] {
            None
        } else {
            Some(self.values@.subrange(self.offsets@[i] as int, self.offsets@[i + 1] as int))
        }
    }

    /// The values in order.
    pub open spec fn decoded(&self) -> Seq<Key> {
        Seq::new(self.num_values() as nat, |i: int| self.value_at(i))
    }

    /// The layout that a columnar array demands: offsets start at zero, never
    /// decrease, end at the length of the value bytes and fit the offset
    /// width; a validity mask has one bit per value.
    pub open spec fn well_formed(&self) -> bool {
        &&& self.offsets@.len() >= 1
        &&& self.offsets@[0] == 0
        &&& forall|i: int, j: int|
            0 <= i <= j < self.offsets@.len() ==> self.offsets@[i] <= self.offsets@[j]
        &&& self.offsets@.last() == self.values@.len()
        &&& self.values@.len() <= self.offset_width.max_offset()
        &&& self.validity matches Some(v) ==> v@.len() == self.num_values()
    }
}

/// A validity mask of `num_values` bits in which only `null_index` is unset.
pub fn single_null_buffer(num_values: usize, null_index: usize) -> (r: Vec<bool>)
    requires
        null_index < num_values,
    ensures
        r@.len() == num_values,
        forall|i: int| 0 <= i < num_values ==> r@[i] == (i != null_index),
{
    let mut r: Vec<bool> = Vec::with_capacity(num_values);
    let mut i: usize = 0;
    while i < num_values
        invariant
            i <= num_values,
            r@.len() == i,
            forall|j: int| 0 <= j < i ==> r@[j] == (j != null_index),
        decreases num_values - i,
    {
        r.push(i != null_index);
        i = i + 1;
    }
    r
}

} // verus!
