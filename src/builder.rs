//! Append-only construction of a boolean column.

use crate::bitmap::freeze;
use crate::bitmap::mutable_bits;
use crate::column::BooleanColumn;
use arrow2::bitmap::MutableBitmap;
use vstd::prelude::*;

verus! {

/// An exclusively owned, growable boolean column that is frozen once into an
/// immutable [`BooleanColumn`].
pub struct MutableBooleanColumn {
    pub(crate) values: MutableBitmap,
}

impl View for MutableBooleanColumn {
    type V = Seq<bool>;

    closed spec fn view(&self) -> Seq<bool> {
        mutable_bits(self.values)
    }
}

impl MutableBooleanColumn {
    /// An empty builder, sized for `capacity` values.
    pub fn with_capacity(capacity: usize) -> (r: Self)
        ensures
            r@ == Seq::<bool>::empty(),
    {
        MutableBooleanColumn { values: MutableBitmap::with_capacity(capacity) }
    }

    /// Number of values appended so far.
    pub fn len(&self) -> (r: usize)
        ensures
            r == self@.len(),
    {
        self.values.len()
    }

    /// Appends one value.
    pub fn append_value(&mut self, value: bool)
        requires
            old(self)@.len() < usize::MAX,
        ensures
            final(self)@ == old(self)@.push(value),
    {
        self.values.push(value);
    }

    /// Appends `count` copies of `value`.
    pub fn append_constant(&mut self, count: usize, value: bool)
        requires
            old(self)@.len() + count <= usize::MAX,
        ensures
            final(self)@ == old(self)@ + Seq::new(count as nat, |_j: int| value),
    {
        self.values.extend_constant(count, value);
    }

    /// Freezes the appended values into an immutable column.
    pub fn to_column(self) -> (r: BooleanColumn)
        ensures
            r@ == self@,
    {
        BooleanColumn::from_bitmap(freeze(self.values))
    }
}

} // verus!
