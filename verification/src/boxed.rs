//! Bit sequences of fixed length.
//!
//! A [`BitBox`] owns its elements as a [`BitVec`] does, and cannot grow or
//! shrink.

use crate::cursor::Cursor;
use crate::store::BitStore;
use crate::vec::BitVec;
use vstd::prelude::*;

verus! {

/// A sequence of bits of fixed length, kept in elements of type `T` that are
/// traversed in the order `C`.
pub struct BitBox<C, T> {
    bits: BitVec<C, T>,
}

impl<C: Cursor, T: BitStore> View for BitBox<C, T> {
    type V = Seq<bool>;

    /// The bits of the sequence, first to last.
    closed spec fn view(&self) -> Seq<bool> {
        self.bits@
    }
}

impl<C: Cursor, T: BitStore> BitBox<C, T> {
    /// The invariant of the type: that of the vector it was made from.
    pub closed spec fn wf(&self) -> bool {
        self.bits.wf()
    }

    /// The vector with the bits of the sequence.
    pub fn into_bitvec(self) -> (r: BitVec<C, T>)
        requires
            self.wf(),
        ensures
            r.wf(),
            r@ == self@,
    {
        self.bits
    }

    /// The number of bits in the sequence.
    pub fn len(&self) -> (r: usize)
        requires
            self.wf(),
        ensures
            r == self@.len(),
    {
        proof {
            self.bits.lemma_len();
        }
        self.bits.len()
    }

    /// Whether the sequence holds no bit.
    pub fn is_empty(&self) -> (r: bool)
        requires
            self.wf(),
        ensures
            r == (self@.len() == 0),
    {
        proof {
            self.bits.lemma_len();
        }
        self.bits.is_empty()
    }

    /// Reads the bit `index`, if there is one.
    pub fn get(&self, index: usize) -> (r: Option<bool>)
        requires
            self.wf(),
        ensures
            r == (if index < self@.len() {
                Some(self@[index as int])
            } else {
                None
            }),
    {
        self.bits.get(index)
    }

    /// Sets the bit `index` to `value`.
    pub fn set(&mut self, index: usize, value: bool)
        requires
            old(self).wf(),
            index < old(self)@.len(),
        ensures
            final(self).wf(),
            final(self)@ == old(self)@.update(index as int, value),
    {
        self.bits.set(index, value)
    }
}

impl<C: Cursor, T: BitStore> BitVec<C, T> {
    /// Fixes the length of the vector.
    pub fn into_boxed_bitslice(self) -> (r: BitBox<C, T>)
        requires
            self.wf(),
        ensures
            r.wf(),
            r@ == self@,
    {
        BitBox { bits: self }
    }
}

} // verus!
