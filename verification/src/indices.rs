//! Bit indices.
//!
//! A [`BitIdx`] names one bit of an element by its semantic position: the
//! place the bit takes when the element is traversed in some order, not the
//! place it has in the element's value.

use crate::store::BitStore;
use core::marker::PhantomData;
use vstd::prelude::*;

verus! {

/// The semantic index of a bit within an element of type `T`.
///
/// The constructors only make indices that are less than the width of the
/// element: a number outside that range is refused, never reduced.
#[derive(Debug)]
pub struct BitIdx<T> {
    idx: u8,
    _ty: PhantomData<T>,
}

impl<T> Clone for BitIdx<T> {
    fn clone(&self) -> (r: Self)
        ensures
            r == *self,
    {
        BitIdx { idx: self.idx, _ty: PhantomData }
    }
}

impl<T> Copy for BitIdx<T> {

}

impl<T> BitIdx<T> {
    /// The index as a number.
    pub closed spec fn value(self) -> nat {
        self.idx as nat
    }

    /// The index as a number.
    pub fn get(self) -> (r: u8)
        ensures
            r == self.value(),
    {
        self.idx
    }
}

impl<T: BitStore> BitIdx<T> {
    /// Whether the index is less than the element's width.
    pub open spec fn wf(self) -> bool {
        self.value() < T::BITS
    }

    /// Makes an index from a number, or nothing if the number is not less
    /// than the element's width.
    pub fn new(idx: u8) -> (r: Option<Self>)
        ensures
            r is Some <==> idx < T::BITS,
            r matches Some(i) ==> i.value() == idx && i.wf(),
    {
        if idx < T::BITS {
            Some(BitIdx { idx, _ty: PhantomData })
        } else {
            None
        }
    }

    /// Finds the bit that lies `by` bits after this one (before it, if `by`
    /// is negative), counting through neighbouring elements.
    ///
    /// The first part of the result is the number of elements to move by,
    /// the second is the index within the element arrived at. Moving to lower
    /// elements rounds towards negative infinity, so that the index is always
    /// counted up from the start of its element.
    pub fn offset(self, by: isize) -> (r: (isize, Self))
        requires
            self.wf(),
        ensures
            r.1.wf(),
            r.0 * T::BITS + r.1.value() == self.value() + by,
    {
        proof {
            T::lemma_width();
        }
        let far: i128 = by as i128 + self.idx as i128;
        let width: i128 = T::BITS as i128;
        let elts = far.checked_div_euclid(width);
        let bit = far.checked_rem_euclid(width);
        proof {
            let f = far as int;
            if width == 8 {
                assert(f == 8 * (f / 8) + f % 8);
            } else if width == 16 {
                assert(f == 16 * (f / 16) + f % 16);
            } else if width == 32 {
                assert(f == 32 * (f / 32) + f % 32);
            } else {
                assert(f == 64 * (f / 64) + f % 64);
            }
        }
        (elts.unwrap() as isize, BitIdx { idx: bit.unwrap() as u8, _ty: PhantomData })
    }
}

impl<T> core::ops::Deref for BitIdx<T> {
    type Target = u8;

    fn deref(&self) -> (r: &u8)
        ensures
            *r == self.value(),
    {
        &self.idx
    }
}

/// Numbers that can serve as bit indices.
pub trait Indexable: Sized {
    /// The number.
    spec fn as_index(self) -> nat;

    /// Views the number as a semantic bit index of an element of type `T`.
    fn idx<T: BitStore>(self) -> (r: BitIdx<T>)
        requires
            self.as_index() < T::BITS,
        ensures
            r.value() == self.as_index(),
            r.wf(),
    ;
}

impl Indexable for u8 {
    open spec fn as_index(self) -> nat {
        self as nat
    }

    fn idx<T: BitStore>(self) -> (r: BitIdx<T>) {
        BitIdx { idx: self, _ty: PhantomData }
    }
}

} // verus!
