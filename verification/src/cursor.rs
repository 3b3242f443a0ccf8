//! Bit orders.
//!
//! A [`Cursor`] decides in which order the bits of one element are
//! traversed: it maps the semantic index of a bit to the physical position
//! of that bit in the element's value.

use crate::bits::{lemma_one_hot_bits, lemma_one_hot_fits, ones64};
use crate::indices::BitIdx;
use crate::store::BitStore;
use vstd::prelude::*;
use vstd::std_specs::bits::axiom_u64_trailing_zeros;

verus! {

/// An order in which the bits of an element are traversed.
pub trait Cursor: Sized {
    /// The physical position of the bit with semantic index `idx` in an
    /// element of `width` bits.
    spec fn at_spec(width: nat, idx: nat) -> nat;

    /// The semantic index of the bit at the physical position `pos` in an
    /// element of `width` bits.
    spec fn index_spec(width: nat, pos: nat) -> nat;

    /// A semantic index maps to a position within the element, from which
    /// the index is found again.
    proof fn lemma_at(width: nat, idx: nat)
        requires
            idx < width,
        ensures
            Self::at_spec(width, idx) < width,
            Self::index_spec(width, Self::at_spec(width, idx)) == idx,
    ;

    /// A position maps to a semantic index within the element, from which
    /// the position is found again.
    proof fn lemma_index(width: nat, pos: nat)
        requires
            pos < width,
        ensures
            Self::index_spec(width, pos) < width,
            Self::at_spec(width, Self::index_spec(width, pos)) == pos,
    ;

    /// The physical position of the bit with semantic index `idx` in an
    /// element of `width` bits.
    fn at(width: u8, idx: u8) -> (pos: u8)
        requires
            idx < width,
        ensures
            pos == Self::at_spec(width as nat, idx as nat),
    ;

    /// The semantic index of the bit at the physical position `pos` in an
    /// element of `width` bits.
    fn index(width: u8, pos: u8) -> (idx: u8)
        requires
            pos < width,
        ensures
            idx == Self::index_spec(width as nat, pos as nat),
    ;
}

/// Traverses an element from its most significant bit to its least.
#[derive(Clone, Copy, Debug, PartialEq, Eq)]
pub struct BigEndian;

/// Traverses an element from its least significant bit to its most.
#[derive(Clone, Copy, Debug, PartialEq, Eq)]
pub struct LittleEndian;

/// The order used where none is named.
pub type Local = LittleEndian;

impl Cursor for BigEndian {
    open spec fn at_spec(width: nat, idx: nat) -> nat {
        (width - 1 - idx) as nat
    }

    open spec fn index_spec(width: nat, pos: nat) -> nat {
        (width - 1 - pos) as nat
    }

    proof fn lemma_at(width: nat, idx: nat) {
    }

    proof fn lemma_index(width: nat, pos: nat) {
    }

    fn at(width: u8, idx: u8) -> (pos: u8) {
        width - 1 - idx
    }

    fn index(width: u8, pos: u8) -> (idx: u8) {
        width - 1 - pos
    }
}

impl Cursor for LittleEndian {
    open spec fn at_spec(width: nat, idx: nat) -> nat {
        idx
    }

    open spec fn index_spec(width: nat, pos: nat) -> nat {
        pos
    }

    proof fn lemma_at(width: nat, idx: nat) {
    }

    proof fn lemma_index(width: nat, pos: nat) {
    }

    fn at(width: u8, idx: u8) -> (pos: u8) {
        idx
    }

    fn index(width: u8, pos: u8) -> (idx: u8) {
        pos
    }
}

/// Finds the semantic index that `mask` selects.
///
/// This is the inverse of `BitStore::mask`: it answers with an index exactly
/// when `mask` is the mask of an index, which is when it has a single bit
/// set, and then with that index.
pub fn position_of<C: Cursor, T: BitStore>(mask: T) -> (r: Option<BitIdx<T>>)
    ensures
        r matches Some(idx) ==> idx.wf() && mask.raw() == 1u64 << (C::at_spec(
            T::BITS as nat,
            idx.value(),
        ) as u64),
        forall|i: nat|
            i < T::BITS && mask.raw() == 1u64 << (#[trigger] C::at_spec(T::BITS as nat, i) as u64)
                ==> (r matches Some(idx) && idx.value() == i),
{
    let value = mask.widen();
    let low = value.trailing_zeros();
    proof {
        T::lemma_width();
        mask.lemma_raw();
        axiom_u64_trailing_zeros(value);
        let w = T::BITS as u64;
        let l = low as u64;
        assert(l < 64 && (value >> l) & 1 == 1 && value <= ones64(w) && 0 < w <= 64 ==> l < w)
            by (bit_vector);
        assert forall|i: nat| i < T::BITS && value == 1u64 << (#[trigger] C::at_spec(
            T::BITS as nat,
            i,
        ) as u64) implies i == C::index_spec(T::BITS as nat, low as nat) && value == 1u64 << l
            && low < T::BITS by {
            let pos = C::at_spec(T::BITS as nat, i) as u64;
            C::lemma_at(T::BITS as nat, i);
            lemma_one_hot_fits(pos, w);
            lemma_one_hot_bits(pos, l);
        }
    }
    if value == 0 || low >= T::BITS as u32 {
        return None;
    }
    let pos = low as u8;
    if T::one_hot(pos).same(mask) {
        proof {
            C::lemma_index(T::BITS as nat, pos as nat);
        }
        BitIdx::new(C::index(T::BITS, pos))
    } else {
        None
    }
}

} // verus!
