//! Storage elements.
//!
//! [`BitStore`] generalises over the unsigned integers that can back a bit
//! sequence. It names the width of the element, offers the element-wide bit
//! operations that the rest of the library is built from, and provides
//! access to single bits of one element.

use crate::bits::{
    bit_of, count_ones_spec, lemma_clear_bit, lemma_count_ones_complement, lemma_not_within,
    lemma_one_hot_distinct, lemma_one_hot_fits, lemma_ones_bits, lemma_ones_values, lemma_set_bit,
    lemma_test_bit, lemma_with_bit_commutes, lemma_zero_bits, ones, population,
    supported_width, with_bit,
};
use crate::cursor::Cursor;
use crate::indices::BitIdx;
use vstd::prelude::*;

verus! {

/// Marker of the types that implement [`BitStore`].
pub trait Sealed {

}

/// Whether the bit at the semantic index `idx` of `elem` is set, when the
/// element is traversed in the order `C`.
pub open spec fn bit_at<C: Cursor, T: BitStore>(elem: T, idx: nat) -> bool {
    bit_of(elem.raw(), C::at_spec(T::BITS as nat, idx))
}

/// The single-bit value that selects the semantic index `idx` of an element
/// of type `T` in the order `C`.
pub open spec fn mask_of<C: Cursor, T: BitStore>(idx: nat) -> u64 {
    1u64 << (C::at_spec(T::BITS as nat, idx) as u64)
}

/// An unsigned integer that can back a bit sequence.
///
/// Implemented for `u8`, `u16`, `u32` and `u64`.
pub trait BitStore: Sealed + Copy + Sized {
    /// The width of the element, in bits.
    const BITS: u8;

    /// The number of bits needed to index a bit of the element: the base-two
    /// logarithm of `BITS`.
    const INDX: u8;

    /// The mask that turns any number into a bit index: `BITS - 1`.
    const MASK: u8;

    /// The type through which several threads can share one element of
    /// this type.
    type Access;

    /// The value of the element, as an unsigned integer.
    spec fn raw(self) -> u64;

    /// The three constants describe one of the supported widths.
    proof fn lemma_width()
        ensures
            supported_width(Self::BITS as nat, Self::INDX as nat, Self::MASK as nat),
    ;

    /// An element's value fits in its width.
    proof fn lemma_raw(self)
        ensures
            self.raw() <= ones(Self::BITS as nat),
    ;

    /// Elements with the same value are the same element.
    proof fn lemma_raw_injective(self, other: Self)
        requires
            self.raw() == other.raw(),
        ensures
            self == other,
    ;

    /// The element with the value `value`.
    fn from_byte(value: u8) -> (r: Self)
        ensures
            r.raw() == value,
    ;

    /// The element's value, zero-extended to 64 bits.
    fn widen(self) -> (r: u64)
        ensures
            r == self.raw(),
    ;

    /// Bitwise and.
    fn bit_and(self, rhs: Self) -> (r: Self)
        ensures
            r.raw() == self.raw() & rhs.raw(),
    ;

    /// Bitwise or.
    fn bit_or(self, rhs: Self) -> (r: Self)
        ensures
            r.raw() == self.raw() | rhs.raw(),
    ;

    /// Bitwise complement, within the element's width.
    fn bit_not(self) -> (r: Self)
        ensures
            r.raw() == !self.raw() & ones(Self::BITS as nat),
    ;

    /// Shift towards the most significant bit; bits shifted out are lost.
    fn shift_left(self, by: u8) -> (r: Self)
        requires
            by < Self::BITS,
        ensures
            r.raw() == (self.raw() << (by as u64)) & ones(Self::BITS as nat),
    ;

    /// Whether two elements hold the same value.
    fn same(self, rhs: Self) -> (r: bool)
        ensures
            r == (self.raw() == rhs.raw()),
    ;

    /// The element in which only the bit at the physical position `pos` is
    /// set.
    fn one_hot(pos: u8) -> (r: Self)
        requires
            pos < Self::BITS,
        ensures
            r.raw() == 1u64 << (pos as u64),
    {
        proof {
            Self::lemma_width();
            lemma_one_hot_fits(pos as u64, Self::BITS as u64);
            assert(1u64 << 0u64 == 1) by (bit_vector);
        }
        Self::from_byte(1).shift_left(pos)
    }

    /// The element in which only the bit at `place` is set.
    fn mask<C: Cursor>(place: BitIdx<Self>) -> (mask: Self)
        requires
            place.value() < Self::BITS,
        ensures
            mask.raw() == 1u64 << (C::at_spec(Self::BITS as nat, place.value()) as u64),
    {
        proof {
            C::lemma_at(Self::BITS as nat, place.value());
        }
        Self::one_hot(C::at(Self::BITS, place.get()))
    }

    /// The element in which exactly the bits with semantic indices from
    /// `from` up to, but not including, `to` are set.
    fn mask_range<C: Cursor>(from: u8, to: u8) -> (mask: Self)
        requires
            from <= to <= Self::BITS,
        ensures
            forall|i: nat|
                i < Self::BITS ==> #[trigger] bit_of(mask.raw(), C::at_spec(Self::BITS as nat, i))
                    == (from <= i < to),
    {
        let mut mask = Self::from_byte(0);
        let mut i = from;
        proof {
            Self::lemma_width();
            assert forall|j: nat| j < Self::BITS implies #[trigger] bit_of(
                mask.raw(),
                C::at_spec(Self::BITS as nat, j),
            ) == (from <= j < i) by {
                C::lemma_at(Self::BITS as nat, j);
                lemma_zero_bits(C::at_spec(Self::BITS as nat, j) as u64);
            }
        }
        while i < to
            invariant
                from <= i <= to <= Self::BITS,
                Self::BITS <= 64,
                forall|j: nat|
                    j < Self::BITS ==> #[trigger] bit_of(
                        mask.raw(),
                        C::at_spec(Self::BITS as nat, j),
                    ) == (from <= j < i),
            decreases to - i,
        {
            proof {
                C::lemma_at(Self::BITS as nat, i as nat);
            }
            let ghost before = mask;
            let pos = C::at(Self::BITS, i);
            mask = mask.bit_or(Self::one_hot(pos));
            proof {
                assert forall|j: nat| j < Self::BITS implies #[trigger] bit_of(
                    mask.raw(),
                    C::at_spec(Self::BITS as nat, j),
                ) == (from <= j < i + 1) by {
                    C::lemma_at(Self::BITS as nat, j);
                    let q = C::at_spec(Self::BITS as nat, j);
                    lemma_set_bit(before.raw(), pos as u64, q as u64);
                    assert(bit_of(before.raw(), q) == (from <= j < i));
                }
            }
            i = i + 1;
        }
        mask
    }

    /// Sets the bit at `place` to `value`, leaving every other bit as it was.
    fn set<C: Cursor>(&mut self, place: BitIdx<Self>, value: bool)
        requires
            place.value() < Self::BITS,
        ensures
            final(self).raw() == with_bit(
                old(self).raw(),
                C::at_spec(Self::BITS as nat, place.value()),
                value,
            ),
            forall|i: nat|
                i < Self::BITS ==> #[trigger] bit_of(
                    final(self).raw(),
                    C::at_spec(Self::BITS as nat, i),
                ) == (if i == place.value() {
                    value
                } else {
                    bit_of(old(self).raw(), C::at_spec(Self::BITS as nat, i))
                }),
    {
        let mask = Self::mask::<C>(place);
        let ghost before = *self;
        if value {
            *self = self.bit_or(mask);
        } else {
            *self = self.bit_and(mask.bit_not());
        }
        proof {
            let width = Self::BITS as nat;
            let hot = C::at_spec(width, place.value());
            Self::lemma_width();
            C::lemma_at(width, place.value());
            before.lemma_raw();
            lemma_not_within(before.raw(), hot as u64, width as u64);
            assert forall|i: nat| i < Self::BITS implies #[trigger] bit_of(
                self.raw(),
                C::at_spec(width, i),
            ) == (if i == place.value() {
                value
            } else {
                bit_of(before.raw(), C::at_spec(width, i))
            }) by {
                let pos = C::at_spec(width, i);
                C::lemma_at(width, i);
                if value {
                    lemma_set_bit(before.raw(), hot as u64, pos as u64);
                } else {
                    lemma_clear_bit(before.raw(), hot as u64, pos as u64);
                }
            }
        }
    }

    /// Reads the bit at `place`.
    fn get<C: Cursor>(&self, place: BitIdx<Self>) -> (bit: bool)
        requires
            place.value() < Self::BITS,
        ensures
            bit == bit_of(self.raw(), C::at_spec(Self::BITS as nat, place.value())),
    {
        let mask = Self::mask::<C>(place);
        proof {
            Self::lemma_width();
            C::lemma_at(Self::BITS as nat, place.value());
            lemma_test_bit(self.raw(), C::at_spec(Self::BITS as nat, place.value()) as u64);
        }
        !self.bit_and(mask).same(Self::from_byte(0))
    }

    /// Counts the bits of the element that are set.
    fn count_ones(&self) -> (count: usize)
        ensures
            count == count_ones_spec(self.raw()),
            count <= Self::BITS,
    {
        proof {
            Self::lemma_width();
            self.lemma_raw();
            lemma_count_ones_complement(self.raw(), Self::BITS as nat);
        }
        population(self.widen()) as usize
    }

    /// Counts the bits of the element that are clear.
    fn count_zeros(&self) -> (count: usize)
        ensures
            count == Self::BITS - count_ones_spec(self.raw()),
    {
        proof {
            Self::lemma_width();
            self.lemma_raw();
            lemma_not_within(self.raw(), 0, Self::BITS as u64);
            lemma_count_ones_complement(self.raw(), Self::BITS as nat);
        }
        population(self.bit_not().widen()) as usize
    }

    /// The element in which every bit equals `bit`.
    fn bits(bit: bool) -> (r: Self)
        ensures
            r.raw() == (if bit {
                ones(Self::BITS as nat)
            } else {
                0
            }),
    {
        let zero = Self::from_byte(0);
        if bit {
            proof {
                let all = ones(Self::BITS as nat);
                assert(!0u64 & all == all) by (bit_vector);
            }
            zero.bit_not()
        } else {
            zero
        }
    }
}

/// The masks of two different bits of an element differ, and share no bit.
pub proof fn lemma_masks_distinct<C: Cursor, T: BitStore>(i: nat, j: nat)
    requires
        i < T::BITS,
        j < T::BITS,
        i != j,
    ensures
        mask_of::<C, T>(i) != mask_of::<C, T>(j),
        mask_of::<C, T>(i) & mask_of::<C, T>(j) == 0,
{
    T::lemma_width();
    C::lemma_at(T::BITS as nat, i);
    C::lemma_at(T::BITS as nat, j);
    lemma_one_hot_distinct(
        C::at_spec(T::BITS as nat, i) as u64,
        C::at_spec(T::BITS as nat, j) as u64,
    );
}

/// Every physical bit of an element is the mask of one of its semantic
/// indices: together, the masks cover the whole element.
pub proof fn lemma_masks_cover<C: Cursor, T: BitStore>(pos: nat)
    requires
        pos < T::BITS,
    ensures
        C::index_spec(T::BITS as nat, pos) < T::BITS,
        mask_of::<C, T>(C::index_spec(T::BITS as nat, pos)) == 1u64 << (pos as u64),
        bit_of(ones(T::BITS as nat), pos),
{
    T::lemma_width();
    C::lemma_index(T::BITS as nat, pos);
    lemma_ones_bits(T::BITS as u64, pos as u64);
}

/// Writes to two different bits of one element give the same element in
/// either order. Where each write is made as a whole, as the atomic
/// integers make it, this is what two threads that write to different bits
/// of one element leave, whichever of them comes first.
pub proof fn lemma_disjoint_writes_commute<C: Cursor, T: BitStore>(
    elem: T,
    i: nat,
    a: bool,
    j: nat,
    b: bool,
)
    requires
        i < T::BITS,
        j < T::BITS,
        i != j,
    ensures
        with_bit(
            with_bit(elem.raw(), C::at_spec(T::BITS as nat, i), a),
            C::at_spec(T::BITS as nat, j),
            b,
        ) == with_bit(
            with_bit(elem.raw(), C::at_spec(T::BITS as nat, j), b),
            C::at_spec(T::BITS as nat, i),
            a,
        ),
{
    T::lemma_width();
    C::lemma_at(T::BITS as nat, i);
    C::lemma_at(T::BITS as nat, j);
    lemma_with_bit_commutes(
        elem.raw(),
        C::at_spec(T::BITS as nat, i),
        a,
        C::at_spec(T::BITS as nat, j),
        b,
    );
}

/// Every bit of `BitStore::bits(bit)` reads as `bit`, in any order.
pub proof fn lemma_bits_uniform<C: Cursor, T: BitStore>(elem: T, bit: bool, idx: nat)
    requires
        elem.raw() == (if bit {
            ones(T::BITS as nat)
        } else {
            0
        }),
        idx < T::BITS,
    ensures
        bit_at::<C, T>(elem, idx) == bit,
{
    T::lemma_width();
    C::lemma_at(T::BITS as nat, idx);
    let pos = C::at_spec(T::BITS as nat, idx) as u64;
    lemma_ones_bits(T::BITS as u64, pos);
    lemma_zero_bits(pos);
}

proof fn lemma_u8(a: u8, b: u8, by: u8)
    by (bit_vector)
    requires
        by < 8,
    ensures
        (a & b) as u64 == (a as u64) & (b as u64),
        (a | b) as u64 == (a as u64) | (b as u64),
        (!a) as u64 == !(a as u64) & 0xff,
        (a << by) as u64 == ((a as u64) << (by as u64)) & 0xff,
{
}

impl Sealed for u8 {

}

impl BitStore for u8 {
    type Access = core::sync::atomic::AtomicU8;

    const BITS: u8 = 8;

    const INDX: u8 = 3;

    const MASK: u8 = 7;

    open spec fn raw(self) -> u64 {
        self as u64
    }

    proof fn lemma_width() {
        assert(Self::BITS == 8);
        assert(Self::INDX == 3);
        assert(Self::MASK == 7);
    }

    proof fn lemma_raw(self) {
        lemma_ones_values();
    }

    proof fn lemma_raw_injective(self, other: Self) {
    }

    fn from_byte(value: u8) -> (r: Self) {
        value
    }

    fn widen(self) -> (r: u64) {
        self as u64
    }

    fn bit_and(self, rhs: Self) -> (r: Self) {
        proof {
            lemma_u8(self, rhs, 0);
        }
        self & rhs
    }

    fn bit_or(self, rhs: Self) -> (r: Self) {
        proof {
            lemma_u8(self, rhs, 0);
        }
        self | rhs
    }

    fn bit_not(self) -> (r: Self) {
        proof {
            lemma_u8(self, self, 0);
            lemma_ones_values();
        }
        !self
    }

    fn shift_left(self, by: u8) -> (r: Self) {
        proof {
            lemma_u8(self, self, by);
            lemma_ones_values();
        }
        self << by
    }

    fn same(self, rhs: Self) -> (r: bool) {
        self == rhs
    }
}

proof fn lemma_u16(a: u16, b: u16, by: u8)
    by (bit_vector)
    requires
        by < 16,
    ensures
        (a & b) as u64 == (a as u64) & (b as u64),
        (a | b) as u64 == (a as u64) | (b as u64),
        (!a) as u64 == !(a as u64) & 0xffff,
        (a << by) as u64 == ((a as u64) << (by as u64)) & 0xffff,
{
}

impl Sealed for u16 {

}

impl BitStore for u16 {
    type Access = core::sync::atomic::AtomicU16;

    const BITS: u8 = 16;

    const INDX: u8 = 4;

    const MASK: u8 = 15;

    open spec fn raw(self) -> u64 {
        self as u64
    }

    proof fn lemma_width() {
        assert(Self::BITS == 16);
        assert(Self::INDX == 4);
        assert(Self::MASK == 15);
    }

    proof fn lemma_raw(self) {
        lemma_ones_values();
    }

    proof fn lemma_raw_injective(self, other: Self) {
    }

    fn from_byte(value: u8) -> (r: Self) {
        value as u16
    }

    fn widen(self) -> (r: u64) {
        self as u64
    }

    fn bit_and(self, rhs: Self) -> (r: Self) {
        proof {
            lemma_u16(self, rhs, 0);
        }
        self & rhs
    }

    fn bit_or(self, rhs: Self) -> (r: Self) {
        proof {
            lemma_u16(self, rhs, 0);
        }
        self | rhs
    }

    fn bit_not(self) -> (r: Self) {
        proof {
            lemma_u16(self, self, 0);
            lemma_ones_values();
        }
        !self
    }

    fn shift_left(self, by: u8) -> (r: Self) {
        proof {
            lemma_u16(self, self, by);
            lemma_ones_values();
        }
        self << by
    }

    fn same(self, rhs: Self) -> (r: bool) {
        self == rhs
    }
}

proof fn lemma_u32(a: u32, b: u32, by: u8)
    by (bit_vector)
    requires
        by < 32,
    ensures
        (a & b) as u64 == (a as u64) & (b as u64),
        (a | b) as u64 == (a as u64) | (b as u64),
        (!a) as u64 == !(a as u64) & 0xffff_ffff,
        (a << by) as u64 == ((a as u64) << (by as u64)) & 0xffff_ffff,
{
}

impl Sealed for u32 {

}

impl BitStore for u32 {
    type Access = core::sync::atomic::AtomicU32;

    const BITS: u8 = 32;

    const INDX: u8 = 5;

    const MASK: u8 = 31;

    open spec fn raw(self) -> u64 {
        self as u64
    }

    proof fn lemma_width() {
        assert(Self::BITS == 32);
        assert(Self::INDX == 5);
        assert(Self::MASK == 31);
    }

    proof fn lemma_raw(self) {
        lemma_ones_values();
    }

    proof fn lemma_raw_injective(self, other: Self) {
    }

    fn from_byte(value: u8) -> (r: Self) {
        value as u32
    }

    fn widen(self) -> (r: u64) {
        self as u64
    }

    fn bit_and(self, rhs: Self) -> (r: Self) {
        proof {
            lemma_u32(self, rhs, 0);
        }
        self & rhs
    }

    fn bit_or(self, rhs: Self) -> (r: Self) {
        proof {
            lemma_u32(self, rhs, 0);
        }
        self | rhs
    }

    fn bit_not(self) -> (r: Self) {
        proof {
            lemma_u32(self, self, 0);
            lemma_ones_values();
        }
        !self
    }

    fn shift_left(self, by: u8) -> (r: Self) {
        proof {
            lemma_u32(self, self, by);
            lemma_ones_values();
        }
        self << by
    }

    fn same(self, rhs: Self) -> (r: bool) {
        self == rhs
    }
}

impl Sealed for u64 {

}

impl BitStore for u64 {
    type Access = core::sync::atomic::AtomicU64;

    const BITS: u8 = 64;

    const INDX: u8 = 6;

    const MASK: u8 = 63;

    open spec fn raw(self) -> u64 {
        self
    }

    proof fn lemma_width() {
        assert(Self::BITS == 64);
        assert(Self::INDX == 6);
        assert(Self::MASK == 63);
    }

    proof fn lemma_raw(self) {
        lemma_ones_values();
    }

    proof fn lemma_raw_injective(self, other: Self) {
    }

    fn from_byte(value: u8) -> (r: Self) {
        value as u64
    }

    fn widen(self) -> (r: u64) {
        self
    }

    fn bit_and(self, rhs: Self) -> (r: Self) {
        self & rhs
    }

    fn bit_or(self, rhs: Self) -> (r: Self) {
        self | rhs
    }

    fn bit_not(self) -> (r: Self) {
        proof {
            lemma_ones_values();
            let v = !self;
            assert(v & 0xffff_ffff_ffff_ffff == v) by (bit_vector);
        }
        !self
    }

    fn shift_left(self, by: u8) -> (r: Self) {
        proof {
            lemma_ones_values();
            let v = self << (by as u64);
            assert(v & 0xffff_ffff_ffff_ffff == v) by (bit_vector);
        }
        self << by
    }

    fn same(self, rhs: Self) -> (r: bool) {
        self == rhs
    }
}

/// The widths of the four element types.
pub proof fn lemma_widths()
    ensures
        <u8 as BitStore>::BITS == 8 && <u8 as BitStore>::INDX == 3 && <u8 as BitStore>::MASK == 7,
        <u16 as BitStore>::BITS == 16 && <u16 as BitStore>::INDX == 4 && <u16 as BitStore>::MASK
            == 15,
        <u32 as BitStore>::BITS == 32 && <u32 as BitStore>::INDX == 5 && <u32 as BitStore>::MASK
            == 31,
        <u64 as BitStore>::BITS == 64 && <u64 as BitStore>::INDX == 6 && <u64 as BitStore>::MASK
            == 63,
{
}

/// The element type used where none is named.
pub type Word = u64;

} // verus!
