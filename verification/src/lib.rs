//! Bit-addressable views over buffers of fixed-width unsigned integers.
//!
//! A buffer of `u8`, `u16`, `u32` or `u64` elements is treated as a sequence
//! of single bits. The order in which the bits of one element are traversed
//! is chosen by a [`cursor::Cursor`]; the elements themselves are abstracted
//! by [`store::BitStore`].
//!
//! The parts of the library, from the ground up:
//!
//! - [`bits`] is the model of an element as an integer, and what is known
//!   of the bits of integers;
//! - [`cursor`] has the bit orders, [`indices`] the indices of bits within
//!   an element, and [`store`] the elements and their single bits;
//! - [`access`] gives access to an element that several handles share;
//! - [`pointer`] describes spans of bits in memory, and [`domain`] divides
//!   a span into the elements it holds in part and those it holds whole;
//! - [`slice`] reads and writes runs of bits in a buffer;
//! - [`vec`] and [`boxed`] own their buffers, and [`vec::ops`] has the
//!   Boolean and arithmetic operators on bit vectors.

use vstd::prelude::*;

pub mod access;
pub mod bits;
pub mod boxed;
pub mod cursor;
pub mod domain;
pub mod indices;
pub mod pointer;
pub mod prelude;
pub mod slice;
pub mod store;
pub mod vec;

verus! {

/// The numeric value of a single bit.
pub open spec fn bit_value(b: bool) -> int {
    if b {
        1
    } else {
        0
    }
}

/// The outputs of single-bit addition, indexed by `4 * carry + 2 * a + b`.
/// In each entry, bit 1 is the sum and bit 0 is the carry-out.
const RCA: [u8; 8] = [0, 2, 2, 1, 2, 1, 1, 3];

/// Performs single-bit ripple-carry addition.
///
/// `a` and `b` are one bit of each addend and `c` is the carry-in. The first
/// part of the result is the sum bit of `a + b + c`, the second its carry-out.
pub fn rca1(a: bool, b: bool, c: bool) -> (r: (bool, bool))
    ensures
        bit_value(a) + bit_value(b) + bit_value(c) == bit_value(r.0) + 2 * bit_value(r.1),
{
    let ci: u8 = c as u8;
    let ai: u8 = a as u8;
    let bi: u8 = b as u8;
    let jmp: u8 = (ci << 2) | (ai << 1) | bi;
    proof {
        assert(jmp == 4 * ci + 2 * ai + bi) by (bit_vector)
            requires
                jmp == (ci << 2) | (ai << 1) | bi,
                ci <= 1,
                ai <= 1,
                bi <= 1,
        ;
        assert(2u8 & 2 != 0 && 2u8 & 1 == 0 && 1u8 & 2 == 0 && 1u8 & 1 != 0 && 3u8 & 2 != 0 && 3u8
            & 1 != 0 && 0u8 & 2 == 0 && 0u8 & 1 == 0) by (bit_vector);
    }
    let yz: u8 = RCA[jmp as usize];
    (yz & 2 != 0, yz & 1 != 0)
}

} // verus!
