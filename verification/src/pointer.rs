//! Span pointers.
//!
//! A [`BitPtr`] describes a run of bits in memory by three numbers: the
//! address of the first element that holds any of them, the index of the
//! first bit within that element, and the number of bits. It is the single
//! description of the extent of a view: a change of extent makes a new
//! pointer and never alters one of the three numbers alone.
//!
//! The pointer is a description only. It does not own, read or write the
//! memory it speaks of.

use crate::indices::BitIdx;
use crate::store::BitStore;
use vstd::arithmetic::div_mod::{
    lemma_basic_div, lemma_div_pos_is_pos, lemma_fundamental_div_mod,
    lemma_fundamental_div_mod_converse, lemma_hoist_over_denominator, lemma_mod_bound,
    lemma_mod_multiples_vanish, lemma_small_mod, lemma_div_is_ordered,
};
use vstd::arithmetic::mul::{
    lemma_mul_basics_1, lemma_mul_inequality, lemma_mul_is_commutative,
    lemma_mul_is_distributive_sub_other_way,
};
use vstd::prelude::*;

verus! {

/// The ways in which describing or addressing a span can fail.
#[derive(Clone, Copy, Debug, PartialEq, Eq)]
pub enum BitPtrError {
    /// The base address or the head index cannot describe a span.
    InvalidSpan,
    /// The length does not fit the bits that are kept for it.
    CapacityExceeded,
    /// An index is not less than the length of the span.
    OutOfRange,
    /// More bits were to be skipped than the span holds.
    Underflow,
}

/// What a span pointer says: the address `base` of the first element, the
/// index `head` of the first live bit in that element, and the number
/// `bits` of live bits.
pub struct Span {
    pub base: nat,
    pub head: nat,
    pub bits: nat,
}

/// The size in bytes of an element of `width` bits.
pub open spec fn bytes_of(width: nat) -> nat {
    width / 8
}

/// The greatest length that a span over elements of `width` bits can have.
///
/// Of the bits of a machine word, one is kept as a tag and as many as index
/// a bit of an element are kept for the head. The others count the length,
/// so the greatest length is `usize::MAX / (2 * width)`: on a 64-bit machine,
/// `2^60 - 1` for 8-bit elements, `2^59 - 1` for 16-bit, `2^58 - 1` for 32-bit
/// and `2^57 - 1` for 64-bit elements.
pub open spec fn max_bits(width: nat) -> nat {
    (usize::MAX as nat) / (2 * width)
}

/// The number of elements that a span touches: `(head + bits) / width`,
/// rounded up.
pub open spec fn span_elements(span: Span, width: nat) -> nat {
    ((span.head + span.bits + width - 1) / (width as int)) as nat
}

/// Whether the base address of `span` can hold elements of `width` bits: it
/// is not null, it is aligned to the element's size, and the elements of the
/// span end within the address space.
pub open spec fn base_valid(span: Span, width: nat) -> bool {
    &&& span.base != 0
    &&& span.base % bytes_of(width) == 0
    &&& span.base + span_elements(span, width) * bytes_of(width) <= usize::MAX
}

/// The invariant of a span over elements of `width` bits.
pub open spec fn span_wf(span: Span, width: nat) -> bool {
    &&& span.head < width
    &&& span.bits <= max_bits(width)
    &&& span.bits > 0 ==> base_valid(span, width)
}

/// What results from describing a span by `base`, `head` and `bits`.
pub open spec fn span_from_raw(base: nat, head: nat, bits: nat, width: nat) -> Result<
    Span,
    BitPtrError,
> {
    let span = Span { base, head, bits };
    if head >= width || (bits > 0 && (base == 0 || base % bytes_of(width) != 0)) {
        Err(BitPtrError::InvalidSpan)
    } else if bits > max_bits(width) {
        Err(BitPtrError::CapacityExceeded)
    } else if bits > 0 && !base_valid(span, width) {
        Err(BitPtrError::InvalidSpan)
    } else {
        Ok(span)
    }
}

/// What results from giving `span` the length `bits`.
pub open spec fn span_with_length(span: Span, bits: nat, width: nat) -> Result<Span, BitPtrError> {
    let longer = Span { base: span.base, head: span.head, bits };
    if bits > max_bits(width) {
        Err(BitPtrError::CapacityExceeded)
    } else if bits > 0 && !base_valid(longer, width) {
        Err(BitPtrError::InvalidSpan)
    } else {
        Ok(longer)
    }
}

/// The element, counted from the base, and the index within it of the bit
/// `index` of `span`.
pub open spec fn span_bit_at(span: Span, index: nat, width: nat) -> (nat, nat) {
    (((span.head + index) / width) as nat, (span.head + index) % width)
}

/// The span that is left of `span` when its first `delta` bits are skipped.
pub open spec fn span_offset_head(span: Span, delta: nat, width: nat) -> Span {
    Span {
        base: span.base + ((span.head + delta) / width) * bytes_of(width),
        head: (span.head + delta) % width,
        bits: (span.bits - delta) as nat,
    }
}

/// Whether the place `a` (an element and an index in it) comes before the
/// place `b`.
pub open spec fn place_before(a: (nat, nat), b: (nat, nat)) -> bool {
    a.0 < b.0 || (a.0 == b.0 && a.1 < b.1)
}

/// The bits of a span lie at strictly increasing places.
pub proof fn lemma_bit_at_increasing(span: Span, i: nat, j: nat, width: nat)
    requires
        0 < width,
        i < j,
    ensures
        place_before(span_bit_at(span, i, width), span_bit_at(span, j, width)),
        span_bit_at(span, i, width).1 < width,
{
    let a = (span.head + i) as int;
    let b = (span.head + j) as int;
    let w = width as int;
    lemma_fundamental_div_mod(a, w);
    lemma_fundamental_div_mod(b, w);
    lemma_mod_bound(a, w);
    lemma_mod_bound(b, w);
    lemma_div_is_ordered(a, b, w);
    if a / w == b / w {
        assert(a % w < b % w);
    }
}

/// Skipping no bits leaves a span as it is; skipping all of them leaves an
/// empty span.
pub proof fn lemma_offset_head_ends(span: Span, width: nat)
    requires
        span_wf(span, width),
    ensures
        span_offset_head(span, 0, width) == span,
        span_offset_head(span, span.bits, width).bits == 0,
{
    let same = span_offset_head(span, 0, width);
    lemma_small_mod(span.head, width);
    lemma_basic_div(span.head as int, width as int);
    assert((span.head + 0) / width == 0);
    assert(same.base == span.base) by (nonlinear_arith)
        requires
            same.base == span.base + ((span.head + 0) / width) * bytes_of(width),
            (span.head + 0) / width == 0,
    ;
    assert(same.head == span.head);
    assert(same.bits == span.bits);
}

/// A span pointer over elements of type `T`.
#[derive(Debug)]
pub struct BitPtr<T> {
    base: usize,
    head: BitIdx<T>,
    bits: usize,
}

impl<T> Clone for BitPtr<T> {
    fn clone(&self) -> (r: Self)
        ensures
            r == *self,
    {
        BitPtr { base: self.base, head: self.head, bits: self.bits }
    }
}

impl<T> Copy for BitPtr<T> {

}

impl<T> View for BitPtr<T> {
    type V = Span;

    closed spec fn view(&self) -> Span {
        Span { base: self.base as nat, head: self.head.value(), bits: self.bits as nat }
    }
}

impl<T> BitPtr<T> {
    /// The address of the first element.
    pub fn base(&self) -> (r: usize)
        ensures
            r == self@.base,
    {
        self.base
    }

    /// The index of the first live bit in the first element.
    pub fn head(&self) -> (r: BitIdx<T>)
        ensures
            r.value() == self@.head,
    {
        self.head
    }

    /// The number of live bits.
    pub fn len(&self) -> (r: usize)
        ensures
            r == self@.bits,
    {
        self.bits
    }

    /// Whether the span holds no bit.
    pub fn is_empty(&self) -> (r: bool)
        ensures
            r == (self@.bits == 0),
    {
        self.bits == 0
    }
}

/// Division by a supported width is division by one of four numbers.
pub proof fn lemma_div_width(x: int, width: nat)
    requires
        width == 8 || width == 16 || width == 32 || width == 64,
    ensures
        x / (width as int) == (if width == 8 {
            x / 8
        } else if width == 16 {
            x / 16
        } else if width == 32 {
            x / 32
        } else {
            x / 64
        }),
        x % (width as int) == (if width == 8 {
            x % 8
        } else if width == 16 {
            x % 16
        } else if width == 32 {
            x % 32
        } else {
            x % 64
        }),
{
}

/// The greatest lengths of spans over elements of the four widths: on a
/// 64-bit machine `2^60 - 1`, `2^59 - 1`, `2^58 - 1` and `2^57 - 1`.
pub proof fn lemma_max_bits()
    ensures
        max_bits(8) == usize::MAX / 16,
        max_bits(16) == usize::MAX / 32,
        max_bits(32) == usize::MAX / 64,
        max_bits(64) == usize::MAX / 128,
        usize::MAX == 0xffff_ffff_ffff_ffff ==> max_bits(8) == 0x0fff_ffff_ffff_ffff && max_bits(16)
            == 0x07ff_ffff_ffff_ffff && max_bits(32) == 0x03ff_ffff_ffff_ffff && max_bits(64)
            == 0x01ff_ffff_ffff_ffff,
{
    let m = usize::MAX as int;
    assert(max_bits(8) == m / 16);
    assert(max_bits(16) == m / 32);
    assert(max_bits(32) == m / 64);
    assert(max_bits(64) == m / 128);
}

/// What the supported widths have in common, in the terms of this module.
pub proof fn lemma_width_cases<T: BitStore>()
    ensures
        T::BITS == 8 || T::BITS == 16 || T::BITS == 32 || T::BITS == 64,
        bytes_of(T::BITS as nat) == (if T::BITS == 8 {
            1nat
        } else if T::BITS == 16 {
            2nat
        } else if T::BITS == 32 {
            4nat
        } else {
            8nat
        }),
        usize::MAX / 128 <= max_bits(T::BITS as nat) <= usize::MAX / 16,
        max_bits(T::BITS as nat) <= isize::MAX / 8,
{
    T::lemma_width();
    lemma_max_bits();
    assert(bytes_of(8) == 1 && bytes_of(16) == 2 && bytes_of(32) == 4 && bytes_of(64) == 8);
    assert(isize::MAX >= usize::MAX / 2);
}

impl<T: BitStore> BitPtr<T> {
    /// Whether the pointer describes a span that can exist.
    pub open spec fn wf(self) -> bool {
        span_wf(self@, T::BITS as nat)
    }

    /// The greatest length that a span over elements of type `T` can have.
    pub fn max_len() -> (r: usize)
        ensures
            r == max_bits(T::BITS as nat),
    {
        proof {
            lemma_width_cases::<T>();
        }
        usize::MAX / (2 * (T::BITS as usize))
    }

    /// The number of elements that a span of `bits` bits touches if it
    /// starts at the bit `head` of its first element.
    fn elements_for(head: u8, bits: usize) -> (r: usize)
        requires
            head < T::BITS,
            bits <= max_bits(T::BITS as nat),
        ensures
            r == span_elements(Span { base: 0, head: head as nat, bits: bits as nat }, T::BITS as nat),
            r * bytes_of(T::BITS as nat) <= usize::MAX,
    {
        proof {
            lemma_width_cases::<T>();
        }
        let width = T::BITS as usize;
        let r = (head as usize + bits + (width - 1)) / width;
        proof {
            lemma_div_width(head as int + bits as int + width as int - 1, T::BITS as nat);
        }
        r
    }

    /// Whether the elements of such a span can lie at the address `base`.
    fn base_fits(base: usize, head: u8, bits: usize) -> (r: bool)
        requires
            head < T::BITS,
            bits <= max_bits(T::BITS as nat),
        ensures
            r == base_valid(
                Span { base: base as nat, head: head as nat, bits: bits as nat },
                T::BITS as nat,
            ),
    {
        proof {
            lemma_width_cases::<T>();
        }
        let size = (T::BITS / 8) as usize;
        if base == 0 || base % size != 0 {
            return false;
        }
        let elts = Self::elements_for(head, bits);
        proof {
            let s0 = Span { base: 0, head: head as nat, bits: bits as nat };
            let s = Span { base: base as nat, head: head as nat, bits: bits as nat };
            assert(span_elements(s0, T::BITS as nat) == span_elements(s, T::BITS as nat));
            assert(elts * size == elts * bytes_of(T::BITS as nat)) by (nonlinear_arith)
                requires
                    size == bytes_of(T::BITS as nat),
            ;
        }
        base.checked_add(elts * size).is_some()
    }

    /// Describes the span of `bits` bits that starts at the bit `head` of
    /// the element at the address `base`.
    ///
    /// Fails with `InvalidSpan` if `head` is not less than the element's
    /// width; if the span holds a bit and `base` is null or not aligned to
    /// the element's size; or if the span holds a bit, its length is in
    /// range and its elements would end outside the address space. Fails
    /// with `CapacityExceeded` if none of the first two holds and `bits` is
    /// greater than the greatest length.
    pub fn from_raw(base: usize, head: u8, bits: usize) -> (r: Result<Self, BitPtrError>)
        ensures
            match r {
                Ok(ptr) => span_from_raw(base as nat, head as nat, bits as nat, T::BITS as nat)
                    == Ok::<Span, BitPtrError>(ptr@) && ptr.wf(),
                Err(e) => span_from_raw(base as nat, head as nat, bits as nat, T::BITS as nat)
                    == Err::<Span, BitPtrError>(e),
            },
    {
        proof {
            lemma_width_cases::<T>();
        }
        let size = (T::BITS / 8) as usize;
        let head = match BitIdx::<T>::new(head) {
            Some(head) => head,
            None => {
                return Err(BitPtrError::InvalidSpan);
            },
        };
        if bits > 0 && (base == 0 || base % size != 0) {
            return Err(BitPtrError::InvalidSpan);
        }
        if bits > Self::max_len() {
            return Err(BitPtrError::CapacityExceeded);
        }
        if bits > 0 && !Self::base_fits(base, head.get(), bits) {
            return Err(BitPtrError::InvalidSpan);
        }
        Ok(BitPtr { base, head, bits })
    }

    /// The span that holds no bit and starts at the first bit of an element
    /// at the least address that is aligned to the element's size.
    pub fn empty() -> (r: Self)
        ensures
            r@ == (Span { base: bytes_of(T::BITS as nat), head: 0, bits: 0 }),
            r.wf(),
    {
        proof {
            lemma_width_cases::<T>();
        }
        BitPtr { base: (T::BITS / 8) as usize, head: BitIdx::new(0).unwrap(), bits: 0 }
    }

    /// The number of elements that the span touches.
    pub fn element_count(&self) -> (r: usize)
        requires
            self.wf(),
        ensures
            r == span_elements(self@, T::BITS as nat),
    {
        Self::elements_for(self.head.get(), self.bits)
    }

    /// Finds the bit `index` of the span: the element that holds it, counted
    /// from the base, and its index in that element.
    ///
    /// Fails with `OutOfRange` if `index` is not less than the length.
    pub fn bit_at(&self, index: usize) -> (r: Result<(usize, BitIdx<T>), BitPtrError>)
        requires
            self.wf(),
        ensures
            match r {
                Ok((elt, bit)) => index < self@.bits && bit.wf() && (elt as nat, bit.value())
                    == span_bit_at(self@, index as nat, T::BITS as nat),
                Err(e) => index >= self@.bits && e == BitPtrError::OutOfRange,
            },
    {
        if index >= self.bits {
            return Err(BitPtrError::OutOfRange);
        }
        proof {
            lemma_width_cases::<T>();
        }
        let (elt, bit) = self.head.offset(index as isize);
        proof {
            lemma_fundamental_div_mod_converse(
                self@.head as int + index as int,
                T::BITS as int,
                elt as int,
                bit.value() as int,
            );
        }
        Ok((elt as usize, bit))
    }

    /// The span with the same base and head, and the length `bits`.
    ///
    /// Fails with `CapacityExceeded` if `bits` is greater than the greatest
    /// length. Fails with `InvalidSpan` if `bits` is in range and not zero,
    /// and the base cannot hold a span of that length: it is null or not
    /// aligned, or the elements would end outside the address space.
    pub fn with_length(&self, bits: usize) -> (r: Result<Self, BitPtrError>)
        requires
            self.wf(),
        ensures
            match r {
                Ok(ptr) => span_with_length(self@, bits as nat, T::BITS as nat) == Ok::<
                    Span,
                    BitPtrError,
                >(ptr@) && ptr.wf(),
                Err(e) => span_with_length(self@, bits as nat, T::BITS as nat) == Err::<
                    Span,
                    BitPtrError,
                >(e),
            },
    {
        if bits > Self::max_len() {
            return Err(BitPtrError::CapacityExceeded);
        }
        if bits > 0 && !Self::base_fits(self.base, self.head.get(), bits) {
            return Err(BitPtrError::InvalidSpan);
        }
        Ok(BitPtr { base: self.base, head: self.head, bits })
    }

    /// The span that is left when the first `delta` bits are skipped: it
    /// starts `delta` bits later and is `delta` bits shorter.
    ///
    /// Fails with `Underflow` if `delta` is greater than the length.
    pub fn offset_head(&self, delta: usize) -> (r: Result<Self, BitPtrError>)
        requires
            self.wf(),
        ensures
            match r {
                Ok(ptr) => delta <= self@.bits && ptr@ == span_offset_head(
                    self@,
                    delta as nat,
                    T::BITS as nat,
                ) && ptr.wf(),
                Err(e) => delta > self@.bits && e == BitPtrError::Underflow,
            },
    {
        if delta > self.bits {
            return Err(BitPtrError::Underflow);
        }
        proof {
            lemma_width_cases::<T>();
        }
        let size = (T::BITS / 8) as usize;
        let (elts, head) = self.head.offset(delta as isize);
        proof {
            lemma_fundamental_div_mod_converse(
                self@.head as int + delta as int,
                T::BITS as int,
                elts as int,
                head.value() as int,
            );
            lemma_offset_keeps_end(self@, delta as nat, T::BITS as nat);
            lemma_mul_known(elts as int, size as int, bytes_of(T::BITS as nat) as int);
        }
        let base = self.base + (elts as usize) * size;
        Ok(BitPtr { base, head, bits: self.bits - delta })
    }
}

/// A product with a known factor.
proof fn lemma_mul_known(a: int, b: int, c: int)
    by (nonlinear_arith)
    requires
        b == c,
    ensures
        a * b == a * c,
{
}

/// Skipping bits at the head of a span moves its base within the span and
/// leaves its end where it was.
proof fn lemma_offset_keeps_end(span: Span, delta: nat, width: nat)
    requires
        span_wf(span, width),
        span.base <= usize::MAX,
        delta <= span.bits,
        width == 8 || width == 16 || width == 32 || width == 64,
    ensures
        ({
            let rest = span_offset_head(span, delta, width);
            &&& rest.base <= usize::MAX
            &&& ((span.head + delta) / width) * bytes_of(width) <= usize::MAX
            &&& span_wf(rest, width)
        }),
{
    let rest = span_offset_head(span, delta, width);
    let w = width as int;
    let x = (span.head + delta) as int;
    let y = (span.head + span.bits) as int;
    let z = (rest.head + rest.bits) as int;
    let k = x / w;
    let old_elts = span_elements(span, width) as int;
    let new_elts = span_elements(rest, width) as int;
    let size = bytes_of(width) as int;
    lemma_fundamental_div_mod(x, w);
    lemma_mod_bound(x, w);
    lemma_div_pos_is_pos(x, w);
    lemma_div_pos_is_pos(z + w - 1, w);
    lemma_mul_is_commutative(w, k);
    assert(y + w - 1 == (z + w - 1) + k * w);
    lemma_hoist_over_denominator(z + w - 1, k, width);
    assert(old_elts == new_elts + k);
    lemma_mul_inequality(k, old_elts, size);
    lemma_mul_is_distributive_sub_other_way(size, old_elts, k);
    lemma_mod_multiples_vanish(k, span.base as int, size);
    lemma_mul_is_commutative(size, k);
    assert(rest.base == span.base + k * size);
    if span.bits == 0 {
        lemma_basic_div(x, w);
        lemma_mul_basics_1(size);
    }
}

} // verus!
