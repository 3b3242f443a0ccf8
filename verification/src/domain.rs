//! Domains.
//!
//! The domain of a span is its division into the parts that bulk operations
//! treat differently: elements of which the span holds only some bits, which
//! have to be touched through a mask, and elements that the span holds
//! whole, which can be handled as plain integers.
//!
//! A domain is computed from a span when it is needed and is not kept: it
//! says nothing of a span that has changed since.

use crate::cursor::Cursor;
use crate::indices::BitIdx;
use crate::pointer::{
    lemma_div_width, lemma_width_cases, max_bits, span_elements, BitPtr, Span,
};
use crate::store::{bit_at, BitStore};
use vstd::prelude::*;

verus! {

/// The division of a span into partially and wholly held elements.
///
/// Elements are named by their index counted from the base of the span. A
/// range of elements is a pair of its first index and the index after its
/// last. A mask has set exactly the bits of its element that the span holds.
#[derive(Debug)]
pub enum BitDomain<T> {
    /// The span holds no bit.
    Empty,
    /// The span holds every bit of every element it touches.
    PureBody { body: (usize, usize) },
    /// The span touches one element and does not hold all of its bits.
    SingleElementPartial { elt: usize, mask: T },
    /// The span touches several elements and does not hold all of their bits.
    /// It holds the bits of the first element from its head on, every bit of
    /// the elements in `body`, and, where it does not end with an element,
    /// the leading bits of the element after `body`.
    Split { head: (usize, T), body: (usize, usize), tail: Option<(usize, T)> },
}

impl<T: Copy> Clone for BitDomain<T> {
    fn clone(&self) -> (r: Self)
        ensures
            r == *self,
    {
        *self
    }
}

impl<T: Copy> Copy for BitDomain<T> {

}

/// Whether `mask` has set exactly the bits whose semantic indices, in the
/// order `C`, run from `from` up to, but not including, `to`.
pub open spec fn mask_is<C: Cursor, T: BitStore>(mask: T, from: nat, to: nat) -> bool {
    forall|i: nat| i < T::BITS ==> #[trigger] bit_at::<C, T>(mask, i) == (from <= i < to)
}

/// Whether the element `part.0`, through the mask `part.1`, holds the bit at
/// the position `pos`, counted from the first bit of the first element.
pub open spec fn part_covers<C: Cursor, T: BitStore>(part: (usize, T), pos: nat) -> bool {
    pos / (T::BITS as nat) == part.0 && bit_at::<C, T>(part.1, pos % (T::BITS as nat))
}

/// Whether the range `body` of whole elements of `width` bits holds the bit
/// at the position `pos`.
pub open spec fn body_covers(body: (usize, usize), pos: nat, width: nat) -> bool {
    body.0 <= pos / width < body.1
}

impl<T: BitStore> BitDomain<T> {
    /// Whether the partial element at the head holds the bit at `pos`.
    pub open spec fn head_covers<C: Cursor>(self, pos: nat) -> bool {
        match self {
            BitDomain::SingleElementPartial { elt, mask } => part_covers::<C, T>((elt, mask), pos),
            BitDomain::Split { head, .. } => part_covers::<C, T>(head, pos),
            _ => false,
        }
    }

    /// Whether a whole element holds the bit at `pos`.
    pub open spec fn body_covers(self, pos: nat) -> bool {
        match self {
            BitDomain::PureBody { body } => body_covers(body, pos, T::BITS as nat),
            BitDomain::Split { body, .. } => body_covers(body, pos, T::BITS as nat),
            _ => false,
        }
    }

    /// Whether the partial element at the tail holds the bit at `pos`.
    pub open spec fn tail_covers<C: Cursor>(self, pos: nat) -> bool {
        match self {
            BitDomain::Split { tail: Some(tail), .. } => part_covers::<C, T>(tail, pos),
            _ => false,
        }
    }

    /// Whether any part of the domain holds the bit at `pos`.
    pub open spec fn covers<C: Cursor>(self, pos: nat) -> bool {
        self.head_covers::<C>(pos) || self.body_covers(pos) || self.tail_covers::<C>(pos)
    }

    /// Whether `self` is the domain of the span of `bits` bits that starts at
    /// the bit `head` of its first element.
    pub open spec fn is_domain_of<C: Cursor>(self, head: nat, bits: nat) -> bool {
        let width = T::BITS as nat;
        let span = Span { base: 0, head, bits };
        let elts = span_elements(span, width);
        let tail = (head + bits) % width;
        if bits == 0 {
            self == BitDomain::<T>::Empty
        } else if head == 0 && tail == 0 {
            self == (BitDomain::<T>::PureBody { body: (0, elts as usize) })
        } else if elts == 1 {
            &&& self matches BitDomain::SingleElementPartial { elt, mask }
            &&& elt == 0
            &&& mask_is::<C, T>(mask, head, head + bits)
        } else {
            &&& self matches BitDomain::Split { head: first, body, tail: last }
            &&& first.0 == 0
            &&& mask_is::<C, T>(first.1, head, width)
            &&& body.0 == 1
            &&& if tail == 0 {
                body.1 == elts && last is None
            } else {
                &&& body.1 == elts - 1
                &&& last matches Some(part)
                &&& part.0 == elts - 1
                &&& mask_is::<C, T>(part.1, 0, tail)
            }
        }
    }

    /// Divides the span of `bits` bits that starts at the bit `head` of its
    /// first element.
    pub fn new<C: Cursor>(head: BitIdx<T>, bits: usize) -> (r: Self)
        requires
            head.wf(),
            bits <= max_bits(T::BITS as nat),
        ensures
            r.is_domain_of::<C>(head.value(), bits as nat),
    {
        proof {
            lemma_width_cases::<T>();
        }
        if bits == 0 {
            return BitDomain::Empty;
        }
        let width = T::BITS as usize;
        let first = head.get();
        let end = first as usize + bits;
        let elts = (end + (width - 1)) / width;
        let tail = (end % width) as u8;
        proof {
            lemma_div_width(end as int + width as int - 1, T::BITS as nat);
            lemma_div_width(end as int, T::BITS as nat);
        }
        if first == 0 && tail == 0 {
            return BitDomain::PureBody { body: (0, elts) };
        }
        if elts == 1 {
            return BitDomain::SingleElementPartial {
                elt: 0,
                mask: T::mask_range::<C>(first, end as u8),
            };
        }
        let front = T::mask_range::<C>(first, T::BITS);
        if tail == 0 {
            BitDomain::Split { head: (0, front), body: (1, elts), tail: None }
        } else {
            let back = T::mask_range::<C>(0, tail);
            BitDomain::Split { head: (0, front), body: (1, elts - 1), tail: Some((elts - 1, back)) }
        }
    }
}

/// The parts of the domain of a span hold exactly the bits of the span, and
/// no bit is held by two parts.
pub proof fn lemma_domain_exact<C: Cursor, T: BitStore>(
    domain: BitDomain<T>,
    head: nat,
    bits: nat,
    pos: nat,
)
    requires
        head < T::BITS,
        bits <= max_bits(T::BITS as nat),
        domain.is_domain_of::<C>(head, bits),
    ensures
        domain.covers::<C>(pos) <==> head <= pos < head + bits,
        !(domain.head_covers::<C>(pos) && domain.body_covers(pos)),
        !(domain.head_covers::<C>(pos) && domain.tail_covers::<C>(pos)),
        !(domain.body_covers(pos) && domain.tail_covers::<C>(pos)),
{
    let width = T::BITS as nat;
    let end = head + bits;
    lemma_width_cases::<T>();
    lemma_div_width(pos as int, width);
    lemma_div_width(end as int, width);
    lemma_div_width(end as int + width as int - 1, width);
    let q = pos / width;
    let r = pos % width;
    let elts = span_elements(Span { base: 0, head, bits }, width);
    let tail = end % width;
    assert(r < width);
    match domain {
        BitDomain::Empty => {},
        BitDomain::PureBody { body } => {
            assert(body.1 == elts);
            assert(domain.covers::<C>(pos) == (q < elts));
        },
        BitDomain::SingleElementPartial { elt, mask } => {
            assert(end <= width);
            assert(domain.covers::<C>(pos) == (q == 0 && bit_at::<C, T>(mask, r)));
        },
        BitDomain::Split { head: first, body, tail: last } => {
            assert(domain.head_covers::<C>(pos) == (q == 0 && head <= r));
            assert(domain.body_covers(pos) == (1 <= q < body.1));
            if tail == 0 {
                assert(body.1 == elts);
            } else {
                assert(body.1 == elts - 1);
                assert(domain.tail_covers::<C>(pos) == (q == elts - 1 && r < tail));
            }
        },
    }
}

impl<T: BitStore> BitPtr<T> {
    /// Divides the span into partially and wholly held elements.
    pub fn domain<C: Cursor>(&self) -> (r: BitDomain<T>)
        requires
            self.wf(),
        ensures
            r.is_domain_of::<C>(self@.head, self@.bits),
    {
        BitDomain::new::<C>(self.head(), self.len())
    }
}

} // verus!
