//! Shared access to one element.
//!
//! Two spans that share no bit may still share an element: the element that
//! ends one span can begin the next. Each span then changes bits of that
//! element through a handle of its own, and the element is read and written
//! as a whole. [`BitAccess`] is the capability to do so through a shared
//! reference.
//!
//! It is offered by the atomic integers, whose changes are made by a
//! compare-and-swap loop and can be used from several threads at once, and by
//! `Cell`, which reads, changes and writes back without synchronisation and
//! is confined to one thread.
//!
//! That the handles touch different bits is up to whoever makes them. What
//! another handle does to the element between two calls is not known to the
//! caller, so the contracts here say of the element only what holds of every
//! value it may have.

use crate::bits::lemma_clear_within;
use crate::cursor::Cursor;
use crate::domain::BitDomain;
use crate::indices::BitIdx;
use crate::pointer::max_bits;
use crate::slice::lemma_domain_laid_out;
use crate::store::BitStore;
use core::cell::Cell;
use core::sync::atomic::Ordering;
use core::sync::atomic::{AtomicU16, AtomicU32, AtomicU64, AtomicU8};
use vstd::prelude::*;

verus! {

/// `Cell` of the standard library, of which nothing is known but its name.
#[verifier::external_type_specification]
#[verifier::external_body]
#[verifier::reject_recursive_types(T)]
pub struct ExCell<T: ?Sized>(Cell<T>);

/// The element `elem` with the bits of `mask` set, if `value` holds, or
/// cleared, if it does not.
pub fn write_bits<T: BitStore>(elem: T, mask: T, value: bool) -> (r: T)
    ensures
        r.raw() == (if value {
            elem.raw() | mask.raw()
        } else {
            elem.raw() & !mask.raw()
        }),
{
    if value {
        elem.bit_or(mask)
    } else {
        proof {
            T::lemma_width();
            elem.lemma_raw();
            lemma_clear_within(elem.raw(), mask.raw(), T::BITS as u64);
        }
        elem.bit_and(mask.bit_not())
    }
}

/// `Cell::get` of the standard library: a copy of the value in the cell.
/// Nothing is claimed of the value.
#[verifier::external_body]
fn cell_get<T: Copy>(cell: &Cell<T>) -> T {
    cell.get()
}

/// `Cell::set` of the standard library: puts `value` in the cell.
#[verifier::external_body]
fn cell_set<T>(cell: &Cell<T>, value: T) {
    cell.set(value)
}

/// `AtomicU8::fetch_update` of the standard library, which replaces the
/// value `v` of the atomic by `write_bits(v, mask, value)` in a
/// compare-and-swap loop. Nothing is claimed of the value.
#[verifier::external_body]
fn update_u8(atom: &AtomicU8, mask: u8, value: bool) {
    let _ = atom.fetch_update(
        Ordering::Relaxed,
        Ordering::Relaxed,
        |old| Some(write_bits(old, mask, value)),
    );
}

/// `AtomicU16::fetch_update` of the standard library, which replaces the
/// value `v` of the atomic by `write_bits(v, mask, value)` in a
/// compare-and-swap loop. Nothing is claimed of the value.
#[verifier::external_body]
fn update_u16(atom: &AtomicU16, mask: u16, value: bool) {
    let _ = atom.fetch_update(
        Ordering::Relaxed,
        Ordering::Relaxed,
        |old| Some(write_bits(old, mask, value)),
    );
}

/// `AtomicU32::fetch_update` of the standard library, which replaces the
/// value `v` of the atomic by `write_bits(v, mask, value)` in a
/// compare-and-swap loop. Nothing is claimed of the value.
#[verifier::external_body]
fn update_u32(atom: &AtomicU32, mask: u32, value: bool) {
    let _ = atom.fetch_update(
        Ordering::Relaxed,
        Ordering::Relaxed,
        |old| Some(write_bits(old, mask, value)),
    );
}

/// `AtomicU64::fetch_update` of the standard library, which replaces the
/// value `v` of the atomic by `write_bits(v, mask, value)` in a
/// compare-and-swap loop. Nothing is claimed of the value.
#[verifier::external_body]
fn update_u64(atom: &AtomicU64, mask: u64, value: bool) {
    let _ = atom.fetch_update(
        Ordering::Relaxed,
        Ordering::Relaxed,
        |old| Some(write_bits(old, mask, value)),
    );
}

/// Access to one element of type `T` through a shared reference.
pub trait BitAccess<T: BitStore>: Sized {
    /// Reads the element.
    fn load(&self) -> T;

    /// Replaces the element.
    fn store(&self, elem: T);

    /// Sets the bits of `mask` in the element, if `value` holds, or clears
    /// them, if it does not: the element `e` becomes
    /// `write_bits(e, mask, value)`.
    fn write(&self, mask: T, value: bool);

    /// Reads the bit at `place`.
    fn get<C: Cursor>(&self, place: BitIdx<T>) -> bool
        requires
            place.wf(),
    {
        self.load().get::<C>(place)
    }

    /// Sets the bit at `place` to `value`.
    fn set<C: Cursor>(&self, place: BitIdx<T>, value: bool)
        requires
            place.wf(),
    {
        self.write(T::mask::<C>(place), value)
    }

    /// Counts the bits of the element that are set.
    fn count_ones(&self) -> (count: usize)
        ensures
            count <= T::BITS,
    {
        self.load().count_ones()
    }

    /// Counts the bits of the element that are clear.
    fn count_zeros(&self) -> (count: usize)
        ensures
            count <= T::BITS,
    {
        self.load().count_zeros()
    }

    /// Makes every bit of the element equal to `value`.
    fn fill(&self, value: bool) {
        self.store(T::bits(value))
    }
}

impl<T: BitStore> BitAccess<T> for Cell<T> {
    fn load(&self) -> T {
        cell_get(self)
    }

    fn store(&self, elem: T) {
        cell_set(self, elem)
    }

    fn write(&self, mask: T, value: bool) {
        cell_set(self, write_bits(cell_get(self), mask, value))
    }
}

impl BitAccess<u8> for AtomicU8 {
    fn load(&self) -> u8 {
        AtomicU8::load(self, Ordering::Relaxed)
    }

    fn store(&self, elem: u8) {
        AtomicU8::store(self, elem, Ordering::Relaxed)
    }

    fn write(&self, mask: u8, value: bool) {
        update_u8(self, mask, value)
    }
}

impl BitAccess<u16> for AtomicU16 {
    fn load(&self) -> u16 {
        AtomicU16::load(self, Ordering::Relaxed)
    }

    fn store(&self, elem: u16) {
        AtomicU16::store(self, elem, Ordering::Relaxed)
    }

    fn write(&self, mask: u16, value: bool) {
        update_u16(self, mask, value)
    }
}

impl BitAccess<u32> for AtomicU32 {
    fn load(&self) -> u32 {
        AtomicU32::load(self, Ordering::Relaxed)
    }

    fn store(&self, elem: u32) {
        AtomicU32::store(self, elem, Ordering::Relaxed)
    }

    fn write(&self, mask: u32, value: bool) {
        update_u32(self, mask, value)
    }
}

impl BitAccess<u64> for AtomicU64 {
    fn load(&self) -> u64 {
        AtomicU64::load(self, Ordering::Relaxed)
    }

    fn store(&self, elem: u64) {
        AtomicU64::store(self, elem, Ordering::Relaxed)
    }

    fn write(&self, mask: u64, value: bool) {
        update_u64(self, mask, value)
    }
}

/// Sets to `value` the `bits` bits of a shared buffer that start at the bit
/// `head` of its first element.
///
/// The elements that the span holds in part are changed through a mask, in
/// one write each, so that the bits of other spans in them stay as their
/// holders leave them. The elements that the span holds whole are replaced.
pub fn set_all_shared<C: Cursor, T: BitStore, A: BitAccess<T>>(
    data: &[A],
    head: BitIdx<T>,
    bits: usize,
    value: bool,
)
    requires
        head.wf(),
        bits <= max_bits(T::BITS as nat),
        head.value() + bits <= data@.len() * (T::BITS as nat),
{
    let domain = BitDomain::new::<C>(head, bits);
    proof {
        lemma_domain_laid_out::<C, T>(domain, head.value(), bits as nat, data@.len());
    }
    match domain {
        BitDomain::Empty => {},
        BitDomain::PureBody { body } => {
            fill_shared::<T, A>(data, body.0, body.1, value);
        },
        BitDomain::SingleElementPartial { elt, mask } => {
            data[elt].write(mask, value);
        },
        BitDomain::Split { head: first, body, tail } => {
            data[first.0].write(first.1, value);
            fill_shared::<T, A>(data, body.0, body.1, value);
            match tail {
                Some(last) => {
                    data[last.0].write(last.1, value);
                },
                None => {},
            }
        },
    }
}

/// Makes every bit of the elements from `from` up to `to` equal to `value`.
fn fill_shared<T: BitStore, A: BitAccess<T>>(data: &[A], from: usize, to: usize, value: bool)
    requires
        from <= to <= data@.len(),
{
    let mut at = from;
    while at < to
        invariant
            from <= at <= to <= data@.len(),
        decreases to - at,
    {
        data[at].fill(value);
        at = at + 1;
    }
}

} // verus!
