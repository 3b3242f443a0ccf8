//! Bits in a buffer.
//!
//! A buffer of elements is read as one sequence of bits: the bits of the
//! first element in the order of the cursor, then those of the second, and
//! so on. The functions here read and write single bits and runs of bits of
//! such a buffer. The bulk operations divide the run into its domain and
//! treat partially held elements through a mask and wholly held elements as
//! plain integers.

use crate::access::write_bits;
use crate::bits::{
    bit_of, count_ones_spec, lemma_bit_within, lemma_bitwise, lemma_count_ones_positions,
    lemma_nonzero_bit, lemma_zero_bits, ones, set_positions,
};
use crate::cursor::Cursor;
use crate::domain::{lemma_domain_exact, mask_is, BitDomain};
use core::marker::PhantomData;
use crate::indices::BitIdx;
use crate::pointer::{Span, lemma_width_cases, max_bits, span_elements};
use crate::store::{BitStore, bit_at, lemma_bits_uniform};
use crate::vec::{elements_for, lemma_elements_for};
use vstd::arithmetic::div_mod::{
    lemma_fundamental_div_mod, lemma_fundamental_div_mod_converse, lemma_mod_bound,
};
use vstd::arithmetic::mul::{
    lemma_mul_basics_1, lemma_mul_basics_4, lemma_mul_inequality, lemma_mul_is_commutative,
    lemma_mul_is_distributive_add_other_way, lemma_mul_is_distributive_sub_other_way,
};
use vstd::prelude::*;
use vstd::relations::injective_on;
use vstd::set_lib::lemma_map_size;
use vstd::slice::slice_subrange;

verus! {

/// The bits of a buffer, in the order `C`.
pub open spec fn bits_of<C: Cursor, T: BitStore>(data: Seq<T>) -> Seq<bool> {
    Seq::new(
        data.len() * (T::BITS as nat),
        |k: int| bit_at::<C, T>(data[k / (T::BITS as int)], (k % (T::BITS as int)) as nat),
    )
}

/// The bit `index` of a buffer of `len` elements lies in the element
/// `index / BITS`, at the index `index % BITS`.
pub proof fn lemma_index_split<T: BitStore>(index: nat, len: nat)
    requires
        index < len * (T::BITS as nat),
    ensures
        index / (T::BITS as nat) < len,
        index % (T::BITS as nat) < T::BITS,
{
    T::lemma_width();
    let w = T::BITS as int;
    let q = index as int / w;
    let r = index as int % w;
    lemma_fundamental_div_mod(index as int, w);
    lemma_mod_bound(index as int, w);
    assert(q < len) by (nonlinear_arith)
        requires
            index == w * q + r,
            0 <= r < w,
            index < len * w,
    ;
}

/// The first bit of the element `elt` is the bit `elt * BITS` of the buffer.
pub proof fn lemma_index_join<T: BitStore>(elt: nat, bit: nat)
    requires
        bit < T::BITS,
    ensures
        (elt * (T::BITS as nat) + bit) / (T::BITS as nat) == elt,
        (elt * (T::BITS as nat) + bit) % (T::BITS as nat) == bit,
{
    T::lemma_width();
    lemma_fundamental_div_mod_converse(
        (elt * (T::BITS as nat) + bit) as int,
        T::BITS as int,
        elt as int,
        bit as int,
    );
}

/// An element is zero exactly if none of its bits is set.
pub proof fn lemma_zero_elem<C: Cursor, T: BitStore>(elem: T)
    ensures
        elem.raw() == 0 <==> forall|i: nat| i < T::BITS ==> !#[trigger] bit_at::<C, T>(elem, i),
{
    T::lemma_width();
    elem.lemma_raw();
    if elem.raw() == 0 {
        assert forall|i: nat| i < T::BITS implies !#[trigger] bit_at::<C, T>(elem, i) by {
            C::lemma_at(T::BITS as nat, i);
            lemma_zero_bits(C::at_spec(T::BITS as nat, i) as u64);
        }
    } else {
        let pos = lemma_nonzero_bit(elem.raw());
        lemma_bit_within(elem.raw(), pos as u64, T::BITS as u64);
        C::lemma_index(T::BITS as nat, pos);
        assert(bit_at::<C, T>(elem, C::index_spec(T::BITS as nat, pos)));
    }
}

/// Reads the bit `index` of the buffer.
pub fn get_bit<C: Cursor, T: BitStore>(data: &[T], index: usize) -> (bit: bool)
    requires
        index < data@.len() * (T::BITS as nat),
    ensures
        bit == bits_of::<C, T>(data@)[index as int],
{
    proof {
        T::lemma_width();
        lemma_index_split::<T>(index as nat, data@.len());
    }
    let width = T::BITS as usize;
    let place = BitIdx::<T>::new((index % width) as u8).unwrap();
    data[index / width].get::<C>(place)
}

/// Sets the bit `index` of the buffer to `value` and leaves the others.
pub fn set_bit<C: Cursor, T: BitStore>(data: &mut [T], index: usize, value: bool)
    requires
        index < old(data)@.len() * (T::BITS as nat),
    ensures
        final(data)@.len() == old(data)@.len(),
        bits_of::<C, T>(final(data)@) == bits_of::<C, T>(old(data)@).update(index as int, value),
{
    proof {
        T::lemma_width();
        lemma_index_split::<T>(index as nat, data@.len());
    }
    let width = T::BITS as usize;
    let place = BitIdx::<T>::new((index % width) as u8).unwrap();
    let mut elem = data[index / width];
    elem.set::<C>(place, value);
    data[index / width] = elem;
    proof {
        let w = T::BITS as int;
        let before = bits_of::<C, T>(old(data)@);
        let after = bits_of::<C, T>(data@);
        assert forall|k: int| 0 <= k < after.len() implies after[k] == before.update(
            index as int,
            value,
        )[k] by {
            lemma_fundamental_div_mod(k, w);
            lemma_fundamental_div_mod(index as int, w);
            lemma_mod_bound(k, w);
            lemma_index_split::<T>(k as nat, data@.len());
            if k / w == index as int / w {
                assert(bit_at::<C, T>(elem, (k % w) as nat) == (if (k % w) as nat == place.value() {
                    value
                } else {
                    bit_at::<C, T>(old(data)@[k / w], (k % w) as nat)
                }));
            }
        }
        assert(after =~= before.update(index as int, value));
    }
}

/// Sets the bits of the element `elt` that `mask` selects to `value`.
fn write_part<C: Cursor, T: BitStore>(data: &mut [T], elt: usize, mask: T, value: bool)
    requires
        elt < old(data)@.len(),
    ensures
        final(data)@.len() == old(data)@.len(),
        forall|j: int| 0 <= j < old(data)@.len() && j != elt ==> final(data)@[j] == old(data)@[j],
        forall|i: nat|
            i < T::BITS ==> #[trigger] bit_at::<C, T>(final(data)@[elt as int], i) == (if bit_at::<
                C,
                T,
            >(mask, i) {
                value
            } else {
                bit_at::<C, T>(old(data)@[elt as int], i)
            }),
{
    let before = data[elt];
    let after = write_bits(before, mask, value);
    data[elt] = after;
    proof {
        T::lemma_width();
        assert forall|i: nat| i < T::BITS implies #[trigger] bit_at::<C, T>(after, i) == (
        if bit_at::<C, T>(mask, i) {
            value
        } else {
            bit_at::<C, T>(before, i)
        }) by {
            C::lemma_at(T::BITS as nat, i);
            lemma_bitwise(before.raw(), mask.raw(), C::at_spec(T::BITS as nat, i) as u64);
        }
    }
}

/// Sets every bit of the elements from `from` up to `to` to `value`.
fn fill_body<C: Cursor, T: BitStore>(data: &mut [T], from: usize, to: usize, value: bool)
    requires
        from <= to <= old(data)@.len(),
    ensures
        final(data)@.len() == old(data)@.len(),
        forall|j: int|
            0 <= j < old(data)@.len() && !(from <= j < to) ==> final(data)@[j] == old(data)@[j],
        forall|j: int, i: nat|
            from <= j < to && i < T::BITS ==> #[trigger] bit_at::<C, T>(final(data)@[j], i)
                == value,
{
    let elem = T::bits(value);
    proof {
        T::lemma_width();
        assert forall|i: nat| i < T::BITS implies #[trigger] bit_at::<C, T>(elem, i) == value by {
            lemma_bits_uniform::<C, T>(elem, value, i);
        }
    }
    let mut at = from;
    while at < to
        invariant
            from <= at <= to <= data@.len(),
            data@.len() == old(data)@.len(),
            forall|i: nat| i < T::BITS ==> #[trigger] bit_at::<C, T>(elem, i) == value,
            forall|j: int| 0 <= j < data@.len() && !(from <= j < at) ==> data@[j] == old(data)@[j],
            forall|j: int| from <= j < at ==> data@[j] == elem,
        decreases to - at,
    {
        data[at] = elem;
        at = at + 1;
    }
}

/// Moves the first `bits` bits of the buffer towards the front by `by`
/// places: the first `by` of them are lost, and the `by` places at the end
/// that no bit moves into are cleared. The bits after the first `bits` stay.
pub fn shift_left<C: Cursor, T: BitStore>(data: &mut [T], bits: usize, by: usize)
    requires
        by <= bits <= old(data)@.len() * (T::BITS as nat),
    ensures
        final(data)@.len() == old(data)@.len(),
        forall|k: int|
            0 <= k < old(data)@.len() * (T::BITS as nat) ==> #[trigger] bits_of::<C, T>(
                final(data)@,
            )[k] == (if k < bits - by {
                bits_of::<C, T>(old(data)@)[k + by]
            } else if k < bits {
                false
            } else {
                bits_of::<C, T>(old(data)@)[k]
            }),
{
    let ghost before = bits_of::<C, T>(data@);
    let mut at: usize = 0;
    while at < bits - by
        invariant
            by <= bits <= data@.len() * (T::BITS as nat),
            at <= bits - by,
            data@.len() == old(data)@.len(),
            before == bits_of::<C, T>(old(data)@),
            forall|k: int|
                0 <= k < data@.len() * (T::BITS as nat) ==> #[trigger] bits_of::<C, T>(data@)[k]
                    == (if k < at {
                    before[k + by]
                } else {
                    before[k]
                }),
        decreases bits - by - at,
    {
        let bit = get_bit::<C, T>(data, at + by);
        set_bit::<C, T>(data, at, bit);
        at = at + 1;
    }
    while at < bits
        invariant
            by <= bits <= data@.len() * (T::BITS as nat),
            bits - by <= at <= bits,
            data@.len() == old(data)@.len(),
            before == bits_of::<C, T>(old(data)@),
            forall|k: int|
                0 <= k < data@.len() * (T::BITS as nat) ==> #[trigger] bits_of::<C, T>(data@)[k]
                    == (if k < bits - by {
                    before[k + by]
                } else if k < at {
                    false
                } else {
                    before[k]
                }),
        decreases bits - at,
    {
        set_bit::<C, T>(data, at, false);
        at = at + 1;
    }
}

/// Moves the first `bits` bits of the buffer towards the back by `by`
/// places: the last `by` of them are lost, and the `by` places at the front
/// that no bit moves into are cleared. The bits after the first `bits` stay.
pub fn shift_right<C: Cursor, T: BitStore>(data: &mut [T], bits: usize, by: usize)
    requires
        by <= bits <= old(data)@.len() * (T::BITS as nat),
    ensures
        final(data)@.len() == old(data)@.len(),
        forall|k: int|
            0 <= k < old(data)@.len() * (T::BITS as nat) ==> #[trigger] bits_of::<C, T>(
                final(data)@,
            )[k] == (if k < by {
                false
            } else if k < bits {
                bits_of::<C, T>(old(data)@)[k - by]
            } else {
                bits_of::<C, T>(old(data)@)[k]
            }),
{
    let ghost before = bits_of::<C, T>(data@);
    let mut at: usize = bits;
    while at > by
        invariant
            by <= at <= bits <= data@.len() * (T::BITS as nat),
            data@.len() == old(data)@.len(),
            before == bits_of::<C, T>(old(data)@),
            forall|k: int|
                0 <= k < data@.len() * (T::BITS as nat) ==> #[trigger] bits_of::<C, T>(data@)[k]
                    == (if at <= k < bits {
                    before[k - by]
                } else {
                    before[k]
                }),
        decreases at,
    {
        at = at - 1;
        let bit = get_bit::<C, T>(data, at - by);
        set_bit::<C, T>(data, at, bit);
    }
    while at > 0
        invariant
            at <= by <= bits <= data@.len() * (T::BITS as nat),
            data@.len() == old(data)@.len(),
            before == bits_of::<C, T>(old(data)@),
            forall|k: int|
                0 <= k < data@.len() * (T::BITS as nat) ==> #[trigger] bits_of::<C, T>(data@)[k]
                    == (if k < at {
                    before[k]
                } else if k < by {
                    false
                } else if k < bits {
                    before[k - by]
                } else {
                    before[k]
                }),
        decreases at,
    {
        at = at - 1;
        set_bit::<C, T>(data, at, false);
    }
}

/// Whether no bit that `mask` selects is set in the element `elt` of `data`.
pub open spec fn part_zero<C: Cursor, T: BitStore>(data: Seq<T>, elt: int, mask: T) -> bool {
    forall|i: nat|
        i < T::BITS && bit_at::<C, T>(mask, i) ==> !#[trigger] bit_at::<C, T>(data[elt], i)
}

/// Whether no bit is set in the elements of `data` from `from` up to `to`.
pub open spec fn body_zero<C: Cursor, T: BitStore>(data: Seq<T>, from: int, to: int) -> bool {
    forall|j: int, i: nat|
        from <= j < to && i < T::BITS ==> !#[trigger] bit_at::<C, T>(data[j], i)
}

/// Whether no bit that `mask` selects is set in the element `elt`.
fn part_is_zero<C: Cursor, T: BitStore>(data: &[T], elt: usize, mask: T) -> (r: bool)
    requires
        elt < data@.len(),
    ensures
        r == part_zero::<C, T>(data@, elt as int, mask),
{
    let both = data[elt].bit_and(mask);
    proof {
        T::lemma_width();
        lemma_zero_elem::<C, T>(both);
        assert forall|i: nat| i < T::BITS implies #[trigger] bit_at::<C, T>(both, i) == (bit_at::<
            C,
            T,
        >(data@[elt as int], i) && bit_at::<C, T>(mask, i)) by {
            C::lemma_at(T::BITS as nat, i);
            lemma_bitwise(
                data@[elt as int].raw(),
                mask.raw(),
                C::at_spec(T::BITS as nat, i) as u64,
            );
        }
        if both.raw() == 0 {
            assert forall|i: nat| i < T::BITS && bit_at::<C, T>(mask, i) implies !#[trigger] bit_at::<
                C,
                T,
            >(data@[elt as int], i) by {
                assert(!bit_at::<C, T>(both, i));
            }
        } else {
            let i = choose|i: nat| i < T::BITS && #[trigger] bit_at::<C, T>(both, i);
            assert(bit_at::<C, T>(data@[elt as int], i) && bit_at::<C, T>(mask, i));
        }
    }
    both.same(T::from_byte(0))
}

/// Whether no bit is set in the elements from `from` up to `to`.
fn body_is_zero<C: Cursor, T: BitStore>(data: &[T], from: usize, to: usize) -> (r: bool)
    requires
        from <= to <= data@.len(),
    ensures
        r == body_zero::<C, T>(data@, from as int, to as int),
{
    let zero = T::from_byte(0);
    let mut at = from;
    while at < to
        invariant
            from <= at <= to <= data@.len(),
            zero.raw() == 0,
            body_zero::<C, T>(data@, from as int, at as int),
        decreases to - at,
    {
        proof {
            lemma_zero_elem::<C, T>(data@[at as int]);
        }
        if !data[at].same(zero) {
            proof {
                let i = choose|i: nat| i < T::BITS && #[trigger] bit_at::<C, T>(data@[at as int], i);
                assert(bit_at::<C, T>(data@[at as int], i));
            }
            return false;
        }
        at = at + 1;
    }
    true
}

/// Sets to `value` the `bits` bits of the buffer that start at the bit
/// `head` of its first element, and leaves the others.
pub fn set_all<C: Cursor, T: BitStore>(data: &mut [T], head: BitIdx<T>, bits: usize, value: bool)
    requires
        head.wf(),
        bits <= max_bits(T::BITS as nat),
        head.value() + bits <= old(data)@.len() * (T::BITS as nat),
    ensures
        final(data)@.len() == old(data)@.len(),
        forall|k: int|
            0 <= k < old(data)@.len() * (T::BITS as nat) ==> #[trigger] bits_of::<C, T>(
                final(data)@,
            )[k] == (if head.value() <= k < head.value() + bits {
                value
            } else {
                bits_of::<C, T>(old(data)@)[k]
            }),
{
    let domain = BitDomain::new::<C>(head, bits);
    proof {
        lemma_width_cases::<T>();
        lemma_span_fits::<T>(head.value(), bits as nat, data@.len());
    }
    match domain {
        BitDomain::Empty => {},
        BitDomain::PureBody { body } => {
            fill_body::<C, T>(data, body.0, body.1, value);
        },
        BitDomain::SingleElementPartial { elt, mask } => {
            write_part::<C, T>(data, elt, mask, value);
        },
        BitDomain::Split { head: first, body, tail } => {
            write_part::<C, T>(data, first.0, first.1, value);
            fill_body::<C, T>(data, body.0, body.1, value);
            match tail {
                Some(last) => {
                    write_part::<C, T>(data, last.0, last.1, value);
                },
                None => {},
            }
        },
    }
    proof {
        let w = T::BITS as int;
        assert forall|k: int| 0 <= k < old(data)@.len() * (T::BITS as nat) implies #[trigger] bits_of::<
            C,
            T,
        >(data@)[k] == (if head.value() <= k < head.value() + bits {
            value
        } else {
            bits_of::<C, T>(old(data)@)[k]
        }) by {
            lemma_domain_exact::<C, T>(domain, head.value(), bits as nat, k as nat);
            lemma_index_split::<T>(k as nat, data@.len());
        }
    }
}

/// Whether none of the `bits` bits of the buffer that start at the bit
/// `head` of its first element is set.
pub fn not_any<C: Cursor, T: BitStore>(data: &[T], head: BitIdx<T>, bits: usize) -> (r: bool)
    requires
        head.wf(),
        bits <= max_bits(T::BITS as nat),
        head.value() + bits <= data@.len() * (T::BITS as nat),
    ensures
        r == forall|k: int|
            head.value() <= k < head.value() + bits ==> !#[trigger] bits_of::<C, T>(data@)[k],
{
    let domain = BitDomain::new::<C>(head, bits);
    proof {
        lemma_width_cases::<T>();
        lemma_span_fits::<T>(head.value(), bits as nat, data@.len());
    }
    let r = match domain {
        BitDomain::Empty => true,
        BitDomain::PureBody { body } => body_is_zero::<C, T>(data, body.0, body.1),
        BitDomain::SingleElementPartial { elt, mask } => part_is_zero::<C, T>(data, elt, mask),
        BitDomain::Split { head: first, body, tail } => {
            part_is_zero::<C, T>(data, first.0, first.1) && body_is_zero::<C, T>(
                data,
                body.0,
                body.1,
            ) && match tail {
                Some(last) => part_is_zero::<C, T>(data, last.0, last.1),
                None => true,
            }
        },
    };
    proof {
        let w = T::BITS as nat;
        let all = bits_of::<C, T>(data@);
        if r {
            assert forall|k: int| head.value() <= k < head.value() + bits implies !#[trigger] all[k] by {
                lemma_domain_exact::<C, T>(domain, head.value(), bits as nat, k as nat);
                lemma_index_split::<T>(k as nat, data@.len());
            }
        } else {
            let (j, i) = lemma_set_bit_found::<C, T>(data@, domain);
            lemma_index_join::<T>(j as nat, i);
            let k = j * w + i;
            lemma_domain_exact::<C, T>(domain, head.value(), bits as nat, k as nat);
            assert(all[k]);
        }
    }
    r
}

/// The number of set bits among the bits of `bits` from `from` up to `to`.
pub open spec fn count_in(bits: Seq<bool>, from: int, to: int) -> nat
    decreases to - from,
{
    if to <= from {
        0
    } else {
        count_in(bits, from, to - 1) + (if bits[to - 1] {
            1nat
        } else {
            0nat
        })
    }
}

/// A run of bits has no more set bits than bits.
pub proof fn lemma_count_in_bound(bits: Seq<bool>, from: int, to: int)
    requires
        from <= to,
    ensures
        count_in(bits, from, to) <= to - from,
    decreases to - from,
{
    if from < to {
        lemma_count_in_bound(bits, from, to - 1);
    }
}

/// The set bits of a run are those of its front and those of its back.
pub proof fn lemma_count_in_split(bits: Seq<bool>, from: int, mid: int, to: int)
    requires
        from <= mid <= to,
    ensures
        count_in(bits, from, to) == count_in(bits, from, mid) + count_in(bits, mid, to),
    decreases to - mid,
{
    if mid < to {
        lemma_count_in_split(bits, from, mid, to - 1);
    }
}

/// Sequences that agree on a run have as many set bits in it.
pub proof fn lemma_count_in_same(a: Seq<bool>, b: Seq<bool>, from: int, to: int)
    requires
        forall|k: int| from <= k < to ==> a[k] == b[k],
    ensures
        count_in(a, from, to) == count_in(b, from, to),
    decreases to - from,
{
    if from < to {
        lemma_count_in_same(a, b, from, to - 1);
    }
}

/// The places of the set bits of a run.
pub open spec fn set_places(bits: Seq<bool>, from: int, to: int) -> Set<int> {
    Set::new(|k: int| from <= k < to && bits[k])
}

/// The number of set bits of a run is the number of places at which a bit
/// of the run is set.
pub proof fn lemma_count_in_places(bits: Seq<bool>, from: int, to: int)
    requires
        from <= to,
    ensures
        set_places(bits, from, to).finite(),
        set_places(bits, from, to).len() == count_in(bits, from, to),
    decreases to - from,
{
    if from == to {
        assert(set_places(bits, from, to) =~= Set::<int>::empty());
    } else {
        lemma_count_in_places(bits, from, to - 1);
        let before = set_places(bits, from, to - 1);
        if bits[to - 1] {
            assert(set_places(bits, from, to) =~= before.insert(to - 1));
        } else {
            assert(set_places(bits, from, to) =~= before);
        }
    }
}

/// A value that has set exactly the bits that the element `elt` of a buffer
/// has set at the indices from `from` up to `to` has as many set bits as
/// the buffer has in that run.
proof fn lemma_region_count<C: Cursor, T: BitStore>(
    data: Seq<T>,
    elt: nat,
    from: nat,
    to: nat,
    value: u64,
)
    requires
        elt < data.len(),
        from <= to <= T::BITS,
        value <= ones(T::BITS as nat),
        forall|i: nat|
            i < T::BITS ==> #[trigger] bit_of(value, C::at_spec(T::BITS as nat, i)) == (from <= i
                < to && bit_at::<C, T>(data[elt as int], i)),
    ensures
        count_ones_spec(value) == count_in(
            bits_of::<C, T>(data),
            (elt * (T::BITS as nat) + from) as int,
            (elt * (T::BITS as nat) + to) as int,
        ),
{
    T::lemma_width();
    let width = T::BITS as nat;
    let base = (elt * width) as int;
    let all = bits_of::<C, T>(data);
    let places = set_places(all, base + from, base + to);
    let positions = set_positions(value);
    let f = |k: int| C::at_spec(width, (k - base) as nat);
    lemma_count_in_places(all, base + from, base + to);
    lemma_count_ones_positions(value);
    lemma_mul_inequality(elt as int + 1, data.len() as int, width as int);
    lemma_mul_is_distributive_add_other_way(width as int, elt as int, 1);
    assert forall|k: int| base <= k < base + width implies 0 <= k < all.len() && #[trigger] all[k]
        == bit_at::<C, T>(data[elt as int], (k - base) as nat) by {
        lemma_index_join::<T>(elt, (k - base) as nat);
    }
    assert forall|pos: nat| places.map(f).contains(pos) <==> positions.contains(pos) by {
        if positions.contains(pos) {
            lemma_bit_within(value, pos as u64, width as u64);
            C::lemma_index(width, pos);
            let i = C::index_spec(width, pos);
            assert(bit_of(value, C::at_spec(width, i)));
            let k = base + i;
            assert(all[k]);
            assert(places.contains(k));
            assert(f(k) == pos);
        }
        if places.map(f).contains(pos) {
            let k = choose|k: int| places.contains(k) && f(k) == pos;
            let i = (k - base) as nat;
            C::lemma_at(width, i);
            assert(all[k]);
            assert(bit_of(value, C::at_spec(width, i)));
        }
    }
    assert(places.map(f) =~= positions);
    assert(injective_on(f, places)) by {
        assert forall|a: int, b: int| places.contains(a) && places.contains(b) && f(a) == f(
            b,
        ) implies a == b by {
            C::lemma_at(width, (a - base) as nat);
            C::lemma_at(width, (b - base) as nat);
        }
    }
    lemma_map_size(places, positions, f);
}

/// Counts the set bits that `mask` selects in the element `elt`: those at
/// the indices from `from` up to `to`.
fn part_count<C: Cursor, T: BitStore>(
    data: &[T],
    elt: usize,
    mask: T,
    Ghost(from): Ghost<nat>,
    Ghost(to): Ghost<nat>,
) -> (count: usize)
    requires
        elt < data@.len(),
        from <= to <= T::BITS,
        mask_is::<C, T>(mask, from, to),
    ensures
        count == count_in(
            bits_of::<C, T>(data@),
            (elt * (T::BITS as nat) + from) as int,
            (elt * (T::BITS as nat) + to) as int,
        ),
{
    let both = data[elt].bit_and(mask);
    proof {
        T::lemma_width();
        both.lemma_raw();
        assert forall|i: nat| i < T::BITS implies #[trigger] bit_of(
            both.raw(),
            C::at_spec(T::BITS as nat, i),
        ) == (from <= i < to && bit_at::<C, T>(data@[elt as int], i)) by {
            C::lemma_at(T::BITS as nat, i);
            lemma_bitwise(
                data@[elt as int].raw(),
                mask.raw(),
                C::at_spec(T::BITS as nat, i) as u64,
            );
            assert(bit_at::<C, T>(mask, i) == (from <= i < to));
        }
        lemma_region_count::<C, T>(data@, elt as nat, from, to, both.raw());
    }
    both.count_ones()
}

/// Counts the set bits of the elements from `from` up to `to`.
fn body_count<C: Cursor, T: BitStore>(data: &[T], from: usize, to: usize) -> (count: usize)
    requires
        from <= to <= data@.len(),
        to * (T::BITS as nat) <= usize::MAX,
    ensures
        count == count_in(
            bits_of::<C, T>(data@),
            from * (T::BITS as nat),
            to * (T::BITS as nat),
        ),
{
    let mut count: usize = 0;
    let mut at = from;
    proof {
        T::lemma_width();
    }
    while at < to
        invariant
            from <= at <= to <= data@.len(),
            to * (T::BITS as nat) <= usize::MAX,
            0 < T::BITS <= 64,
            count == count_in(
                bits_of::<C, T>(data@),
                from * (T::BITS as nat),
                at * (T::BITS as nat),
            ),
        decreases to - at,
    {
        let elem = data[at];
        proof {
            let width = T::BITS as nat;
            let all = bits_of::<C, T>(data@);
            elem.lemma_raw();
            assert forall|i: nat| i < T::BITS implies #[trigger] bit_of(
                elem.raw(),
                C::at_spec(width, i),
            ) == (0 <= i < width && bit_at::<C, T>(data@[at as int], i)) by {}
            lemma_region_count::<C, T>(data@, at as nat, 0, width, elem.raw());
            lemma_mul_is_distributive_add_other_way(
                width as int,
                at as int,
                1,
            );
            lemma_mul_inequality(from as int, at as int, width as int);
            lemma_mul_inequality(at as int + 1, to as int, width as int);
            lemma_count_in_split(all, from * width, at * width, (at + 1) * width);
            lemma_count_in_bound(all, from * width, (at + 1) * width);
        }
        count = count + elem.count_ones();
        at = at + 1;
    }
    count
}

/// Where the parts of the domain of a span lie, in bits counted from the
/// first bit of the first element.
pub open spec fn domain_laid_out<C: Cursor, T: BitStore>(
    domain: BitDomain<T>,
    first: nat,
    end: nat,
    len: nat,
) -> bool {
    let width = T::BITS as nat;
    match domain {
        BitDomain::Empty => first == end,
        BitDomain::PureBody { body } => {
            &&& first == 0
            &&& body.0 == 0
            &&& body.1 <= len
            &&& body.1 * width == end
        },
        BitDomain::SingleElementPartial { elt, mask } => {
            &&& elt == 0
            &&& 0 < len
            &&& first <= end <= width
            &&& mask_is::<C, T>(mask, first, end)
        },
        BitDomain::Split { head, body, tail } => {
            &&& head.0 == 0
            &&& mask_is::<C, T>(head.1, first, width)
            &&& body.0 == 1
            &&& 1 <= body.1 <= len
            &&& width <= body.1 * width <= end
            &&& match tail {
                Some(last) => {
                    &&& last.0 == body.1
                    &&& last.0 < len
                    &&& end - body.1 * width < width
                    &&& mask_is::<C, T>(last.1, 0, (end - body.1 * width) as nat)
                },
                None => body.1 * width == end,
            }
        },
    }
}

/// The parts of the domain of a span that lies within a buffer lie within
/// the buffer, one after the other, from the first bit of the span to its
/// last.
pub proof fn lemma_domain_laid_out<C: Cursor, T: BitStore>(
    domain: BitDomain<T>,
    first: nat,
    bits: nat,
    len: nat,
)
    requires
        first < T::BITS,
        bits <= max_bits(T::BITS as nat),
        first + bits <= len * (T::BITS as nat),
        domain.is_domain_of::<C>(first, bits),
    ensures
        domain_laid_out::<C, T>(domain, first, first + bits, len),
{
    let width = T::BITS as nat;
    let end = first + bits;
    let elts = span_elements(Span { base: 0, head: first, bits }, width);
    lemma_width_cases::<T>();
    lemma_span_fits::<T>(first, bits, len);
    lemma_elements_for(end, width);
    assert(elts == elements_for(end, width));
    lemma_mul_basics_4(width as int);
    lemma_mod_bound(end as int, width as int);
    lemma_fundamental_div_mod(end as int, width as int);
    if elts >= 1 {
        lemma_mul_is_distributive_add_other_way(
            width as int,
            elts as int - 1,
            1,
        );
        lemma_mul_inequality(1, elts as int, width as int);
    }
    if elts >= 2 {
        lemma_mul_inequality(1, elts as int - 1, width as int);
        let low = (elts - 1) * width;
        assert(end % width != 0 ==> end - low == end % width) by {
            if end % width != 0 {
                lemma_fundamental_div_mod_converse(
                    end as int,
                    width as int,
                    elts as int - 1,
                    end - low,
                );
            }
        }
    }
}

/// Counts the set bits among the `bits` bits of the buffer that start at the
/// bit `head` of its first element.
pub fn count_ones<C: Cursor, T: BitStore>(data: &[T], head: BitIdx<T>, bits: usize) -> (count:
    usize)
    requires
        head.wf(),
        bits <= max_bits(T::BITS as nat),
        head.value() + bits <= data@.len() * (T::BITS as nat),
    ensures
        count == count_in(bits_of::<C, T>(data@), head.value() as int, head.value() + bits),
        count <= bits,
{
    let domain = BitDomain::new::<C>(head, bits);
    let ghost width = T::BITS as nat;
    let ghost all = bits_of::<C, T>(data@);
    let ghost first = head.value();
    let ghost end = head.value() + bits as nat;
    proof {
        lemma_width_cases::<T>();
        lemma_domain_laid_out::<C, T>(domain, first, bits as nat, data@.len());
        lemma_count_in_bound(all, first as int, end as int);
        lemma_mul_basics_1(width as int);
    }
    match domain {
        BitDomain::Empty => 0,
        BitDomain::PureBody { body } => body_count::<C, T>(data, body.0, body.1),
        BitDomain::SingleElementPartial { elt, mask } => {
            part_count::<C, T>(data, elt, mask, Ghost(first), Ghost(end))
        },
        BitDomain::Split { head: front, body, tail } => {
            let ghost mid = body.1 * width;
            proof {
                lemma_mul_basics_4(width as int);
                lemma_count_in_split(all, first as int, width as int, end as int);
                lemma_count_in_split(all, width as int, mid as int, end as int);
                lemma_count_in_bound(all, first as int, width as int);
                lemma_count_in_bound(all, width as int, mid as int);
                lemma_count_in_bound(all, mid as int, end as int);
            }
            let low = part_count::<C, T>(data, front.0, front.1, Ghost(first), Ghost(width));
            let whole = body_count::<C, T>(data, body.0, body.1);
            let high = match tail {
                Some(last) => part_count::<C, T>(
                    data,
                    last.0,
                    last.1,
                    Ghost(0),
                    Ghost((end - mid) as nat),
                ),
                None => 0,
            };
            low + whole + high
        },
    }
}

/// Counts the clear bits among the `bits` bits of the buffer that start at
/// the bit `head` of its first element.
pub fn count_zeros<C: Cursor, T: BitStore>(data: &[T], head: BitIdx<T>, bits: usize) -> (count:
    usize)
    requires
        head.wf(),
        bits <= max_bits(T::BITS as nat),
        head.value() + bits <= data@.len() * (T::BITS as nat),
    ensures
        count == bits - count_in(bits_of::<C, T>(data@), head.value() as int, head.value() + bits),
{
    bits - count_ones::<C, T>(data, head, bits)
}

/// Whether the parts of the domain find no set bit in the buffer.
spec fn domain_zero<C: Cursor, T: BitStore>(data: Seq<T>, domain: BitDomain<T>) -> bool {
    match domain {
        BitDomain::Empty => true,
        BitDomain::PureBody { body } => body_zero::<C, T>(data, body.0 as int, body.1 as int),
        BitDomain::SingleElementPartial { elt, mask } => part_zero::<C, T>(data, elt as int, mask),
        BitDomain::Split { head, body, tail } => {
            &&& part_zero::<C, T>(data, head.0 as int, head.1)
            &&& body_zero::<C, T>(data, body.0 as int, body.1 as int)
            &&& tail matches Some(last) ==> part_zero::<C, T>(data, last.0 as int, last.1)
        },
    }
}

/// Where the parts of the domain find a set bit in the buffer, names the
/// element and the index of one that the domain holds.
proof fn lemma_set_bit_found<C: Cursor, T: BitStore>(data: Seq<T>, domain: BitDomain<T>) -> (r: (
    int,
    nat,
))
    requires
        !domain_zero::<C, T>(data, domain),
    ensures
        0 <= r.0,
        r.1 < T::BITS,
        bit_at::<C, T>(data[r.0], r.1),
        domain.covers::<C>((r.0 * (T::BITS as nat) + r.1) as nat),
{
    let r = match domain {
        BitDomain::Empty => (0int, 0nat),
        BitDomain::PureBody { body } => lemma_body_found::<C, T>(data, body.0 as int, body.1 as int),
        BitDomain::SingleElementPartial { elt, mask } => (
            elt as int,
            lemma_part_found::<C, T>(data, elt as int, mask),
        ),
        BitDomain::Split { head, body, tail } => {
            if !part_zero::<C, T>(data, head.0 as int, head.1) {
                (head.0 as int, lemma_part_found::<C, T>(data, head.0 as int, head.1))
            } else if !body_zero::<C, T>(data, body.0 as int, body.1 as int) {
                lemma_body_found::<C, T>(data, body.0 as int, body.1 as int)
            } else {
                let last = tail->0;
                (last.0 as int, lemma_part_found::<C, T>(data, last.0 as int, last.1))
            }
        },
    };
    lemma_index_join::<T>(r.0 as nat, r.1);
    r
}

/// Names a set bit that `mask` selects in the element `elt`, where there is
/// one.
proof fn lemma_part_found<C: Cursor, T: BitStore>(data: Seq<T>, elt: int, mask: T) -> (i: nat)
    requires
        !part_zero::<C, T>(data, elt, mask),
    ensures
        i < T::BITS,
        bit_at::<C, T>(mask, i),
        bit_at::<C, T>(data[elt], i),
{
    choose|i: nat| i < T::BITS && bit_at::<C, T>(mask, i) && #[trigger] bit_at::<C, T>(data[elt], i)
}

/// Names a set bit in the elements from `from` up to `to`, where there is
/// one.
proof fn lemma_body_found<C: Cursor, T: BitStore>(data: Seq<T>, from: int, to: int) -> (r: (
    int,
    nat,
))
    requires
        !body_zero::<C, T>(data, from, to),
    ensures
        from <= r.0 < to,
        r.1 < T::BITS,
        bit_at::<C, T>(data[r.0], r.1),
{
    choose|j: int, i: nat| from <= j < to && i < T::BITS && #[trigger] bit_at::<C, T>(data[j], i)
}

/// A span that lies within a buffer touches only elements of the buffer.
proof fn lemma_span_fits<T: BitStore>(head: nat, bits: nat, len: nat)
    requires
        head < T::BITS,
        bits <= max_bits(T::BITS as nat),
        head + bits <= len * (T::BITS as nat),
    ensures
        span_elements(
            Span { base: 0, head, bits },
            T::BITS as nat,
        ) <= len,
{
    lemma_width_cases::<T>();
    let w = T::BITS as int;
    let x = head + bits + w - 1;
    lemma_fundamental_div_mod(x, w);
    lemma_mod_bound(x, w);
    let q = x / w;
    let r = x % w;
    assert(q <= len) by (nonlinear_arith)
        requires
            x == w * q + r,
            0 <= r < w,
            x < len * w + w,
    ;
}

/// The bits of a buffer without its first `skip` elements are the bits of
/// the buffer after the bits of those elements.
pub proof fn lemma_bits_skip<C: Cursor, T: BitStore>(data: Seq<T>, skip: nat, k: int)
    requires
        skip <= data.len(),
        0 <= k < (data.len() - skip) * (T::BITS as nat),
    ensures
        skip * (T::BITS as nat) + k < data.len() * (T::BITS as nat),
        bits_of::<C, T>(data.subrange(skip as int, data.len() as int))[k] == bits_of::<C, T>(
            data,
        )[skip * (T::BITS as nat) + k],
{
    T::lemma_width();
    let w = T::BITS as int;
    let rest = data.subrange(skip as int, data.len() as int);
    lemma_index_split::<T>(k as nat, rest.len());
    lemma_fundamental_div_mod(k, w);
    lemma_mod_bound(k, w);
    lemma_mul_is_commutative(w, k / w);
    lemma_mul_is_distributive_add_other_way(w, skip as int, k / w);
    lemma_mul_is_distributive_sub_other_way(w, data.len() as int, skip as int);
    lemma_index_join::<T>((skip + k / w) as nat, (k % w) as nat);
}

/// A run of bits in a borrowed buffer: the `bits` bits that start at the
/// bit `head` of the first element of the buffer, in the order `C`.
pub struct BitSlice<'a, C, T> {
    data: &'a [T],
    head: BitIdx<T>,
    bits: usize,
    _order: PhantomData<C>,
}

impl<'a, C, T> Clone for BitSlice<'a, C, T> {
    fn clone(&self) -> (r: Self)
        ensures
            r == *self,
    {
        BitSlice { data: self.data, head: self.head, bits: self.bits, _order: PhantomData }
    }
}

impl<'a, C, T> Copy for BitSlice<'a, C, T> {

}

impl<'a, C: Cursor, T: BitStore> View for BitSlice<'a, C, T> {
    type V = Seq<bool>;

    /// The bits of the run, first to last.
    open spec fn view(&self) -> Seq<bool> {
        bits_of::<C, T>(self.elements()).subrange(
            self.head_index() as int,
            (self.head_index() + self.bit_len()) as int,
        )
    }
}

impl<'a, C: Cursor, T: BitStore> BitSlice<'a, C, T> {
    /// The elements of the buffer.
    pub closed spec fn elements(&self) -> Seq<T> {
        self.data@
    }

    /// The index of the first bit of the run in the first element.
    pub closed spec fn head_index(&self) -> nat {
        self.head.value()
    }

    /// The number of bits in the run.
    pub closed spec fn bit_len(&self) -> nat {
        self.bits as nat
    }

    /// The invariant of the type: the head is an index of an element, the
    /// length is in range, and the run ends within the buffer.
    pub open spec fn wf(&self) -> bool {
        &&& self.head_index() < T::BITS
        &&& self.bit_len() <= max_bits(T::BITS as nat)
        &&& self.head_index() + self.bit_len() <= self.elements().len() * (T::BITS as nat)
    }

    /// The run of `bits` bits that starts at the bit `head` of the first
    /// element of `data`. Nothing is made if `bits` is out of range or the
    /// run would end after the buffer.
    pub fn new(data: &'a [T], head: BitIdx<T>, bits: usize) -> (r: Option<Self>)
        requires
            head.wf(),
        ensures
            r is Some <==> bits <= max_bits(T::BITS as nat) && head.value() + bits <= data@.len() * (
            T::BITS as nat),
            r matches Some(s) ==> s.wf() && s.elements() == data@ && s.head_index() == head.value()
                && s.bit_len() == bits,
    {
        proof {
            lemma_width_cases::<T>();
        }
        let width = T::BITS as usize;
        if bits > usize::MAX / (2 * width) {
            return None;
        }
        let needed = (head.get() as usize + bits + (width - 1)) / width;
        proof {
            let total = head.value() + bits as nat;
            lemma_elements_for(total, T::BITS as nat);
            if needed > data@.len() {
                lemma_mul_inequality(data@.len() as int + 1, needed as int, T::BITS as int);
                lemma_mul_is_distributive_add_other_way(T::BITS as int, data@.len() as int, 1);
            } else {
                lemma_mul_inequality(needed as int, data@.len() as int, T::BITS as int);
            }
        }
        if needed > data.len() {
            return None;
        }
        Some(BitSlice { data, head, bits, _order: PhantomData })
    }

    /// The number of bits in the run.
    pub fn len(&self) -> (r: usize)
        ensures
            r == self.bit_len(),
    {
        self.bits
    }

    /// Whether the run holds no bit.
    pub fn is_empty(&self) -> (r: bool)
        ensures
            r == (self.bit_len() == 0),
    {
        self.bits == 0
    }

    /// The index of the first bit of the run in the first element.
    pub fn head(&self) -> (r: BitIdx<T>)
        ensures
            r.value() == self.head_index(),
    {
        self.head
    }

    /// The elements of the buffer.
    pub fn as_slice(&self) -> (r: &'a [T])
        ensures
            r@ == self.elements(),
    {
        self.data
    }

    /// The division of the run into partially and wholly held elements.
    pub fn domain(&self) -> (r: BitDomain<T>)
        requires
            self.wf(),
        ensures
            r.is_domain_of::<C>(self.head_index(), self.bit_len()),
    {
        BitDomain::new::<C>(self.head, self.bits)
    }

    /// Reads the bit `index`, if there is one.
    pub fn get(&self, index: usize) -> (r: Option<bool>)
        requires
            self.wf(),
        ensures
            r == (if index < self@.len() {
                Some(self@[index as int])
            } else {
                None
            }),
    {
        proof {
            lemma_width_cases::<T>();
        }
        if index < self.bits {
            Some(get_bit::<C, T>(self.data, self.head.get() as usize + index))
        } else {
            None
        }
    }

    /// Whether no bit of the run is set.
    pub fn not_any(&self) -> (r: bool)
        requires
            self.wf(),
        ensures
            r == forall|i: int| 0 <= i < self@.len() ==> !self@[i],
    {
        let r = not_any::<C, T>(self.data, self.head, self.bits);
        proof {
            let all = bits_of::<C, T>(self.data@);
            let first = self.head.value() as int;
            if r {
                assert forall|i: int| 0 <= i < self@.len() implies !self@[i] by {
                    assert(!all[first + i]);
                }
            } else {
                let k = choose|k: int| first <= k < first + self.bits && #[trigger] all[k];
                assert(self@[k - first]);
            }
        }
        r
    }

    /// Counts the bits of the run that are set.
    pub fn count_ones(&self) -> (count: usize)
        requires
            self.wf(),
        ensures
            count == count_in(self@, 0, self@.len() as int),
            count <= self@.len(),
    {
        proof {
            lemma_count_in_shift(
                bits_of::<C, T>(self.data@),
                self@,
                self.head.value() as int,
                self.bits as int,
            );
        }
        count_ones::<C, T>(self.data, self.head, self.bits)
    }

    /// Counts the bits of the run that are clear.
    pub fn count_zeros(&self) -> (count: usize)
        requires
            self.wf(),
        ensures
            count == self@.len() - count_in(self@, 0, self@.len() as int),
    {
        self.bits - self.count_ones()
    }

    /// The bits of the run from the bit `from` up to the bit `to`, if that is
    /// a run within this one.
    pub fn slice(&self, from: usize, to: usize) -> (r: Option<BitSlice<'a, C, T>>)
        requires
            self.wf(),
        ensures
            r is Some <==> from <= to <= self@.len(),
            r matches Some(s) ==> s.wf() && s@ == self@.subrange(from as int, to as int),
    {
        if from > to || to > self.bits {
            return None;
        }
        proof {
            lemma_width_cases::<T>();
        }
        let (elts, head) = self.head.offset(from as isize);
        let ghost width = T::BITS as int;
        let ghost len = self.data@.len() as int;
        proof {
            lemma_mul_is_commutative(elts as int, width);
            if elts < 0 {
                lemma_mul_inequality(elts as int, -1, width);
            }
            if elts > len {
                lemma_mul_inequality(len + 1, elts as int, width);
                lemma_mul_is_distributive_add_other_way(width, len, 1);
            }
            lemma_mul_is_distributive_sub_other_way(width, len, elts as int);
        }
        let data = slice_subrange(self.data, elts as usize, self.data.len());
        let r = BitSlice { data, head, bits: to - from, _order: PhantomData };
        proof {
            assert forall|k: int| 0 <= k < to - from implies r@[k] == self@[from + k] by {
                lemma_bits_skip::<C, T>(self.data@, elts as nat, head.value() + k);
            }
            assert(r@ =~= self@.subrange(from as int, to as int));
        }
        Some(r)
    }

    /// The bits of the run, first to last.
    pub fn to_bools(&self) -> (r: Vec<bool>)
        requires
            self.wf(),
        ensures
            r@ == self@,
    {
        proof {
            lemma_width_cases::<T>();
        }
        let mut r: Vec<bool> = Vec::with_capacity(self.bits);
        let mut at: usize = 0;
        while at < self.bits
            invariant
                at <= self.bits,
                self.wf(),
                self.head.value() + self.bits <= usize::MAX,
                r@ == self@.take(at as int),
            decreases self.bits - at,
        {
            r.push(get_bit::<C, T>(self.data, self.head.get() as usize + at));
            at = at + 1;
            proof {
                assert(r@ =~= self@.take(at as int));
            }
        }
        proof {
            assert(self@.take(self.bits as int) =~= self@);
        }
        r
    }
}

/// A run of a sequence has as many set bits as the sequence that holds the
/// bits of the run alone.
pub proof fn lemma_count_in_shift(all: Seq<bool>, run: Seq<bool>, first: int, len: int)
    requires
        0 <= len,
        forall|i: int| 0 <= i < len ==> run[i] == all[first + i],
    ensures
        count_in(run, 0, len) == count_in(all, first, first + len),
    decreases len,
{
    if len > 0 {
        lemma_count_in_shift(all, run, first, len - 1);
    }
}

} // verus!
