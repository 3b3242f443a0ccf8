//! The integer model of a storage element.
//!
//! Every element, whatever its width, is described by its value as a `u64`.
//! The physical bit `pos` of an element is the binary digit of weight
//! `2^pos` in that value.

use vstd::prelude::*;
use vstd::relations::injective_on;
use vstd::set_lib::lemma_map_size;
use vstd::std_specs::bits::{axiom_u64_trailing_zeros, u64_trailing_zeros};

verus! {

/// The value whose `width` lowest bits are set and whose other bits are clear.
pub open spec fn ones64(width: u64) -> u64 {
    if width >= 64 {
        u64::MAX
    } else {
        ((1u64 << width) - 1) as u64
    }
}

/// The value of an element of `width` bits in which every bit is set.
pub open spec fn ones(width: nat) -> u64 {
    ones64(width as u64)
}

/// Whether the physical bit `pos` is set in `value`.
pub open spec fn bit_of(value: u64, pos: nat) -> bool {
    (value >> (pos as u64)) & 1 == 1
}

/// `value` with its physical bit `pos` made equal to `bit`.
pub open spec fn with_bit(value: u64, pos: nat, bit: bool) -> u64 {
    if bit {
        value | (1u64 << (pos as u64))
    } else {
        value & !(1u64 << (pos as u64))
    }
}

/// `value` after the writes of `writes` were made to it, each a position and
/// the bit to put there, in their order.
pub open spec fn after_writes(value: u64, writes: Seq<(nat, bool)>) -> u64
    decreases writes.len(),
{
    if writes.len() == 0 {
        value
    } else {
        with_bit(after_writes(value, writes.drop_last()), writes.last().0, writes.last().1)
    }
}

/// The number of set bits in `value`.
pub open spec fn count_ones_spec(value: u64) -> nat
    decreases value,
{
    if value == 0 {
        0
    } else {
        (value % 2) as nat + count_ones_spec(value / 2)
    }
}

/// The positions of the set bits of `value`.
pub open spec fn set_positions(value: u64) -> Set<nat> {
    Set::new(|pos: nat| pos < 64 && bit_of(value, pos))
}

/// Whether (`bits`, `indx`, `mask`) describe a supported element width:
/// 8, 16, 32 or 64 bits, with `indx` its base-two logarithm and `mask` the
/// largest bit index.
pub open spec fn supported_width(bits: nat, indx: nat, mask: nat) -> bool {
    &&& (bits == 8 && indx == 3) || (bits == 16 && indx == 4) || (bits == 32 && indx == 5) || (bits
        == 64 && indx == 6)
    &&& mask + 1 == bits
}

/// `u64::count_ones` of the standard library: the number of ones in the
/// binary representation of the argument. Trusted, not proved.
#[verifier::external_body]
pub(crate) fn population(value: u64) -> (count: u32)
    ensures
        count == count_ones_spec(value),
{
    value.count_ones()
}

/// The all-ones values of the four supported widths.
pub proof fn lemma_ones_values()
    ensures
        ones(8) == 0xff,
        ones(16) == 0xffff,
        ones(32) == 0xffff_ffff,
        ones(64) == u64::MAX,
{
    assert(ones64(8) == 0xff && ones64(16) == 0xffff && ones64(32) == 0xffff_ffff && ones64(64)
        == 0xffff_ffff_ffff_ffff) by (bit_vector);
}

/// A single-bit value fits in any element wide enough to hold the bit.
pub proof fn lemma_one_hot_fits(pos: u64, width: u64)
    by (bit_vector)
    requires
        pos < width,
        width <= 64,
    ensures
        (1u64 << pos) & ones64(width) == 1u64 << pos,
        1u64 << pos <= ones64(width),
        1u64 << pos != 0,
{
}

/// Exactly the bits below `width` are set in the all-ones value.
pub proof fn lemma_ones_bits(width: u64, pos: u64)
    by (bit_vector)
    requires
        0 < width <= 64,
        pos < 64,
    ensures
        ((ones64(width) >> pos) & 1 == 1) == (pos < width),
{
}

/// In a single-bit value exactly that bit is set.
pub proof fn lemma_one_hot_bits(hot: u64, pos: u64)
    by (bit_vector)
    requires
        hot < 64,
        pos < 64,
    ensures
        (((1u64 << hot) >> pos) & 1 == 1) == (pos == hot),
{
}

/// Or-ing a single-bit value in sets that bit and leaves the others.
pub proof fn lemma_set_bit(value: u64, hot: u64, pos: u64)
    by (bit_vector)
    requires
        hot < 64,
        pos < 64,
    ensures
        (((value | (1u64 << hot)) >> pos) & 1 == 1) == (pos == hot || (value >> pos) & 1 == 1),
{
}

/// And-ing with the complement of a single-bit value clears that bit and
/// leaves the others.
pub proof fn lemma_clear_bit(value: u64, hot: u64, pos: u64)
    by (bit_vector)
    requires
        hot < 64,
        pos < 64,
    ensures
        (((value & !(1u64 << hot)) >> pos) & 1 == 1) == (pos != hot && (value >> pos) & 1 == 1),
        value & !(1u64 << hot) <= value,
{
}

/// Complementing within the element's width is the same as complementing
/// in 64 bits, for a value that fits the element.
pub proof fn lemma_not_within(value: u64, hot: u64, width: u64)
    by (bit_vector)
    requires
        hot < width,
        0 < width <= 64,
        value <= ones64(width),
    ensures
        value & (!(1u64 << hot) & ones64(width)) == value & !(1u64 << hot),
        value | (1u64 << hot) <= ones64(width),
        !value & ones64(width) == ones64(width) - value,
{
}

/// Different single-bit values share no bit.
pub proof fn lemma_one_hot_distinct(p: u64, q: u64)
    by (bit_vector)
    requires
        p < 64,
        q < 64,
        p != q,
    ensures
        1u64 << p != 1u64 << q,
        (1u64 << p) & (1u64 << q) == 0,
{
}

/// No bit is set in zero, and a value other than zero has a set bit.
pub proof fn lemma_zero_bits(pos: u64)
    by (bit_vector)
    requires
        pos < 64,
    ensures
        (0u64 >> pos) & 1 == 0,
{
}

/// Writes to different bits of one value can be made in either order.
pub proof fn lemma_with_bit_commutes(value: u64, p: nat, a: bool, q: nat, b: bool)
    requires
        p < 64,
        q < 64,
        p != q,
    ensures
        with_bit(with_bit(value, p, a), q, b) == with_bit(with_bit(value, q, b), p, a),
{
    let x = p as u64;
    let y = q as u64;
    assert(x < 64 && y < 64 ==> (value | (1u64 << x)) | (1u64 << y) == (value | (1u64 << y)) | (1u64
        << x) && (value | (1u64 << x)) & !(1u64 << y) == (value & !(1u64 << y)) | (1u64 << x) || x
        == y) by (bit_vector);
    assert(x < 64 && y < 64 ==> (value & !(1u64 << x)) & !(1u64 << y) == (value & !(1u64 << y)) & !(
    1u64 << x) && (value & !(1u64 << x)) | (1u64 << y) == (value | (1u64 << y)) & !(1u64 << x) || x
        == y) by (bit_vector);
}

/// Clearing the bits of a mask does not depend on the bits of the mask that
/// lie outside the element.
pub proof fn lemma_clear_within(value: u64, mask: u64, width: u64)
    by (bit_vector)
    requires
        0 < width <= 64,
        value <= ones64(width),
    ensures
        value & (!mask & ones64(width)) == value & !mask,
{
}

/// The bits of a conjunction, of a disjunction and of a difference of two
/// values.
pub proof fn lemma_bitwise(a: u64, b: u64, pos: u64)
    by (bit_vector)
    requires
        pos < 64,
    ensures
        (((a & b) >> pos) & 1 == 1) == ((a >> pos) & 1 == 1 && (b >> pos) & 1 == 1),
        (((a | b) >> pos) & 1 == 1) == ((a >> pos) & 1 == 1 || (b >> pos) & 1 == 1),
        (((a & !b) >> pos) & 1 == 1) == ((a >> pos) & 1 == 1 && !((b >> pos) & 1 == 1)),
{
}

/// Complementing an element inverts each of its bits.
pub proof fn lemma_not_bits(value: u64, pos: u64, width: u64)
    by (bit_vector)
    requires
        pos < width,
        0 < width <= 64,
    ensures
        (((!value & ones64(width)) >> pos) & 1 == 1) == !((value >> pos) & 1 == 1),
{
}

/// A set bit of a value that fits an element lies within the element.
pub proof fn lemma_bit_within(value: u64, pos: u64, width: u64)
    by (bit_vector)
    requires
        pos < 64,
        0 < width <= 64,
        value <= ones64(width),
        (value >> pos) & 1 == 1,
    ensures
        pos < width,
{
}

/// A value other than zero has a set bit.
pub proof fn lemma_nonzero_bit(value: u64) -> (pos: nat)
    requires
        value != 0,
    ensures
        pos < 64,
        bit_of(value, pos),
{
    axiom_u64_trailing_zeros(value);
    u64_trailing_zeros(value) as nat
}

/// The bits of half a value are the bits of the value, one place down.
pub proof fn lemma_half_bits(value: u64, pos: u64)
    by (bit_vector)
    requires
        pos < 63,
    ensures
        (((value / 2) >> pos) & 1 == 1) == ((value >> ((pos + 1) as u64)) & 1 == 1),
        ((value / 2) >> 63u64) & 1 == 0,
        ((value >> 0u64) & 1 == 1) == (value % 2 == 1),
{
}

/// The number of set bits of a value is the number of positions at which a
/// bit of the value is set.
pub proof fn lemma_count_ones_positions(value: u64)
    ensures
        set_positions(value).finite(),
        set_positions(value).len() == count_ones_spec(value),
    decreases value,
{
    let here = set_positions(value);
    if value == 0 {
        assert forall|pos: nat| !here.contains(pos) by {
            if pos < 64 {
                lemma_zero_bits(pos as u64);
            }
        }
        assert(here =~= Set::<nat>::empty());
    } else {
        let half = value / 2;
        let below = set_positions(half);
        let up = |pos: nat| (pos + 1) as nat;
        let moved = below.map(up);
        lemma_count_ones_positions(half);
        assert(injective_on(up, below));
        lemma_map_size(below, moved, up);
        lemma_half_bits(value, 0);
        assert forall|pos: nat| moved.contains(pos) <==> 0 < pos < 64 && bit_of(value, pos) by {
            if 0 < pos < 64 {
                lemma_half_bits(value, (pos - 1) as u64);
                if bit_of(value, pos) {
                    assert(below.contains((pos - 1) as nat));
                    assert(up((pos - 1) as nat) == pos);
                }
            }
            if moved.contains(pos) {
                let from = choose|from: nat| below.contains(from) && up(from) == pos;
                if from < 63 {
                    lemma_half_bits(value, from as u64);
                }
            }
        }
        if value % 2 == 1 {
            assert(here =~= moved.insert(0));
        } else {
            assert(here =~= moved);
        }
    }
}

/// A write made twice is a write made once.
pub proof fn lemma_with_bit_again(value: u64, p: nat, a: bool)
    requires
        p < 64,
    ensures
        with_bit(with_bit(value, p, a), p, a) == with_bit(value, p, a),
{
    let x = p as u64;
    assert(x < 64 ==> (value | (1u64 << x)) | (1u64 << x) == value | (1u64 << x) && (value & !(1u64
        << x)) & !(1u64 << x) == value & !(1u64 << x)) by (bit_vector);
}

/// What is left by writes that were made in any order and any number of
/// times, each of them being one of two writes to different bits: the value
/// as the writes that were made at all leave it, one after the other.
pub proof fn lemma_writes_in_any_order(
    value: u64,
    first: (nat, bool),
    second: (nat, bool),
    writes: Seq<(nat, bool)>,
)
    requires
        first.0 < 64,
        second.0 < 64,
        first.0 != second.0,
        forall|i: int| 0 <= i < writes.len() ==> writes[i] == first || writes[i] == second,
    ensures
        after_writes(value, writes) == (if writes.contains(first) && writes.contains(second) {
            with_bit(with_bit(value, first.0, first.1), second.0, second.1)
        } else if writes.contains(first) {
            with_bit(value, first.0, first.1)
        } else if writes.contains(second) {
            with_bit(value, second.0, second.1)
        } else {
            value
        }),
    decreases writes.len(),
{
    if writes.len() > 0 {
        let before = writes.drop_last();
        let last = writes.last();
        lemma_writes_in_any_order(value, first, second, before);
        assert forall|w: (nat, bool)| writes.contains(w) <==> before.contains(w) || last
            == w by {
            if before.contains(w) {
                let i = choose|i: int| 0 <= i < before.len() && before[i] == w;
                assert(writes[i] == w);
            }
            if last == w {
                assert(writes[writes.len() - 1] == w);
            }
            if writes.contains(w) {
                let i = choose|i: int| 0 <= i < writes.len() && writes[i] == w;
                if i < before.len() {
                    assert(before[i] == w);
                }
            }
        }
        assert(last == first || last == second);
        let one = with_bit(value, first.0, first.1);
        let two = with_bit(value, second.0, second.1);
        lemma_with_bit_again(value, first.0, first.1);
        lemma_with_bit_again(value, second.0, second.1);
        lemma_with_bit_again(one, second.0, second.1);
        lemma_with_bit_again(two, first.0, first.1);
        lemma_with_bit_commutes(value, first.0, first.1, second.0, second.1);
    }
}

/// A value's bit tested through a mask.
pub proof fn lemma_test_bit(value: u64, pos: u64)
    by (bit_vector)
    requires
        pos < 64,
    ensures
        (value & (1u64 << pos) != 0) == ((value >> pos) & 1 == 1),
{
}

/// A value below `2^bits` has at most `bits` set bits, and together with its
/// complement within `bits` bits it has exactly `bits` of them.
pub proof fn lemma_count_ones_complement(value: u64, bits: nat)
    requires
        bits <= 64,
        value <= ones(bits),
    ensures
        count_ones_spec(value) <= bits,
        count_ones_spec((ones(bits) - value) as u64) + count_ones_spec(value) == bits,
    decreases bits,
{
    let all = ones(bits);
    if bits == 0 {
        assert(ones64(0) == 0) by (bit_vector);
    } else {
        let b = bits as u64;
        let less = (bits - 1) as u64;
        assert(ones64(b) == 2 * ones64(less) + 1) by (bit_vector)
            requires
                0 < b <= 64,
                less == b - 1,
        ;
        let co = (all - value) as u64;
        assert(co / 2 == ones(less as nat) - value / 2);
        assert(co % 2 == 1 - value % 2);
        lemma_count_ones_complement(value / 2, less as nat);
        if value == 0 {
            assert(co / 2 == ones(less as nat));
        }
        reveal_with_fuel(count_ones_spec, 2);
    }
}

} // verus!
