//! Operators on bit vectors.
//!
//! The Boolean operators combine a vector with a stream of bits, place by
//! place. The arithmetic operators read a vector as a number written in
//! binary, with its first bit the most significant, and work as sums are
//! worked on paper, from the last bit to the first.

use crate::bits::{lemma_not_bits, ones};
use crate::cursor::Cursor;
use crate::pointer::{lemma_width_cases, max_bits};
use crate::rca1;
use crate::slice::lemma_index_split;
use crate::store::BitStore;
use crate::vec::{filled, BitVec};
use vstd::arithmetic::div_mod::{lemma_fundamental_div_mod_converse, lemma_small_mod};
use vstd::arithmetic::power2::{lemma2_to64, lemma_pow2_pos, lemma_pow2_unfold, pow2};
use vstd::prelude::*;

verus! {

/// The number that `bits` spell in binary, the first bit being the most
/// significant.
pub open spec fn value_of(bits: Seq<bool>) -> nat
    decreases bits.len(),
{
    if bits.len() == 0 {
        0
    } else {
        2 * value_of(bits.drop_last()) + (if bits.last() {
            1nat
        } else {
            0nat
        })
    }
}

/// What a bit is worth at the place `place`, counted from the last bit.
pub open spec fn weight(bit: bool, place: nat) -> nat {
    if bit {
        pow2(place)
    } else {
        0
    }
}

/// The greater of two lengths.
pub open spec fn longer(a: nat, b: nat) -> nat {
    if a >= b {
        a
    } else {
        b
    }
}

/// The lesser of two lengths.
pub open spec fn shorter(a: nat, b: nat) -> nat {
    if a <= b {
        a
    } else {
        b
    }
}

/// The bits of `bits`, each inverted.
pub open spec fn inverted(bits: Seq<bool>) -> Seq<bool> {
    Seq::new(bits.len(), |i: int| !bits[i])
}

/// The two's complement of `value` in `len` bits.
pub open spec fn negated(value: nat, len: nat) -> nat {
    if value == 0 {
        0
    } else {
        (pow2(len) - value) as nat
    }
}

/// The number of `to` bits that is equal, in two's complement, to the number
/// `value` of `len` bits: where the first bit of `value` is set, set bits
/// are put before it.
pub open spec fn sign_extended(value: nat, len: nat, to: nat) -> nat {
    if len > 0 && value >= pow2((len - 1) as nat) {
        (value + pow2(to) - pow2(len)) as nat
    } else {
        value
    }
}

/// The difference, in two's complement, of a minuend of `mlen` bits and a
/// subtrahend of `slen` bits, in as many bits as the longer of the two has:
/// the subtrahend is negated in its own length and extended by its sign, the
/// two are added, and what does not fit the length is dropped.
pub open spec fn difference(minuend: nat, mlen: nat, subtrahend: nat, slen: nat) -> nat {
    let len = longer(mlen, slen);
    (minuend + sign_extended(negated(subtrahend, slen), slen, len)) % pow2(len)
}

/// A number of `len` bits fits in `len` bits.
pub proof fn lemma_value_bound(bits: Seq<bool>)
    ensures
        value_of(bits) < pow2(bits.len()),
    decreases bits.len(),
{
    if bits.len() == 0 {
        lemma2_to64();
    } else {
        lemma_value_bound(bits.drop_last());
        lemma_pow2_unfold(bits.len());
    }
}

/// Two sequences of one length that spell one number are the same sequence.
pub proof fn lemma_value_injective(a: Seq<bool>, b: Seq<bool>)
    requires
        a.len() == b.len(),
        value_of(a) == value_of(b),
    ensures
        a == b,
    decreases a.len(),
{
    if a.len() > 0 {
        lemma_value_injective(a.drop_last(), b.drop_last());
        assert(a =~= a.drop_last().push(a.last()));
        assert(b =~= b.drop_last().push(b.last()));
    }
    assert(a =~= b);
}

/// A bit put before a number adds its weight to the number.
pub proof fn lemma_value_prepend(bit: bool, bits: Seq<bool>)
    ensures
        value_of(seq![bit] + bits) == weight(bit, bits.len()) + value_of(bits),
    decreases bits.len(),
{
    let all = seq![bit] + bits;
    if bits.len() == 0 {
        assert(all.drop_last() =~= Seq::<bool>::empty());
        assert(all.last() == bit);
        lemma2_to64();
        reveal_with_fuel(value_of, 2);
    } else {
        assert(all.drop_last() =~= seq![bit] + bits.drop_last());
        assert(all.last() == bits.last());
        lemma_value_prepend(bit, bits.drop_last());
        lemma_pow2_unfold(bits.len());
    }
}

/// A number is zero exactly if none of its bits is set.
pub proof fn lemma_value_zero(bits: Seq<bool>)
    ensures
        value_of(bits) == 0 <==> forall|i: int| 0 <= i < bits.len() ==> !bits[i],
    decreases bits.len(),
{
    if bits.len() > 0 {
        let front = bits.drop_last();
        lemma_value_zero(front);
        if value_of(bits) == 0 {
            assert forall|i: int| 0 <= i < bits.len() implies !bits[i] by {
                if i < front.len() {
                    assert(!front[i]);
                }
            }
        } else {
            if bits.last() {
            } else {
                let i = choose|i: int| 0 <= i < front.len() && front[i];
                assert(bits[i]);
            }
        }
    }
}

/// A number and its inverse add up to the greatest number of their length.
pub proof fn lemma_value_inverted(bits: Seq<bool>)
    ensures
        value_of(inverted(bits)) + value_of(bits) + 1 == pow2(bits.len()),
    decreases bits.len(),
{
    if bits.len() == 0 {
        lemma2_to64();
    } else {
        assert(inverted(bits).drop_last() =~= inverted(bits.drop_last()));
        lemma_value_inverted(bits.drop_last());
        lemma_pow2_unfold(bits.len());
    }
}

/// Clear bits put before a number leave it as it is; set bits put before it
/// add their weights.
pub proof fn lemma_value_extend(bit: bool, count: nat, bits: Seq<bool>)
    ensures
        value_of(filled(bit, count) + bits) == value_of(bits) + (if bit {
            pow2(count + bits.len()) - pow2(bits.len())
        } else {
            0
        }),
    decreases count,
{
    if count == 0 {
        assert(filled(bit, count) + bits =~= bits);
    } else {
        let rest = filled(bit, (count - 1) as nat) + bits;
        assert(filled(bit, count) + bits =~= seq![bit] + rest);
        lemma_value_prepend(bit, rest);
        lemma_value_extend(bit, (count - 1) as nat, bits);
        lemma_pow2_unfold(count + bits.len());
    }
}

/// The last `count + 1` bits of a number are worth the last `count` bits
/// and the weight of the bit before them.
pub proof fn lemma_value_skip(bits: Seq<bool>, count: nat)
    requires
        count < bits.len(),
    ensures
        value_of(bits.skip(bits.len() - count - 1)) == weight(bits[bits.len() - count - 1], count)
            + value_of(bits.skip(bits.len() - count)),
{
    let rest = bits.skip(bits.len() - count);
    assert(bits.skip(bits.len() - count - 1) =~= seq![bits[bits.len() - count - 1]] + rest);
    lemma_value_prepend(bits[bits.len() - count - 1], rest);
}

/// A bit added at the end of a number that is read backwards is worth its
/// weight at the place that the length gives.
pub proof fn lemma_value_reverse_push(bits: Seq<bool>, bit: bool)
    ensures
        value_of(bits.push(bit).reverse()) == weight(bit, bits.len()) + value_of(bits.reverse()),
{
    assert(bits.push(bit).reverse() =~= seq![bit] + bits.reverse());
    lemma_value_prepend(bit, bits.reverse());
}

/// The first bit of a number is set exactly if the number is at least half
/// of what its length can hold, and the bits after the first are worth the
/// number less the weight of the first.
pub proof fn lemma_value_first(bits: Seq<bool>)
    requires
        bits.len() > 0,
    ensures
        bits[0] <==> value_of(bits) >= pow2((bits.len() - 1) as nat),
        value_of(bits.skip(1)) + weight(bits[0], (bits.len() - 1) as nat) == value_of(bits),
{
    assert(bits =~= seq![bits[0]] + bits.skip(1));
    lemma_value_prepend(bits[0], bits.skip(1));
    lemma_value_bound(bits.skip(1));
}

/// What is left of a number below twice `modulus` when `modulus` is taken
/// from it as often as possible.
proof fn lemma_drop_carry(sum: nat, modulus: nat)
    requires
        0 < modulus,
        sum < 2 * modulus,
    ensures
        sum % modulus == (if sum >= modulus {
            sum - modulus
        } else {
            sum as int
        }),
{
    if sum >= modulus {
        lemma_fundamental_div_mod_converse(
            sum as int,
            modulus as int,
            1,
            sum - modulus,
        );
    } else {
        lemma_small_mod(sum, modulus);
    }
}

/// One step of a sum worked from the last place to the first: the bits
/// `a`, `b` and the carry `c` at the place `place` give the bit `sum` at
/// that place and the carry `out` into the next.
proof fn lemma_add_step(
    low: nat,
    c: bool,
    a_low: nat,
    b_low: nat,
    a: bool,
    b: bool,
    sum: bool,
    out: bool,
    place: nat,
)
    requires
        low + weight(c, place) == a_low + b_low,
        crate::bit_value(a) + crate::bit_value(b) + crate::bit_value(c) == crate::bit_value(sum)
            + 2 * crate::bit_value(out),
    ensures
        weight(sum, place) + low + weight(out, place + 1) == weight(a, place) + a_low + weight(
            b,
            place,
        ) + b_low,
{
    lemma_pow2_unfold(place + 1);
}

impl<C: Cursor, T: BitStore> BitVec<C, T> {
    /// Reads the bit `index`.
    pub fn index(&self, index: usize) -> (bit: bool)
        requires
            self.wf(),
            index < self@.len(),
        ensures
            bit == self@[index as int],
    {
        self.get(index).unwrap()
    }

    /// Inverts every bit.
    pub fn not(self) -> (r: Self)
        requires
            self.wf(),
        ensures
            r.wf(),
            r@ == inverted(self@),
    {
        let bits = self.len();
        let ghost before = self.elements();
        let ghost old_view = self@;
        proof {
            self.lemma_len();
        }
        let mut data = self.into_vec();
        let mut at: usize = 0;
        while at < data.len()
            invariant
                at <= data@.len(),
                data@.len() == before.len(),
                forall|j: int|
                    0 <= j < at ==> (#[trigger] data@[j]).raw() == !before[j].raw() & ones(
                        T::BITS as nat,
                    ),
                forall|j: int| at <= j < data@.len() ==> data@[j] == before[j],
            decreases data@.len() - at,
        {
            let elem = data[at];
            data.set(at, elem.bit_not());
            at = at + 1;
        }
        let ghost after = data@;
        let r = BitVec::from_elements(data, bits).unwrap();
        proof {
            T::lemma_width();
            assert forall|k: int| 0 <= k < bits implies r@[k] == !old_view[k] by {
                let w = T::BITS as int;
                lemma_index_split::<T>(k as nat, before.len());
                let pos = C::at_spec(T::BITS as nat, (k % w) as nat);
                C::lemma_at(T::BITS as nat, (k % w) as nat);
                lemma_not_bits(before[k / w].raw(), pos as u64, T::BITS as u64);
                assert(after[k / w].raw() == !before[k / w].raw() & ones(
                    T::BITS as nat,
                ));
            }
            assert(r@ =~= inverted(old_view));
        }
        r
    }

    /// Combines each bit with the bit of `rhs` at the same place by "and".
    /// The vector is cut to the length of `rhs` if that is shorter.
    pub fn bitand_assign(&mut self, rhs: Vec<bool>)
        requires
            old(self).wf(),
        ensures
            final(self).wf(),
            final(self)@ == Seq::new(
                shorter(old(self)@.len(), rhs@.len()),
                |i: int| old(self)@[i] && rhs@[i],
            ),
    {
        proof {
            self.lemma_len();
        }
        let len = if rhs.len() < self.len() {
            rhs.len()
        } else {
            self.len()
        };
        let mut at: usize = 0;
        while at < len
            invariant
                at <= len,
                len == shorter(old(self)@.len(), rhs@.len()),
                self.wf(),
                self@.len() == old(self)@.len(),
                forall|i: int|
                    0 <= i < at ==> #[trigger] self@[i] == (old(self)@[i] && rhs@[i]),
                forall|i: int| at <= i < self@.len() ==> #[trigger] self@[i] == old(self)@[i],
            decreases len - at,
        {
            let bit = self.index(at);
            self.set(at, bit && rhs[at]);
            at = at + 1;
        }
        self.truncate(len);
        proof {
            assert(self@ =~= Seq::new(
                shorter(old(self)@.len(), rhs@.len()),
                |i: int| old(self)@[i] && rhs@[i],
            ));
        }
    }

    /// Combines each bit with the bit of `rhs` at the same place by "and".
    /// The result has the length of the shorter of the two.
    pub fn bitand(self, rhs: Vec<bool>) -> (r: Self)
        requires
            self.wf(),
        ensures
            r.wf(),
            r@ == Seq::new(shorter(self@.len(), rhs@.len()), |i: int| self@[i] && rhs@[i]),
    {
        let mut r = self;
        r.bitand_assign(rhs);
        r
    }

    /// Combines each bit with the bit of `rhs` at the same place by "or".
    /// The vector is cut to the length of `rhs` if that is shorter.
    pub fn bitor_assign(&mut self, rhs: Vec<bool>)
        requires
            old(self).wf(),
        ensures
            final(self).wf(),
            final(self)@ == Seq::new(
                shorter(old(self)@.len(), rhs@.len()),
                |i: int| old(self)@[i] || rhs@[i],
            ),
    {
        proof {
            self.lemma_len();
        }
        let len = if rhs.len() < self.len() {
            rhs.len()
        } else {
            self.len()
        };
        let mut at: usize = 0;
        while at < len
            invariant
                at <= len,
                len == shorter(old(self)@.len(), rhs@.len()),
                self.wf(),
                self@.len() == old(self)@.len(),
                forall|i: int|
                    0 <= i < at ==> #[trigger] self@[i] == (old(self)@[i] || rhs@[i]),
                forall|i: int| at <= i < self@.len() ==> #[trigger] self@[i] == old(self)@[i],
            decreases len - at,
        {
            let bit = self.index(at);
            self.set(at, bit || rhs[at]);
            at = at + 1;
        }
        self.truncate(len);
        proof {
            assert(self@ =~= Seq::new(
                shorter(old(self)@.len(), rhs@.len()),
                |i: int| old(self)@[i] || rhs@[i],
            ));
        }
    }

    /// Combines each bit with the bit of `rhs` at the same place by "or".
    /// The result has the length of the shorter of the two.
    pub fn bitor(self, rhs: Vec<bool>) -> (r: Self)
        requires
            self.wf(),
        ensures
            r.wf(),
            r@ == Seq::new(shorter(self@.len(), rhs@.len()), |i: int| self@[i] || rhs@[i]),
    {
        let mut r = self;
        r.bitor_assign(rhs);
        r
    }

    /// Combines each bit with the bit of `rhs` at the same place by
    /// "exclusive or". The vector is cut to the length of `rhs` if that is
    /// shorter.
    pub fn bitxor_assign(&mut self, rhs: Vec<bool>)
        requires
            old(self).wf(),
        ensures
            final(self).wf(),
            final(self)@ == Seq::new(
                shorter(old(self)@.len(), rhs@.len()),
                |i: int| old(self)@[i] != rhs@[i],
            ),
    {
        proof {
            self.lemma_len();
        }
        let len = if rhs.len() < self.len() {
            rhs.len()
        } else {
            self.len()
        };
        let mut at: usize = 0;
        while at < len
            invariant
                at <= len,
                len == shorter(old(self)@.len(), rhs@.len()),
                self.wf(),
                self@.len() == old(self)@.len(),
                forall|i: int|
                    0 <= i < at ==> #[trigger] self@[i] == (old(self)@[i] != rhs@[i]),
                forall|i: int| at <= i < self@.len() ==> #[trigger] self@[i] == old(self)@[i],
            decreases len - at,
        {
            let bit = self.index(at);
            self.set(at, bit != rhs[at]);
            at = at + 1;
        }
        self.truncate(len);
        proof {
            assert(self@ =~= Seq::new(
                shorter(old(self)@.len(), rhs@.len()),
                |i: int| old(self)@[i] != rhs@[i],
            ));
        }
    }

    /// Combines each bit with the bit of `rhs` at the same place by
    /// "exclusive or". The result has the length of the shorter of the two.
    pub fn bitxor(self, rhs: Vec<bool>) -> (r: Self)
        requires
            self.wf(),
        ensures
            r.wf(),
            r@ == Seq::new(shorter(self@.len(), rhs@.len()), |i: int| self@[i] != rhs@[i]),
    {
        let mut r = self;
        r.bitxor_assign(rhs);
        r
    }

    /// Removes the first `shamt` bits, so that the bits after them move to
    /// the front. A vector of no more than `shamt` bits becomes empty.
    pub fn shl_assign(&mut self, shamt: usize)
        requires
            old(self).wf(),
        ensures
            final(self).wf(),
            final(self)@ == (if shamt >= old(self)@.len() {
                Seq::<bool>::empty()
            } else {
                old(self)@.skip(shamt as int)
            }),
    {
        proof {
            self.lemma_len();
        }
        let len = self.len();
        if shamt >= len {
            self.set_all(false);
            self.clear();
            return ;
        }
        self.shift_left(shamt);
        self.truncate(len - shamt);
        proof {
            assert(self@ =~= old(self)@.skip(shamt as int));
        }
    }

    /// Removes the first `shamt` bits, so that the bits after them move to
    /// the front. A vector of no more than `shamt` bits becomes empty.
    pub fn shl(self, shamt: usize) -> (r: Self)
        requires
            self.wf(),
        ensures
            r.wf(),
            r@ == (if shamt >= self@.len() {
                Seq::<bool>::empty()
            } else {
                self@.skip(shamt as int)
            }),
    {
        let mut r = self;
        r.shl_assign(shamt);
        r
    }

    /// Puts `shamt` clear bits before the first bit, so that every bit moves
    /// towards the back.
    pub fn shr_assign(&mut self, shamt: usize)
        requires
            old(self).wf(),
            old(self)@.len() + shamt <= max_bits(T::BITS as nat),
        ensures
            final(self).wf(),
            final(self)@ == filled(false, shamt as nat) + old(self)@,
    {
        proof {
            self.lemma_len();
        }
        let mut at: usize = 0;
        while at < shamt
            invariant
                at <= shamt,
                self.wf(),
                old(self)@.len() + shamt <= max_bits(T::BITS as nat),
                self@ == old(self)@ + filled(false, at as nat),
            decreases shamt - at,
        {
            proof {
                self.lemma_len();
            }
            self.push(false);
            at = at + 1;
            proof {
                assert(self@ =~= old(self)@ + filled(false, at as nat));
            }
        }
        self.shift_right(shamt);
        proof {
            assert(self@ =~= filled(false, shamt as nat) + old(self)@);
        }
    }

    /// Puts `shamt` clear bits before the first bit, so that every bit moves
    /// towards the back.
    pub fn shr(self, shamt: usize) -> (r: Self)
        requires
            self.wf(),
            self@.len() + shamt <= max_bits(T::BITS as nat),
        ensures
            r.wf(),
            r@ == filled(false, shamt as nat) + self@,
    {
        let mut r = self;
        r.shr_assign(shamt);
        r
    }

    /// Adds the number that `addend` spells to the number that the vector
    /// spells. The shorter of the two is taken to have clear bits before its
    /// first bit. The sum has the length of the longer, and one bit more if
    /// it does not fit that length.
    pub fn add_assign(&mut self, addend: Self)
        requires
            old(self).wf(),
            addend.wf(),
            longer(old(self)@.len(), addend@.len()) < max_bits(T::BITS as nat) || value_of(
                old(self)@,
            ) + value_of(addend@) < pow2(longer(old(self)@.len(), addend@.len())),
        ensures
            final(self).wf(),
            value_of(final(self)@) == value_of(old(self)@) + value_of(addend@),
            final(self)@.len() == longer(old(self)@.len(), addend@.len()) + (if value_of(
                old(self)@,
            ) + value_of(addend@) >= pow2(longer(old(self)@.len(), addend@.len())) {
                1nat
            } else {
                0nat
            }),
    {
        let mut addend = addend;
        proof {
            self.lemma_len();
            addend.lemma_len();
        }
        if addend.len() > self.len() {
            core::mem::swap(self, &mut addend);
        }
        let ghost long = self@;
        let ghost short = addend@;
        let len = self.len();
        let alen = addend.len();
        let mut carry = false;
        let mut stack = BitVec::<C, T>::with_capacity(len);
        let mut at: usize = 0;
        proof {
            assert(long.skip(len as int) =~= Seq::<bool>::empty());
            assert(short.skip(alen as int) =~= Seq::<bool>::empty());
            assert(stack@.reverse() =~= Seq::<bool>::empty());
        }
        while at < len
            invariant
                self.wf(),
                addend.wf(),
                stack.wf(),
                self@ == long,
                addend@ == short,
                len == long.len(),
                alen == short.len(),
                alen <= len <= max_bits(T::BITS as nat),
                at <= len,
                stack@.len() == at,
                value_of(stack@.reverse()) + weight(carry, at as nat) == value_of(
                    long.skip(len - at),
                ) + value_of(short.skip(alen - shorter(at as nat, alen as nat))),
            decreases len - at,
        {
            let a = self.index(len - 1 - at);
            let b = if at < alen {
                addend.index(alen - 1 - at)
            } else {
                false
            };
            let (sum, out) = rca1(a, b, carry);
            let ghost below = stack@;
            stack.push(sum);
            proof {
                let place = at as nat;
                let a_low = value_of(long.skip(len - at));
                let b_low = value_of(short.skip(alen - shorter(place, alen as nat)));
                lemma_value_skip(long, place);
                if at < alen {
                    lemma_value_skip(short, place);
                }
                lemma_value_reverse_push(below, sum);
                lemma_add_step(
                    value_of(below.reverse()),
                    carry,
                    a_low,
                    b_low,
                    a,
                    b,
                    sum,
                    out,
                    place,
                );
            }
            carry = out;
            at = at + 1;
        }
        proof {
            assert(long.skip(0) =~= long);
            assert(short.skip(0) =~= short);
            lemma_value_bound(stack@.reverse());
            lemma_pow2_pos(len as nat);
        }
        if carry {
            proof {
                lemma_value_reverse_push(stack@, true);
            }
            stack.push(true);
        }
        self.clear();
        let count = stack.len();
        let mut at: usize = 0;
        proof {
            stack.lemma_len();
        }
        while at < count
            invariant
                self.wf(),
                stack.wf(),
                at <= count,
                count == stack@.len(),
                count <= max_bits(T::BITS as nat),
                self@ == stack@.reverse().take(at as int),
            decreases count - at,
        {
            let bit = stack.index(count - 1 - at);
            self.push(bit);
            at = at + 1;
            proof {
                assert(self@ =~= stack@.reverse().take(at as int));
            }
        }
        proof {
            assert(stack@.reverse().take(count as int) =~= stack@.reverse());
        }
    }

    /// Adds the numbers that two vectors spell. The shorter of the two is
    /// taken to have clear bits before its first bit. The sum has the length
    /// of the longer, and one bit more if it does not fit that length.
    pub fn add(self, addend: Self) -> (r: Self)
        requires
            self.wf(),
            addend.wf(),
            longer(self@.len(), addend@.len()) < max_bits(T::BITS as nat) || value_of(self@)
                + value_of(addend@) < pow2(longer(self@.len(), addend@.len())),
        ensures
            r.wf(),
            value_of(r@) == value_of(self@) + value_of(addend@),
            r@.len() == longer(self@.len(), addend@.len()) + (if value_of(self@) + value_of(
                addend@,
            ) >= pow2(longer(self@.len(), addend@.len())) {
                1nat
            } else {
                0nat
            }),
    {
        let mut r = self;
        r.add_assign(addend);
        r
    }

    /// Subtracts the number that `subtrahend` spells from the number that the
    /// vector spells, in two's complement. A subtrahend of zero leaves the
    /// vector as it is. Any other is negated and, where it is the shorter,
    /// extended by its sign; the vector, where it is the shorter, gets clear
    /// bits before its first bit; the two are added, and a carry out of the
    /// first place is dropped.
    pub fn sub_assign(&mut self, subtrahend: Self)
        requires
            old(self).wf(),
            subtrahend.wf(),
            value_of(subtrahend@) != 0 ==> longer(old(self)@.len(), subtrahend@.len()) < max_bits(
                T::BITS as nat,
            ) || value_of(old(self)@) + sign_extended(
                negated(value_of(subtrahend@), subtrahend@.len()),
                subtrahend@.len(),
                longer(old(self)@.len(), subtrahend@.len()),
            ) < pow2(longer(old(self)@.len(), subtrahend@.len())),
        ensures
            final(self).wf(),
            value_of(subtrahend@) == 0 ==> final(self)@ == old(self)@,
            value_of(subtrahend@) != 0 ==> final(self)@.len() == longer(
                old(self)@.len(),
                subtrahend@.len(),
            ) && value_of(final(self)@) == difference(
                value_of(old(self)@),
                old(self)@.len(),
                value_of(subtrahend@),
                subtrahend@.len(),
            ),
    {
        let ghost minuend = self@;
        let ghost given = subtrahend@;
        let ghost len = longer(minuend.len(), given.len());
        proof {
            self.lemma_len();
            subtrahend.lemma_len();
            lemma_value_zero(given);
        }
        if subtrahend.not_any() {
            return ;
        }
        let mut subtrahend = subtrahend.neg();
        let ghost turned = subtrahend@;
        proof {
            subtrahend.lemma_len();
            lemma_value_first(turned);
            lemma_value_bound(turned);
            lemma_value_bound(minuend);
        }
        let llen = self.len();
        let rlen = subtrahend.len();
        if rlen > llen {
            self.shr_assign(rlen - llen);
            proof {
                lemma_value_extend(false, (rlen - llen) as nat, minuend);
            }
        } else if llen > rlen {
            let diff = llen - rlen;
            let sign = subtrahend.index(0);
            subtrahend.shr_assign(diff);
            subtrahend.set_front(diff, sign);
            proof {
                assert(subtrahend@ =~= filled(sign, diff as nat) + turned);
                lemma_value_extend(sign, diff as nat, turned);
            }
        }
        let ghost left = self@;
        let ghost right = subtrahend@;
        proof {
            self.lemma_len();
            subtrahend.lemma_len();
            lemma_value_bound(left);
            lemma_value_bound(right);
            lemma_pow2_pos(len);
            assert(value_of(left) == value_of(minuend));
            assert(value_of(right) == sign_extended(
                negated(value_of(given), given.len()),
                given.len(),
                len,
            ));
            lemma_drop_carry(value_of(left) + value_of(right), pow2(len));
        }
        let old_len = self.len();
        self.add_assign(subtrahend);
        let ghost summed = self@;
        proof {
            self.lemma_len();
            assert(old_len == len);
            assert(value_of(summed) == value_of(left) + value_of(right));
        }
        if self.len() > old_len {
            proof {
                lemma_value_first(summed);
            }
            self.shl_assign(1);
            proof {
                assert(self@ == summed.skip(1));
                assert(value_of(self@) == value_of(summed) - pow2(len));
            }
        } else {
            proof {
                assert(value_of(summed) < pow2(len));
            }
        }
        proof {
            assert(self@.len() == len);
            assert(value_of(self@) == (value_of(left) + value_of(right)) % pow2(len));
        }
    }

    /// Subtracts the number that `subtrahend` spells from the number that the
    /// vector spells, in two's complement, as `sub_assign` does.
    pub fn sub(self, subtrahend: Self) -> (r: Self)
        requires
            self.wf(),
            subtrahend.wf(),
            value_of(subtrahend@) != 0 ==> longer(self@.len(), subtrahend@.len()) < max_bits(
                T::BITS as nat,
            ) || value_of(self@) + sign_extended(
                negated(value_of(subtrahend@), subtrahend@.len()),
                subtrahend@.len(),
                longer(self@.len(), subtrahend@.len()),
            ) < pow2(longer(self@.len(), subtrahend@.len())),
        ensures
            r.wf(),
            value_of(subtrahend@) == 0 ==> r@ == self@,
            value_of(subtrahend@) != 0 ==> r@.len() == longer(self@.len(), subtrahend@.len())
                && value_of(r@) == difference(
                value_of(self@),
                self@.len(),
                value_of(subtrahend@),
                subtrahend@.len(),
            ),
    {
        let mut r = self;
        r.sub_assign(subtrahend);
        r
    }

    /// Negates the number that the vector spells, in two's complement: every
    /// bit is inverted and one is added. Zero, and the empty vector, are
    /// left as they are.
    pub fn neg(self) -> (r: Self)
        requires
            self.wf(),
        ensures
            r.wf(),
            r@.len() == self@.len(),
            value_of(r@) == negated(value_of(self@), self@.len()),
            value_of(self@) == 0 ==> r@ == self@,
    {
        proof {
            self.lemma_len();
            lemma_value_zero(self@);
            lemma_value_inverted(self@);
            lemma_value_bound(self@);
            lemma_pow2_pos(self@.len());
        }
        if self.is_empty() || self.not_any() {
            return self;
        }
        let ghost before = self@;
        let mut r = self.not();
        let mut one = BitVec::<C, T>::new();
        proof {
            lemma_width_cases::<T>();
        }
        one.push(true);
        proof {
            assert(one@ =~= seq![true]);
            assert(one@.drop_last() =~= Seq::<bool>::empty());
            reveal_with_fuel(value_of, 2);
            assert(value_of(one@) == 1);
        }
        r.add_assign(one);
        r
    }
}

} // verus!
