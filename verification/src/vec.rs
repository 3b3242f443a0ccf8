//! Growable bit vectors.
//!
//! A [`BitVec`] owns a buffer of elements and treats a prefix of its bits as
//! a sequence that can grow and shrink at its end.

use core::marker::PhantomData;
use crate::cursor::Cursor;
use crate::indices::BitIdx;
use crate::pointer::{lemma_width_cases, max_bits};
use crate::slice::{
    bits_of, count_in, count_ones, get_bit, lemma_count_in_same, lemma_index_split, not_any,
    set_all, set_bit, shift_left, shift_right, BitSlice,
};
use crate::store::BitStore;
use vstd::arithmetic::div_mod::{
    lemma_div_pos_is_pos, lemma_fundamental_div_mod, lemma_fundamental_div_mod_converse,
    lemma_mod_bound,
};
use vstd::arithmetic::mul::{
    lemma_mul_basics_1, lemma_mul_inequality, lemma_mul_is_commutative,
    lemma_mul_is_distributive_add_other_way,
};
use vstd::prelude::*;

pub mod ops;

verus! {

/// The number of elements of `width` bits that hold `bits` bits.
pub open spec fn elements_for(bits: nat, width: nat) -> nat {
    ((bits + width - 1) / (width as int)) as nat
}

/// How the number of elements grows with the number of bits.
pub proof fn lemma_elements_for(bits: nat, width: nat)
    requires
        0 < width,
    ensures
        bits <= elements_for(bits, width) * width < bits + width,
        bits % width == 0 <==> elements_for(bits, width) * width == bits,
        elements_for(bits + 1, width) == (if bits % width == 0 {
            elements_for(bits, width) + 1
        } else {
            elements_for(bits, width)
        }),
        bits == 0 <==> elements_for(bits, width) == 0,
{
    let w = width as int;
    let m = bits as int / w;
    let t = bits as int % w;
    lemma_fundamental_div_mod(bits as int, w);
    lemma_mod_bound(bits as int, w);
    lemma_mul_is_commutative(w, m);
    lemma_mul_is_distributive_add_other_way(w, m, 1);
    assert((m + 1) * w == m * w + w);
    lemma_div_pos_is_pos(bits as int, w);
    if t == 0 {
        lemma_fundamental_div_mod_converse(bits + w - 1, w, m, w - 1);
        lemma_fundamental_div_mod_converse(bits + w, w, m + 1, 0);
    } else {
        lemma_fundamental_div_mod_converse(bits + w - 1, w, m + 1, t - 1);
        lemma_fundamental_div_mod_converse(bits + w, w, m + 1, t);
    }
    if m == 0 {
        lemma_mul_basics_1(w);
    }
}

/// The sequence of `count` bits that are all equal to `bit`.
pub open spec fn filled(bit: bool, count: nat) -> Seq<bool> {
    Seq::new(count, |i: int| bit)
}

/// Buffers that agree in their first `n` elements agree in the bits of
/// those elements.
pub proof fn lemma_bits_prefix<C: Cursor, T: BitStore>(a: Seq<T>, b: Seq<T>, n: nat, m: nat)
    requires
        n <= a.len(),
        n <= b.len(),
        forall|j: int| 0 <= j < n ==> a[j] == b[j],
        m <= n * (T::BITS as nat),
    ensures
        bits_of::<C, T>(a).take(m as int) =~= bits_of::<C, T>(b).take(m as int),
        m <= bits_of::<C, T>(a).len(),
        m <= bits_of::<C, T>(b).len(),
{
    T::lemma_width();
    lemma_mul_inequality(n as int, a.len() as int, T::BITS as int);
    lemma_mul_inequality(n as int, b.len() as int, T::BITS as int);
    assert forall|k: int| 0 <= k < m implies bits_of::<C, T>(a)[k] == bits_of::<C, T>(b)[k] by {
        lemma_index_split::<T>(k as nat, n);
    }
}

/// A sequence of bits that can grow and shrink at its end, kept in elements
/// of type `T` that are traversed in the order `C`.
pub struct BitVec<C, T> {
    data: Vec<T>,
    bits: usize,
    _order: PhantomData<C>,
}

impl<C: Cursor, T: BitStore> View for BitVec<C, T> {
    type V = Seq<bool>;

    /// The bits of the vector, first to last.
    open spec fn view(&self) -> Seq<bool> {
        bits_of::<C, T>(self.elements()).take(self.bit_len() as int)
    }
}

impl<C: Cursor, T: BitStore> Clone for BitVec<C, T> {
    fn clone(&self) -> (r: Self)
        ensures
            r.elements() == self.elements(),
            r.bit_len() == self.bit_len(),
    {
        let mut data: Vec<T> = Vec::with_capacity(self.data.len());
        let mut at: usize = 0;
        while at < self.data.len()
            invariant
                at <= self.data@.len(),
                data@ == self.data@.take(at as int),
            decreases self.data@.len() - at,
        {
            data.push(self.data[at]);
            at = at + 1;
            assert(data@ =~= self.data@.take(at as int));
        }
        assert(data@ =~= self.data@);
        BitVec { data, bits: self.bits, _order: PhantomData }
    }
}

impl<C: Cursor, T: BitStore> BitVec<C, T> {
    /// The elements that hold the bits of the vector.
    pub closed spec fn elements(&self) -> Seq<T> {
        self.data@
    }

    /// The number of bits in the vector.
    pub closed spec fn bit_len(&self) -> nat {
        self.bits as nat
    }

    /// The invariant of the type: the length is in range, and there are as
    /// many elements as the bits need.
    pub open spec fn wf(&self) -> bool {
        &&& self.bit_len() <= max_bits(T::BITS as nat)
        &&& self.elements().len() == elements_for(self.bit_len(), T::BITS as nat)
    }

    /// The view of a well-formed vector has the length of the vector.
    pub proof fn lemma_len(&self)
        requires
            self.wf(),
        ensures
            self@.len() == self.bit_len(),
            self.bit_len() <= self.elements().len() * (T::BITS as nat),
            self.bit_len() <= usize::MAX / 16,
    {
        lemma_width_cases::<T>();
        lemma_elements_for(self.bit_len(), T::BITS as nat);
    }

    /// The number of elements that hold `bits` bits.
    fn elements_needed(bits: usize) -> (r: usize)
        requires
            bits <= max_bits(T::BITS as nat),
        ensures
            r == elements_for(bits as nat, T::BITS as nat),
    {
        proof {
            lemma_width_cases::<T>();
        }
        let width = T::BITS as usize;
        (bits + (width - 1)) / width
    }

    /// The greatest number of bits that a vector can hold.
    pub fn max_len() -> (r: usize)
        ensures
            r == max_bits(T::BITS as nat),
    {
        proof {
            lemma_width_cases::<T>();
        }
        usize::MAX / (2 * (T::BITS as usize))
    }

    /// An empty vector.
    pub fn new() -> (r: Self)
        ensures
            r.wf(),
            r@ == Seq::<bool>::empty(),
    {
        let r = BitVec { data: Vec::new(), bits: 0, _order: PhantomData };
        proof {
            lemma_width_cases::<T>();
            lemma_elements_for(0, T::BITS as nat);
            assert(r@ =~= Seq::<bool>::empty());
        }
        r
    }

    /// An empty vector with room for `capacity` bits.
    pub fn with_capacity(capacity: usize) -> (r: Self)
        requires
            capacity <= max_bits(T::BITS as nat),
        ensures
            r.wf(),
            r@ == Seq::<bool>::empty(),
    {
        let r = BitVec {
            data: Vec::with_capacity(Self::elements_needed(capacity)),
            bits: 0,
            _order: PhantomData,
        };
        proof {
            lemma_width_cases::<T>();
            lemma_elements_for(0, T::BITS as nat);
            assert(r@ =~= Seq::<bool>::empty());
        }
        r
    }

    /// The vector that holds the bits of `data`, in the order `C`, up to
    /// the bit `bits`. Nothing is made if `bits` is out of range or `data`
    /// does not have the number of elements that `bits` bits need.
    pub fn from_elements(data: Vec<T>, bits: usize) -> (r: Option<Self>)
        ensures
            r is Some <==> bits <= max_bits(T::BITS as nat) && data@.len() == elements_for(
                bits as nat,
                T::BITS as nat,
            ),
            r matches Some(v) ==> v.wf() && v.elements() == data@ && v.bit_len() == bits,
    {
        if bits > Self::max_len() || data.len() != Self::elements_needed(bits) {
            return None;
        }
        Some(BitVec { data, bits, _order: PhantomData })
    }

    /// The elements of the vector. The bits of the last element that lie
    /// after the end of the vector have no meaning.
    pub fn into_vec(self) -> (r: Vec<T>)
        ensures
            r@ == self.elements(),
    {
        self.data
    }

    /// The elements of the vector. The bits of the last element that lie
    /// after the end of the vector have no meaning.
    pub fn as_slice(&self) -> (r: &[T])
        ensures
            r@ == self.elements(),
    {
        self.data.as_slice()
    }

    /// The bits of the vector as a run in its borrowed elements.
    pub fn as_bits(&self) -> (r: BitSlice<'_, C, T>)
        requires
            self.wf(),
        ensures
            r.wf(),
            r@ == self@,
    {
        proof {
            self.lemma_len();
            lemma_width_cases::<T>();
        }
        let head = BitIdx::<T>::new(0).unwrap();
        let r = BitSlice::new(self.data.as_slice(), head, self.bits).unwrap();
        proof {
            assert(r@ =~= self@);
        }
        r
    }

    /// The number of bits in the vector.
    pub fn len(&self) -> (r: usize)
        ensures
            r == self.bit_len(),
    {
        self.bits
    }

    /// Whether the vector holds no bit.
    pub fn is_empty(&self) -> (r: bool)
        ensures
            r == (self.bit_len() == 0),
    {
        self.bits == 0
    }

    /// Reads the bit `index`, if there is one.
    pub fn get(&self, index: usize) -> (r: Option<bool>)
        requires
            self.wf(),
        ensures
            r == (if index < self@.len() {
                Some(self@[index as int])
            } else {
                None
            }),
    {
        proof {
            self.lemma_len();
        }
        if index < self.bits {
            Some(get_bit::<C, T>(self.data.as_slice(), index))
        } else {
            None
        }
    }

    /// Sets the bit `index` to `value`.
    pub fn set(&mut self, index: usize, value: bool)
        requires
            old(self).wf(),
            index < old(self)@.len(),
        ensures
            final(self).wf(),
            final(self)@ == old(self)@.update(index as int, value),
    {
        proof {
            self.lemma_len();
        }
        set_bit::<C, T>(self.data.as_mut_slice(), index, value);
        proof {
            assert(self@ =~= old(self)@.update(index as int, value));
        }
    }

    /// Adds `value` at the end.
    pub fn push(&mut self, value: bool)
        requires
            old(self).wf(),
            old(self)@.len() < max_bits(T::BITS as nat),
        ensures
            final(self).wf(),
            final(self)@ == old(self)@.push(value),
    {
        proof {
            T::lemma_width();
            self.lemma_len();
            lemma_elements_for(self.bit_len(), T::BITS as nat);
            lemma_elements_for(self.bit_len() + 1, T::BITS as nat);
        }
        if self.bits % (T::BITS as usize) == 0 {
            self.data.push(T::from_byte(0));
        }
        let ghost grown = self.data@;
        proof {
            lemma_mul_is_distributive_add_other_way(
                T::BITS as int,
                old(self).data@.len() as int,
                1,
            );
        }
        set_bit::<C, T>(self.data.as_mut_slice(), self.bits, value);
        self.bits = self.bits + 1;
        proof {
            let n = old(self).data@.len();
            lemma_bits_prefix::<C, T>(old(self).data@, grown, n, old(self).bit_len());
            assert(self@ =~= old(self)@.push(value));
        }
    }

    /// Takes the last bit off the vector, if there is one.
    pub fn pop(&mut self) -> (r: Option<bool>)
        requires
            old(self).wf(),
        ensures
            final(self).wf(),
            old(self)@.len() == 0 ==> r is None && final(self)@ == old(self)@,
            old(self)@.len() > 0 ==> r == Some(old(self)@.last()) && final(self)@ == old(
                self,
            )@.drop_last(),
    {
        proof {
            self.lemma_len();
        }
        if self.bits == 0 {
            return None;
        }
        let bit = get_bit::<C, T>(self.data.as_slice(), self.bits - 1);
        self.truncate(self.bits - 1);
        proof {
            assert(self@ =~= old(self)@.drop_last());
        }
        Some(bit)
    }

    /// Removes every bit.
    pub fn clear(&mut self)
        ensures
            final(self).wf(),
            final(self)@ == Seq::<bool>::empty(),
    {
        self.data.clear();
        self.bits = 0;
        proof {
            lemma_width_cases::<T>();
            lemma_elements_for(0, T::BITS as nat);
            assert(self@ =~= Seq::<bool>::empty());
        }
    }

    /// Keeps the first `len` bits and removes the others. A vector that has
    /// no more than `len` bits is left as it is.
    pub fn truncate(&mut self, len: usize)
        requires
            old(self).wf(),
        ensures
            final(self).wf(),
            final(self)@ == (if len < old(self)@.len() {
                old(self)@.take(len as int)
            } else {
                old(self)@
            }),
    {
        proof {
            self.lemma_len();
        }
        if len < self.bits {
            let keep = Self::elements_needed(len);
            proof {
                lemma_width_cases::<T>();
                lemma_elements_for(len as nat, T::BITS as nat);
                lemma_elements_for(self.bit_len(), T::BITS as nat);
                if keep > self.data@.len() {
                    lemma_mul_inequality(
                        self.data@.len() as int + 1,
                        keep as int,
                        T::BITS as int,
                    );
                    lemma_mul_is_distributive_add_other_way(
                        T::BITS as int,
                        self.data@.len() as int,
                        1,
                    );
                }
            }
            self.data.truncate(keep);
            self.bits = len;
            proof {
                lemma_bits_prefix::<C, T>(old(self).data@, self.data@, keep as nat, len as nat);
                assert(self@ =~= old(self)@.take(len as int));
            }
        }
    }

    /// Makes every element equal to `elem`.
    pub fn set_elements(&mut self, elem: T)
        ensures
            final(self).bit_len() == old(self).bit_len(),
            final(self).elements() == Seq::new(old(self).elements().len(), |j: int| elem),
    {
        let mut at: usize = 0;
        while at < self.data.len()
            invariant
                at <= self.data@.len(),
                self.bits == old(self).bits,
                self.data@.len() == old(self).data@.len(),
                forall|j: int| 0 <= j < at ==> self.data@[j] == elem,
            decreases self.data@.len() - at,
        {
            self.data.set(at, elem);
            at = at + 1;
        }
        proof {
            assert(self.data@ =~= Seq::new(old(self).data@.len(), |j: int| elem));
        }
    }

    /// Makes every bit equal to `value`.
    pub fn set_all(&mut self, value: bool)
        requires
            old(self).wf(),
        ensures
            final(self).wf(),
            final(self)@ == filled(value, old(self)@.len()),
    {
        proof {
            self.lemma_len();
        }
        self.set_front(self.bits, value);
        proof {
            self.lemma_len();
            assert(self@ =~= filled(value, old(self)@.len()));
        }
    }

    /// Makes the first `count` bits equal to `value` and leaves the others.
    pub fn set_front(&mut self, count: usize, value: bool)
        requires
            old(self).wf(),
            count <= old(self)@.len(),
        ensures
            final(self).wf(),
            final(self)@ == Seq::new(
                old(self)@.len(),
                |i: int|
                    if i < count {
                        value
                    } else {
                        old(self)@[i]
                    },
            ),
    {
        proof {
            self.lemma_len();
            lemma_width_cases::<T>();
        }
        let head = BitIdx::<T>::new(0).unwrap();
        set_all::<C, T>(self.data.as_mut_slice(), head, count, value);
        proof {
            assert(self@ =~= Seq::new(
                old(self)@.len(),
                |i: int|
                    if i < count {
                        value
                    } else {
                        old(self)@[i]
                    },
            ));
        }
    }

    /// Moves every bit `by` places towards the front. The first `by` bits
    /// are lost and the last `by` bits become clear; the length stays.
    pub fn shift_left(&mut self, by: usize)
        requires
            old(self).wf(),
            by <= old(self)@.len(),
        ensures
            final(self).wf(),
            final(self)@ == old(self)@.skip(by as int) + filled(false, by as nat),
    {
        proof {
            self.lemma_len();
        }
        shift_left::<C, T>(self.data.as_mut_slice(), self.bits, by);
        proof {
            assert(self@ =~= old(self)@.skip(by as int) + filled(false, by as nat));
        }
    }

    /// Moves every bit `by` places towards the back. The last `by` bits are
    /// lost and the first `by` bits become clear; the length stays.
    pub fn shift_right(&mut self, by: usize)
        requires
            old(self).wf(),
            by <= old(self)@.len(),
        ensures
            final(self).wf(),
            final(self)@ == filled(false, by as nat) + old(self)@.take(old(self)@.len() - by),
    {
        proof {
            self.lemma_len();
        }
        shift_right::<C, T>(self.data.as_mut_slice(), self.bits, by);
        proof {
            assert(self@ =~= filled(false, by as nat) + old(self)@.take(old(self)@.len() - by));
        }
    }

    /// Whether no bit of the vector is set.
    pub fn not_any(&self) -> (r: bool)
        requires
            self.wf(),
        ensures
            r == forall|i: int| 0 <= i < self@.len() ==> !self@[i],
    {
        proof {
            self.lemma_len();
            lemma_width_cases::<T>();
        }
        let head = BitIdx::<T>::new(0).unwrap();
        let r = not_any::<C, T>(self.data.as_slice(), head, self.bits);
        proof {
            let all = bits_of::<C, T>(self.data@);
            if r {
                assert forall|i: int| 0 <= i < self@.len() implies !self@[i] by {
                    assert(!all[i]);
                }
            } else {
                let k = choose|k: int| 0 <= k < self.bits && #[trigger] all[k];
                assert(self@[k]);
            }
        }
        r
    }

    /// Counts the bits of the vector that are set.
    pub fn count_ones(&self) -> (count: usize)
        requires
            self.wf(),
        ensures
            count == count_in(self@, 0, self@.len() as int),
            count <= self@.len(),
    {
        proof {
            self.lemma_len();
            lemma_width_cases::<T>();
            lemma_count_in_same(bits_of::<C, T>(self.data@), self@, 0, self.bits as int);
        }
        let head = BitIdx::<T>::new(0).unwrap();
        count_ones::<C, T>(self.data.as_slice(), head, self.bits)
    }

    /// Counts the bits of the vector that are clear.
    pub fn count_zeros(&self) -> (count: usize)
        requires
            self.wf(),
        ensures
            count == self@.len() - count_in(self@, 0, self@.len() as int),
    {
        proof {
            self.lemma_len();
        }
        self.bits - self.count_ones()
    }

    /// Adds the bits of `src` at the end, in their order.
    pub fn extend_from_slice(&mut self, src: &[bool])
        requires
            old(self).wf(),
            old(self)@.len() + src@.len() <= max_bits(T::BITS as nat),
        ensures
            final(self).wf(),
            final(self)@ == old(self)@ + src@,
    {
        proof {
            self.lemma_len();
        }
        let mut at: usize = 0;
        while at < src.len()
            invariant
                at <= src@.len(),
                self.wf(),
                old(self)@.len() + src@.len() <= max_bits(T::BITS as nat),
                self@ == old(self)@ + src@.take(at as int),
            decreases src@.len() - at,
        {
            proof {
                self.lemma_len();
            }
            self.push(src[at]);
            at = at + 1;
            proof {
                assert(self@ =~= old(self)@ + src@.take(at as int));
            }
        }
        proof {
            assert(src@.take(src@.len() as int) =~= src@);
        }
    }

    /// The vector that holds the bits of `src`, in their order.
    pub fn from_bools(src: &[bool]) -> (r: Self)
        requires
            src@.len() <= max_bits(T::BITS as nat),
        ensures
            r.wf(),
            r@ == src@,
    {
        let mut r = Self::with_capacity(src.len());
        r.extend_from_slice(src);
        proof {
            assert(r@ =~= src@);
        }
        r
    }

    /// The vector of `len` bits that are all equal to `bit`.
    pub fn repeat(bit: bool, len: usize) -> (r: Self)
        requires
            len <= max_bits(T::BITS as nat),
        ensures
            r.wf(),
            r@ == filled(bit, len as nat),
    {
        let count = Self::elements_needed(len);
        let mut data: Vec<T> = Vec::with_capacity(count);
        let zero = T::from_byte(0);
        let mut at: usize = 0;
        while at < count
            invariant
                at <= count,
                data@.len() == at,
            decreases count - at,
        {
            data.push(zero);
            at = at + 1;
        }
        let mut r = BitVec { data, bits: len, _order: PhantomData };
        proof {
            r.lemma_len();
        }
        r.set_all(bit);
        r
    }

    /// The bits of the vector, first to last.
    pub fn to_bools(&self) -> (r: Vec<bool>)
        requires
            self.wf(),
        ensures
            r@ == self@,
    {
        proof {
            self.lemma_len();
        }
        let mut r: Vec<bool> = Vec::with_capacity(self.bits);
        let mut at: usize = 0;
        while at < self.bits
            invariant
                at <= self.bits,
                self.wf(),
                self@.len() == self.bits,
                self.bits <= self.data@.len() * (T::BITS as nat),
                r@ == self@.take(at as int),
            decreases self.bits - at,
        {
            r.push(get_bit::<C, T>(self.data.as_slice(), at));
            at = at + 1;
            proof {
                assert(r@ =~= self@.take(at as int));
            }
        }
        proof {
            assert(self@.take(self.bits as int) =~= self@);
        }
        r
    }
}

} // verus!
