use crate::layout::{
    array_length_spec, bit_at, field, lemma_field_frame, lemma_field_value, lemma_read_one,
    lemma_read_two, lemma_write_head, lemma_write_one, lemma_write_tail, lsb_bit, msb_bit,
    read_one, read_two, stored, unpacked, write_head, write_one, write_tail,
};
use vstd::arithmetic::div_mod::{
    lemma_div_is_ordered, lemma_fundamental_div_mod, lemma_fundamental_div_mod_converse,
};
use vstd::arithmetic::power2::{lemma2_to64, pow2};
use vstd::bits::lemma_u16_shl_is_mul;
use vstd::prelude::*;

verus! {

/// `LEN` unsigned integers of `BITS` bits each, packed without padding into
/// `ceil(BITS * LEN / 8)` bytes.
///
/// The view is the sequence of the `LEN` items.
#[derive(Debug, Hash)]
pub struct PackedIntegerArray<const BITS: u8, const LEN: usize> {
    content: Vec<u8>,
}

/// Bits per item are 1 to 8, and `BITS * LEN` bits can be counted in a `usize`.
pub open spec fn valid_shape(bits: u8, len: usize) -> bool {
    &&& 1 <= bits <= 8
    &&& bits as int * len as int + 7 <= usize::MAX
}

impl<const BITS: u8, const LEN: usize> View for PackedIntegerArray<BITS, LEN> {
    type V = Seq<u8>;

    open spec fn view(&self) -> Seq<u8> {
        unpacked(self.bytes(), BITS as nat, LEN as nat)
    }
}

impl<const BITS: u8, const LEN: usize> PackedIntegerArray<BITS, LEN> {
    /// The packed storage.
    pub closed spec fn bytes(&self) -> Seq<u8> {
        self.content@
    }

    #[verifier::type_invariant]
    spec fn well_formed(&self) -> bool {
        &&& valid_shape(BITS, LEN)
        &&& self.content@.len() == array_length_spec(BITS as nat, LEN as nat)
    }

    /// Returns an array whose items are all 0.
    pub fn new() -> (r: Self)
        requires
            valid_shape(BITS, LEN),
        ensures
            r.bytes() == Seq::new(array_length_spec(BITS as nat, LEN as nat), |i: int| 0u8),
            r@ == Seq::new(LEN as nat, |i: int| 0u8),
    {
        let n: usize = ((BITS as usize) * LEN + 7) / 8;
        let mut content: Vec<u8> = Vec::new();
        while content.len() < n
            invariant
                content.len() <= n,
                forall|i: int| 0 <= i < content.len() ==> content@[i] == 0u8,
            decreases n - content.len(),
        {
            content.push(0u8);
        }
        let r = PackedIntegerArray { content };
        assert(r.bytes() =~= Seq::new(n as nat, |i: int| 0u8));
        proof {
            let b = BITS as int;
            lemma_fundamental_div_mod(b * LEN + 7, 8);
            assert forall|i: int| 0 <= i < LEN implies #[trigger] r@[i] == 0u8 by {
                assert(i * b + b <= LEN * b) by (nonlinear_arith)
                    requires
                        i < LEN,
                        b >= 1,
                ;
                Self::lemma_zero_field(r.bytes(), i * BITS, BITS as nat);
            }
        }
        assert(r@ =~= Seq::new(LEN as nat, |i: int| 0u8));
        r
    }

    proof fn lemma_zero_field(bytes: Seq<u8>, start: int, width: nat)
        requires
            forall|i: int| 0 <= i < bytes.len() ==> bytes[i] == 0u8,
            0 <= start,
            start + width <= 8 * bytes.len(),
        ensures
            field(bytes, start, width) == 0,
        decreases width,
    {
        if width > 0 {
            let p = start + width - 1;
            Self::lemma_zero_field(bytes, start, (width - 1) as nat);
            lemma_fundamental_div_mod(p, 8);
            let b = (p % 8) as u8;
            assert(msb_bit(0u8, b) == false) by (bit_vector);
        }
    }

    /// The first byte of item `index` and the offset of its first bit in that byte.
    fn locate(index: usize) -> (r: (usize, u8))
        requires
            valid_shape(BITS, LEN),
            index < LEN,
        ensures
            index * BITS == 8 * r.0 + r.1,
            r.1 < 8,
            r.0 < array_length_spec(BITS as nat, LEN as nat),
            r.1 + BITS > 8 ==> r.0 + 1 < array_length_spec(BITS as nat, LEN as nat),
    {
        proof {
            let b = BITS as int;
            assert(index * b + b <= LEN * b) by (nonlinear_arith)
                requires
                    index < LEN,
                    b >= 1,
            ;
        }
        let start: usize = index * (BITS as usize);
        let first: usize = start / 8;
        let off: usize = start - first * 8;
        proof {
            let b = BITS as int;
            let total = LEN * b;
            lemma_fundamental_div_mod(start as int, 8);
            lemma_fundamental_div_mod(total - 1, 8);
            lemma_fundamental_div_mod_converse(total + 7, 8, (total - 1) / 8 + 1, (total - 1) % 8);
            lemma_div_is_ordered(start + b - 1, total - 1, 8);
            if off + b > 8 {
                lemma_fundamental_div_mod_converse(start + b - 1, 8, first + 1, off + b - 9);
            } else {
                lemma_fundamental_div_mod_converse(start + b - 1, 8, first as int, off + b - 1);
            }
        }
        (first, off as u8)
    }

    /// Replaces item `index` by the low `BITS` bits of `value`; every bit of the storage
    /// outside that item, padding included, is left as it was.
    fn put(&mut self, index: usize, value: u8)
        requires
            index < LEN,
        ensures
            final(self)@ == old(self)@.update(index as int, stored(value, BITS as nat)),
            final(self).bytes().len() == old(self).bytes().len(),
            forall|p: int|
                0 <= p < 8 * old(self).bytes().len() && !(index * BITS <= p < index * BITS + BITS)
                    ==> #[trigger] bit_at(final(self).bytes(), p) == bit_at(old(self).bytes(), p),
    {
        proof {
            use_type_invariant(&*self);
        }
        let ghost before = self.bytes();
        let ghost start = index * BITS;
        let (first, off) = Self::locate(index);
        if off + BITS > 8 {
            let t: u8 = off + BITS - 8;
            let c0 = self.content[first];
            let c1 = self.content[first + 1];
            self.content[first] = ((c0 >> (8 - off)) << (8 - off)) | ((value << (8 - BITS)) >> off);
            self.content[first + 1] = ((c1 << t) >> t) | (value << (8 - t));
            proof {
                assert(self.content@[first as int] == write_head(c0, value, off, BITS));
                assert(self.content@[first + 1] == write_tail(c1, value, t));
                assert forall|p: int| 0 <= p < 8 * before.len() implies #[trigger] bit_at(
                    self.bytes(),
                    p,
                ) == if start <= p < start + BITS {
                    lsb_bit(value, (start + BITS - 1 - p) as u8)
                } else {
                    bit_at(before, p)
                } by {
                    lemma_fundamental_div_mod(p, 8);
                    let b = (p % 8) as u8;
                    if p / 8 == first {
                        lemma_write_head(c0, value, off, BITS, b);
                    } else if p / 8 == first + 1 {
                        lemma_write_tail(c1, value, t, b);
                    }
                }
            }
        } else {
            let c0 = self.content[first];
            let keep: u8 = !((0xFFu8 >> (8 - BITS)) << (8 - BITS - off));
            self.content[first] = (c0 & keep) | ((value << (8 - BITS)) >> off);
            proof {
                assert(self.content@[first as int] == write_one(c0, value, off, BITS));
                assert forall|p: int| 0 <= p < 8 * before.len() implies #[trigger] bit_at(
                    self.bytes(),
                    p,
                ) == if start <= p < start + BITS {
                    lsb_bit(value, (start + BITS - 1 - p) as u8)
                } else {
                    bit_at(before, p)
                } by {
                    lemma_fundamental_div_mod(p, 8);
                    let b = (p % 8) as u8;
                    if p / 8 == first {
                        lemma_write_one(c0, value, off, BITS, b);
                    }
                }
            }
        }
        proof {
            let b = BITS as int;
            let n = before.len() as int;
            lemma_fundamental_div_mod(b * LEN + 7, 8);
            lemma_field_value(self.bytes(), start, BITS, value);
            assert forall|j: int| 0 <= j < LEN && j != index implies #[trigger] self@[j]
                == old(self)@[j] by {
                assert(j * b + b <= LEN * b) by (nonlinear_arith)
                    requires
                        j < LEN,
                        b >= 1,
                ;
                assert(j * b + b <= index * b || index * b + b <= j * b) by (nonlinear_arith)
                    requires
                        j != index,
                        b >= 1,
                ;
                lemma_field_frame(self.bytes(), before, j * b, BITS as nat);
            }
            assert(self@ =~= old(self)@.update(index as int, stored(value, BITS as nat)));
        }
    }

    /// Sets item `index` to `value`, keeping only its low `BITS` bits. Returns whether
    /// bits were dropped, that is whether `value` is `2^BITS` or more; two such values
    /// that differ only in dropped bits are stored alike. Every bit of the storage outside
    /// the item, padding included, is left as it was.
    pub fn set(&mut self, index: usize, value: u8) -> (truncated: bool)
        requires
            index < LEN,
        ensures
            final(self)@ == old(self)@.update(index as int, stored(value, BITS as nat)),
            truncated == (value as nat >= pow2(BITS as nat)),
            final(self).bytes().len() == old(self).bytes().len(),
            forall|p: int|
                0 <= p < 8 * old(self).bytes().len() && !(index * BITS <= p < index * BITS + BITS)
                    ==> #[trigger] bit_at(final(self).bytes(), p) == bit_at(old(self).bytes(), p),
    {
        proof {
            use_type_invariant(&*self);
            lemma2_to64();
            lemma_u16_shl_is_mul(1u16, BITS as u16);
        }
        let max: u16 = 1u16 << (BITS as u16);
        let truncated = value as u16 >= max;
        self.put(index, value);
        truncated
    }

    /// Sets item `index` to 0; every bit of the storage outside the item is left as it was.
    pub fn clear(&mut self, index: usize)
        requires
            index < LEN,
        ensures
            final(self)@ == old(self)@.update(index as int, 0u8),
            final(self).bytes().len() == old(self).bytes().len(),
            forall|p: int|
                0 <= p < 8 * old(self).bytes().len() && !(index * BITS <= p < index * BITS + BITS)
                    ==> #[trigger] bit_at(final(self).bytes(), p) == bit_at(old(self).bytes(), p),
    {
        proof {
            use_type_invariant(&*self);
            lemma2_to64();
        }
        self.put(index, 0);
    }

    /// Returns the items in order as a plain array.
    pub fn unpack(self) -> (r: [u8; LEN])
        ensures
            r@ == self@,
    {
        proof {
            use_type_invariant(&self);
        }
        let mut items: [u8; LEN] = [0u8; LEN];
        let mut i: usize = 0;
        while i < LEN
            invariant
                i <= LEN,
                items@.len() == LEN,
                forall|j: int| 0 <= j < i ==> items@[j] == self@[j],
            decreases LEN - i,
        {
            items[i] = self.get(i);
            i += 1;
        }
        assert(items@ =~= self@);
        items
    }

    /// The packed storage, as a byte slice.
    pub fn as_bytes(&self) -> (r: &[u8])
        ensures
            r@ == self.bytes(),
            r@.len() == array_length_spec(BITS as nat, LEN as nat),
    {
        proof {
            use_type_invariant(self);
        }
        self.content.as_slice()
    }

    /// Builds an array whose storage is `bytes`, if that has the length of the storage
    /// and the shape is valid.
    pub fn from_bytes(bytes: Vec<u8>) -> (r: Option<Self>)
        ensures
            r is Some <==> valid_shape(BITS, LEN) && bytes@.len() == array_length_spec(
                BITS as nat,
                LEN as nat,
            ),
            r matches Some(a) ==> a.bytes() == bytes@,
    {
        if BITS < 1 || BITS > 8 || LEN > (usize::MAX - 7) / (BITS as usize) {
            proof {
                if 1 <= BITS <= 8 {
                    let m = (usize::MAX - 7) as int;
                    let b = BITS as int;
                    lemma_fundamental_div_mod(m, b);
                    assert(LEN * b > m) by (nonlinear_arith)
                        requires
                            LEN >= m / b + 1,
                            m == b * (m / b) + m % b,
                            m % b < b,
                            b >= 1,
                    ;
                }
            }
            return None;
        }
        proof {
            let m = (usize::MAX - 7) as int;
            let b = BITS as int;
            lemma_fundamental_div_mod(m, b);
            assert(LEN * b <= m) by (nonlinear_arith)
                requires
                    LEN <= m / b,
                    m == b * (m / b) + m % b,
                    m % b >= 0,
                    b >= 1,
            ;
        }
        if bytes.len() != ((BITS as usize) * LEN + 7) / 8 {
            return None;
        }
        Some(PackedIntegerArray { content: bytes })
    }

    /// Returns an iterator over the items, in order.
    pub fn into_iter(self) -> (r: PackedIntegerArrayIterator<BITS, LEN>)
        ensures
            r@ == self@,
    {
        proof {
            use_type_invariant(&self);
        }
        PackedIntegerArrayIterator { index: 0, array: self }
    }

    /// Returns item `index`.
    pub fn get(&self, index: usize) -> (r: u8)
        requires
            index < LEN,
        ensures
            r == self@[index as int],
    {
        proof {
            use_type_invariant(self);
        }
        let (first, off) = Self::locate(index);
        let r: u8;
        if off + BITS > 8 {
            r = ((self.content[first] << off) >> (8 - BITS)) | (self.content[first + 1] >> (16
                - off - BITS));
            proof {
                let c0 = self.content@[first as int];
                let c1 = self.content@[first + 1];
                assert(r == read_two(c0, c1, off, BITS));
                assert forall|p: int|
                    index * BITS <= p < index * BITS + BITS implies #[trigger] bit_at(
                    self.bytes(),
                    p,
                ) == lsb_bit(r, (index * BITS + BITS - 1 - p) as u8) by {
                    let k = (index * BITS + BITS - 1 - p) as u8;
                    lemma_read_two(c0, c1, off, BITS, k);
                    let t = p - 8 * first;
                    if t < 8 {
                        lemma_fundamental_div_mod_converse(p, 8, first as int, t);
                    } else {
                        lemma_fundamental_div_mod_converse(p, 8, first + 1, t - 8);
                    }
                }
                lemma_read_two(c0, c1, off, BITS, 0);
                lemma_field_value(self.bytes(), index * BITS, BITS, r);
            }
        } else {
            r = (self.content[first] << off) >> (8 - BITS);
            proof {
                let c0 = self.content@[first as int];
                assert(r == read_one(c0, off, BITS));
                assert forall|p: int|
                    index * BITS <= p < index * BITS + BITS implies #[trigger] bit_at(
                    self.bytes(),
                    p,
                ) == lsb_bit(r, (index * BITS + BITS - 1 - p) as u8) by {
                    let k = (index * BITS + BITS - 1 - p) as u8;
                    lemma_read_one(c0, off, BITS, k);
                    lemma_fundamental_div_mod_converse(p, 8, first as int, p - 8 * first);
                }
                lemma_read_one(c0, off, BITS, 0);
                lemma_field_value(self.bytes(), index * BITS, BITS, r);
            }
        }
        r
    }
}

impl<const BITS: u8, const LEN: usize> PartialEq for PackedIntegerArray<BITS, LEN> {
    /// Arrays are equal when their storage is.
    fn eq(&self, other: &Self) -> (r: bool) {
        let r = self.content == other.content;
        proof {
            if r {
                assert(self.content@ =~= other.content@);
            }
        }
        r
    }
}

impl<const BITS: u8, const LEN: usize> vstd::std_specs::cmp::PartialEqSpecImpl for PackedIntegerArray<BITS, LEN> {
    open spec fn obeys_eq_spec() -> bool {
        true
    }

    open spec fn eq_spec(&self, other: &Self) -> bool {
        self.bytes() == other.bytes()
    }
}

impl<const BITS: u8, const LEN: usize> Eq for PackedIntegerArray<BITS, LEN> {}

impl<const BITS: u8, const LEN: usize> PartialEq<[u8; LEN]> for PackedIntegerArray<BITS, LEN> {
    /// An array equals a plain array that holds the same items.
    fn eq(&self, other: &[u8; LEN]) -> (r: bool) {
        proof {
            use_type_invariant(self);
        }
        let mut i: usize = 0;
        while i < LEN
            invariant
                i <= LEN,
                other@.len() == LEN,
                forall|j: int| 0 <= j < i ==> self@[j] == other@[j],
            decreases LEN - i,
        {
            if other[i] != self.get(i) {
                return false;
            }
            i += 1;
        }
        assert(self@ =~= other@);
        true
    }
}

impl<const BITS: u8, const LEN: usize> vstd::std_specs::cmp::PartialEqSpecImpl<[u8; LEN]> for PackedIntegerArray<BITS, LEN> {
    open spec fn obeys_eq_spec() -> bool {
        true
    }

    open spec fn eq_spec(&self, other: &[u8; LEN]) -> bool {
        self@ == other@
    }
}

impl<const BITS: u8, const LEN: usize> AsRef<[u8]> for PackedIntegerArray<BITS, LEN> {
    fn as_ref(&self) -> &[u8] {
        self.as_bytes()
    }
}

/// Hands out the items of a [`PackedIntegerArray`] one at a time, in order.
///
/// The view is the sequence of the items not yet handed out.
pub struct PackedIntegerArrayIterator<const BITS: u8, const LEN: usize> {
    index: usize,
    array: PackedIntegerArray<BITS, LEN>,
}

impl<const BITS: u8, const LEN: usize> View for PackedIntegerArrayIterator<BITS, LEN> {
    type V = Seq<u8>;

    closed spec fn view(&self) -> Seq<u8> {
        self.array@.skip(self.index as int)
    }
}

impl<const BITS: u8, const LEN: usize> PackedIntegerArrayIterator<BITS, LEN> {
    #[verifier::type_invariant]
    spec fn in_range(&self) -> bool {
        self.index <= LEN
    }

    /// Returns the next item, or `None` once all have been handed out.
    pub fn next(&mut self) -> (r: Option<u8>)
        ensures
            old(self)@.len() > 0 ==> r == Some(old(self)@[0]) && final(self)@ == old(self)@.skip(1),
            old(self)@.len() == 0 ==> r is None && final(self)@ == old(self)@,
    {
        proof {
            use_type_invariant(&*self);
        }
        if self.index < LEN {
            let v = self.array.get(self.index);
            self.index = self.index + 1;
            assert(self@ =~= old(self)@.skip(1));
            Some(v)
        } else {
            None
        }
    }
}

} // verus!
