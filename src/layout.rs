use vstd::arithmetic::power2::{lemma2_to64, pow2};
use vstd::bits::lemma_u16_shl_is_mul;
use vstd::prelude::*;

verus! {

/// Number of bytes that hold `size` items of `bits` bits each: `ceil(bits * size / 8)`.
pub open spec fn array_length_spec(bits: nat, size: nat) -> nat {
    (bits * size + 7) / 8
}

/// Bit `b` of byte `c`, where bit 0 is the most significant one.
pub open spec fn msb_bit(c: u8, b: u8) -> bool {
    (c >> ((7 - b) as u8)) & 1u8 == 1u8
}

/// Bit `k` of `v`, where bit 0 is the least significant one.
pub open spec fn lsb_bit(v: u8, k: u8) -> bool {
    (v >> k) & 1u8 == 1u8
}

/// Bit `pos` of a byte string, counting from the most significant bit of byte 0.
pub open spec fn bit_at(bytes: Seq<u8>, pos: int) -> bool {
    msb_bit(bytes[pos / 8], (pos % 8) as u8)
}

/// The number whose `width` binary digits, most significant first, are the bits of
/// `bytes` at positions `start .. start + width`.
pub open spec fn field(bytes: Seq<u8>, start: int, width: nat) -> nat
    decreases width,
{
    if width == 0 {
        0
    } else {
        2 * field(bytes, start, (width - 1) as nat) + if bit_at(bytes, start + width - 1) {
            1nat
        } else {
            0nat
        }
    }
}

/// The `len` items of `bits` bits each that `bytes` holds, in order.
pub open spec fn unpacked(bytes: Seq<u8>, bits: nat, len: nat) -> Seq<u8> {
    Seq::new(len, |i: int| field(bytes, i * bits, bits) as u8)
}

/// What a write of `value` into an item of `bits` bits stores: its low `bits` bits.
pub open spec fn stored(value: u8, bits: nat) -> u8 {
    (value as nat % pow2(bits)) as u8
}

/// The mask of the `w` low bits of a byte.
pub open spec fn low_mask(w: u8) -> u8 {
    0xFFu8 >> ((8 - w) as u8)
}

/// The item of width `w` that starts at bit `off` of byte `c` and ends in it, right-aligned.
pub open spec fn read_one(c: u8, off: u8, w: u8) -> u8 {
    (c << off) >> ((8 - w) as u8)
}

/// The item of width `w` that starts at bit `off` of `c0` and ends in the next byte `c1`.
pub open spec fn read_two(c0: u8, c1: u8, off: u8, w: u8) -> u8 {
    read_one(c0, off, w) | (c1 >> ((16 - off - w) as u8))
}

/// Byte `c` with the `w` bits from bit `off` on replaced by the low `w` bits of `v`.
pub open spec fn write_one(c: u8, v: u8, off: u8, w: u8) -> u8 {
    (c & !(low_mask(w) << ((8 - w - off) as u8))) | ((v << ((8 - w) as u8)) >> off)
}

/// Byte `c` with its bits from `off` on replaced by the high bits of the `w`-bit value `v`.
pub open spec fn write_head(c: u8, v: u8, off: u8, w: u8) -> u8 {
    ((c >> ((8 - off) as u8)) << ((8 - off) as u8)) | ((v << ((8 - w) as u8)) >> off)
}

/// Byte `c` with its first `t` bits replaced by the low `t` bits of `v`.
pub open spec fn write_tail(c: u8, v: u8, t: u8) -> u8 {
    ((c << t) >> t) | (v << ((8 - t) as u8))
}

pub(crate) proof fn lemma_read_one(c: u8, off: u8, w: u8, k: u8)
    by (bit_vector)
    requires
        1 <= w <= 8,
        off + w <= 8,
        k < w,
    ensures
        lsb_bit(read_one(c, off, w), k) == msb_bit(c, (off + w - 1 - k) as u8),
        read_one(c, off, w) & low_mask(w) == read_one(c, off, w),
{
}

pub(crate) proof fn lemma_read_two(c0: u8, c1: u8, off: u8, w: u8, k: u8)
    by (bit_vector)
    requires
        1 <= w <= 8,
        off < 8,
        off + w > 8,
        k < w,
    ensures
        off + w - 1 - k < 8 ==> lsb_bit(read_two(c0, c1, off, w), k) == msb_bit(
            c0,
            (off + w - 1 - k) as u8,
        ),
        off + w - 1 - k >= 8 ==> lsb_bit(read_two(c0, c1, off, w), k) == msb_bit(
            c1,
            (off + w - 9 - k) as u8,
        ),
        read_two(c0, c1, off, w) & low_mask(w) == read_two(c0, c1, off, w),
{
}

pub(crate) proof fn lemma_write_one(c: u8, v: u8, off: u8, w: u8, b: u8)
    by (bit_vector)
    requires
        1 <= w <= 8,
        off + w <= 8,
        b < 8,
    ensures
        off <= b < off + w ==> msb_bit(write_one(c, v, off, w), b) == lsb_bit(
            v,
            (off + w - 1 - b) as u8,
        ),
        !(off <= b < off + w) ==> msb_bit(write_one(c, v, off, w), b) == msb_bit(c, b),
{
}

pub(crate) proof fn lemma_write_head(c: u8, v: u8, off: u8, w: u8, b: u8)
    by (bit_vector)
    requires
        1 <= w <= 8,
        off < 8,
        off + w > 8,
        b < 8,
    ensures
        off <= b ==> msb_bit(write_head(c, v, off, w), b) == lsb_bit(v, (off + w - 1 - b) as u8),
        b < off ==> msb_bit(write_head(c, v, off, w), b) == msb_bit(c, b),
{
}

pub(crate) proof fn lemma_write_tail(c: u8, v: u8, t: u8, b: u8)
    by (bit_vector)
    requires
        1 <= t < 8,
        b < 8,
    ensures
        b < t ==> msb_bit(write_tail(c, v, t), b) == lsb_bit(v, (t - 1 - b) as u8),
        t <= b ==> msb_bit(write_tail(c, v, t), b) == msb_bit(c, b),
{
}

proof fn lemma_mask_step(r: u8, w: u8, k: u8)
    by (bit_vector)
    requires
        1 <= w <= 8,
        k < w,
    ensures
        ((r & low_mask(w)) >> k) as int == 2 * (((r & low_mask(w)) >> ((k + 1) as u8)) as int) + (
        (r >> k) & 1u8) as int,
        (r & low_mask(w)) >> w == 0u8,
        (r >> k) & 1u8 == 1u8 || (r >> k) & 1u8 == 0u8,
{
}

proof fn lemma_mask_mod(r: u8, w: u8)
    by (bit_vector)
    requires
        1 <= w <= 8,
    ensures
        (r & low_mask(w)) as u16 == (r as u16) % (1u16 << (w as u16)),
{
}

/// Two byte strings that agree on the bits of a run hold the same number there.
pub(crate) proof fn lemma_field_frame(a: Seq<u8>, b: Seq<u8>, start: int, width: nat)
    requires
        forall|p: int| start <= p < start + width ==> bit_at(a, p) == bit_at(b, p),
    ensures
        field(a, start, width) == field(b, start, width),
    decreases width,
{
    if width > 0 {
        lemma_field_frame(a, b, start, (width - 1) as nat);
    }
}

proof fn lemma_field_prefix(bytes: Seq<u8>, start: int, w: u8, r: u8, n: nat)
    requires
        1 <= w <= 8,
        n <= w,
        forall|p: int|
            start <= p < start + w ==> #[trigger] bit_at(bytes, p) == lsb_bit(
                r,
                (start + w - 1 - p) as u8,
            ),
    ensures
        field(bytes, start, n) == ((r & low_mask(w)) >> ((w - n) as u8)) as nat,
    decreases n,
{
    if n == 0 {
        lemma_mask_step(r, w, 0);
    } else {
        let k = (w - n) as u8;
        lemma_field_prefix(bytes, start, w, r, (n - 1) as nat);
        lemma_mask_step(r, w, k);
        assert(bit_at(bytes, start + n - 1) == lsb_bit(r, k));
    }
}

/// A run of `w` bits that spells the low `w` bits of `r`, most significant first,
/// holds `r mod 2^w`.
pub(crate) proof fn lemma_field_value(bytes: Seq<u8>, start: int, w: u8, r: u8)
    requires
        1 <= w <= 8,
        forall|p: int|
            start <= p < start + w ==> #[trigger] bit_at(bytes, p) == lsb_bit(
                r,
                (start + w - 1 - p) as u8,
            ),
    ensures
        field(bytes, start, w as nat) == (r & low_mask(w)) as nat,
        field(bytes, start, w as nat) == r as nat % pow2(w as nat),
{
    lemma_field_prefix(bytes, start, w, r, w as nat);
    assert((r & low_mask(w)) >> 0u8 == r & low_mask(w)) by (bit_vector);
    lemma_mask_mod(r, w);
    lemma2_to64();
    lemma_u16_shl_is_mul(1u16, w as u16);
}

/// Returns the number of bytes needed to hold `size` items of `bits` bits each.
pub fn get_array_length(bits: u8, size: usize) -> (r: usize)
    requires
        bits as int * size as int + 7 <= usize::MAX,
    ensures
        r == array_length_spec(bits as nat, size as nat),
{
    ((bits as usize) * size + 7) / 8
}

} // verus!
