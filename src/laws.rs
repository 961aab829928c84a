use crate::layout::{array_length_spec, stored};
use crate::packed::PackedIntegerArray;
use vstd::arithmetic::div_mod::{lemma_fundamental_div_mod, lemma_mod_bound, lemma_small_mod};
use vstd::arithmetic::power2::{lemma2_to64, lemma_pow2_pos, pow2};
use vstd::prelude::*;

verus! {

/// Writing a value that fits in `BITS` bits and reading the item back gives that value.
pub proof fn law_round_trip<const BITS: u8, const LEN: usize>(
    a: PackedIntegerArray<BITS, LEN>,
    index: int,
    value: u8,
)
    requires
        0 <= index < LEN,
        value < pow2(BITS as nat),
    ensures
        a@.update(index, stored(value, BITS as nat))[index] == value,
{
    lemma_small_mod(value as nat, pow2(BITS as nat));
}

/// Writing a value of `2^BITS` or more keeps `value mod 2^BITS`, and a write is reported
/// as truncated exactly when what is stored differs from the value written.
pub proof fn law_truncation<const BITS: u8, const LEN: usize>(
    a: PackedIntegerArray<BITS, LEN>,
    index: int,
    value: u8,
)
    requires
        1 <= BITS <= 8,
        0 <= index < LEN,
    ensures
        a@.update(index, stored(value, BITS as nat))[index] == value as nat % pow2(BITS as nat),
        (value as nat >= pow2(BITS as nat)) <==> stored(value, BITS as nat) != value,
{
    lemma2_to64();
    let m = pow2(BITS as nat);
    lemma_mod_bound(value as int, m as int);
    if value < m {
        lemma_small_mod(value as nat, m);
    }
}

/// Writing or clearing item `i` leaves every other item as it was.
pub proof fn law_non_interference<const BITS: u8, const LEN: usize>(
    a: PackedIntegerArray<BITS, LEN>,
    i: int,
    j: int,
    value: u8,
)
    requires
        0 <= i < LEN,
        0 <= j < LEN,
        i != j,
    ensures
        a@.update(i, stored(value, BITS as nat))[j] == a@[j],
        a@.update(i, 0u8)[j] == a@[j],
{
}

/// After a clear the item reads 0, and clearing twice is the same as clearing once.
pub proof fn law_clear_idempotent<const BITS: u8, const LEN: usize>(
    a: PackedIntegerArray<BITS, LEN>,
    index: int,
)
    requires
        0 <= index < LEN,
    ensures
        a@.update(index, 0u8)[index] == 0,
        a@.update(index, 0u8).update(index, 0u8) == a@.update(index, 0u8),
{
    assert(a@.update(index, 0u8).update(index, 0u8) =~= a@.update(index, 0u8));
}

/// The storage is the fewest bytes that hold `bits * len` bits.
pub proof fn law_storage_length(bits: nat, len: nat)
    ensures
        bits * len <= 8 * array_length_spec(bits, len) < bits * len + 8,
{
    lemma_fundamental_div_mod((bits * len + 7) as int, 8);
}

/// Two arrays with the same storage, which is when `==` holds between them, hold the
/// same items.
pub proof fn law_equal_storage<const BITS: u8, const LEN: usize>(
    a: PackedIntegerArray<BITS, LEN>,
    b: PackedIntegerArray<BITS, LEN>,
)
    requires
        a.bytes() == b.bytes(),
    ensures
        a@ == b@,
{
}

} // verus!
