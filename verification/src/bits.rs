//! Single-bit manipulation on 64-bit integers.

use vstd::prelude::*;

verus! {

/// The bit at position `k` of `v`, as zero or one.
pub open spec fn bit_at(v: i64, k: usize) -> i64 {
    (v >> k) & 1
}

/// Returns `value` with the bit at `bit_index` forced to one
/// (`set_to_one == true`) or to zero (`set_to_one == false`); every other
/// bit is unchanged.
pub fn set_bit(value: i64, bit_index: usize, set_to_one: bool) -> (r: i64)
    requires
        bit_index < 64,
    ensures
        bit_at(r, bit_index) == (if set_to_one {
            1i64
        } else {
            0i64
        }),
        forall|k: usize| k < 64 && k != bit_index ==> bit_at(r, k) == bit_at(value, k),
{
    let r = if set_to_one {
        value | (1i64 << bit_index)
    } else {
        value & !(1i64 << bit_index)
    };
    proof {
        if set_to_one {
            lemma_or_bits(value, bit_index);
        } else {
            lemma_and_not_bits(value, bit_index);
        }
    }
    r
}

/// Setting one bit by `or` touches exactly that bit.
proof fn lemma_or_bits(value: i64, b: usize)
    requires
        b < 64,
    ensures
        bit_at(value | (1i64 << b), b) == 1i64,
        forall|k: usize|
            k < 64 && k != b ==> bit_at(value | (1i64 << b), k) == bit_at(value, k),
{
    assert(((value | (1i64 << b)) >> b) & 1 == 1i64) by (bit_vector)
        requires
            b < 64,
    ;
    assert forall|k: usize| k < 64 && k != b implies bit_at(value | (1i64 << b), k) == bit_at(
        value,
        k,
    ) by {
        assert(((value | (1i64 << b)) >> k) & 1 == (value >> k) & 1) by (bit_vector)
            requires
                b < 64,
                k < 64,
                k != b,
        ;
    }
}

/// Clearing one bit by `and`-`not` touches exactly that bit.
proof fn lemma_and_not_bits(value: i64, b: usize)
    requires
        b < 64,
    ensures
        bit_at(value & !(1i64 << b), b) == 0i64,
        forall|k: usize|
            k < 64 && k != b ==> bit_at(value & !(1i64 << b), k) == bit_at(value, k),
{
    assert(((value & !(1i64 << b)) >> b) & 1 == 0i64) by (bit_vector)
        requires
            b < 64,
    ;
    assert forall|k: usize| k < 64 && k != b implies bit_at(value & !(1i64 << b), k) == bit_at(
        value,
        k,
    ) by {
        assert(((value & !(1i64 << b)) >> k) & 1 == (value >> k) & 1) by (bit_vector)
            requires
                b < 64,
                k < 64,
                k != b,
        ;
    }
}

} // verus!
