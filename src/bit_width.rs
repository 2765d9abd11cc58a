use vstd::prelude::*;

verus! {

/// Two raised to the power `n`.
pub open spec fn two_pow(n: nat) -> nat
    decreases n,
{
    if n == 0 {
        1
    } else {
        2 * two_pow((n - 1) as nat)
    }
}

/// `w` is the least width in `1..=64` whose range `[0, 2^w)` holds `v`.
pub open spec fn is_min_bit_width(v: u64, w: nat) -> bool {
    &&& 1 <= w <= 64
    &&& v < two_pow(w)
    &&& (w == 1 || two_pow((w - 1) as nat) <= v)
}

proof fn lemma_leading_zeros(i: u64)
    requires
        i > 0,
    ensures
        0 <= vstd::std_specs::bits::u64_leading_zeros(i) < 64,
        two_pow((63 - vstd::std_specs::bits::u64_leading_zeros(i)) as nat) <= i,
        i < two_pow((64 - vstd::std_specs::bits::u64_leading_zeros(i)) as nat),
    decreases i,
{
    reveal(vstd::std_specs::bits::u64_leading_zeros);
    let lz = vstd::std_specs::bits::u64_leading_zeros(i);
    if i / 2 == 0 {
        assert(i == 1);
        assert(vstd::std_specs::bits::u64_leading_zeros(0) == 64);
        assert(lz == 63);
        assert(two_pow(1) == 2) by {
            assert(two_pow(0) == 1);
        }
    } else {
        let h = (i / 2) as u64;
        lemma_leading_zeros(h);
        let lh = vstd::std_specs::bits::u64_leading_zeros(h);
        assert(lz == lh - 1);
        let k = (64 - lh) as nat;
        assert(two_pow(k + 1) == 2 * two_pow(k));
        assert(two_pow(k) == 2 * two_pow((k - 1) as nat));
    }
}

/// The number of bits needed to store every value in `0..=max_value`.
///
/// Zero and one both take one bit: a width of zero is never returned.
pub fn get_bit_width(max_value: u64) -> (r: u8)
    ensures
        is_min_bit_width(max_value, r as nat),
{
    if max_value <= 1 {
        assert(two_pow(1) == 2) by {
            assert(two_pow(0) == 1);
        }
        1
    } else {
        proof {
            lemma_leading_zeros(max_value);
        }
        (64 - max_value.leading_zeros()) as u8
    }
}

} // verus!
