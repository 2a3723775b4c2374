use vstd::prelude::*;
use vstd::arithmetic::power2::{pow2, lemma_pow2_unfold, lemma_pow2_pos, lemma2_to64};
use vstd::arithmetic::div_mod::{lemma_div_denominator, lemma_mod_breakdown, lemma_small_mod};
use vstd::bits::lemma_u64_shr_is_div;
use vstd::std_specs::bits::{u64_leading_zeros, axiom_u64_leading_zeros};

verus! {

/// The `n` low bits of `v` in binary, most significant first.
pub open spec fn int_to_bits(v: nat, n: nat) -> Seq<bool> {
    Seq::new(n, |k: int| (v / pow2((n - 1 - k) as nat)) % 2 == 1)
}

/// The number that a sequence of binary digits, most significant first, stands for.
pub open spec fn bits_to_int(bits: Seq<bool>) -> nat
    decreases bits.len(),
{
    if bits.len() == 0 {
        0
    } else {
        2 * bits_to_int(bits.drop_last()) + if bits.last() {
            1nat
        } else {
            0nat
        }
    }
}

/// The number of binary digits of `d`: the least `n` with `d < 2^n`.
pub open spec fn bit_width(d: nat) -> nat
    decreases d,
{
    if d == 0 {
        0
    } else {
        1 + bit_width(d / 2)
    }
}

/// Dropping the last digit of an `n`-digit binary number halves it.
pub proof fn lemma_int_to_bits_drop_last(v: nat, n: nat)
    requires
        n > 0,
    ensures
        int_to_bits(v, n).drop_last() == int_to_bits(v / 2, (n - 1) as nat),
        int_to_bits(v, n).last() == (v % 2 == 1),
{
    let a = int_to_bits(v, n).drop_last();
    let b = int_to_bits(v / 2, (n - 1) as nat);
    assert forall|k: int| 0 <= k < n - 1 implies a[k] == b[k] by {
        let m = (n - 2 - k) as nat;
        lemma_pow2_unfold(m + 1);
        lemma_pow2_pos(m);
        lemma_div_denominator(v as int, 2, pow2(m) as int);
        assert((n - 1 - k) as nat == m + 1);
    }
    assert(a =~= b);
    assert(pow2(0) == 1) by {
        lemma2_to64();
    }
    assert((n - 1 - (n - 1)) as nat == 0);
    assert(int_to_bits(v, n)[n - 1] == ((v / pow2(0)) % 2 == 1));
}

/// Reading back the `n` low bits of `v` gives `v` modulo `2^n`.
pub proof fn lemma_bits_to_int_of_int_to_bits(v: nat, n: nat)
    ensures
        bits_to_int(int_to_bits(v, n)) == v % pow2(n),
    decreases n,
{
    lemma_pow2_pos(n);
    if n == 0 {
        assert(pow2(0) == 1) by {
            lemma2_to64();
        }
    } else {
        let bits = int_to_bits(v, n);
        lemma_int_to_bits_drop_last(v, n);
        lemma_bits_to_int_of_int_to_bits(v / 2, (n - 1) as nat);
        lemma_pow2_unfold(n);
        lemma_pow2_pos((n - 1) as nat);
        lemma_mod_breakdown(v as int, 2, pow2((n - 1) as nat) as int);
    }
}

/// Reading back the `n` low bits of a `v` below `2^n` gives `v`.
pub proof fn lemma_int_to_bits_roundtrip(v: nat, n: nat)
    requires
        v < pow2(n),
    ensures
        bits_to_int(int_to_bits(v, n)) == v,
        int_to_bits(v, n).len() == n,
{
    lemma_bits_to_int_of_int_to_bits(v, n);
    lemma_small_mod(v, pow2(n));
}

/// A sequence of `n` binary digits stands for a number below `2^n`.
pub proof fn lemma_bits_to_int_bound(bits: Seq<bool>)
    ensures
        bits_to_int(bits) < pow2(bits.len()),
    decreases bits.len(),
{
    if bits.len() == 0 {
        assert(pow2(0) == 1) by {
            lemma2_to64();
        }
    } else {
        lemma_bits_to_int_bound(bits.drop_last());
        lemma_pow2_unfold(bits.len());
    }
}

/// Reading one more digit doubles the number read so far and adds the digit.
pub proof fn lemma_bits_to_int_take(bits: Seq<bool>, k: int)
    requires
        0 <= k < bits.len(),
    ensures
        bits_to_int(bits.take(k + 1)) == 2 * bits_to_int(bits.take(k)) + if bits[k] {
            1nat
        } else {
            0nat
        },
{
    assert(bits.take(k + 1).drop_last() =~= bits.take(k));
}

/// `d` is below `2^bit_width(d)`.
pub proof fn lemma_bit_width_bound(d: nat)
    ensures
        d < pow2(bit_width(d)),
    decreases d,
{
    if d == 0 {
        lemma_pow2_pos(0);
    } else {
        lemma_bit_width_bound(d / 2);
        lemma_pow2_unfold(bit_width(d));
    }
}

/// For a 64-bit word, the bit width is 64 minus the leading zeros.
pub proof fn lemma_bit_width_leading_zeros(d: u64)
    ensures
        bit_width(d as nat) == 64 - u64_leading_zeros(d),
        bit_width(d as nat) <= 64,
    decreases d,
{
    reveal(u64_leading_zeros);
    axiom_u64_leading_zeros(d);
    if d != 0 {
        lemma_bit_width_leading_zeros(d / 2);
    }
}

/// Shifting right by `s` and masking the low bit reads binary digit `s` of `v`.
pub proof fn lemma_shr_bit(v: u64, s: u64)
    requires
        s < 64,
    ensures
        (((v >> s) & 1u64) == 1u64) == ((v as nat / pow2(s as nat)) % 2 == 1),
{
    lemma_u64_shr_is_div(v, s);
    let x = v >> s;
    assert(x & 1u64 == x % 2) by (bit_vector);
}

/// No fewer digits than `bit_width(d)` hold `d`: a positive `d` is at
/// least `2^(bit_width(d) - 1)`.
pub proof fn lemma_bit_width_least(d: nat)
    ensures
        d == 0 <==> bit_width(d) == 0,
        d > 0 ==> pow2((bit_width(d) - 1) as nat) <= d,
    decreases d,
{
    if d > 0 {
        lemma_bit_width_least(d / 2);
        if d / 2 == 0 {
            lemma2_to64();
        } else {
            lemma_pow2_unfold((bit_width(d) - 1) as nat);
        }
    }
}

} // verus!
