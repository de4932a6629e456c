//! Bit reversal of indices, as used by the radix-2 transforms.
use vstd::prelude::*;
use vstd::arithmetic::power2::{pow2, lemma_pow2_unfold, lemma_pow2_pos};

verus! {

/// The `l` low bits of `n`, in reverse order: bit `i` of `n` becomes bit
/// `l - 1 - i` of the result, and bits of `n` at or above `l` are dropped.
pub open spec fn rev_bits(n: nat, l: nat) -> nat
    decreases l,
{
    if l == 0 {
        0
    } else {
        (n % 2) * pow2((l - 1) as nat) + rev_bits(n / 2, (l - 1) as nat)
    }
}

/// A reversal of `l` bits is below `2^l`.
pub proof fn lemma_rev_bits_bound(n: nat, l: nat)
    ensures
        rev_bits(n, l) < pow2(l),
    decreases l,
{
    lemma_pow2_pos(l);
    if l > 0 {
        lemma_rev_bits_bound(n / 2, (l - 1) as nat);
        lemma_pow2_unfold(l);
        let p = pow2((l - 1) as nat);
        assert((n % 2) * p <= p) by (nonlinear_arith)
            requires n % 2 <= 1, p >= 0;
    }
}

/// Putting a bit `b` on top of `y` and reversing moves it to the bottom.
proof fn lemma_rev_bits_top(y: nat, b: nat, l: nat)
    requires
        y < pow2(l),
        b <= 1,
    ensures
        rev_bits(y + b * pow2(l), l + 1) == 2 * rev_bits(y, l) + b,
    decreases l,
{
    let x = y + b * pow2(l);
    if l == 0 {
        vstd::arithmetic::power2::lemma2_to64();
        assert(y == 0);
        assert(b * pow2(l) == b) by (nonlinear_arith)
            requires pow2(l) == 1;
        assert(x == b);
        assert(rev_bits(x, 1) == (x % 2) * pow2(0) + rev_bits(x / 2, 0));
    } else {
        lemma_pow2_unfold(l);
        let h = pow2((l - 1) as nat);
        assert(x == y + 2 * (b * h)) by (nonlinear_arith)
            requires x == y + b * pow2(l), pow2(l) == 2 * h;
        assert(x % 2 == y % 2 && x / 2 == y / 2 + b * h) by (nonlinear_arith)
            requires x == y + 2 * (b * h), y >= 0, b * h >= 0;
        assert(y / 2 < h) by (nonlinear_arith)
            requires y < pow2(l), pow2(l) == 2 * h;
        lemma_rev_bits_top(y / 2, b, (l - 1) as nat);
        assert(((l + 1) - 1) as nat == l);
        assert(rev_bits(x, l + 1) == (x % 2) * pow2(l) + rev_bits(x / 2, l));
        assert(rev_bits(y, l) == (y % 2) * h + rev_bits(y / 2, (l - 1) as nat));
        assert((y % 2) * pow2(l) == 2 * ((y % 2) * h)) by (nonlinear_arith)
            requires pow2(l) == 2 * h;
    }
}

/// Reversing `l` bits twice gives back every `k < 2^l`.
pub proof fn lemma_bitreverse_involutive(k: nat, l: nat)
    requires
        k < pow2(l),
    ensures
        rev_bits(rev_bits(k, l), l) == k,
    decreases l,
{
    if l == 0 {
        vstd::arithmetic::power2::lemma2_to64();
    } else {
        let m = (l - 1) as nat;
        lemma_pow2_unfold(l);
        let kk = k / 2;
        let b = k % 2;
        assert(kk < pow2(m)) by (nonlinear_arith)
            requires k < pow2(l), pow2(l) == 2 * pow2(m), kk == k / 2;
        let y = rev_bits(kk, m);
        lemma_rev_bits_bound(kk, m);
        lemma_bitreverse_involutive(kk, m);
        assert(rev_bits(k, l) == b * pow2(m) + y);
        lemma_rev_bits_top(y, b, m);
        assert(m + 1 == l);
    }
}

/// Reverses the `l` low bits of `n`.
pub fn bitreverse(n: u32, l: u32) -> (r: u32)
    requires
        l <= 32,
    ensures
        r as nat == rev_bits(n as nat, l as nat),
{
    let mut n = n;
    let mut r: u32 = 0;
    let mut t: u32 = 0;
    let ghost n0 = n as nat;
    proof {
        vstd::arithmetic::power2::lemma2_to64();
    }
    while t < l
        invariant
            t <= l,
            l <= 32,
            r < pow2(t as nat),
            rev_bits(n0, l as nat) == r * pow2((l - t) as nat) + rev_bits(n as nat, (l - t) as nat),
        decreases l - t,
    {
        let ghost big = (l - t) as nat;
        proof {
            lemma_pow2_unfold(big);
            lemma_pow2_unfold((t + 1) as nat);
            lemma_pow2_pos((big - 1) as nat);
            if t < 31 {
                vstd::arithmetic::power2::lemma_pow2_strictly_increases(t as nat, 31);
            }
            vstd::arithmetic::power2::lemma2_to64();
            let p = pow2((big - 1) as nat);
            let rr = r as int;
            let nb = (n % 2) as int;
            assert(rr * (2 * p) + nb * p == (2 * rr + nb) * p) by (nonlinear_arith);
        }
        let bit = n & 1;
        proof {
            assert(bit == n % 2) by (bit_vector)
                requires bit == n & 1;
            assert((r << 1) | bit == 2 * r + bit) by (bit_vector)
                requires r < 0x8000_0000u32, bit <= 1;
        }
        r = (r << 1) | bit;
        proof {
            assert(n >> 1 == n / 2) by (bit_vector);
        }
        n = n >> 1;
        t = t + 1;
    }
    proof {
        vstd::arithmetic::power2::lemma2_to64();
        assert(rev_bits(n as nat, 0) == 0);
        assert(r * pow2(0) == r) by (nonlinear_arith)
            requires pow2(0) == 1;
    }
    r
}

} // verus!
