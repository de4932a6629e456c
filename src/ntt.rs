//! Radix-2 number-theoretic transforms over G1 on the CPU.
use vstd::prelude::*;
use vstd::arithmetic::power::pow;
use vstd::arithmetic::power2::pow2;
use vstd::bits::low_bits_mask;
use crate::bits::{bitreverse, rev_bits, lemma_rev_bits_bound, lemma_bitreverse_involutive};
use crate::field::{Scalar, fr_modulus, fr_mul, pow_vartime};
use crate::error::{EcError, EcResult};
use crate::point::{Coords, Point, g1_add, g1_sub, g1_scale, point_add, point_sub, point_scale};

verus! {

/// The coordinates of each point of a buffer.
pub open spec fn coords(v: Seq<Point>) -> Seq<Coords> {
    Seq::new(v.len(), |i: int| v[i].view())
}

/// Every point of a buffer is well formed.
pub open spec fn all_wf(v: Seq<Point>) -> bool {
    forall|i: int| 0 <= i < v.len() ==> #[trigger] v[i].wf()
}

/// The buffer reordered so that position `k` holds the element at the
/// bit-reversal of `k` over `l` bits.
pub open spec fn permute_bitrev(s: Seq<Coords>, l: nat) -> Seq<Coords> {
    Seq::new(s.len(), |k: int| s[rev_bits(k as nat, l) as int])
}

/// The `j`-th power of `wm` in the scalar field.
pub open spec fn twiddle(wm: int, j: int) -> int {
    pow(wm, j as nat) % fr_modulus()
}

/// One radix-2 stage with half-block size `m` and stage root `wm`: in each
/// block of `2m` elements, positions `j` and `j + m` (with `j < m`) become
/// `u + w^j·v` and `u - w^j·v`, where `u`, `v` are their old values.
pub open spec fn butterfly(s: Seq<Coords>, m: int, wm: int) -> Seq<Coords> {
    Seq::new(
        s.len(),
        |i: int|
            if i % (2 * m) < m {
                g1_add(s[i], g1_scale(s[i + m], twiddle(wm, i % (2 * m))))
            } else {
                g1_sub(s[i - m], g1_scale(s[i], twiddle(wm, i % (2 * m) - m)))
            },
    )
}

/// The root of unity used at the stage with half-block size `m` of a
/// transform of size `n` with root `omega`: `omega^(n / 2m)`.
pub open spec fn stage_root(omega: int, n: int, m: int) -> int {
    pow(omega, (n / (2 * m)) as nat) % fr_modulus()
}

/// The first `t` butterfly stages, with half-block sizes `1, 2, ..., 2^(t-1)`.
pub open spec fn butterflies(s: Seq<Coords>, omega: int, t: nat) -> Seq<Coords>
    decreases t,
{
    if t == 0 {
        s
    } else {
        let m = pow2((t - 1) as nat) as int;
        butterfly(butterflies(s, omega, (t - 1) as nat), m, stage_root(omega, s.len() as int, m))
    }
}

/// The radix-2 Cooley-Tukey transform of `s` (of length `2^log_n`) with root
/// `omega`: the bit-reversal permutation followed by all `log_n` stages.
pub open spec fn ec_fft(s: Seq<Coords>, omega: int, log_n: nat) -> Seq<Coords> {
    butterflies(permute_bitrev(s, log_n), omega, log_n)
}

/// Puts the buffer into bit-reversed order in place.
fn permute_in_place(a: &mut Vec<Point>, log_n: u32)
    requires
        log_n < 32,
        old(a)@.len() == pow2(log_n as nat),
        all_wf(old(a)@),
    ensures
        final(a)@.len() == old(a)@.len(),
        all_wf(final(a)@),
        coords(final(a)@) == permute_bitrev(coords(old(a)@), log_n as nat),
{
    let ghost s = a@;
    proof {
        vstd::arithmetic::power2::lemma_pow2_strictly_increases(log_n as nat, 32);
        vstd::arithmetic::power2::lemma2_to64();
    }
    let n = a.len() as u32;
    let mut k: u32 = 0;
    while k < n
        invariant
            n as nat == s.len(),
            s.len() == pow2(log_n as nat),
            log_n < 32,
            a@.len() == s.len(),
            all_wf(s),
            all_wf(a@),
            k <= n,
            forall|i: int|
                0 <= i < n ==> #[trigger] a@[i] == if i < k || rev_bits(i as nat, log_n as nat) < k {
                    s[rev_bits(i as nat, log_n as nat) as int]
                } else {
                    s[i]
                },
        decreases n - k,
    {
        let rk = bitreverse(k, log_n);
        proof {
            lemma_rev_bits_bound(k as nat, log_n as nat);
            lemma_bitreverse_involutive(k as nat, log_n as nat);
            assert forall|i: int| 0 <= i < n implies #[trigger] rev_bits(i as nat, log_n as nat) < n by {
                lemma_rev_bits_bound(i as nat, log_n as nat);
            }
        }
        if k < rk {
            let x = a[rk as usize];
            let y = a[k as usize];
            a.set(rk as usize, y);
            a.set(k as usize, x);
        }
        proof {
            assert forall|i: int| 0 <= i < n implies #[trigger] a@[i] == if i < k + 1 || rev_bits(i as nat, log_n as nat) < k + 1 {
                s[rev_bits(i as nat, log_n as nat) as int]
            } else {
                s[i]
            } by {
                lemma_bitreverse_involutive(i as nat, log_n as nat);
                lemma_rev_bits_bound(i as nat, log_n as nat);
            }
        }
        k = k + 1;
    }
    proof {
        assert(coords(a@) =~= permute_bitrev(coords(s), log_n as nat)) by {
            assert forall|i: int| 0 <= i < n implies #[trigger] rev_bits(i as nat, log_n as nat) < n by {
                lemma_rev_bits_bound(i as nat, log_n as nat);
            }
        }
    }
}

proof fn lemma_in_block(i: int, blk: int, b: int)
    requires
        b > 0,
        blk >= 0,
        blk * b <= i < blk * b + b,
    ensures
        i % b == i - blk * b,
{
    vstd::arithmetic::div_mod::lemma_fundamental_div_mod_converse(i, b, blk, i - blk * b);
}

proof fn lemma_twiddle_next(wm: int, j: int, w: int)
    requires
        j >= 0,
        w == twiddle(wm, j),
    ensures
        (w * wm) % fr_modulus() == twiddle(wm, j + 1),
{
    vstd::arithmetic::power::lemma_pow_adds(wm, j as nat, 1);
    vstd::arithmetic::power::lemma_pow1(wm);
    vstd::arithmetic::div_mod::lemma_mul_mod_noop_general(pow(wm, j as nat), wm, fr_modulus());
    assert(j as nat + 1 == (j + 1) as nat);
}

/// Runs one stage of butterflies with half-block size `m` and root `w_m`.
fn butterfly_in_place(a: &mut Vec<Point>, w_m: &Scalar, m: u32)
    requires
        m >= 1,
        old(a)@.len() < 0x1_0000_0000,
        old(a)@.len() as int % (2 * m as int) == 0,
        all_wf(old(a)@),
        w_m.wf(),
    ensures
        final(a)@.len() == old(a)@.len(),
        all_wf(final(a)@),
        coords(final(a)@) == butterfly(coords(old(a)@), m as int, w_m.value()),
{
    let ghost s = coords(a@);
    let ghost bf = butterfly(s, m as int, w_m.value());
    let ghost len: int = a@.len() as int;
    let n = a.len() as u32;
    let mut k: u32 = 0;
    let ghost mut blk: int = 0;
    while k < n
        invariant
            n as int == len,
            len < 0x1_0000_0000,
            len % (2 * m as int) == 0,
            m >= 1,
            w_m.wf(),
            a@.len() == len,
            s.len() == len,
            bf == butterfly(s, m as int, w_m.value()),
            all_wf(a@),
            k <= n,
            blk >= 0,
            k as int == blk * (2 * m as int),
            forall|i: int| 0 <= i < len ==> #[trigger] a@[i].view() == if i < k { bf[i] } else { s[i] },
        decreases n - k,
    {
        proof {
            vstd::arithmetic::div_mod::lemma_fundamental_div_mod(len, 2 * m as int);
            let q = len / (2 * m as int);
            assert(len == (2 * m as int) * q);
            assert(blk < q) by (nonlinear_arith)
                requires blk * (2 * m as int) < len, len == (2 * m as int) * q, m >= 1;
            assert((blk + 1) * (2 * m as int) <= len) by (nonlinear_arith)
                requires blk + 1 <= q, len == (2 * m as int) * q, m >= 1;
            assert(k + 2 * m <= n) by (nonlinear_arith)
                requires (blk + 1) * (2 * m as int) <= len, k as int == blk * (2 * m as int),
                    n as int == len;
        }
        let mut w = Scalar::one();
        let mut j: u32 = 0;
        proof {
            vstd::arithmetic::power::lemma_pow0(w_m.value());
            vstd::arithmetic::div_mod::lemma_small_mod(1, fr_modulus() as nat);
        }
        while j < m
            invariant
                n as int == len,
                len < 0x1_0000_0000,
                m >= 1,
                w_m.wf(),
                w.wf(),
                w.value() == twiddle(w_m.value(), j as int),
                a@.len() == len,
                s.len() == len,
                bf == butterfly(s, m as int, w_m.value()),
                all_wf(a@),
                blk >= 0,
                k as int == blk * (2 * m as int),
                k + 2 * m <= n,
                j <= m,
                forall|i: int|
                    0 <= i < len ==> #[trigger] a@[i].view() == if i < k || (k <= i < k + j) || (k
                        + m <= i < k + m + j) {
                        bf[i]
                    } else {
                        s[i]
                    },
            decreases m - j,
        {
            let lo = (k + j) as usize;
            let hi = (k + j + m) as usize;
            let t = point_scale(&a[hi], &w);
            let tmp = point_sub(&a[lo], &t);
            let sum = point_add(&a[lo], &t);
            proof {
                lemma_in_block(lo as int, blk, 2 * m as int);
                lemma_in_block(hi as int, blk, 2 * m as int);
                assert(bf[lo as int] == g1_add(s[lo as int], g1_scale(s[hi as int], w.value())));
                assert(bf[hi as int] == g1_sub(s[lo as int], g1_scale(s[hi as int], w.value())));
            }
            a.set(hi, tmp);
            a.set(lo, sum);
            proof {
                lemma_twiddle_next(w_m.value(), j as int, w.value());
            }
            w = fr_mul(&w, w_m);
            j = j + 1;
        }
        k = k + 2 * m;
        proof {
            blk = blk + 1;
            assert(k as int == blk * (2 * m as int)) by (nonlinear_arith)
                requires k as int == (blk - 1) * (2 * m as int) + 2 * m as int;
        }
    }
    proof {
        assert(coords(a@) =~= bf);
    }
}

proof fn lemma_pow2_divides(t: nat, l: nat)
    requires
        t <= l,
    ensures
        pow2(l) as int % pow2(t) as int == 0,
        pow2(t) > 0,
{
    vstd::arithmetic::power2::lemma_pow2_adds(t, (l - t) as nat);
    vstd::arithmetic::power2::lemma_pow2_pos(t);
    assert(t + (l - t) as nat == l);
    vstd::arithmetic::div_mod::lemma_mod_multiples_basic(pow2((l - t) as nat) as int, pow2(t) as int);
    assert(pow2((l - t) as nat) as int * pow2(t) as int == pow2(l) as int) by (nonlinear_arith)
        requires pow2(l) == pow2(t) * pow2((l - t) as nat);
}

/// Computes the transform of `a` with root `omega` in place, on one thread.
///
/// `a` must hold `2^log_n` points.
pub fn serial_ec_fft(a: &mut Vec<Point>, omega: &Scalar, log_n: u32)
    requires
        log_n < 32,
        old(a)@.len() == pow2(log_n as nat),
        all_wf(old(a)@),
        omega.wf(),
    ensures
        final(a)@.len() == old(a)@.len(),
        all_wf(final(a)@),
        coords(final(a)@) == ec_fft(coords(old(a)@), omega.value(), log_n as nat),
{
    permute_in_place(a, log_n);
    let ghost p = coords(a@);
    proof {
        vstd::arithmetic::power2::lemma_pow2_strictly_increases(log_n as nat, 32);
        vstd::arithmetic::power2::lemma2_to64();
    }
    let n = a.len() as u32;
    let mut m: u32 = 1;
    let mut t: u32 = 0;
    while t < log_n
        invariant
            log_n < 32,
            n as int == p.len(),
            p.len() == pow2(log_n as nat),
            a@.len() == p.len(),
            all_wf(a@),
            omega.wf(),
            t <= log_n,
            m as int == pow2(t as nat),
            coords(a@) == butterflies(p, omega.value(), t as nat),
        decreases log_n - t,
    {
        proof {
            lemma_pow2_divides((t + 1) as nat, log_n as nat);
            vstd::arithmetic::power2::lemma2_to64();
            vstd::arithmetic::power2::lemma_pow2_unfold((t + 1) as nat);
            if t + 1 < 32 {
                vstd::arithmetic::power2::lemma_pow2_strictly_increases((t + 1) as nat, 32);
            }
        }
        let w_m = pow_vartime(omega, (n / (2 * m)) as u64);
        butterfly_in_place(a, &w_m, m);
        proof {
            assert((t + 1) as nat - 1 == t as nat);
        }
        m = m * 2;
        t = t + 1;
    }
}

/// The power of `omega` that the shuffle of worker `j` applies to the term
/// `s` of the output position `i`.
pub open spec fn shuffle_exp(j: int, i: int, s: int, log_threads: nat, log_new_n: nat) -> int {
    i * j + (i * pow2(log_threads) + s) * j * pow2(log_new_n)
}

/// The sum, in order, of the first `s` terms of position `i` of worker `j`'s
/// shuffle: the element at `i + s' * 2^log_new_n` scaled by its power of
/// `omega`, added onto the point at infinity.
pub open spec fn shuffle_acc(
    a: Seq<Coords>,
    omega: int,
    j: int,
    i: int,
    log_threads: nat,
    log_new_n: nat,
    s: nat,
) -> Coords
    decreases s,
{
    if s == 0 {
        (1int, 1int, 0int)
    } else {
        let s1 = (s - 1) as nat;
        g1_add(
            shuffle_acc(a, omega, j, i, log_threads, log_new_n, s1),
            g1_scale(
                a[i + s1 * pow2(log_new_n)],
                pow(omega, shuffle_exp(j, i, s1 as int, log_threads, log_new_n) as nat) % fr_modulus(),
            ),
        )
    }
}

/// The input of worker `j`'s sub-transform: `2^log_new_n` positions, each the
/// sum over the `2^log_threads` interleaved elements of `a`.
pub open spec fn shuffled(a: Seq<Coords>, omega: int, j: int, log_threads: nat, log_new_n: nat) -> Seq<
    Coords,
> {
    Seq::new(
        pow2(log_new_n),
        |i: int| shuffle_acc(a, omega, j, i, log_threads, log_new_n, pow2(log_threads)),
    )
}

/// What worker `j` of the parallel transform produces: the transform of its
/// shuffle with root `omega^(2^log_threads)`.
pub open spec fn ec_fft_part(a: Seq<Coords>, omega: int, j: int, log_threads: nat, log_new_n: nat) -> Seq<
    Coords,
> {
    ec_fft(
        shuffled(a, omega, j, log_threads, log_new_n),
        pow(omega, pow2(log_threads)) % fr_modulus(),
        log_new_n,
    )
}

proof fn lemma_pow_mod_add(w: int, e1: nat, e2: nat)
    ensures
        ((pow(w, e1) % fr_modulus()) * (pow(w, e2) % fr_modulus())) % fr_modulus() == pow(w, e1 + e2)
            % fr_modulus(),
{
    vstd::arithmetic::power::lemma_pow_adds(w, e1, e2);
    vstd::arithmetic::div_mod::lemma_mul_mod_noop_general(pow(w, e1), pow(w, e2), fr_modulus());
}

/// Computes the part of worker `j` of the parallel transform: its shuffle of
/// `a`, transformed in place with root `omega^(2^log_threads)`.
pub fn parallel_ec_fft_part(a: &Vec<Point>, omega: &Scalar, j: u32, log_n: u32, log_threads: u32) -> (r:
    Vec<Point>)
    requires
        log_threads <= log_n < 32,
        a@.len() == pow2(log_n as nat),
        all_wf(a@),
        omega.wf(),
        j < pow2(log_threads as nat),
    ensures
        r@.len() == pow2((log_n - log_threads) as nat),
        all_wf(r@),
        coords(r@) == ec_fft_part(
            coords(a@),
            omega.value(),
            j as int,
            log_threads as nat,
            (log_n - log_threads) as nat,
        ),
{
    let log_new_n = log_n - log_threads;
    let ghost lt = log_threads as nat;
    let ghost ln = log_new_n as nat;
    proof {
        vstd::arithmetic::power2::lemma2_to64();
        vstd::arithmetic::power2::lemma_pow2_adds(lt, ln);
        assert(lt + ln == log_n as nat);
        vstd::arithmetic::power2::lemma_pow2_strictly_increases(log_n as nat, 32);
        vstd::arithmetic::power2::lemma_pow2_pos(lt);
        vstd::arithmetic::power2::lemma_pow2_pos(ln);
        assert(pow2(lt) <= pow2(log_n as nat) && pow2(ln) <= pow2(log_n as nat)) by (nonlinear_arith)
            requires pow2(log_n as nat) == pow2(lt) * pow2(ln), pow2(lt) > 0, pow2(ln) > 0;
        vstd::bits::lemma_u32_shl_is_mul(1, log_threads);
        vstd::bits::lemma_u32_shl_is_mul(1, log_new_n);
    }
    let num_threads: u32 = 1 << log_threads;
    let new_len: u32 = 1 << log_new_n;
    proof {
        assert((j as int) * (new_len as int) < (num_threads as int) * (new_len as int)) by (nonlinear_arith)
            requires j < num_threads, new_len > 0;
    }
    let omega_j = pow_vartime(omega, j as u64);
    let omega_step = pow_vartime(omega, (j as u64) * (new_len as u64));
    let new_omega = pow_vartime(omega, num_threads as u64);
    let ghost av = coords(a@);
    let ghost om = omega.value();
    let mut tmp: Vec<Point> = Vec::new();
    let mut elt = Scalar::one();
    proof {
        vstd::arithmetic::power::lemma_pow0(om);
        vstd::arithmetic::div_mod::lemma_small_mod(1, fr_modulus() as nat);
        assert(shuffle_exp(j as int, 0, 0, lt, ln) == 0) by (nonlinear_arith);
    }
    let mut i: u32 = 0;
    while i < new_len
        invariant
            new_len as nat == pow2(ln),
            num_threads as nat == pow2(lt),
            pow2(log_n as nat) == pow2(lt) * pow2(ln),
            pow2(log_n as nat) < 0x1_0000_0000,
            a@.len() == pow2(log_n as nat),
            av == coords(a@),
            om == omega.value(),
            all_wf(a@),
            omega.wf(),
            omega_j.wf(),
            omega_j.value() == pow(om, j as nat) % fr_modulus(),
            omega_step.wf(),
            omega_step.value() == pow(om, (j * new_len) as nat) % fr_modulus(),
            elt.wf(),
            elt.value() == pow(om, shuffle_exp(j as int, i as int, 0, lt, ln) as nat) % fr_modulus(),
            i <= new_len,
            tmp@.len() == i,
            all_wf(tmp@),
            forall|k: int| 0 <= k < i ==> #[trigger] tmp@[k].view() == shuffle_acc(av, om, j as int, k, lt, ln, pow2(lt)),
        decreases new_len - i,
    {
        let mut acc = Point::identity();
        let mut s: u32 = 0;
        while s < num_threads
            invariant
                new_len as nat == pow2(ln),
                num_threads as nat == pow2(lt),
                pow2(log_n as nat) == pow2(lt) * pow2(ln),
                pow2(log_n as nat) < 0x1_0000_0000,
                a@.len() == pow2(log_n as nat),
                av == coords(a@),
                om == omega.value(),
                all_wf(a@),
                omega_step.wf(),
                omega_step.value() == pow(om, (j * new_len) as nat) % fr_modulus(),
                elt.wf(),
                elt.value() == pow(om, shuffle_exp(j as int, i as int, s as int, lt, ln) as nat) % fr_modulus(),
                i < new_len,
                s <= num_threads,
                acc.wf(),
                acc.view() == shuffle_acc(av, om, j as int, i as int, lt, ln, s as nat),
            decreases num_threads - s,
        {
            proof {
                assert((s as int) * (new_len as int) + (i as int) < (num_threads as int) * (new_len as int)) by (nonlinear_arith)
                    requires s < num_threads, i < new_len;
                assert(shuffle_exp(j as int, i as int, s as int, lt, ln) + (j * new_len) as int
                    == shuffle_exp(j as int, i as int, s as int + 1, lt, ln)) by (nonlinear_arith)
                    requires new_len as int == pow2(ln);
                assert(shuffle_exp(j as int, i as int, s as int, lt, ln) >= 0) by (nonlinear_arith);
                lemma_pow_mod_add(om, shuffle_exp(j as int, i as int, s as int, lt, ln) as nat, (j * new_len) as nat);
            }
            let idx = i + s * new_len;
            let t = point_scale(&a[idx as usize], &elt);
            acc = point_add(&acc, &t);
            elt = fr_mul(&elt, &omega_step);
            s = s + 1;
        }
        proof {
            assert(shuffle_exp(j as int, i as int, num_threads as int, lt, ln) + j as int
                == shuffle_exp(j as int, i as int + 1, 0, lt, ln)) by (nonlinear_arith)
                requires num_threads as int == pow2(lt);
            assert(shuffle_exp(j as int, i as int, num_threads as int, lt, ln) >= 0) by (nonlinear_arith);
            lemma_pow_mod_add(om, shuffle_exp(j as int, i as int, num_threads as int, lt, ln) as nat, j as nat);
        }
        elt = fr_mul(&elt, &omega_j);
        tmp.push(acc);
        i = i + 1;
    }
    proof {
        assert(coords(tmp@) =~= shuffled(av, om, j as int, lt, ln));
    }
    serial_ec_fft(&mut tmp, &new_omega, log_new_n);
    tmp
}

/// Writes the workers' parts back into `a`: position `idx` takes element
/// `idx >> log_threads` of part `idx & (2^log_threads - 1)`.
pub fn parallel_ec_fft_gather(a: &mut Vec<Point>, parts: &Vec<Vec<Point>>, log_n: u32, log_threads: u32)
    requires
        log_threads <= log_n < 32,
        old(a)@.len() == pow2(log_n as nat),
        parts@.len() == pow2(log_threads as nat),
        forall|j: int|
            0 <= j < parts@.len() ==> #[trigger] parts@[j]@.len() == pow2((log_n - log_threads) as nat)
                && all_wf(parts@[j]@),
    ensures
        final(a)@.len() == old(a)@.len(),
        all_wf(final(a)@),
        forall|idx: int|
            0 <= idx < final(a)@.len() ==> #[trigger] final(a)@[idx] == parts@[idx % pow2(log_threads as nat) as int]@[idx
                / pow2(log_threads as nat) as int],
{
    let ghost lt = log_threads as nat;
    let ghost ln = (log_n - log_threads) as nat;
    proof {
        vstd::arithmetic::power2::lemma2_to64();
        vstd::arithmetic::power2::lemma_pow2_adds(lt, ln);
        assert(lt + ln == log_n as nat);
        vstd::arithmetic::power2::lemma_pow2_strictly_increases(log_n as nat, 32);
        vstd::arithmetic::power2::lemma_pow2_pos(lt);
        vstd::arithmetic::power2::lemma_pow2_pos(ln);
        assert(pow2(lt) <= pow2(log_n as nat)) by (nonlinear_arith)
            requires pow2(log_n as nat) == pow2(lt) * pow2(ln), pow2(ln) > 0;
        vstd::bits::lemma_u32_shl_is_mul(1, log_threads);
    }
    let n = a.len() as u32;
    let mask: u32 = (1u32 << log_threads) - 1;
    let mut idx: u32 = 0;
    while idx < n
        invariant
            n as nat == pow2(log_n as nat),
            pow2(log_n as nat) == pow2(lt) * pow2(ln),
            pow2(lt) > 0,
            pow2(lt) <= pow2(log_n as nat),
            lt == log_threads,
            log_threads < 32,
            mask as nat == pow2(lt) - 1,
            a@.len() == n,
            parts@.len() == pow2(lt),
            forall|j: int|
                0 <= j < parts@.len() ==> #[trigger] parts@[j]@.len() == pow2(ln) && all_wf(parts@[j]@),
            idx <= n,
            forall|i: int| 0 <= i < idx ==> #[trigger] a@[i].wf(),
            forall|i: int|
                0 <= i < idx ==> #[trigger] a@[i] == parts@[i % pow2(lt) as int]@[i / pow2(lt) as int],
        decreases n - idx,
    {
        proof {
            vstd::bits::lemma_u32_low_bits_mask_is_mod(idx, lt);
            vstd::bits::lemma_u32_shr_is_div(idx, log_threads);
            vstd::arithmetic::div_mod::lemma_div_pos_is_pos(idx as int, pow2(lt) as int);
            vstd::arithmetic::div_mod::lemma_mod_pos_bound(idx as int, pow2(lt) as int);
            vstd::arithmetic::div_mod::lemma_div_is_ordered(idx as int, (pow2(lt) * pow2(ln)) as int, pow2(lt) as int);
            vstd::arithmetic::div_mod::lemma_div_multiples_vanish(pow2(ln) as int, pow2(lt) as int);
            assert((pow2(lt) * pow2(ln)) as int == pow2(lt) as int * pow2(ln) as int);
            assert(mask == low_bits_mask(lt) as u32);
            assert((pow2(lt) as u32) as int == pow2(lt) as int);
            if (idx as int) / (pow2(lt) as int) == pow2(ln) as int {
                assert(idx as int >= pow2(lt) as int * pow2(ln) as int) by (nonlinear_arith)
                    requires (idx as int) / (pow2(lt) as int) == pow2(ln) as int, pow2(lt) > 0;
            }
        }
        let part = &parts[(idx & mask) as usize];
        let p = part[(idx >> log_threads) as usize];
        proof {
            assert(all_wf(parts@[(idx & mask) as int]@));
            assert(p.wf());
        }
        a.set(idx as usize, p);
        idx = idx + 1;
    }
}

/// Computes the transform of `a` with root `omega` in place by splitting it
/// into `2^log_threads` independent parts of size `2^(log_n - log_threads)`.
///
/// Position `idx` of the result is element `idx / 2^log_threads` of the
/// part of worker `idx mod 2^log_threads`.
pub fn parallel_ec_fft(a: &mut Vec<Point>, omega: &Scalar, log_n: u32, log_threads: u32)
    requires
        log_threads <= log_n < 32,
        old(a)@.len() == pow2(log_n as nat),
        all_wf(old(a)@),
        omega.wf(),
    ensures
        final(a)@.len() == old(a)@.len(),
        all_wf(final(a)@),
        forall|idx: int|
            0 <= idx < final(a)@.len() ==> #[trigger] coords(final(a)@)[idx] == ec_fft_part(
                coords(old(a)@),
                omega.value(),
                idx % pow2(log_threads as nat) as int,
                log_threads as nat,
                (log_n - log_threads) as nat,
            )[idx / pow2(log_threads as nat) as int],
{
    let ghost lt = log_threads as nat;
    let ghost ln = (log_n - log_threads) as nat;
    let ghost av = coords(a@);
    proof {
        vstd::arithmetic::power2::lemma2_to64();
        vstd::arithmetic::power2::lemma_pow2_adds(lt, ln);
        assert(lt + ln == log_n as nat);
        vstd::arithmetic::power2::lemma_pow2_strictly_increases(log_n as nat, 32);
        vstd::arithmetic::power2::lemma_pow2_pos(ln);
        assert(pow2(lt) <= pow2(log_n as nat)) by (nonlinear_arith)
            requires pow2(log_n as nat) == pow2(lt) * pow2(ln), pow2(ln) > 0;
        vstd::bits::lemma_u32_shl_is_mul(1, log_threads);
    }
    let num_threads: u32 = 1 << log_threads;
    let mut parts: Vec<Vec<Point>> = Vec::new();
    let mut j: u32 = 0;
    while j < num_threads
        invariant
            num_threads as nat == pow2(lt),
            lt == log_threads,
            ln == (log_n - log_threads) as nat,
            log_threads <= log_n < 32,
            a@.len() == pow2(log_n as nat),
            av == coords(a@),
            all_wf(a@),
            omega.wf(),
            j <= num_threads,
            parts@.len() == j,
            forall|k: int|
                0 <= k < j ==> #[trigger] parts@[k]@.len() == pow2(ln) && all_wf(parts@[k]@) && coords(
                    parts@[k]@,
                ) == ec_fft_part(av, omega.value(), k, lt, ln),
        decreases num_threads - j,
    {
        let part = parallel_ec_fft_part(a, omega, j, log_n, log_threads);
        parts.push(part);
        j = j + 1;
    }
    parallel_ec_fft_gather(a, &parts, log_n, log_threads);
    proof {
        assert forall|idx: int| 0 <= idx < a@.len() implies #[trigger] coords(a@)[idx] == ec_fft_part(
            av,
            omega.value(),
            idx % pow2(lt) as int,
            lt,
            ln,
        )[idx / pow2(lt) as int] by {
            let k = idx % pow2(lt) as int;
            let q = idx / pow2(lt) as int;
            vstd::arithmetic::div_mod::lemma_mod_pos_bound(idx, pow2(lt) as int);
            vstd::arithmetic::power2::lemma_pow2_pos(lt);
            vstd::arithmetic::div_mod::lemma_div_pos_is_pos(idx, pow2(lt) as int);
            vstd::arithmetic::div_mod::lemma_fundamental_div_mod(idx, pow2(lt) as int);
            assert(q < pow2(ln)) by (nonlinear_arith)
                requires idx == pow2(lt) * q + k, 0 <= k, idx < pow2(lt) * pow2(ln), pow2(lt) > 0;
            assert(parts@[k]@.len() == pow2(ln));
            assert(coords(parts@[k]@) == ec_fft_part(av, omega.value(), k, lt, ln));
        }
    }
}

/// Whether a buffer of `len` points fits a transform of size `2^log_n` that
/// this library can run.
pub open spec fn fits(len: nat, log_n: u32) -> bool {
    log_n < 32 && len == pow2(log_n as nat)
}

fn check_length(len: usize, log_n: u32) -> (r: bool)
    ensures
        r == fits(len as nat, log_n),
{
    if log_n >= 32 {
        return false;
    }
    proof {
        vstd::arithmetic::power2::lemma2_to64();
        vstd::arithmetic::power2::lemma_pow2_strictly_increases(log_n as nat, 32);
        vstd::bits::lemma_u64_shl_is_mul(1, log_n as u64);
    }
    len as u64 == 1u64 << (log_n as u64)
}

/// Like [`serial_ec_fft`], but reports a buffer whose length is not
/// `2^log_n` (or a `log_n` of 32 or more) as an error and leaves it as it was.
pub fn try_serial_ec_fft(a: &mut Vec<Point>, omega: &Scalar, log_n: u32) -> (r: EcResult<()>)
    requires
        all_wf(old(a)@),
        omega.wf(),
    ensures
        r is Ok <==> fits(old(a)@.len(), log_n),
        r is Ok ==> all_wf(final(a)@) && final(a)@.len() == old(a)@.len() && coords(final(a)@)
            == ec_fft(coords(old(a)@), omega.value(), log_n as nat),
        r is Err ==> final(a)@ == old(a)@ && (match r {
            Err(EcError::Simple(_)) => true,
            _ => false,
        }),
{
    if !check_length(a.len(), log_n) {
        return Err(EcError::Simple("buffer length is not 2^log_n"));
    }
    serial_ec_fft(a, omega, log_n);
    Ok(())
}

/// Like [`parallel_ec_fft`], but reports a buffer whose length is not
/// `2^log_n` (or a `log_n` of 32 or more), or more parts than points, as an
/// error and leaves the buffer as it was.
pub fn try_parallel_ec_fft(a: &mut Vec<Point>, omega: &Scalar, log_n: u32, log_threads: u32) -> (r:
    EcResult<()>)
    requires
        all_wf(old(a)@),
        omega.wf(),
    ensures
        r is Ok <==> fits(old(a)@.len(), log_n) && log_threads <= log_n,
        r is Ok ==> all_wf(final(a)@) && final(a)@.len() == old(a)@.len() && forall|idx: int|
            0 <= idx < final(a)@.len() ==> #[trigger] coords(final(a)@)[idx] == ec_fft_part(
                coords(old(a)@),
                omega.value(),
                idx % pow2(log_threads as nat) as int,
                log_threads as nat,
                (log_n - log_threads) as nat,
            )[idx / pow2(log_threads as nat) as int],
        r is Err ==> final(a)@ == old(a)@ && (match r {
            Err(EcError::Simple(_)) => true,
            _ => false,
        }),
{
    if !check_length(a.len(), log_n) {
        return Err(EcError::Simple("buffer length is not 2^log_n"));
    }
    if log_threads > log_n {
        return Err(EcError::Simple("more parts than points"));
    }
    parallel_ec_fft(a, omega, log_n, log_threads);
    Ok(())
}

} // verus!
