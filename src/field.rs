//! The BN254 scalar field, held as canonical little-endian limbs.
use vstd::prelude::*;
use vstd::arithmetic::power::{pow, lemma_pow_adds, lemma_pow1, lemma_pow0};
use vstd::arithmetic::div_mod::lemma_mul_mod_noop_general;
use ark_ff::PrimeField;

verus! {

/// The order of the BN254 scalar field (and of the group G1).
pub open spec fn fr_modulus() -> int {
    limbs_value([0x43e1f593f0000001u64, 0x2833e84879b97091u64, 0xb85045b68181585du64, 0x30644e72e131a029u64])
}

/// The integer that four little-endian 64-bit limbs stand for.
pub open spec fn limbs_value(l: [u64; 4]) -> int {
    l@[0] as int + l@[1] as int * 0x1_0000_0000_0000_0000 + l@[2] as int
        * 0x1_0000_0000_0000_0000_0000_0000_0000_0000 + l@[3] as int
        * 0x1_0000_0000_0000_0000_0000_0000_0000_0000 * 0x1_0000_0000_0000_0000
}

/// An element of the scalar field, in canonical (non-Montgomery) form.
#[derive(Clone, Copy, Debug, PartialEq, Eq)]
pub struct Scalar {
    pub limbs: [u64; 4],
}

impl Scalar {
    /// The integer in `[0, r)` that this element stands for.
    pub open spec fn value(&self) -> int {
        limbs_value(self.limbs)
    }

    /// The limbs hold a reduced residue.
    pub open spec fn wf(&self) -> bool {
        self.value() < fr_modulus()
    }

    /// The multiplicative identity.
    pub fn one() -> (r: Scalar)
        ensures
            r.wf(),
            r.value() == 1,
    {
        Scalar { limbs: [1u64, 0u64, 0u64, 0u64] }
    }

    /// The element `v mod r` of a machine integer.
    pub fn from_u64(v: u64) -> (r: Scalar)
        ensures
            r.wf(),
            r.value() == v as int,
    {
        Scalar { limbs: [v, 0u64, 0u64, 0u64] }
    }
}

/// Relies on ark-ff's `Fp::mul` for BN254's `Fr`: the product modulo `r`.
/// `from_bigint` accepts any reduced residue and `into_bigint` returns the
/// canonical residue.
#[verifier::external_body]
pub(crate) fn fr_mul(a: &Scalar, b: &Scalar) -> (r: Scalar)
    requires
        a.wf(),
        b.wf(),
    ensures
        r.wf(),
        r.value() == (a.value() * b.value()) % fr_modulus(),
{
    let x = ark_bn254::Fr::from_bigint(ark_ff::BigInt::new(a.limbs)).unwrap();
    let y = ark_bn254::Fr::from_bigint(ark_ff::BigInt::new(b.limbs)).unwrap();
    Scalar { limbs: (x * y).into_bigint().0 }
}

proof fn lemma_fr_modulus_gt_one()
    ensures
        fr_modulus() > 1,
{
}

proof fn lemma_square_step(b: int, h: nat, bit: nat, res: int)
    requires
        res == pow(b, h) % fr_modulus(),
        bit <= 1,
    ensures
        bit == 0 ==> (res * res) % fr_modulus() == pow(b, 2 * h + bit) % fr_modulus(),
        bit == 1 ==> ((res * res) % fr_modulus() * b) % fr_modulus() == pow(b, 2 * h + bit)
            % fr_modulus(),
{
    let m = fr_modulus();
    lemma_fr_modulus_gt_one();
    lemma_pow_adds(b, h, h);
    lemma_mul_mod_noop_general(pow(b, h), pow(b, h), m);
    let sq = pow(b, 2 * h);
    assert(h + h == 2 * h);
    assert((res * res) % m == sq % m);
    if bit == 1 {
        lemma_pow_adds(b, 2 * h, 1);
        lemma_pow1(b);
        lemma_mul_mod_noop_general(sq, b, m);
    }
}

/// Raises `base` to the power `exp` by left-to-right square-and-multiply.
pub fn pow_vartime(base: &Scalar, exp: u64) -> (r: Scalar)
    requires
        base.wf(),
    ensures
        r.wf(),
        r.value() == pow(base.value(), exp as nat) % fr_modulus(),
{
    let mut res = Scalar::one();
    let mut k: u32 = 0;
    proof {
        lemma_pow0(base.value());
        lemma_fr_modulus_gt_one();
        assert(exp >> 64u64 == 0u64) by (bit_vector);
        assert(exp >> (64 - k) as u64 == 0u64);
        vstd::arithmetic::div_mod::lemma_small_mod(1, fr_modulus() as nat);
    }
    while k < 64
        invariant
            k <= 64,
            base.wf(),
            res.wf(),
            res.value() == pow(base.value(), (exp >> (64 - k) as u64) as nat) % fr_modulus(),
        decreases 64 - k,
    {
        let i: u32 = 63 - k;
        let ghost h = exp >> (64 - k) as u64;
        let bit = (exp >> i) & 1;
        proof {
            let ii = i as u64;
            let jj = (64 - k) as u64;
            assert(exp >> ii == (((exp >> jj) * 2) + ((exp >> ii) & 1)) as u64) by (bit_vector)
                requires ii < 64, jj == ii + 1;
            assert((exp >> ii) & 1 <= 1) by (bit_vector);
            assert(exp >> jj < 0x8000_0000_0000_0000) by (bit_vector)
                requires ii < 64, jj == ii + 1;
            assert((exp >> ii) as nat == 2 * (h as nat) + bit as nat);
            lemma_square_step(base.value(), h as nat, bit as nat, res.value());
        }
        res = fr_mul(&res, &res);
        if bit == 1 {
            res = fr_mul(&res, base);
        }
        k = k + 1;
    }
    proof {
        assert(exp >> 0u64 == exp) by (bit_vector);
    }
    res
}

} // verus!
