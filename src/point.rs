//! Points of the BN254 group G1 in projective coordinates, held as canonical
//! limbs of the base field.
use vstd::prelude::*;
use crate::field::{limbs_value, Scalar};
use ark_ff::PrimeField;

verus! {

/// The order of the BN254 base field.
pub open spec fn fq_modulus() -> int {
    limbs_value([0x3c208c16d87cfd47u64, 0x97816a916871ca8du64, 0xb85045b68181585du64, 0x30644e72e131a029u64])
}

/// Projective coordinates `(X, Y, Z)` as integers.
pub type Coords = (int, int, int);

/// What arkworks' projective addition on G1 returns for two points.
pub uninterp spec fn g1_add(p: Coords, q: Coords) -> Coords;

/// What arkworks' projective subtraction on G1 returns for two points.
pub uninterp spec fn g1_sub(p: Coords, q: Coords) -> Coords;

/// What arkworks' scalar multiplication on G1 returns for a point and the
/// scalar of integer value `k`.
pub uninterp spec fn g1_scale(p: Coords, k: int) -> Coords;

/// A point of G1 in projective coordinates over the base field.
#[derive(Clone, Copy, Debug, PartialEq, Eq)]
pub struct Point {
    pub x: [u64; 4],
    pub y: [u64; 4],
    pub z: [u64; 4],
}

impl Point {
    /// The coordinates as integers.
    pub open spec fn view(&self) -> Coords {
        (limbs_value(self.x), limbs_value(self.y), limbs_value(self.z))
    }

    /// Every coordinate is a reduced residue of the base field.
    pub open spec fn wf(&self) -> bool {
        limbs_value(self.x) < fq_modulus() && limbs_value(self.y) < fq_modulus()
            && limbs_value(self.z) < fq_modulus()
    }

    /// The point at infinity, as arkworks writes it: `(1, 1, 0)`.
    pub fn identity() -> (r: Point)
        ensures
            r.wf(),
            r.view() == (1int, 1int, 0int),
    {
        Point { x: [1u64, 0u64, 0u64, 0u64], y: [1u64, 0u64, 0u64, 0u64], z: [0u64, 0u64, 0u64, 0u64] }
    }
}

/// Relies on `Projective::add` of ark-ec for BN254's G1, whose result depends
/// on the two inputs' coordinates alone and whose coordinates are canonical.
#[verifier::external_body]
pub(crate) fn point_add(p: &Point, q: &Point) -> (r: Point)
    requires
        p.wf(),
        q.wf(),
    ensures
        r.wf(),
        r.view() == g1_add(p.view(), q.view()),
{
    let f = |l: [u64; 4]| ark_bn254::Fq::from_bigint(ark_ff::BigInt::new(l)).unwrap();
    let a = ark_bn254::G1Projective::new_unchecked(f(p.x), f(p.y), f(p.z));
    let b = ark_bn254::G1Projective::new_unchecked(f(q.x), f(q.y), f(q.z));
    let c = a + b;
    Point { x: c.x.into_bigint().0, y: c.y.into_bigint().0, z: c.z.into_bigint().0 }
}

/// Relies on `Projective::sub` of ark-ec for BN254's G1, whose result depends
/// on the two inputs' coordinates alone and whose coordinates are canonical.
#[verifier::external_body]
pub(crate) fn point_sub(p: &Point, q: &Point) -> (r: Point)
    requires
        p.wf(),
        q.wf(),
    ensures
        r.wf(),
        r.view() == g1_sub(p.view(), q.view()),
{
    let f = |l: [u64; 4]| ark_bn254::Fq::from_bigint(ark_ff::BigInt::new(l)).unwrap();
    let a = ark_bn254::G1Projective::new_unchecked(f(p.x), f(p.y), f(p.z));
    let b = ark_bn254::G1Projective::new_unchecked(f(q.x), f(q.y), f(q.z));
    let c = a - b;
    Point { x: c.x.into_bigint().0, y: c.y.into_bigint().0, z: c.z.into_bigint().0 }
}

/// Relies on `Projective::mul` by a scalar field element of ark-ec for
/// BN254's G1, whose result depends on the point's coordinates and the
/// scalar's value alone and whose coordinates are canonical.
#[verifier::external_body]
pub(crate) fn point_scale(p: &Point, k: &Scalar) -> (r: Point)
    requires
        p.wf(),
        k.wf(),
    ensures
        r.wf(),
        r.view() == g1_scale(p.view(), k.value()),
{
    let f = |l: [u64; 4]| ark_bn254::Fq::from_bigint(ark_ff::BigInt::new(l)).unwrap();
    let a = ark_bn254::G1Projective::new_unchecked(f(p.x), f(p.y), f(p.z));
    let s = ark_bn254::Fr::from_bigint(ark_ff::BigInt::new(k.limbs)).unwrap();
    let c = a * s;
    Point { x: c.x.into_bigint().0, y: c.y.into_bigint().0, z: c.z.into_bigint().0 }
}

} // verus!
