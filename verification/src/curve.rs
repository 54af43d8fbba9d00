use vstd::prelude::*;

use crate::scalar::Scalar;

verus! {

// The outside curve types are held in opaque wrappers: the verifier sees
// nothing inside a point, and everything it believes about one comes from
// the contracts of the trusted functions below.
/// An affine BLS12-381 G1 point.
#[verifier::external_body]
pub struct G1AffinePoint {
    pub p: ark_bls12_381::G1Affine,
}

/// A projective BLS12-381 G1 point.
#[verifier::external_body]
pub struct G1ProjectivePoint {
    pub p: ark_bls12_381::G1Projective,
}

impl Clone for G1AffinePoint {
    /// Relies on `Copy` for `ark` affine points: the clone is the same value.
    #[verifier::external_body]
    fn clone(&self) -> (r: Self)
        ensures
            r == *self,
    {
        G1AffinePoint { p: self.p }
    }
}

impl Clone for G1ProjectivePoint {
    /// Relies on `Copy` for `ark` projective points: the clone is the same value.
    #[verifier::external_body]
    fn clone(&self) -> (r: Self)
        ensures
            r == *self,
    {
        G1ProjectivePoint { p: self.p }
    }
}

/// Order of the BLS12-381 G1 subgroup (the scalar field's modulus `r`).
pub open spec fn group_order() -> nat {
    0x73eda753299d7d483339d80809a1d80553bda402fffe5bfeffffffff00000001nat
}

/// Eigenvalue of the GLV endomorphism on G1: the endomorphism maps a
/// subgroup point of index `v` to the point of index `lambda * v mod r`.
pub open spec fn glv_lambda() -> nat {
    0x73eda753299d7d483339d80809a1d804a7780001fffcb7fcfffffffe00000001nat
}

/// Reduction into the group's index space.
pub open spec fn gmod(x: int) -> nat {
    (x % (group_order() as int)) as nat
}

/// Whether an affine point lies in the prime-order subgroup generated by the
/// standard G1 generator. Every point handed to the MSM driver must.
pub uninterp spec fn in_g1(p: G1AffinePoint) -> bool;

/// Whether a projective point lies in the prime-order subgroup.
pub uninterp spec fn in_g1_proj(p: G1ProjectivePoint) -> bool;

/// The index of an affine subgroup point: the unique `v` in `[0, r)` with
/// `p == v * G` for the standard generator `G`. A fixed function of the
/// point's value; meaningful only for subgroup points.
pub uninterp spec fn affine_index(p: G1AffinePoint) -> nat;

/// The index of a projective subgroup point, as for `affine_index`.
pub uninterp spec fn proj_index(p: G1ProjectivePoint) -> nat;

/// The signed contribution of a point: its index, negated when the sign tag
/// asks for the point's negation.
pub open spec fn signed_point(p: G1AffinePoint, negate: bool) -> int {
    if negate {
        -(affine_index(p) as int)
    } else {
        affine_index(p) as int
    }
}

/// Relies on `ark_ec::AdditiveGroup::ZERO` for `G1Projective`: the group
/// identity, the point of index 0.
#[verifier::external_body]
pub(crate) fn proj_zero() -> (r: G1ProjectivePoint)
    ensures
        in_g1_proj(r),
        proj_index(r) == 0,
{
    G1ProjectivePoint { p: <ark_bls12_381::G1Projective as ark_ec::AdditiveGroup>::ZERO }
}

/// Relies on `Add` for `G1Projective`: the group law, which adds indices
/// modulo the group order on the cyclic subgroup.
#[verifier::external_body]
pub(crate) fn proj_add(a: &G1ProjectivePoint, b: &G1ProjectivePoint) -> (r: G1ProjectivePoint)
    requires
        in_g1_proj(*a),
        in_g1_proj(*b),
    ensures
        in_g1_proj(r),
        proj_index(r) == gmod(proj_index(*a) + proj_index(*b) as int),
{
    G1ProjectivePoint { p: a.p + b.p }
}

/// Relies on `ark_ec::AdditiveGroup::double` for `G1Projective`: doubling
/// doubles the index modulo the group order.
#[verifier::external_body]
pub(crate) fn proj_double(a: &G1ProjectivePoint) -> (r: G1ProjectivePoint)
    requires
        in_g1_proj(*a),
    ensures
        in_g1_proj(r),
        proj_index(r) == gmod(2 * proj_index(*a) as int),
{
    G1ProjectivePoint { p: ark_ec::AdditiveGroup::double(&a.p) }
}

/// Relies on `Neg` for `G1Affine`: negation maps the point of index `v` to
/// the point of index `-v mod r`.
#[verifier::external_body]
pub(crate) fn affine_neg(p: &G1AffinePoint) -> (r: G1AffinePoint)
    requires
        in_g1(*p),
    ensures
        in_g1(r),
        affine_index(r) == gmod(-(affine_index(*p) as int)),
{
    G1AffinePoint { p: -p.p }
}

/// Relies on `AddAssign<&G1Affine>` for `G1Projective` (mixed addition):
/// adds `point` into `buckets[slot]`, leaving every other bucket unchanged.
#[verifier::external_body]
pub(crate) fn bucket_add_assign(
    buckets: &mut Vec<G1ProjectivePoint>,
    slot: usize,
    point: &G1AffinePoint,
)
    requires
        slot < old(buckets)@.len(),
        in_g1_proj(old(buckets)@[slot as int]),
        in_g1(*point),
    ensures
        final(buckets)@.len() == old(buckets)@.len(),
        forall|j: int|
            0 <= j < old(buckets)@.len() && j != slot ==> final(buckets)@[j] == old(buckets)@[j],
        in_g1_proj(final(buckets)@[slot as int]),
        proj_index(final(buckets)@[slot as int]) == gmod(
            proj_index(old(buckets)@[slot as int]) + affine_index(*point) as int,
        ),
{
    buckets[slot].p += &point.p;
}

/// Relies on `Index` for `Vec`: hands out a copy of one bucket.
#[verifier::external_body]
pub(crate) fn bucket_get(buckets: &Vec<G1ProjectivePoint>, slot: usize) -> (r: G1ProjectivePoint)
    requires
        slot < buckets@.len(),
    ensures
        r == buckets@[slot as int],
{
    G1ProjectivePoint { p: buckets[slot].p }
}

/// Relies on `Index` for `Vec`: hands out a copy of one input point.
#[verifier::external_body]
pub(crate) fn point_get(points: &Vec<G1AffinePoint>, i: usize) -> (r: G1AffinePoint)
    requires
        i < points@.len(),
    ensures
        r == points@[i as int],
{
    G1AffinePoint { p: points[i].p }
}

/// Relies on `GLVConfig::endomorphism_affine` for the BLS12-381 G1 curve:
/// the endomorphism multiplies a subgroup point's index by the eigenvalue.
#[verifier::external_body]
pub(crate) fn endomorphism_affine(p: &G1AffinePoint) -> (r: G1AffinePoint)
    requires
        in_g1(*p),
    ensures
        in_g1(r),
        affine_index(r) == gmod(glv_lambda() as int * affine_index(*p) as int),
{
    G1AffinePoint {
        p: <ark_bls12_381::g1::Config as ark_ec::scalar_mul::glv::GLVConfig>::endomorphism_affine(&p.p),
    }
}

/// Relies on `GLVConfig::scalar_decomposition` for the BLS12-381 G1 curve:
/// it splits a scalar `s` into `((sgn1, k1), (sgn2, k2))` with
/// `s = sgn1*k1 + lambda * sgn2*k2` modulo the group order (sign flags are
/// `true` for plus), and on `PrimeField::into_bigint`, whose result is the
/// canonical representative below the modulus. For `s` below the order, the
/// second rounding coefficient is zero and the first is at most the largest
/// lattice entry, so both component magnitudes stay below `2^128`. Returns
/// `(phi, normal, phi_negative, normal_negative)` with `phi = k2`,
/// `normal = k1`.
#[verifier::external_body]
pub(crate) fn decompose(s: &Scalar) -> (r: (Scalar, Scalar, bool, bool))
    requires
        s.value() < group_order(),
    ensures
        r.0.value() < group_order(),
        r.1.value() < group_order(),
        r.0.value() < vstd::arithmetic::power2::pow2(128),
        r.1.value() < vstd::arithmetic::power2::pow2(128),
        gmod(
            (if r.2 { -(r.0.value() as int) } else { r.0.value() as int }) * glv_lambda() + (if r.3 {
                -(r.1.value() as int)
            } else {
                r.1.value() as int
            }),
        ) == s.value(),
{
    let f: ark_bls12_381::Fr = ark_ff::PrimeField::from_bigint(ark_ff::BigInt(s.limbs)).unwrap();
    let ((s1, k1), (s2, k2)) = <ark_bls12_381::g1::Config as ark_ec::scalar_mul::glv::GLVConfig>::scalar_decomposition(f);
    let phi = Scalar { limbs: ark_ff::PrimeField::into_bigint(k2).0 };
    let normal = Scalar { limbs: ark_ff::PrimeField::into_bigint(k1).0 };
    (phi, normal, !s2, !s1)
}

} // verus!
