//! The polynomial-commitment backend: what the tree asks of the
//! `kzg-commitment` crate, on plain values.
//!
//! A vector of scalars is committed to through the polynomial that takes the
//! value at position `i` in the point `i`. The contracts in this file are
//! believed, not proved: each names the function it calls.

use crate::curve::{Commitment, Point};
use crate::field::Scalar;
use crate::lagrange::{distinct_positions, full_degree, indexed, interpolates};
use ark_bls12_381::{Fq, Fr, G1Affine};
use ark_ff::{BigInt, PrimeField};
use ark_poly::univariate::DensePolynomial;
use ark_poly::DenseUVPolynomial;
use kzg_commitment::KZGCommitment;
use vstd::prelude::*;

verus! {

/// The public parameters of the scheme: powers of a hidden point in both
/// groups of the pairing.
#[verifier::external_type_specification]
#[verifier::external_body]
pub struct ExKZGCommitment(KZGCommitment);

/// The number of powers that the parameters hold in each group.
pub uninterp spec fn setup_size(kzg: KZGCommitment) -> nat;

/// The coefficients, lowest first, that the backend gives for the polynomial
/// through the points `(i, values[i])`.
pub uninterp spec fn interpolation(values: Seq<nat>) -> Seq<nat>;

/// The commitment that the backend gives, with the parameters `kzg`, for
/// the polynomial with the given coefficients.
pub uninterp spec fn commitment_of(kzg: KZGCommitment, coeffs: Seq<nat>) -> Point;

/// The proof that the backend gives for the claim that the polynomial with
/// the given coefficients takes, in each position of `points`, the value
/// beside it; `None` where it refuses.
pub uninterp spec fn opening_of(kzg: KZGCommitment, coeffs: Seq<nat>, points: Seq<(usize, nat)>) -> Option<Point>;

/// Whether the backend accepts `proof` for the claim that the polynomial
/// committed to takes, in each position of `points`, the value beside it.
pub uninterp spec fn opening_accepted(kzg: KZGCommitment, commitment: Point, points: Seq<(usize, nat)>, proof: Point) -> bool;

/// The longest vector that the backend is asked to take: its products of
/// polynomials need a power of two above their length in the scalar field's
/// group of roots of unity, which has `2^32` elements.
pub const MAX_WIDTH: usize = 0x4000_0000;

/// Parameters with `degree` powers: enough to commit to `degree` values.
///
/// Calls `KZGCommitment::new`, which pushes one power per group for each
/// number below `degree`.
#[verifier::external_body]
pub(crate) fn setup(degree: usize) -> (kzg: KZGCommitment)
    ensures
        setup_size(kzg) == degree,
{
    KZGCommitment::new(degree)
}

/// The polynomial through the values of a vector.
///
/// Calls `KZGCommitment::vector_to_polynomial`, which interpolates through
/// the points `(i, values[i])` and so needs the positions, taken as `u32`, to
/// differ, and each point to be one that can be added. It sums one product
/// of `len - 1` linear factors per value, so the result has at most `len`
/// coefficients.
#[verifier::external_body]
pub(crate) fn vector_to_polynomial(values: &Vec<Scalar>) -> (coeffs: Vec<Scalar>)
    requires
        values.len() <= MAX_WIDTH,
        interpolates(indexed(values.deep_view())),
    ensures
        coeffs.deep_view() == interpolation(values.deep_view()),
        coeffs.len() <= values.len(),
{
    let field: Vec<Fr> = values.iter().map(|s| Fr::from(BigInt::new(s.limbs))).collect();
    let polynomial = KZGCommitment::vector_to_polynomial(&field);
    polynomial.coeffs.iter().map(|c| Scalar { limbs: c.into_bigint().0 }).collect()
}

/// The commitment to a polynomial.
///
/// Calls `KZGCommitment::commit_polynomial`, which multiplies the power at
/// each index by the coefficient there and so needs a power for each
/// coefficient.
#[verifier::external_body]
pub(crate) fn commit_polynomial(kzg: &KZGCommitment, coeffs: &Vec<Scalar>) -> (c: Commitment)
    requires
        coeffs.len() <= setup_size(*kzg),
    ensures
        c@ == commitment_of(*kzg, coeffs.deep_view()),
{
    let field: Vec<Fr> = coeffs.iter().map(|s| Fr::from(BigInt::new(s.limbs))).collect();
    let g = kzg.commit_polynomial(&DensePolynomial::from_coefficients_vec(field));
    Commitment { x: g.x.into_bigint().0, y: g.y.into_bigint().0, infinity: g.infinity }
}

/// The opening of a polynomial in some positions.
///
/// Calls `KZGCommitment::generate_proof`, which interpolates through the
/// points, so that their positions must differ and each must be one that can
/// be added, subtracts the result from the polynomial, for which it must be
/// zero or of full degree, divides the difference by the polynomial that
/// vanishes in the points and refuses where a remainder is left. The quotient
/// has no more coefficients than the polynomial, so it needs a power for each
/// of those.
#[verifier::external_body]
pub(crate) fn generate_proof(kzg: &KZGCommitment, coeffs: &Vec<Scalar>, points: &Vec<(usize, Scalar)>) -> (r: Option<Commitment>)
    requires
        coeffs.len() <= setup_size(*kzg),
        points.len() <= MAX_WIDTH,
        distinct_positions(points.deep_view()),
        interpolates(points.deep_view()),
        full_degree(points.deep_view()),
    ensures
        r.deep_view() == opening_of(*kzg, coeffs.deep_view(), points.deep_view()),
{
    let field: Vec<Fr> = coeffs.iter().map(|s| Fr::from(BigInt::new(s.limbs))).collect();
    let at: Vec<(Fr, Fr)> = points.iter().map(|p| (Fr::from(p.0 as u64), Fr::from(BigInt::new(p.1.limbs)))).collect();
    match kzg.generate_proof(&DensePolynomial::from_coefficients_vec(field), &at) {
        Ok(g) => Some(Commitment { x: g.x.into_bigint().0, y: g.y.into_bigint().0, infinity: g.infinity }),
        Err(_) => None,
    }
}

/// Whether an opening is accepted.
///
/// Calls `KZGCommitment::verify_proof`, which interpolates through the
/// points, so that their positions must differ and each must be one that can
/// be added, and evaluates the polynomial that vanishes in them at the powers
/// of the second group, so that it needs one power more than there are
/// points.
#[verifier::external_body]
pub(crate) fn verify_proof(kzg: &KZGCommitment, commitment: &Commitment, points: &Vec<(usize, Scalar)>, proof: &Commitment) -> (ok: bool)
    requires
        points.len() < setup_size(*kzg),
        points.len() <= MAX_WIDTH,
        distinct_positions(points.deep_view()),
        interpolates(points.deep_view()),
    ensures
        ok == opening_accepted(*kzg, commitment@, points.deep_view(), proof@),
{
    let at: Vec<(Fr, Fr)> = points.iter().map(|p| (Fr::from(p.0 as u64), Fr::from(BigInt::new(p.1.limbs)))).collect();
    let c = G1Affine { x: Fq::from(BigInt::new(commitment.x)), y: Fq::from(BigInt::new(commitment.y)), infinity: commitment.infinity };
    let pi = G1Affine { x: Fq::from(BigInt::new(proof.x)), y: Fq::from(BigInt::new(proof.y)), infinity: proof.infinity };
    kzg.verify_proof(&c, &at, &pi)
}

} // verus!
