//! Plain values for the points of the group in which commitments and opening
//! proofs lie: the prime-order subgroup of the curve `y^2 = x^3 + 4` over the
//! base field of BLS12-381.

use crate::field::{base_modulus, below_base_modulus, limbs6_value, scalar_modulus, Scalar};
use ark_bls12_381::{Fq, G1Affine};
use ark_ec::short_weierstrass::SWCurveConfig;
use ark_ff::{BigInt, PrimeField};
use num_bigint::BigUint;
use vstd::prelude::*;
use vstd::std_specs::cmp::PartialEqSpecImpl;

verus! {

/// A pair of coordinates, or the point at infinity.
pub struct Point {
    pub x: nat,
    pub y: nat,
    pub infinity: bool,
}

/// The point at infinity, or a pair that solves the curve's equation.
pub open spec fn on_curve(p: Point) -> bool {
    p.infinity || (p.y * p.y) % base_modulus() == (p.x * p.x * p.x + 4) % base_modulus()
}

/// Whether a point of the curve lies in its subgroup of prime order.
pub uninterp spec fn in_prime_subgroup(p: Point) -> bool;

/// The scalar that stands for a point in the vector its parent commits to:
/// the sum of its two coordinates in the base field, reduced into the scalar
/// field.
pub open spec fn encoding(p: Point) -> nat {
    ((p.x + p.y) % base_modulus()) % scalar_modulus()
}

/// An element of the group: a commitment, or an opening proof.
#[derive(Clone, Copy, Debug)]
pub struct Commitment {
    pub(crate) x: [u64; 6],
    pub(crate) y: [u64; 6],
    pub(crate) infinity: bool,
}

impl View for Commitment {
    type V = Point;

    closed spec fn view(&self) -> Point {
        Point { x: limbs6_value(self.x), y: limbs6_value(self.y), infinity: self.infinity }
    }
}

impl DeepView for Commitment {
    type V = Point;

    open spec fn deep_view(&self) -> Point {
        self@
    }
}

/// Whether the coordinates solve the curve's equation.
///
/// Calls `Affine::is_on_curve` of ark-ec, which squares `y`, cubes `x`, adds
/// the curve's constant 4 and compares, and takes the point at infinity as on
/// the curve.
#[verifier::external_body]
fn point_on_curve(x: &[u64; 6], y: &[u64; 6], infinity: bool) -> (b: bool)
    requires
        limbs6_value(*x) < base_modulus(),
        limbs6_value(*y) < base_modulus(),
    ensures
        b == on_curve(Point { x: limbs6_value(*x), y: limbs6_value(*y), infinity }),
{
    let p = G1Affine { x: Fq::from(BigInt::new(*x)), y: Fq::from(BigInt::new(*y)), infinity };
    p.is_on_curve()
}

/// Whether a point of the curve lies in the subgroup of prime order.
///
/// Calls `is_in_correct_subgroup_assuming_on_curve` of ark-bls12-381's
/// configuration of the group.
#[verifier::external_body]
fn point_in_subgroup(x: &[u64; 6], y: &[u64; 6], infinity: bool) -> (b: bool)
    requires
        limbs6_value(*x) < base_modulus(),
        limbs6_value(*y) < base_modulus(),
        on_curve(Point { x: limbs6_value(*x), y: limbs6_value(*y), infinity }),
    ensures
        b == in_prime_subgroup(Point { x: limbs6_value(*x), y: limbs6_value(*y), infinity }),
{
    let p = G1Affine { x: Fq::from(BigInt::new(*x)), y: Fq::from(BigInt::new(*y)), infinity };
    ark_bls12_381::g1::Config::is_in_correct_subgroup_assuming_on_curve(&p)
}

/// The sum of two elements of the base field.
///
/// Calls the addition of ark-ff's prime field, which adds modulo the order,
/// and takes the sum's integer with `into_bigint`.
#[verifier::external_body]
fn base_sum(x: &[u64; 6], y: &[u64; 6]) -> (sum: [u64; 6])
    requires
        limbs6_value(*x) < base_modulus(),
        limbs6_value(*y) < base_modulus(),
    ensures
        limbs6_value(sum) == (limbs6_value(*x) + limbs6_value(*y)) % base_modulus(),
{
    (Fq::from(BigInt::new(*x)) + Fq::from(BigInt::new(*y))).into_bigint().0
}

/// The element of the scalar field that an integer of six limbs stands for.
///
/// Calls `from_le_bytes_mod_order` of ark-ff, which reduces the integer
/// with the given bytes, least significant first, modulo the order.
#[verifier::external_body]
fn reduce_to_scalar(value: &[u64; 6]) -> (r: Scalar)
    ensures
        r@ == limbs6_value(*value) % scalar_modulus(),
{
    let wide: BigUint = BigInt::new(*value).into();
    let reduced = ark_bls12_381::Fr::from_le_bytes_mod_order(&wide.to_bytes_le());
    Scalar { limbs: reduced.into_bigint().0 }
}

/// The scalar that stands for a commitment: the sum of its coordinates in
/// the base field, reduced into the scalar field.
pub fn map_commitment_to_field(c: &Commitment) -> (r: Scalar)
    ensures
        r@ == encoding(c@),
{
    proof {
        use_type_invariant(c);
    }
    let sum = base_sum(&c.x, &c.y);
    reduce_to_scalar(&sum)
}

impl Commitment {
    #[verifier::type_invariant]
    pub closed spec fn is_group_element(self) -> bool {
        &&& limbs6_value(self.x) < base_modulus()
        &&& limbs6_value(self.y) < base_modulus()
        &&& on_curve(self@)
        &&& in_prime_subgroup(self@)
    }

    /// The group element with the given coordinates, each as the limbs of an
    /// integer below the base field's order, if there is one.
    pub fn from_limbs(x: [u64; 6], y: [u64; 6], infinity: bool) -> (r: Option<Commitment>)
        ensures
            r is Some <==> {
                &&& limbs6_value(x) < base_modulus()
                &&& limbs6_value(y) < base_modulus()
                &&& on_curve(Point { x: limbs6_value(x), y: limbs6_value(y), infinity })
                &&& in_prime_subgroup(Point { x: limbs6_value(x), y: limbs6_value(y), infinity })
            },
            r is Some ==> r->0@ == (Point { x: limbs6_value(x), y: limbs6_value(y), infinity }),
    {
        if !below_base_modulus(&x) || !below_base_modulus(&y) {
            return None;
        }
        if !point_on_curve(&x, &y, infinity) {
            return None;
        }
        if !point_in_subgroup(&x, &y, infinity) {
            return None;
        }
        Some(Commitment { x, y, infinity })
    }

    /// The limbs of the first coordinate.
    pub fn x_limbs(&self) -> (l: [u64; 6])
        ensures
            limbs6_value(l) == self@.x,
    {
        self.x
    }

    /// The limbs of the second coordinate.
    pub fn y_limbs(&self) -> (l: [u64; 6])
        ensures
            limbs6_value(l) == self@.y,
    {
        self.y
    }

    /// Whether this is the point at infinity.
    pub fn is_infinity(&self) -> (b: bool)
        ensures
            b == self@.infinity,
    {
        self.infinity
    }
}

/// A number below `2^64` and a multiple of `2^64` above it are both
/// determined by their sum.
proof fn lemma_split_limb(lo_a: int, hi_a: int, lo_b: int, hi_b: int)
    requires
        0 <= lo_a < 0x1_0000_0000_0000_0000,
        0 <= lo_b < 0x1_0000_0000_0000_0000,
        lo_a + 0x1_0000_0000_0000_0000 * hi_a == lo_b + 0x1_0000_0000_0000_0000 * hi_b,
    ensures
        lo_a == lo_b,
        hi_a == hi_b,
{
}

/// Limbs that stand for the same integer are the same limbs.
pub proof fn lemma_limbs6_injective(a: [u64; 6], b: [u64; 6])
    requires
        limbs6_value(a) == limbs6_value(b),
    ensures
        a == b,
{
    let base = 0x1_0000_0000_0000_0000int;
    let a4 = a[4] + base * a[5];
    let a3 = a[3] + base * a4;
    let a2 = a[2] + base * a3;
    let a1 = a[1] + base * a2;
    let b4 = b[4] + base * b[5];
    let b3 = b[3] + base * b4;
    let b2 = b[2] + base * b3;
    let b1 = b[1] + base * b2;
    assert(limbs6_value(a) == a[0] + base * a1);
    assert(limbs6_value(b) == b[0] + base * b1);
    lemma_split_limb(a[0] as int, a1, b[0] as int, b1);
    lemma_split_limb(a[1] as int, a2, b[1] as int, b2);
    lemma_split_limb(a[2] as int, a3, b[2] as int, b3);
    lemma_split_limb(a[3] as int, a4, b[3] as int, b4);
    lemma_split_limb(a[4] as int, a[5] as int, b[4] as int, b[5] as int);
    assert(a@ =~= b@);
}

fn same_limbs(a: &[u64; 6], b: &[u64; 6]) -> (r: bool)
    ensures
        r == (limbs6_value(*a) == limbs6_value(*b)),
{
    proof {
        if limbs6_value(*a) == limbs6_value(*b) {
            lemma_limbs6_injective(*a, *b);
        }
    }
    a[0] == b[0] && a[1] == b[1] && a[2] == b[2] && a[3] == b[3] && a[4] == b[4] && a[5] == b[5]
}

impl PartialEq for Commitment {
    fn eq(&self, other: &Commitment) -> (r: bool) {
        same_limbs(&self.x, &other.x) && same_limbs(&self.y, &other.y) && self.infinity
            == other.infinity
    }
}

impl PartialEqSpecImpl for Commitment {
    open spec fn obeys_eq_spec() -> bool {
        true
    }

    open spec fn eq_spec(&self, other: &Commitment) -> bool {
        self@ == other@
    }
}

} // verus!
