//! Plain values for the two fields of BLS12-381.
//!
//! A field element is kept as the integer below the modulus that stands for
//! it, in 64-bit limbs with the least significant limb first.

use ark_bls12_381::Fr;
use ark_ff::{BigInt, Field, PrimeField};
use vstd::prelude::*;
use vstd::std_specs::cmp::PartialEqSpecImpl;

verus! {

/// The order of the scalar field.
pub open spec fn scalar_modulus() -> nat {
    0x73eda753299d7d483339d80809a1d80553bda402fffe5bfeffffffff00000001nat
}

/// The order of the base field, over which the curve is defined.
pub open spec fn base_modulus() -> nat {
    0x1a0111ea397fe69a4b1ba7b6434bacd764774b84f38512bf6730d2a0f6b0f6241eabfffeb153ffffb9feffffffffaaabnat
}

/// The sum of two elements of the scalar field.
pub open spec fn field_add(a: nat, b: nat) -> nat {
    (a + b) % scalar_modulus()
}

/// The difference of two elements of the scalar field.
pub open spec fn field_sub(a: nat, b: nat) -> nat {
    ((a + scalar_modulus() - b) % (scalar_modulus() as int)) as nat
}

/// The product of two elements of the scalar field.
pub open spec fn field_mul(a: nat, b: nat) -> nat {
    (a * b) % scalar_modulus()
}

/// The element whose product with `a` is one; there is one where `a` is
/// not zero.
pub open spec fn field_inv(a: nat) -> nat {
    choose|b: nat| b < scalar_modulus() && field_mul(a, b) == 1
}

/// The integer that four limbs stand for.
pub open spec fn limbs4_value(l: [u64; 4]) -> nat {
    (l[0] as nat) + (l[1] as nat) * 0x1_0000_0000_0000_0000nat + (l[2] as nat)
        * 0x1_0000_0000_0000_0000_0000_0000_0000_0000nat + (l[3] as nat)
        * 0x1_0000_0000_0000_0000_0000_0000_0000_0000_0000_0000_0000_0000nat
}

/// The integer that six limbs stand for.
pub open spec fn limbs6_value(l: [u64; 6]) -> nat {
    (l[0] as nat) + (l[1] as nat) * 0x1_0000_0000_0000_0000nat + (l[2] as nat)
        * 0x1_0000_0000_0000_0000_0000_0000_0000_0000nat + (l[3] as nat)
        * 0x1_0000_0000_0000_0000_0000_0000_0000_0000_0000_0000_0000_0000nat + (l[4] as nat)
        * 0x1_0000_0000_0000_0000_0000_0000_0000_0000_0000_0000_0000_0000_0000_0000_0000_0000nat
        + (l[5] as nat)
        * 0x1_0000_0000_0000_0000_0000_0000_0000_0000_0000_0000_0000_0000_0000_0000_0000_0000_0000_0000_0000_0000nat
}

/// Whether four limbs stand for an integer below the scalar field's order.
pub fn below_scalar_modulus(l: &[u64; 4]) -> (b: bool)
    ensures
        b == (limbs4_value(*l) < scalar_modulus()),
{
    if l[3] != 0x73eda753299d7d48 {
        l[3] < 0x73eda753299d7d48
    } else if l[2] != 0x3339d80809a1d805 {
        l[2] < 0x3339d80809a1d805
    } else if l[1] != 0x53bda402fffe5bfe {
        l[1] < 0x53bda402fffe5bfe
    } else {
        l[0] < 0xffffffff00000001
    }
}

/// Whether six limbs stand for an integer below the base field's order.
pub fn below_base_modulus(l: &[u64; 6]) -> (b: bool)
    ensures
        b == (limbs6_value(*l) < base_modulus()),
{
    if l[5] != 0x1a0111ea397fe69a {
        l[5] < 0x1a0111ea397fe69a
    } else if l[4] != 0x4b1ba7b6434bacd7 {
        l[4] < 0x4b1ba7b6434bacd7
    } else if l[3] != 0x64774b84f38512bf {
        l[3] < 0x64774b84f38512bf
    } else if l[2] != 0x6730d2a0f6b0f624 {
        l[2] < 0x6730d2a0f6b0f624
    } else if l[1] != 0x1eabfffeb153ffff {
        l[1] < 0x1eabfffeb153ffff
    } else {
        l[0] < 0xb9feffffffffaaab
    }
}

/// Limbs that stand for the same integer are the same limbs.
pub proof fn lemma_limbs4_injective(a: [u64; 4], b: [u64; 4])
    requires
        limbs4_value(a) == limbs4_value(b),
    ensures
        a == b,
{
    assert(a[0] == b[0] && a[1] == b[1] && a[2] == b[2] && a[3] == b[3]);
    assert(a@ =~= b@);
}

/// An element of the scalar field.
#[derive(Clone, Copy, Debug)]
pub struct Scalar {
    pub(crate) limbs: [u64; 4],
}

impl View for Scalar {
    type V = nat;

    /// The integer below the field's order that stands for the element.
    closed spec fn view(&self) -> nat {
        limbs4_value(self.limbs)
    }
}

impl DeepView for Scalar {
    type V = nat;

    open spec fn deep_view(&self) -> nat {
        self@
    }
}

impl Scalar {
    #[verifier::type_invariant]
    pub closed spec fn canonical(self) -> bool {
        limbs4_value(self.limbs) < scalar_modulus()
    }

    /// The element that `value` stands for.
    pub fn from_u64(value: u64) -> (r: Scalar)
        ensures
            r@ == value,
    {
        Scalar { limbs: [value, 0, 0, 0] }
    }

    /// The element that the limbs stand for, if they are below the order.
    pub fn from_limbs(limbs: [u64; 4]) -> (r: Option<Scalar>)
        ensures
            match r {
                Some(s) => s@ == limbs4_value(limbs) && limbs4_value(limbs) < scalar_modulus(),
                None => limbs4_value(limbs) >= scalar_modulus(),
            },
    {
        if below_scalar_modulus(&limbs) {
            Some(Scalar { limbs })
        } else {
            None
        }
    }

    /// The sum of two elements. Calls the addition of ark-ff's prime field,
    /// which adds modulo the order.
    #[verifier::external_body]
    pub(crate) fn plus(&self, other: &Scalar) -> (r: Scalar)
        ensures
            r@ == field_add(self@, other@),
    {
        let sum = Fr::from(BigInt::new(self.limbs)) + Fr::from(BigInt::new(other.limbs));
        Scalar { limbs: sum.into_bigint().0 }
    }

    /// The difference of two elements. Calls the subtraction of ark-ff's
    /// prime field, which subtracts modulo the order.
    #[verifier::external_body]
    pub(crate) fn minus(&self, other: &Scalar) -> (r: Scalar)
        ensures
            r@ == field_sub(self@, other@),
    {
        let difference = Fr::from(BigInt::new(self.limbs)) - Fr::from(BigInt::new(other.limbs));
        Scalar { limbs: difference.into_bigint().0 }
    }

    /// The product of two elements. Calls the multiplication of ark-ff's
    /// prime field, which multiplies modulo the order.
    #[verifier::external_body]
    pub(crate) fn times(&self, other: &Scalar) -> (r: Scalar)
        ensures
            r@ == field_mul(self@, other@),
    {
        let product = Fr::from(BigInt::new(self.limbs)) * Fr::from(BigInt::new(other.limbs));
        Scalar { limbs: product.into_bigint().0 }
    }

    /// The inverse of an element. Calls `Field::inverse` of ark-ff, which
    /// gives none for zero and else the element whose product with this one
    /// is one.
    #[verifier::external_body]
    pub(crate) fn inverse(&self) -> (r: Option<Scalar>)
        ensures
            r is None <==> self@ == 0,
            r is Some ==> r->0@ == field_inv(self@) && field_mul(self@, r->0@) == 1,
    {
        Fr::from(BigInt::new(self.limbs)).inverse().map(|f| Scalar { limbs: f.into_bigint().0 })
    }

    /// Whether this is the zero of the field.
    pub fn is_zero(&self) -> (b: bool)
        ensures
            b == (self@ == 0),
    {
        self.limbs[0] == 0 && self.limbs[1] == 0 && self.limbs[2] == 0 && self.limbs[3] == 0
    }

    /// The limbs of the element's integer.
    pub fn limbs(&self) -> (l: [u64; 4])
        ensures
            limbs4_value(l) == self@,
            self@ < scalar_modulus(),
    {
        proof {
            use_type_invariant(self);
        }
        self.limbs
    }
}

impl PartialEq for Scalar {
    fn eq(&self, other: &Scalar) -> (r: bool) {
        proof {
            if self@ == other@ {
                lemma_limbs4_injective(self.limbs, other.limbs);
            }
        }
        self.limbs[0] == other.limbs[0] && self.limbs[1] == other.limbs[1] && self.limbs[2]
            == other.limbs[2] && self.limbs[3] == other.limbs[3]
    }
}

impl PartialEqSpecImpl for Scalar {
    open spec fn obeys_eq_spec() -> bool {
        true
    }

    open spec fn eq_spec(&self, other: &Scalar) -> bool {
        self@ == other@
    }
}

} // verus!
