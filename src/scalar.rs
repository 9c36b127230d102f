//! Elements of the scalar field of BN254, held as four little-endian limbs.
//!
//! The arithmetic itself is done by `halo2curves::bn256::Fr`; each operation
//! used here is one trusted call whose contract states the result modulo `r`.
use vstd::prelude::*;
use halo2curves::bn256::Fr;
use halo2curves::ff::{Field, PrimeField};

verus! {

/// 2^64, the base of one limb.
pub open spec fn limb_base() -> int {
    18446744073709551616int
}

/// The order `r` of the scalar field of BN254.
pub open spec fn modulus() -> int {
    0x43e1f593f0000001int
        + 0x2833e84879b97091int * limb_base()
        + 0xb85045b68181585dint * limb_base() * limb_base()
        + 0x30644e72e131a029int * limb_base() * limb_base() * limb_base()
}

/// Field addition on canonical representatives.
pub open spec fn fadd(a: int, b: int) -> int {
    (a + b) % modulus()
}

/// Field subtraction on canonical representatives.
pub open spec fn fsub(a: int, b: int) -> int {
    (a - b) % modulus()
}

/// Field multiplication on canonical representatives.
pub open spec fn fmul(a: int, b: int) -> int {
    (a * b) % modulus()
}

/// Multiplication in the field commutes.
pub proof fn lemma_fmul_comm(a: int, b: int)
    ensures
        fmul(a, b) == fmul(b, a),
{
    assert(a * b == b * a) by (nonlinear_arith);
}

/// `x` raised to the natural power `e`, in the field.
pub open spec fn fpow(x: int, e: nat) -> int
    decreases e,
{
    if e == 0 {
        1
    } else {
        fmul(x, fpow(x, (e - 1) as nat))
    }
}

/// `2^e`.
pub open spec fn two_pow(e: nat) -> nat
    decreases e,
{
    if e == 0 {
        1
    } else {
        2 * two_pow((e - 1) as nat)
    }
}

/// The generator of the subgroup of order 2^28 that the field provides.
pub open spec fn two_adic_root() -> int {
    0xd34f1ed960c37c9cint
        + 0x3215cf6dd39329c8int * limb_base()
        + 0x98865ea93dd31f74int * limb_base() * limb_base()
        + 0x03ddb9f5166d18b7int * limb_base() * limb_base() * limb_base()
}

/// The largest `s` for which the field has a root of unity of order `2^s`.
pub const TWO_ADICITY: u32 = 28;

/// A field element as its canonical integer, in four little-endian 64-bit limbs.
#[derive(Clone, Copy, Debug, PartialEq, Eq, Structural)]
pub struct Scalar {
    l0: u64,
    l1: u64,
    l2: u64,
    l3: u64,
}

impl Scalar {
    /// The integer that the limbs spell.
    pub closed spec fn value(self) -> int {
        self.l0 as int + self.l1 as int * limb_base() + self.l2 as int * limb_base() * limb_base()
            + self.l3 as int * limb_base() * limb_base() * limb_base()
    }

    /// The limbs spell a canonical representative: one below `r`.
    pub open spec fn wf(self) -> bool {
        0 <= self.value() < modulus()
    }

    /// The element whose canonical integer is `v`.
    pub fn from_u64(v: u64) -> (r: Scalar)
        ensures
            r.wf(),
            r.value() == v as int,
    {
        Scalar { l0: v, l1: 0, l2: 0, l3: 0 }
    }

    /// Relies on `Add for Fr`: the sum modulo `r` (`from_raw` reads any limbs modulo `r`).
    #[verifier::external_body]
    pub fn add(&self, o: &Scalar) -> (r: Scalar)
        ensures
            r.wf(),
            r.value() == fadd(self.value(), o.value()),
    {
        let b = (Fr::from_raw([self.l0, self.l1, self.l2, self.l3]) + Fr::from_raw([o.l0, o.l1, o.l2, o.l3])).to_repr();
        Scalar {
            l0: u64::from_le_bytes(b[0..8].try_into().unwrap()),
            l1: u64::from_le_bytes(b[8..16].try_into().unwrap()),
            l2: u64::from_le_bytes(b[16..24].try_into().unwrap()),
            l3: u64::from_le_bytes(b[24..32].try_into().unwrap()),
        }
    }

    /// Relies on `Sub for Fr`: the difference modulo `r`.
    #[verifier::external_body]
    pub fn sub(&self, o: &Scalar) -> (r: Scalar)
        ensures
            r.wf(),
            r.value() == fsub(self.value(), o.value()),
    {
        let b = (Fr::from_raw([self.l0, self.l1, self.l2, self.l3]) - Fr::from_raw([o.l0, o.l1, o.l2, o.l3])).to_repr();
        Scalar {
            l0: u64::from_le_bytes(b[0..8].try_into().unwrap()),
            l1: u64::from_le_bytes(b[8..16].try_into().unwrap()),
            l2: u64::from_le_bytes(b[16..24].try_into().unwrap()),
            l3: u64::from_le_bytes(b[24..32].try_into().unwrap()),
        }
    }

    /// Relies on `Mul for Fr`: the product modulo `r`.
    #[verifier::external_body]
    pub fn mul(&self, o: &Scalar) -> (r: Scalar)
        ensures
            r.wf(),
            r.value() == fmul(self.value(), o.value()),
    {
        let b = (Fr::from_raw([self.l0, self.l1, self.l2, self.l3]) * Fr::from_raw([o.l0, o.l1, o.l2, o.l3])).to_repr();
        Scalar {
            l0: u64::from_le_bytes(b[0..8].try_into().unwrap()),
            l1: u64::from_le_bytes(b[8..16].try_into().unwrap()),
            l2: u64::from_le_bytes(b[16..24].try_into().unwrap()),
            l3: u64::from_le_bytes(b[24..32].try_into().unwrap()),
        }
    }

    /// Relies on `PrimeField::ROOT_OF_UNITY` of `Fr`: the multiplicative generator raised to
    /// `(r - 1) / 2^28`, so a root of unity of order exactly 2^28, whose 2^27-th power is `-1`.
    #[verifier::external_body]
    pub fn root_of_unity() -> (r: Scalar)
        ensures
            r.wf(),
            r.value() == two_adic_root(),
            fpow(r.value(), two_pow(27)) == modulus() - 1,
    {
        let b = <Fr as PrimeField>::ROOT_OF_UNITY.to_repr();
        Scalar {
            l0: u64::from_le_bytes(b[0..8].try_into().unwrap()),
            l1: u64::from_le_bytes(b[8..16].try_into().unwrap()),
            l2: u64::from_le_bytes(b[16..24].try_into().unwrap()),
            l3: u64::from_le_bytes(b[24..32].try_into().unwrap()),
        }
    }

    /// Relies on `Field::invert` of `Fr`: the inverse, absent exactly for zero.
    #[verifier::external_body]
    pub fn invert(&self) -> (r: Option<Scalar>)
        ensures
            r.is_some() <==> self.value() % modulus() != 0,
            r matches Some(i) ==> i.wf() && fmul(self.value(), i.value()) == 1,
    {
        let inv: Option<Fr> = Fr::from_raw([self.l0, self.l1, self.l2, self.l3]).invert().into();
        match inv {
            None => None,
            Some(x) => {
                let b = x.to_repr();
                Some(Scalar {
                    l0: u64::from_le_bytes(b[0..8].try_into().unwrap()),
                    l1: u64::from_le_bytes(b[8..16].try_into().unwrap()),
                    l2: u64::from_le_bytes(b[16..24].try_into().unwrap()),
                    l3: u64::from_le_bytes(b[24..32].try_into().unwrap()),
                })
            },
        }
    }
}

} // verus!
