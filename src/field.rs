use ark_bls12_381::Fr;
use ark_ff::{BigInteger256, Field, PrimeField};
use vstd::arithmetic::div_mod::*;
use vstd::prelude::*;

verus! {

/// The order of the BLS12-381 scalar field.
pub open spec fn field_order() -> int {
    limbs_value(seq![0xffffffff00000001u64, 0x53bda402fffe5bfeu64, 0x3339d80809a1d805u64, 0x73eda753299d7d48u64])
}

/// The weight of one limb.
pub open spec fn limb_base() -> int {
    0x1_0000_0000_0000_0000
}

/// The integer written by four little-endian 64-bit limbs.
pub open spec fn limbs_value(l: Seq<u64>) -> int {
    l[0] + limb_base() * (l[1] + limb_base() * (l[2] + limb_base() * l[3]))
}

/// An element of the scalar field, held as its canonical integer in four limbs.
#[derive(Clone, Copy, Debug)]
pub struct Scalar {
    pub limbs: [u64; 4],
}

/// The values of a sequence of scalars.
pub open spec fn vals(v: Seq<Scalar>) -> Seq<int> {
    v.map_values(|s: Scalar| s.val())
}

/// Every scalar of the sequence is canonical.
pub open spec fn all_wf(v: Seq<Scalar>) -> bool {
    forall|i: int| 0 <= i < v.len() ==> #[trigger] v[i].wf()
}

/// The field inverse of `a`, where one exists.
pub open spec fn field_inv(a: int) -> int {
    choose|r: int| 0 <= r < field_order() && #[trigger] ((a * r) % field_order()) == 1
}

impl Scalar {
    pub open spec fn val(&self) -> int {
        limbs_value(self.limbs@)
    }

    /// The limbs hold a value below the field order.
    pub open spec fn wf(&self) -> bool {
        self.val() < field_order()
    }

    pub fn zero() -> (r: Scalar)
        ensures
            r.wf(),
            r.val() == 0,
    {
        Scalar { limbs: [0u64, 0u64, 0u64, 0u64] }
    }

    pub fn from_u64(v: u64) -> (r: Scalar)
        ensures
            r.wf(),
            r.val() == v,
    {
        Scalar { limbs: [v, 0u64, 0u64, 0u64] }
    }

    /// The scalar with the given limbs, if they hold a canonical value.
    pub fn from_limbs(l: [u64; 4]) -> (r: Option<Scalar>)
        ensures
            r is Some <==> limbs_value(l@) < field_order(),
            r is Some ==> r->Some_0.limbs == l && r->Some_0.wf(),
    {
        // compare with the modulus limbs, most significant first
        let m3: u64 = 0x73eda753299d7d48;
        let m2: u64 = 0x3339d80809a1d805;
        let m1: u64 = 0x53bda402fffe5bfe;
        let m0: u64 = 0xffffffff00000001;
        let below = if l[3] != m3 {
            l[3] < m3
        } else if l[2] != m2 {
            l[2] < m2
        } else if l[1] != m1 {
            l[1] < m1
        } else {
            l[0] < m0
        };
        if below {
            Some(Scalar { limbs: l })
        } else {
            None
        }
    }

    pub fn is_zero(&self) -> (r: bool)
        ensures
            r <==> self.val() == 0,
    {
        self.limbs[0] == 0 && self.limbs[1] == 0 && self.limbs[2] == 0 && self.limbs[3] == 0
    }
}

/// Relies on `Add` of ark-ff's `Fr`: the sum modulo the field order.
#[verifier::external_body]
pub(crate) fn fr_add(a: &Scalar, b: &Scalar) -> (r: Scalar)
    requires
        a.wf(),
        b.wf(),
    ensures
        r.wf(),
        r.val() == (a.val() + b.val()) % field_order(),
{
    let x = Fr::from_repr(BigInteger256::new(a.limbs)).unwrap();
    let y = Fr::from_repr(BigInteger256::new(b.limbs)).unwrap();
    Scalar { limbs: (x + y).into_repr().0 }
}

/// Relies on `Sub` of ark-ff's `Fr`: the difference modulo the field order.
#[verifier::external_body]
pub(crate) fn fr_sub(a: &Scalar, b: &Scalar) -> (r: Scalar)
    requires
        a.wf(),
        b.wf(),
    ensures
        r.wf(),
        r.val() == (a.val() - b.val()) % field_order(),
{
    let x = Fr::from_repr(BigInteger256::new(a.limbs)).unwrap();
    let y = Fr::from_repr(BigInteger256::new(b.limbs)).unwrap();
    Scalar { limbs: (x - y).into_repr().0 }
}

/// Relies on `Mul` of ark-ff's `Fr`: the product modulo the field order.
#[verifier::external_body]
pub(crate) fn fr_mul(a: &Scalar, b: &Scalar) -> (r: Scalar)
    requires
        a.wf(),
        b.wf(),
    ensures
        r.wf(),
        r.val() == (a.val() * b.val()) % field_order(),
{
    let x = Fr::from_repr(BigInteger256::new(a.limbs)).unwrap();
    let y = Fr::from_repr(BigInteger256::new(b.limbs)).unwrap();
    Scalar { limbs: (x * y).into_repr().0 }
}

/// Relies on `Field::inverse` of ark-ff's `Fr`: none for zero, else the
/// element whose product with `a` is one.
#[verifier::external_body]
pub(crate) fn fr_inverse(a: &Scalar) -> (r: Option<Scalar>)
    requires
        a.wf(),
    ensures
        r is None <==> a.val() == 0,
        r is Some ==> r->Some_0.wf() && (a.val() * r->Some_0.val()) % field_order() == 1,
{
    let x = Fr::from_repr(BigInteger256::new(a.limbs)).unwrap();
    x.inverse().map(|y| Scalar { limbs: y.into_repr().0 })
}

/// Two inverses of one value agree.
pub proof fn lemma_inverse_unique(a: int, r: int, s: int)
    requires
        0 <= r < field_order(),
        0 <= s < field_order(),
        (a * r) % field_order() == 1,
        (a * s) % field_order() == 1,
    ensures
        r == s,
{
    let p = field_order();
    // r == r * (a * s) == (r * a) * s == s, modulo p
    lemma_mul_mod_noop_right(r, a * s, p);
    lemma_mul_mod_noop_left(r * a, s, p);
    assert(r * (a * s) == (a * r) * s) by (nonlinear_arith);
    lemma_small_mod(r as nat, p as nat);
    lemma_small_mod(s as nat, p as nat);
}

/// The spec inverse is the one a computed inverse gives.
pub proof fn lemma_field_inv(a: int, r: int)
    requires
        0 <= r < field_order(),
        (a * r) % field_order() == 1,
    ensures
        field_inv(a) == r,
{
    let s = field_inv(a);
    assert(0 <= s < field_order() && (a * s) % field_order() == 1);
    lemma_inverse_unique(a, r, s);
}

} // verus!
