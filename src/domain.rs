use crate::field::{all_wf, field_order, vals, Scalar};
use crate::poly::{coef, eval, mul_by_vanishing, mul_vanishing_spec};
use ark_bls12_381::Fr;
use ark_ff::{BigInteger256, PrimeField};
use ark_poly::{EvaluationDomain, GeneralEvaluationDomain};
use vstd::arithmetic::power::pow;
use vstd::prelude::*;

verus! {

/// The generator that ark-poly picks for the domain of size `n`.
pub uninterp spec fn domain_generator(n: nat) -> int;

/// The largest domain size: the two-adicity of the field is 32.
pub const MAX_DOMAIN_SIZE: u64 = 0x1_0000_0000;

pub open spec fn is_pow2(n: nat) -> bool
    decreases n,
{
    if n == 1 {
        true
    } else if n == 0 || n % 2 == 1 {
        false
    } else {
        is_pow2(n / 2)
    }
}

/// The values of `c` at the `n` points `g^0, g^1, ..., g^(n-1)`.
pub open spec fn forward_spec(g: int, n: nat, c: Seq<int>) -> Seq<int> {
    Seq::new(n, |i: int| eval(c, pow(g, i as nat)) % field_order())
}

/// `v` cut or padded with zeros to length `n`.
pub open spec fn pad(v: Seq<int>, n: nat) -> Seq<int> {
    Seq::new(n, |i: int| coef(v, i))
}

/// Field elements all of them.
pub open spec fn in_field(c: Seq<int>) -> bool {
    forall|i: int| 0 <= i < c.len() ==> 0 <= #[trigger] c[i] < field_order()
}

/// The coefficients of length `n` whose values on the domain are `v`.
pub open spec fn inverse_spec(g: int, n: nat, v: Seq<int>) -> Seq<int> {
    choose|c: Seq<int>| c.len() == n && in_field(c) && #[trigger] forward_spec(g, n, c) == v
}

/// A multiplicative subgroup of `size` roots of unity, generated by `gen`.
#[derive(Clone, Copy, Debug)]
pub struct Domain {
    pub size: usize,
    pub gen: Scalar,
}

impl Domain {
    pub open spec fn wf(&self) -> bool {
        &&& is_pow2(self.size as nat)
        &&& self.size <= MAX_DOMAIN_SIZE
        &&& self.size <= usize::MAX / 2
        &&& self.gen.wf()
        &&& self.gen.val() == domain_generator(self.size as nat)
        &&& pow(self.gen.val(), self.size as nat) % field_order() == 1
        &&& forall|i: nat| 0 < i < self.size ==> #[trigger] pow(self.gen.val(), i) % field_order() != 1
    }

    /// The smallest domain of at least `min` points; none above the largest
    /// size (or, where `usize` is narrow, above a quarter of its range).
    pub fn new(min: usize) -> (r: Option<Domain>)
        ensures
            r is Some <==> min <= MAX_DOMAIN_SIZE && min <= usize::MAX / 4,
            r is Some ==> r->Some_0.wf() && r->Some_0.size >= min
                && (r->Some_0.size == 1 || r->Some_0.size / 2 < min),
    {
        if min as u64 > MAX_DOMAIN_SIZE || min > usize::MAX / 4 {
            None
        } else {
            Some(domain_new(min))
        }
    }

    pub fn size(&self) -> (r: usize)
        ensures
            r == self.size,
    {
        self.size
    }

    /// The values on the domain of the polynomial with coefficients `c`;
    /// none where it has more coefficients than the domain has points.
    pub fn forward_transform(&self, c: &Vec<Scalar>) -> (r: Option<Vec<Scalar>>)
        requires
            self.wf(),
            all_wf(c@),
        ensures
            r is None <==> c@.len() > self.size,
            r is Some ==> all_wf(r->Some_0@) && vals(r->Some_0@) == forward_spec(self.gen.val(), self.size as nat, vals(c@)),
    {
        if c.len() > self.size {
            None
        } else {
            Some(domain_fft(self, c))
        }
    }

    /// The coefficients of length `size` whose values on the domain are `v`,
    /// padded with zeros; none where `v` is longer than the domain.
    pub fn inverse_transform(&self, v: &Vec<Scalar>) -> (r: Option<Vec<Scalar>>)
        requires
            self.wf(),
            all_wf(v@),
        ensures
            r is None <==> v@.len() > self.size,
            r is Some ==> all_wf(r->Some_0@) && r->Some_0@.len() == self.size
                && forward_spec(self.gen.val(), self.size as nat, vals(r->Some_0@)) == pad(vals(v@), self.size as nat)
                && vals(r->Some_0@) == inverse_spec(self.gen.val(), self.size as nat, pad(vals(v@), self.size as nat))
                && forall|c: Seq<int>| c.len() == self.size && in_field(c)
                    && #[trigger] forward_spec(self.gen.val(), self.size as nat, c) == pad(vals(v@), self.size as nat)
                    ==> c == vals(r->Some_0@),
    {
        if v.len() > self.size {
            None
        } else {
            Some(domain_ifft(self, v))
        }
    }

    /// The coefficients of the vanishing polynomial `x^size - 1`.
    pub fn vanishing_polynomial(&self) -> (r: Vec<Scalar>)
        requires
            self.wf(),
        ensures
            all_wf(r@),
            vals(r@) == mul_vanishing_spec(seq![1int], self.size as nat),
    {
        let one = vec![Scalar::from_u64(1)];
        assert(vals(one@) =~= seq![1int]);
        mul_by_vanishing(&one, self.size)
    }

    /// The vanishing polynomial `x^size - 1` at `x`.
    pub fn evaluate_vanishing(&self, x: &Scalar) -> (r: Scalar)
        requires
            self.wf(),
            x.wf(),
        ensures
            r.wf(),
            r.val() == (pow(x.val(), self.size as nat) - 1) % field_order(),
    {
        domain_vanishing(self, x)
    }
}

/// Relies on `GeneralEvaluationDomain::new` of ark-poly for `Fr`: the next
/// power of two at or above `min` (the radix-2 domain, as `Fr` has
/// two-adicity 32), generated by a primitive root of unity of that order
/// (`FftField::get_root_of_unity`); and on `element(1)`, that generator.
#[verifier::external_body]
fn domain_new(min: usize) -> (r: Domain)
    requires
        min <= MAX_DOMAIN_SIZE,
        min <= usize::MAX / 4,
    ensures
        r.wf(),
        r.gen.val() == domain_generator(r.size as nat),
        r.size >= min,
        r.size == 1 || r.size / 2 < min,
{
    let d = GeneralEvaluationDomain::<Fr>::new(min).unwrap();
    Domain { size: d.size(), gen: Scalar { limbs: d.element(1).into_repr().0 } }
}

/// Relies on `EvaluationDomain::fft` of ark-poly: the input padded to the
/// domain size, evaluated at each power of the generator.
#[verifier::external_body]
fn domain_fft(d: &Domain, c: &Vec<Scalar>) -> (r: Vec<Scalar>)
    requires
        d.wf(),
        all_wf(c@),
        c@.len() <= d.size,
    ensures
        all_wf(r@),
        vals(r@) == forward_spec(d.gen.val(), d.size as nat, vals(c@)),
{
    let dom = GeneralEvaluationDomain::<Fr>::new(d.size).unwrap();
    let xs: Vec<Fr> = c.iter().map(|s| Fr::from_repr(BigInteger256::new(s.limbs)).unwrap()).collect();
    dom.fft(&xs).iter().map(|x| Scalar { limbs: x.into_repr().0 }).collect()
}

/// Relies on `EvaluationDomain::ifft` of ark-poly: the input padded to the
/// domain size, mapped to the one coefficient sequence of that length whose
/// evaluations at the powers of the generator it is (the generator has order
/// exactly the domain size, so the transform is a bijection).
#[verifier::external_body]
fn domain_ifft(d: &Domain, v: &Vec<Scalar>) -> (r: Vec<Scalar>)
    requires
        d.wf(),
        all_wf(v@),
        v@.len() <= d.size,
    ensures
        all_wf(r@),
        r@.len() == d.size,
        forward_spec(d.gen.val(), d.size as nat, vals(r@)) == pad(vals(v@), d.size as nat),
        vals(r@) == inverse_spec(d.gen.val(), d.size as nat, pad(vals(v@), d.size as nat)),
        forall|c: Seq<int>| c.len() == d.size && in_field(c)
            && #[trigger] forward_spec(d.gen.val(), d.size as nat, c) == pad(vals(v@), d.size as nat)
            ==> c == vals(r@),
{
    let dom = GeneralEvaluationDomain::<Fr>::new(d.size).unwrap();
    let xs: Vec<Fr> = v.iter().map(|s| Fr::from_repr(BigInteger256::new(s.limbs)).unwrap()).collect();
    dom.ifft(&xs).iter().map(|x| Scalar { limbs: x.into_repr().0 }).collect()
}

/// Relies on `EvaluationDomain::evaluate_vanishing_polynomial` of ark-poly:
/// `x^size - 1` for the radix-2 domain.
#[verifier::external_body]
fn domain_vanishing(d: &Domain, x: &Scalar) -> (r: Scalar)
    requires
        d.wf(),
        x.wf(),
    ensures
        r.wf(),
        r.val() == (pow(x.val(), d.size as nat) - 1) % field_order(),
{
    let dom = GeneralEvaluationDomain::<Fr>::new(d.size).unwrap();
    let t = Fr::from_repr(BigInteger256::new(x.limbs)).unwrap();
    Scalar { limbs: dom.evaluate_vanishing_polynomial(t).into_repr().0 }
}

} // verus!
