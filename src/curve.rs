use crate::field::{all_wf, fr_mul, vals, Scalar};
use crate::field::field_order;
use ark_bls12_381::{Fr, G1Affine, G1Projective};
use ark_ec::{AffineCurve, ProjectiveCurve};
use ark_ff::{BigInteger256, PrimeField};
use ark_serialize::{CanonicalDeserialize, CanonicalSerialize};
use vstd::arithmetic::power::pow;
use vstd::prelude::*;

verus! {

/// `b` starts with an uncompressed G1 point encoding that reads back unchecked.
pub uninterp spec fn g1_decodes(b: Seq<u8>) -> bool;

/// `b` reads back unchecked as a point that lies on the curve.
pub uninterp spec fn g1_on_curve(b: Seq<u8>) -> bool;

/// `b` reads back as a point that passes the prime-order subgroup test
/// (which assumes the point is on the curve).
pub uninterp spec fn g1_in_subgroup(b: Seq<u8>) -> bool;

/// `b` encodes a point of the curve in the prime-order subgroup.
pub open spec fn g1_valid(b: Seq<u8>) -> bool {
    g1_on_curve(b) && g1_in_subgroup(b)
}

/// The encoding of the point `p` times the scalar `s`.
pub uninterp spec fn g1_scale(p: Seq<u8>, s: int) -> Seq<u8>;

/// The encoding of the sum of the points `ps`.
pub uninterp spec fn g1_sum(ps: Seq<Seq<u8>>) -> Seq<u8>;

/// The encoding of the group generator times the scalar `s`.
pub uninterp spec fn g1_generator_times(s: int) -> Seq<u8>;

/// A point of the BLS12-381 G1 group, held as its uncompressed encoding
/// (x then y, 48 bytes each, flags in the top bits of y).
#[derive(Clone, Debug)]
pub struct CurvePoint {
    pub bytes: Vec<u8>,
}

impl CurvePoint {
    pub open spec fn wf(&self) -> bool {
        g1_decodes(self.bytes@)
    }

    /// The point whose encoding starts `b`, if it is a point of the curve in
    /// the prime-order subgroup.
    pub fn from_bytes(b: Vec<u8>) -> (r: Option<CurvePoint>)
        ensures
            r is Some <==> g1_valid(b@),
            r is Some ==> r->Some_0.bytes@ == b@ && r->Some_0.wf(),
    {
        if g1_check_on_curve(&b) && g1_check_subgroup(&b) {
            Some(CurvePoint { bytes: b })
        } else {
            None
        }
    }

    /// Equality of the encodings.
    pub fn same(&self, o: &CurvePoint) -> (r: bool)
        ensures
            r <==> self.bytes@ == o.bytes@,
    {
        if self.bytes.len() != o.bytes.len() {
            return false;
        }
        let mut i: usize = 0;
        while i < self.bytes.len()
            invariant
                self.bytes@.len() == o.bytes@.len(),
                i <= self.bytes@.len(),
                forall|j: int| 0 <= j < i ==> self.bytes@[j] == o.bytes@[j],
            decreases self.bytes@.len() - i,
        {
            if self.bytes[i] != o.bytes[i] {
                return false;
            }
            i += 1;
        }
        assert(self.bytes@ =~= o.bytes@);
        true
    }
}

/// The encodings of a sequence of points.
pub open spec fn encodings(v: Seq<CurvePoint>) -> Seq<Seq<u8>> {
    v.map_values(|p: CurvePoint| p.bytes@)
}

/// Every point of the sequence reads back.
pub open spec fn all_decode(v: Seq<CurvePoint>) -> bool {
    forall|i: int| 0 <= i < v.len() ==> #[trigger] v[i].wf()
}

/// The commitment to coefficients `c` under key `key`: the sum of each
/// coefficient times the key point of its degree.
pub open spec fn commit_spec(c: Seq<int>, key: Seq<Seq<u8>>) -> Seq<u8> {
    g1_sum(Seq::new(c.len(), |i: int| g1_scale(key[i], c[i])))
}

/// The commitment key for trapdoor `s`: the generator times each power of `s`.
pub open spec fn setup_spec(s: int, n: nat) -> Seq<Seq<u8>> {
    Seq::new(n, |i: int| g1_generator_times(pow(s, i as nat) % field_order()))
}

/// Relies on `CanonicalDeserialize::deserialize_unchecked` of ark-ec's
/// `G1Affine` and on `GroupAffine::is_on_curve`.
#[verifier::external_body]
fn g1_check_on_curve(b: &Vec<u8>) -> (r: bool)
    ensures
        r == g1_on_curve(b@),
        r ==> g1_decodes(b@),
{
    G1Affine::deserialize_unchecked(&b[..]).map_or(false, |p| p.is_on_curve())
}

/// Relies on `CanonicalDeserialize::deserialize_uncompressed` of ark-ec's
/// `G1Affine`: an unchecked read followed by the subgroup test.
#[verifier::external_body]
fn g1_check_subgroup(b: &Vec<u8>) -> (r: bool)
    ensures
        r == g1_in_subgroup(b@),
{
    G1Affine::deserialize_uncompressed(&b[..]).is_ok()
}

/// Relies on ark-ec's projective scalar multiplication of a `G1Affine` read
/// unchecked, and on its uncompressed encoding, which reads back.
#[verifier::external_body]
fn g1_mul(p: &CurvePoint, s: &Scalar) -> (r: CurvePoint)
    requires
        p.wf(),
        s.wf(),
    ensures
        r.bytes@ == g1_scale(p.bytes@, s.val()),
        r.wf(),
{
    let a = G1Affine::deserialize_unchecked(&p.bytes[..]).unwrap();
    let x = Fr::from_repr(BigInteger256::new(s.limbs)).unwrap();
    let q = a.into_projective().mul(x.into_repr()).into_affine();
    let mut out = Vec::new();
    q.serialize_uncompressed(&mut out).unwrap();
    CurvePoint { bytes: out }
}

/// Relies on ark-ec's `Sum` of `G1Projective` points read unchecked, and on
/// the uncompressed encoding of the affine result, which reads back.
#[verifier::external_body]
fn g1_sum_of(ps: &Vec<CurvePoint>) -> (r: CurvePoint)
    requires
        all_decode(ps@),
    ensures
        r.bytes@ == g1_sum(encodings(ps@)),
        r.wf(),
{
    let q = ps.iter().map(|p| G1Affine::deserialize_unchecked(&p.bytes[..]).unwrap().into_projective())
        .sum::<G1Projective>().into_affine();
    let mut out = Vec::new();
    q.serialize_uncompressed(&mut out).unwrap();
    CurvePoint { bytes: out }
}

/// Relies on ark-ec's `prime_subgroup_generator` of `G1Projective` and its
/// scalar multiplication, and on the uncompressed encoding, which reads back.
#[verifier::external_body]
fn g1_generator_mul(s: &Scalar) -> (r: CurvePoint)
    requires
        s.wf(),
    ensures
        r.bytes@ == g1_generator_times(s.val()),
        r.wf(),
{
    let x = Fr::from_repr(BigInteger256::new(s.limbs)).unwrap();
    let q = G1Projective::prime_subgroup_generator().mul(x.into_repr()).into_affine();
    let mut out = Vec::new();
    q.serialize_uncompressed(&mut out).unwrap();
    CurvePoint { bytes: out }
}

/// Commits to the polynomial with coefficients `p` under `setup`: the sum of
/// each coefficient times the key point of its degree, trailing zero
/// coefficients left out. A key shorter than the polynomial's degree plus
/// one is refused.
pub fn kzg_commit(p: &Vec<Scalar>, setup: &Vec<CurvePoint>) -> (r: Option<CurvePoint>)
    requires
        all_wf(p@),
        all_decode(setup@),
    ensures
        r is None <==> setup@.len() < trim(vals(p@)).len(),
        r is Some ==> r->Some_0.bytes@ == commitment_of(vals(p@), encodings(setup@)) && r->Some_0.wf(),
{
    let mut len: usize = p.len();
    proof {
        assert(vals(p@).subrange(0, len as int) =~= vals(p@));
    }
    while len > 0 && p[len - 1].is_zero()
        invariant
            len <= p@.len(),
            all_wf(p@),
            trim(vals(p@)) == trim(vals(p@).subrange(0, len as int)),
        decreases len,
    {
        proof {
            let s = vals(p@).subrange(0, len as int);
            assert(s.drop_last() =~= vals(p@).subrange(0, len - 1));
        }
        len -= 1;
    }
    proof {
        let s = vals(p@).subrange(0, len as int);
        if len == 0 {
            assert(s =~= Seq::<int>::empty());
        }
        assert(trim(s) == s);
        assert(trim(vals(p@)) =~= vals(p@.subrange(0, len as int)));
    }
    if setup.len() < len {
        return None;
    }
    let mut terms: Vec<CurvePoint> = Vec::new();
    let mut i: usize = 0;
    while i < len
        invariant
            len <= p@.len(),
            i <= len <= setup@.len(),
            all_wf(p@),
            all_decode(setup@),
            terms@.len() == i,
            all_decode(terms@),
            forall|j: int| 0 <= j < i ==> #[trigger] terms@[j].bytes@ == g1_scale(setup@[j].bytes@, p@[j].val()),
        decreases len - i,
    {
        let t = g1_mul(&setup[i], &p[i]);
        terms.push(t);
        i += 1;
    }
    let c = g1_sum_of(&terms);
    let ghost tv = trim(vals(p@));
    assert(encodings(terms@) =~= Seq::new(tv.len(), |j: int| g1_scale(encodings(setup@)[j], tv[j])));
    Some(c)
}

/// `c` without its trailing zero coefficients.
pub open spec fn trim(c: Seq<int>) -> Seq<int>
    decreases c.len(),
{
    if c.len() == 0 {
        c
    } else if c.last() == 0 {
        trim(c.drop_last())
    } else {
        c
    }
}

pub proof fn lemma_trim_prefix(c: Seq<int>)
    ensures
        trim(c).len() <= c.len(),
        trim(c) == c.subrange(0, trim(c).len() as int),
    decreases c.len(),
{
    if c.len() > 0 && c.last() == 0 {
        lemma_trim_prefix(c.drop_last());
        assert(c.drop_last().subrange(0, trim(c).len() as int) =~= c.subrange(0, trim(c).len() as int));
    } else {
        assert(c.subrange(0, c.len() as int) =~= c);
    }
}

/// The commitment to the polynomial with coefficients `c`: trailing zero
/// coefficients do not count.
pub open spec fn commitment_of(c: Seq<int>, key: Seq<Seq<u8>>) -> Seq<u8> {
    commit_spec(trim(c), key)
}

/// Committing is a function of the polynomial and the key alone:
/// polynomials equal after trimming trailing zeros, under equal keys, give
/// the same point.
pub proof fn lemma_commit_deterministic(p: Seq<int>, q: Seq<int>, k1: Seq<Seq<u8>>, k2: Seq<Seq<u8>>)
    requires
        trim(p) == trim(q),
        k1 == k2,
    ensures
        commitment_of(p, k1) == commitment_of(q, k2),
{
}

/// The commitment key `[G, s*G, s^2*G, ...]` of `n` points for the trapdoor
/// `secret`. The powers of the trapdoor live only inside this call; the
/// caller keeps its own copy of `secret` and is responsible for dropping it.
pub fn generate_kzg_setup(secret: Scalar, n: usize) -> (r: Vec<CurvePoint>)
    requires
        secret.wf(),
    ensures
        r@.len() == n,
        all_decode(r@),
        encodings(r@) == setup_spec(secret.val(), n as nat),
{
    let mut out: Vec<CurvePoint> = Vec::new();
    let mut power = Scalar::from_u64(1);
    let mut i: usize = 0;
    proof {
        vstd::arithmetic::power::lemma_pow0(secret.val());
        vstd::arithmetic::div_mod::lemma_small_mod(1, field_order() as nat);
    }
    while i < n
        invariant
            i <= n,
            secret.wf(),
            power.wf(),
            power.val() == pow(secret.val(), i as nat) % field_order(),
            out@.len() == i,
            all_decode(out@),
            forall|j: int| 0 <= j < i ==> #[trigger] out@[j].bytes@ == g1_generator_times(pow(secret.val(), j as nat) % field_order()),
        decreases n - i,
    {
        out.push(g1_generator_mul(&power));
        proof {
            vstd::arithmetic::power::lemma_pow1(secret.val());
            vstd::arithmetic::power::lemma_pow_adds(secret.val(), i as nat, 1);
            vstd::arithmetic::div_mod::lemma_mul_mod_noop_left(pow(secret.val(), i as nat), secret.val(), field_order());
        }
        power = fr_mul(&power, &secret);
        i += 1;
    }
    assert(encodings(out@) =~= setup_spec(secret.val(), n as nat));
    out
}

} // verus!
