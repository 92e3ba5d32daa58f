use crate::curve::{
    all_decode, commitment_of, encodings, generate_kzg_setup, kzg_commit, lemma_trim_prefix, setup_spec,
    trim, CurvePoint,
};
use crate::domain::{inverse_spec, pad, Domain};
use crate::field::{all_wf, field_inv, field_order, fr_inverse, fr_mul, fr_sub, lemma_field_inv, vals, Scalar};
use crate::poly::{
    blind_spec, eval, evaluate, lemma_eval_blind, lemma_eval_linear,
    lemma_mod_mul_cong, lemma_mod_sub_cong, mul_by_vanishing, poly_add,
};
use vstd::arithmetic::div_mod::*;
use vstd::arithmetic::power::pow;
use vstd::prelude::*;

verus! {

/// Why a step of the protocol could not be carried out.
#[derive(Clone, Copy, Debug, PartialEq, Eq, Structural)]
pub enum Error {
    /// A record longer than the domain, a blinding polynomial of degree at
    /// least the domain size, or a key shorter than the polynomial.
    SizeMismatch,
    /// Two equal challenges, or a challenge on the domain.
    DegenerateChallenge,
    /// No record of the given index.
    NoSuchRecord,
    /// Bundle bytes of the wrong length or layout, or an unreadable point or
    /// scalar in them.
    BundleCorruption,
}

/// The published challenge bundle.
#[derive(Clone, Debug)]
pub struct Bundle {
    pub setup: Vec<CurvePoint>,
    pub records: Vec<Vec<Scalar>>,
    pub c1: Scalar,
    pub c2: Scalar,
    pub commitment: CurvePoint,
    pub o1: Scalar,
    pub o2: Scalar,
}

impl Bundle {
    pub open spec fn wf(&self) -> bool {
        &&& all_decode(self.setup@)
        &&& forall|i: int| 0 <= i < self.records@.len() ==> all_wf(#[trigger] self.records@[i]@)
        &&& self.c1.wf() && self.c2.wf() && self.o1.wf() && self.o2.wf()
        &&& self.commitment.wf()
    }
}

/// The vanishing polynomial of a domain of size `n` is zero at `c`.
pub open spec fn on_domain(n: nat, c: int) -> bool {
    (pow(c, n) - 1) % field_order() == 0
}

/// The challenges cannot be used: equal, or one of them on the domain.
pub open spec fn degenerate(n: nat, c1: int, c2: int) -> bool {
    c1 == c2 || on_domain(n, c1) || on_domain(n, c2)
}

/// The base polynomial of a record: its inverse transform on the domain.
pub open spec fn base_spec(d: Domain, record: Seq<int>) -> Seq<int> {
    inverse_spec(d.gen.val(), d.size as nat, pad(record, d.size as nat))
}

/// `(o - base(c)) / (c^n - 1)`: the blinding polynomial at `c`.
pub open spec fn residual(base: Seq<int>, n: nat, c: int, o: int) -> int {
    let p = field_order();
    (((o - eval(base, c) % p) % p) * field_inv((pow(c, n) - 1) % p)) % p
}

/// The degree-one blinding polynomial `[b0, b1]` through the two residuals.
pub open spec fn recovered_spec(base: Seq<int>, n: nat, c1: int, c2: int, o1: int, o2: int) -> Seq<int> {
    let p = field_order();
    let r1 = residual(base, n, c1, o1);
    let r2 = residual(base, n, c2, o2);
    let b1 = (((r1 - r2) % p) * field_inv((c1 - c2) % p)) % p;
    let b0 = (r1 - (c1 * b1) % p) % p;
    seq![b0, b1]
}

/// The commitment that a candidate base polynomial leads to.
pub open spec fn recommitment(key: Seq<Seq<u8>>, base: Seq<int>, n: nat, c1: int, c2: int, o1: int, o2: int) -> Seq<u8> {
    commitment_of(blind_spec(base, recovered_spec(base, n, c1, c2, o1, o2), n), key)
}

/// `a` has an inverse in the field.
pub open spec fn invertible(a: int) -> bool {
    exists|r: int| 0 <= r < field_order() && #[trigger] ((a * r) % field_order()) == 1
}

/// Multiplying by an inverse of `a` undoes a product with `a`.
proof fn lemma_cancel(x: int, y: int, a: int, w: int)
    requires
        x % field_order() == (y * a) % field_order(),
        ((a % field_order()) * w) % field_order() == 1,
    ensures
        (x * w) % field_order() == y % field_order(),
{
    let p = field_order();
    lemma_mod_twice(a, p);
    lemma_mod_mul_cong(a, a % p, w, w);
    lemma_mod_mul_cong(x, y * a, w, w);
    assert((y * a) * w == y * (a * w)) by (nonlinear_arith);
    lemma_small_mod(1, p as nat);
    lemma_mod_mul_cong(y, y, a * w, 1);
}

/// The residual at a challenge is the blinding polynomial there.
proof fn lemma_residual(base: Seq<int>, n: nat, c: int, b0: int, b1: int)
    requires
        invertible((pow(c, n) - 1) % field_order()),
    ensures
        residual(base, n, c, eval(blind_spec(base, seq![b0, b1], n), c) % field_order())
            == (b0 + b1 * c) % field_order(),
{
    let p = field_order();
    let v = pow(c, n) - 1;
    let w = field_inv(v % p);
    let e = eval(base, c);
    let l = b0 + b1 * c;
    let o = eval(blind_spec(base, seq![b0, b1], n), c) % p;
    lemma_eval_blind(base, seq![b0, b1], n, c);
    lemma_eval_linear(b0, b1, c);
    lemma_mod_twice(e + l * v, p);
    lemma_mod_twice(e, p);
    lemma_mod_sub_cong(o, e + l * v, e % p, e);
    lemma_mod_twice(o - e % p, p);
    lemma_cancel((o - e % p) % p, l, v, w);
}

/// Recovery round trip: from the openings at two usable challenges of a
/// record's polynomial blinded by `[b0, b1]`, recovery gives back `[b0, b1]`.
pub proof fn lemma_recovery_round_trip(base: Seq<int>, n: nat, c1: int, c2: int, b0: int, b1: int)
    requires
        0 <= c1 < field_order(),
        0 <= c2 < field_order(),
        0 <= b0 < field_order(),
        0 <= b1 < field_order(),
        !degenerate(n, c1, c2),
        invertible((pow(c1, n) - 1) % field_order()),
        invertible((pow(c2, n) - 1) % field_order()),
        invertible((c1 - c2) % field_order()),
    ensures
        recovered_spec(
            base,
            n,
            c1,
            c2,
            eval(blind_spec(base, seq![b0, b1], n), c1) % field_order(),
            eval(blind_spec(base, seq![b0, b1], n), c2) % field_order(),
        ) == seq![b0, b1],
{
    let p = field_order();
    let o1 = eval(blind_spec(base, seq![b0, b1], n), c1) % p;
    let o2 = eval(blind_spec(base, seq![b0, b1], n), c2) % p;
    lemma_residual(base, n, c1, b0, b1);
    lemma_residual(base, n, c2, b0, b1);
    let r1 = residual(base, n, c1, o1);
    let r2 = residual(base, n, c2, o2);
    let w = field_inv((c1 - c2) % p);
    lemma_mod_twice(b0 + b1 * c1, p);
    lemma_mod_twice(b0 + b1 * c2, p);
    lemma_mod_sub_cong(r1, b0 + b1 * c1, r2, b0 + b1 * c2);
    assert((b0 + b1 * c1) - (b0 + b1 * c2) == b1 * (c1 - c2)) by (nonlinear_arith);
    lemma_mod_twice(r1 - r2, p);
    lemma_cancel((r1 - r2) % p, b1, c1 - c2, w);
    lemma_small_mod(b1 as nat, p as nat);
    let nb1 = (((r1 - r2) % p) * w) % p;
    assert(nb1 == b1);
    lemma_mod_twice(c1 * b1, p);
    lemma_mod_sub_cong(r1, b0 + b1 * c1, (c1 * b1) % p, c1 * b1);
    assert((b0 + b1 * c1) - c1 * b1 == b0) by (nonlinear_arith);
    lemma_small_mod(b0 as nat, p as nat);
}

proof fn lemma_sub_mod_zero(a: int, b: int)
    requires
        0 <= a < field_order(),
        0 <= b < field_order(),
    ensures
        (a - b) % field_order() == 0 <==> a == b,
{
    let p = field_order();
    if a >= b {
        lemma_small_mod((a - b) as nat, p as nat);
    } else {
        lemma_mod_add_multiples_vanish(a - b, p);
        lemma_small_mod((a - b + p) as nat, p as nat);
    }
}

/// The record's polynomial plus `blinding` times the domain's vanishing
/// polynomial.
pub fn build_blinded_polynomial(record: &Vec<Scalar>, d: &Domain, blinding: &Vec<Scalar>) -> (r: Result<Vec<Scalar>, Error>)
    requires
        d.wf(),
        all_wf(record@),
        all_wf(blinding@),
    ensures
        r is Err <==> record@.len() > d.size || blinding@.len() > d.size,
        r is Err ==> r == Err::<Vec<Scalar>, Error>(Error::SizeMismatch),
        r is Ok ==> all_wf(r->Ok_0@) && r->Ok_0@.len() == d.size + blinding@.len()
            && vals(r->Ok_0@) == blind_spec(base_spec(*d, vals(record@)), vals(blinding@), d.size as nat),
{
    if blinding.len() > d.size() {
        return Err(Error::SizeMismatch);
    }
    match d.inverse_transform(record) {
        None => Err(Error::SizeMismatch),
        Some(base) => {
            let shifted = mul_by_vanishing(blinding, d.size());
            let r = poly_add(&base, &shifted);
            assert(vals(base@).len() == base@.len() && vals(shifted@).len() == shifted@.len());
            assert(vals(r@).len() == r@.len());
            Ok(r)
        },
    }
}

/// The openings of `blinded` at the two challenges; refused where the
/// challenges are degenerate, before anything is evaluated.
pub fn issue_challenges(blinded: &Vec<Scalar>, d: &Domain, c1: &Scalar, c2: &Scalar) -> (r: Result<(Scalar, Scalar), Error>)
    requires
        d.wf(),
        all_wf(blinded@),
        c1.wf(),
        c2.wf(),
    ensures
        r is Err <==> degenerate(d.size as nat, c1.val(), c2.val()),
        r is Err ==> r == Err::<(Scalar, Scalar), Error>(Error::DegenerateChallenge),
        r is Ok ==> r->Ok_0.0.wf() && r->Ok_0.1.wf()
            && r->Ok_0.0.val() == eval(vals(blinded@), c1.val()) % field_order()
            && r->Ok_0.1.val() == eval(vals(blinded@), c2.val()) % field_order(),
        r is Ok ==> invertible((pow(c1.val(), d.size as nat) - 1) % field_order())
            && invertible((pow(c2.val(), d.size as nat) - 1) % field_order())
            && invertible((c1.val() - c2.val()) % field_order()),
{
    let diff = fr_sub(c1, c2);
    let v1 = d.evaluate_vanishing(c1);
    let v2 = d.evaluate_vanishing(c2);
    proof {
        lemma_sub_mod_zero(c1.val(), c2.val());
    }
    let i1 = fr_inverse(&v1);
    let i2 = fr_inverse(&v2);
    let w = fr_inverse(&diff);
    if i1.is_none() || i2.is_none() || w.is_none() {
        return Err(Error::DegenerateChallenge);
    }
    proof {
        let x1 = i1->Some_0.val();
        let x2 = i2->Some_0.val();
        let y = w->Some_0.val();
        assert(0 <= x1 < field_order() && ((v1.val() * x1) % field_order()) == 1);
        assert(0 <= x2 < field_order() && ((v2.val() * x2) % field_order()) == 1);
        assert(0 <= y < field_order() && ((diff.val() * y) % field_order()) == 1);
    }
    Ok((evaluate(blinded, c1), evaluate(blinded, c2)))
}

/// Solves for the degree-one blinding polynomial `[b0, b1]` of the base
/// polynomial `base` from the openings `o1`, `o2` at `c1`, `c2`.
pub fn recover_blinding(
    base: &Vec<Scalar>,
    d: &Domain,
    c1: &Scalar,
    c2: &Scalar,
    o1: &Scalar,
    o2: &Scalar,
) -> (r: Result<(Scalar, Scalar), Error>)
    requires
        d.wf(),
        all_wf(base@),
        c1.wf() && c2.wf() && o1.wf() && o2.wf(),
    ensures
        r is Err <==> degenerate(d.size as nat, c1.val(), c2.val()),
        r is Err ==> r == Err::<(Scalar, Scalar), Error>(Error::DegenerateChallenge),
        r is Ok ==> r->Ok_0.0.wf() && r->Ok_0.1.wf()
            && seq![r->Ok_0.0.val(), r->Ok_0.1.val()]
                == recovered_spec(vals(base@), d.size as nat, c1.val(), c2.val(), o1.val(), o2.val()),
{
    let ghost p = field_order();
    let ghost n = d.size as nat;
    let v1 = d.evaluate_vanishing(c1);
    let v2 = d.evaluate_vanishing(c2);
    let diff = fr_sub(c1, c2);
    proof {
        lemma_sub_mod_zero(c1.val(), c2.val());
    }
    let i1 = match fr_inverse(&v1) {
        None => return Err(Error::DegenerateChallenge),
        Some(x) => x,
    };
    let i2 = match fr_inverse(&v2) {
        None => return Err(Error::DegenerateChallenge),
        Some(x) => x,
    };
    let w = match fr_inverse(&diff) {
        None => return Err(Error::DegenerateChallenge),
        Some(x) => x,
    };
    proof {
        lemma_field_inv(v1.val(), i1.val());
        lemma_field_inv(v2.val(), i2.val());
        lemma_field_inv(diff.val(), w.val());
    }
    let e1 = evaluate(base, c1);
    let e2 = evaluate(base, c2);
    let r1 = fr_mul(&fr_sub(o1, &e1), &i1);
    let r2 = fr_mul(&fr_sub(o2, &e2), &i2);
    let b1 = fr_mul(&fr_sub(&r1, &r2), &w);
    let b0 = fr_sub(&r1, &fr_mul(c1, &b1));
    Ok((b0, b1))
}

/// The record passes the recovery check against the bundle.
pub open spec fn accepts_record(b: Bundle, d: Domain, record: Seq<int>) -> bool {
    recommitment(
        encodings(b.setup@),
        base_spec(d, record),
        d.size as nat,
        b.c1.val(),
        b.c2.val(),
        b.o1.val(),
        b.o2.val(),
    ) == b.commitment.bytes@
}

/// The key is too short for a blinded polynomial of the domain.
pub open spec fn key_too_short(b: Bundle, d: Domain) -> bool {
    b.setup@.len() < d.size + 2
}

/// Runs the recovery on a candidate record: rebuilds its blinded polynomial
/// from the openings, recommits, and tells whether that is the published
/// commitment. Only that equality accepts a candidate.
pub fn verify_candidate(b: &Bundle, d: &Domain, record: &Vec<Scalar>) -> (r: Result<bool, Error>)
    requires
        b.wf(),
        d.wf(),
        all_wf(record@),
    ensures
        r == Err::<bool, Error>(Error::SizeMismatch) <==> record@.len() > d.size || key_too_short(*b, *d),
        r == Err::<bool, Error>(Error::DegenerateChallenge) <==> !(record@.len() > d.size || key_too_short(*b, *d))
            && degenerate(d.size as nat, b.c1.val(), b.c2.val()),
        r is Err ==> r == Err::<bool, Error>(Error::SizeMismatch) || r == Err::<bool, Error>(Error::DegenerateChallenge),
        r is Ok ==> r->Ok_0 == accepts_record(*b, *d, vals(record@)),
{
    if record.len() > d.size() || b.setup.len() < d.size() + 2 {
        return Err(Error::SizeMismatch);
    }
    let base = match d.inverse_transform(record) {
        None => return Err(Error::SizeMismatch),
        Some(x) => x,
    };
    let (b0, b1) = match recover_blinding(&base, d, &b.c1, &b.c2, &b.o1, &b.o2) {
        Err(e) => return Err(e),
        Ok(x) => x,
    };
    let blinding = vec![b0, b1];
    let shifted = mul_by_vanishing(&blinding, d.size());
    let candidate = poly_add(&base, &shifted);
    assert(vals(base@).len() == base@.len() && vals(shifted@).len() == shifted@.len());
    assert(vals(candidate@).len() == candidate@.len());
    assert(vals(blinding@) =~= seq![b0.val(), b1.val()]);
    proof {
        lemma_trim_prefix(vals(candidate@));
    }
    match kzg_commit(&candidate, &b.setup) {
        None => Err(Error::SizeMismatch),
        Some(c) => Ok(c.same(&b.commitment)),
    }
}

/// Scans every record of the bundle and returns, in increasing order, the
/// indices of those that pass the recovery check. An empty result means that
/// the scan ran and found no match.
pub fn find_matches(b: &Bundle, d: &Domain) -> (r: Result<Vec<usize>, Error>)
    requires
        b.wf(),
        d.wf(),
    ensures
        r is Err <==> key_too_short(*b, *d) || degenerate(d.size as nat, b.c1.val(), b.c2.val())
            || exists|i: int| 0 <= i < b.records@.len() && #[trigger] b.records@[i]@.len() > d.size,
        r == Err::<Vec<usize>, Error>(Error::DegenerateChallenge) <==> !key_too_short(*b, *d)
            && degenerate(d.size as nat, b.c1.val(), b.c2.val()),
        r is Err ==> r == Err::<Vec<usize>, Error>(Error::DegenerateChallenge) || r == Err::<Vec<usize>, Error>(Error::SizeMismatch),
        r is Ok ==> (forall|j: int| 0 <= j < r->Ok_0@.len() ==> #[trigger] r->Ok_0@[j] < b.records@.len()
            && accepts_record(*b, *d, vals(b.records@[r->Ok_0@[j] as int]@))),
        r is Ok ==> (forall|j: int, k: int| 0 <= j < k < r->Ok_0@.len() ==> r->Ok_0@[j] < r->Ok_0@[k]),
        r is Ok ==> (forall|i: int| 0 <= i < b.records@.len() && accepts_record(*b, *d, vals(#[trigger] b.records@[i]@))
            ==> r->Ok_0@.contains(i as usize)),
{
    if b.setup.len() < d.size() + 2 {
        return Err(Error::SizeMismatch);
    }
    let diff = fr_sub(&b.c1, &b.c2);
    let v1 = d.evaluate_vanishing(&b.c1);
    let v2 = d.evaluate_vanishing(&b.c2);
    proof {
        lemma_sub_mod_zero(b.c1.val(), b.c2.val());
    }
    if diff.is_zero() || v1.is_zero() || v2.is_zero() {
        return Err(Error::DegenerateChallenge);
    }
    let mut out: Vec<usize> = Vec::new();
    let mut i: usize = 0;
    while i < b.records.len()
        invariant
            b.wf(),
            d.wf(),
            !key_too_short(*b, *d),
            !degenerate(d.size as nat, b.c1.val(), b.c2.val()),
            i <= b.records@.len(),
            forall|k: int| 0 <= k < i ==> #[trigger] b.records@[k]@.len() <= d.size,
            forall|j: int| 0 <= j < out@.len() ==> #[trigger] out@[j] < i
                && accepts_record(*b, *d, vals(b.records@[out@[j] as int]@)),
            forall|j: int, k: int| 0 <= j < k < out@.len() ==> out@[j] < out@[k],
            forall|k: int| 0 <= k < i && accepts_record(*b, *d, vals(#[trigger] b.records@[k]@))
                ==> out@.contains(k as usize),
        decreases b.records@.len() - i,
    {
        assert(all_wf(b.records@[i as int]@));
        let ghost old_out = out@;
        match verify_candidate(b, d, &b.records[i]) {
            Err(e) => {
                assert(b.records@[i as int]@.len() > d.size);
                assert(e == Error::SizeMismatch);
                return Err(e);
            },
            Ok(true) => {
                out.push(i);
                assert(out@[out@.len() - 1] == i);
            },
            Ok(false) => {},
        }
        proof {
            assert forall|k: int| 0 <= k < i + 1 && accepts_record(*b, *d, vals(#[trigger] b.records@[k]@))
                implies out@.contains(k as usize) by {
                if k < i {
                    assert(old_out.contains(k as usize));
                    let j = choose|j: int| 0 <= j < old_out.len() && old_out[j] == k as usize;
                    assert(out@[j] == k as usize);
                } else {
                    assert(out@[out@.len() - 1] == i);
                }
            }
        }
        i += 1;
    }
    Ok(out)
}

/// Builds the published bundle for the record at `target`: a key of
/// `size + 2` points for the trapdoor `secret`, the record blinded by
/// `[b0, b1]`, its commitment, and its openings at `c1` and `c2`. The
/// trapdoor's powers live only inside the key derivation; the caller keeps
/// its own copy of `secret` and is responsible for dropping it. The record at
/// `target` passes the recovery check against the bundle.
pub fn generate_challenge(
    records: Vec<Vec<Scalar>>,
    target: usize,
    d: &Domain,
    secret: Scalar,
    b0: Scalar,
    b1: Scalar,
    c1: Scalar,
    c2: Scalar,
) -> (r: Result<Bundle, Error>)
    requires
        d.wf(),
        forall|i: int| 0 <= i < records@.len() ==> all_wf(#[trigger] records@[i]@),
        secret.wf() && b0.wf() && b1.wf() && c1.wf() && c2.wf(),
    ensures
        r == Err::<Bundle, Error>(Error::NoSuchRecord) <==> target >= records@.len(),
        r == Err::<Bundle, Error>(Error::SizeMismatch) <==> target < records@.len()
            && (records@[target as int]@.len() > d.size || d.size < 2),
        r == Err::<Bundle, Error>(Error::DegenerateChallenge) <==> target < records@.len()
            && records@[target as int]@.len() <= d.size && d.size >= 2 && degenerate(d.size as nat, c1.val(), c2.val()),
        r is Ok ==> ({
            let bl = blind_spec(base_spec(*d, vals(records@[target as int]@)), seq![b0.val(), b1.val()], d.size as nat);
            &&& r->Ok_0.wf()
            &&& r->Ok_0.records@ == records@
            &&& encodings(r->Ok_0.setup@) == setup_spec(secret.val(), (d.size + 2) as nat)
            &&& r->Ok_0.c1 == c1 && r->Ok_0.c2 == c2
            &&& r->Ok_0.commitment.bytes@ == commitment_of(bl, encodings(r->Ok_0.setup@))
            &&& r->Ok_0.o1.val() == eval(bl, c1.val()) % field_order()
            &&& r->Ok_0.o2.val() == eval(bl, c2.val()) % field_order()
            &&& recovered_spec(base_spec(*d, vals(records@[target as int]@)), d.size as nat, c1.val(), c2.val(),
                r->Ok_0.o1.val(), r->Ok_0.o2.val()) == seq![b0.val(), b1.val()]
            &&& accepts_record(r->Ok_0, *d, vals(records@[target as int]@))
        }),
        r is Err ==> r == Err::<Bundle, Error>(Error::NoSuchRecord) || r == Err::<Bundle, Error>(Error::SizeMismatch)
            || r == Err::<Bundle, Error>(Error::DegenerateChallenge),
{
    if target >= records.len() {
        return Err(Error::NoSuchRecord);
    }
    assert(all_wf(records@[target as int]@));
    let blinding = vec![b0, b1];
    assert(vals(blinding@) =~= seq![b0.val(), b1.val()]);
    let blinded = match build_blinded_polynomial(&records[target], d, &blinding) {
        Err(e) => return Err(e),
        Ok(x) => x,
    };
    let (o1, o2) = match issue_challenges(&blinded, d, &c1, &c2) {
        Err(e) => return Err(e),
        Ok(x) => x,
    };
    let setup = generate_kzg_setup(secret, d.size() + 2);
    proof {
        lemma_trim_prefix(vals(blinded@));
    }
    let commitment = match kzg_commit(&blinded, &setup) {
        None => return Err(Error::SizeMismatch),
        Some(c) => c,
    };
    let ghost base = base_spec(*d, vals(records@[target as int]@));
    proof {
        lemma_recovery_round_trip(base, d.size as nat, c1.val(), c2.val(), b0.val(), b1.val());
    }
    Ok(Bundle { setup, records, c1, c2, commitment, o1, o2 })
}

} // verus!
