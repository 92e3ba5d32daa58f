use crate::field::{all_wf, field_order, fr_add, fr_mul, fr_sub, vals, Scalar};
use vstd::arithmetic::div_mod::*;
use vstd::arithmetic::power::*;
use vstd::prelude::*;

verus! {

/// Coefficient `k` of `c`, zero past either end.
pub open spec fn coef(c: Seq<int>, k: int) -> int {
    if 0 <= k < c.len() {
        c[k]
    } else {
        0
    }
}

/// The coefficients of `c` as a function of the degree.
pub open spec fn coef_fn(c: Seq<int>) -> spec_fn(int) -> int {
    |k: int| coef(c, k)
}

/// The coefficients of `c` shifted up by `n` degrees.
pub open spec fn shift_fn(c: Seq<int>, n: nat) -> spec_fn(int) -> int {
    |k: int| coef(c, k - n)
}

/// The coefficients of `c` negated.
pub open spec fn neg_fn(c: Seq<int>) -> spec_fn(int) -> int {
    |k: int| -coef(c, k)
}

/// `f(0) + f(1) x + ... + f(m-1) x^(m-1)` over the integers.
pub open spec fn power_sum(f: spec_fn(int) -> int, x: int, m: nat) -> int
    decreases m,
{
    if m == 0 {
        0
    } else {
        power_sum(f, x, (m - 1) as nat) + f(m - 1) * pow(x, (m - 1) as nat)
    }
}

/// The polynomial with coefficients `c` at `x`, over the integers; its field
/// value is this modulo the field order.
pub open spec fn eval(c: Seq<int>, x: int) -> int {
    power_sum(coef_fn(c), x, c.len())
}

/// Coefficientwise sum of two polynomials in the field.
pub open spec fn add_spec(a: Seq<int>, b: Seq<int>) -> Seq<int> {
    Seq::new(
        if a.len() >= b.len() { a.len() } else { b.len() },
        |k: int| (coef(a, k) + coef(b, k)) % field_order(),
    )
}

/// `b(x) * (x^n - 1)` in the field: `b` shifted up by `n`, minus `b`.
pub open spec fn mul_vanishing_spec(b: Seq<int>, n: nat) -> Seq<int> {
    Seq::new(b.len() + n, |k: int| (coef(b, k - n) - coef(b, k)) % field_order())
}

/// The base polynomial plus the blinding polynomial times the vanishing
/// polynomial of a domain of size `n`.
pub open spec fn blind_spec(base: Seq<int>, b: Seq<int>, n: nat) -> Seq<int> {
    add_spec(base, mul_vanishing_spec(b, n))
}

pub(crate) proof fn lemma_mod_add_cong(a: int, b: int, c: int, d: int)
    requires
        a % field_order() == b % field_order(),
        c % field_order() == d % field_order(),
    ensures
        (a + c) % field_order() == (b + d) % field_order(),
{
    lemma_add_mod_noop(a, c, field_order());
    lemma_add_mod_noop(b, d, field_order());
}

pub(crate) proof fn lemma_mod_mul_cong(a: int, b: int, c: int, d: int)
    requires
        a % field_order() == b % field_order(),
        c % field_order() == d % field_order(),
    ensures
        (a * c) % field_order() == (b * d) % field_order(),
{
    lemma_mul_mod_noop(a, c, field_order());
    lemma_mul_mod_noop(b, d, field_order());
}

pub(crate) proof fn lemma_mod_sub_cong(a: int, b: int, c: int, d: int)
    requires
        a % field_order() == b % field_order(),
        c % field_order() == d % field_order(),
    ensures
        (a - c) % field_order() == (b - d) % field_order(),
{
    lemma_sub_mod_noop(a, c, field_order());
    lemma_sub_mod_noop(b, d, field_order());
}

/// A polynomial of two coefficients at `x`.
pub proof fn lemma_eval_linear(b0: int, b1: int, x: int)
    ensures
        eval(seq![b0, b1], x) == b0 + b1 * x,
{
    let c = seq![b0, b1];
    lemma_pow0(x);
    lemma_pow1(x);
    assert(power_sum(coef_fn(c), x, 0) == 0);
    assert(power_sum(coef_fn(c), x, 1) == b0 * pow(x, 0));
    assert(power_sum(coef_fn(c), x, 2) == power_sum(coef_fn(c), x, 1) + b1 * pow(x, 1));
}

/// A sum whose coefficients agree in the field with those of two others
/// added agrees with the two sums added.
proof fn lemma_power_sum_add(f: spec_fn(int) -> int, g: spec_fn(int) -> int, h: spec_fn(int) -> int, x: int, m: nat)
    requires
        forall|k: int| 0 <= k < m ==> #[trigger] f(k) % field_order() == (g(k) + h(k)) % field_order(),
    ensures
        power_sum(f, x, m) % field_order() == (power_sum(g, x, m) + power_sum(h, x, m)) % field_order(),
    decreases m,
{
    if m > 0 {
        let m1 = (m - 1) as nat;
        lemma_power_sum_add(f, g, h, x, m1);
        let px = pow(x, m1);
        assert(f(m1 as int) % field_order() == (g(m1 as int) + h(m1 as int)) % field_order());
        lemma_mod_mul_cong(f(m1 as int), g(m1 as int) + h(m1 as int), px, px);
        lemma_mod_add_cong(
            power_sum(f, x, m1),
            power_sum(g, x, m1) + power_sum(h, x, m1),
            f(m1 as int) * px,
            (g(m1 as int) + h(m1 as int)) * px,
        );
        assert((g(m1 as int) + h(m1 as int)) * px == g(m1 as int) * px + h(m1 as int) * px) by (nonlinear_arith);
    }
}

proof fn lemma_power_sum_neg(c: Seq<int>, x: int, m: nat)
    ensures
        power_sum(neg_fn(c), x, m) == -power_sum(coef_fn(c), x, m),
    decreases m,
{
    if m > 0 {
        let m1 = (m - 1) as nat;
        lemma_power_sum_neg(c, x, m1);
        let a = coef(c, m1 as int);
        let px = pow(x, m1);
        assert((-a) * px == -(a * px)) by (nonlinear_arith);
    }
}

proof fn lemma_power_sum_past_end(c: Seq<int>, x: int, m: nat)
    requires
        m >= c.len(),
    ensures
        power_sum(coef_fn(c), x, m) == eval(c, x),
    decreases m,
{
    if m > c.len() {
        lemma_power_sum_past_end(c, x, (m - 1) as nat);
    }
}

proof fn lemma_power_sum_shift(c: Seq<int>, n: nat, x: int, m: nat)
    ensures
        m <= n ==> power_sum(shift_fn(c, n), x, m) == 0,
        m > n ==> power_sum(shift_fn(c, n), x, m) == pow(x, n) * power_sum(coef_fn(c), x, (m - n) as nat),
    decreases m,
{
    if m > 0 {
        let m1 = (m - 1) as nat;
        lemma_power_sum_shift(c, n, x, m1);
        if m > n {
            let j = (m1 - n) as nat;
            lemma_pow_adds(x, n, j);
            let a = coef(c, j as int);
            let s = power_sum(coef_fn(c), x, j);
            let pn = pow(x, n);
            let pj = pow(x, j);
            if m1 > n {
                assert(pn * s + a * (pn * pj) == pn * (s + a * pj)) by (nonlinear_arith);
            } else {
                assert(j == 0);
                assert(a * (pn * pj) == pn * (0 + a * pj)) by (nonlinear_arith);
            }
        }
    }
}

/// The blinded polynomial at `x` is the base at `x` plus the blinding
/// polynomial at `x` times `x^n - 1`, in the field.
pub proof fn lemma_eval_blind(base: Seq<int>, b: Seq<int>, n: nat, x: int)
    ensures
        eval(blind_spec(base, b, n), x) % field_order()
            == (eval(base, x) + eval(b, x) * (pow(x, n) - 1)) % field_order(),
{
    let p = field_order();
    let mv = mul_vanishing_spec(b, n);
    let bl = blind_spec(base, b, n);
    let len = bl.len();
    assert forall|k: int| 0 <= k < len implies #[trigger] coef_fn(bl)(k) % p == (coef_fn(base)(k) + coef_fn(mv)(k)) % p by {
        lemma_mod_twice(coef(base, k) + coef(mv, k), p);
    }
    lemma_power_sum_add(coef_fn(bl), coef_fn(base), coef_fn(mv), x, len);
    assert forall|k: int| 0 <= k < len implies #[trigger] coef_fn(mv)(k) % p == (shift_fn(b, n)(k) + neg_fn(b)(k)) % p by {
        if k < mv.len() {
            lemma_mod_twice(coef(b, k - n) - coef(b, k), p);
        } else {
            lemma_small_mod(0, p as nat);
        }
    }
    lemma_power_sum_add(coef_fn(mv), shift_fn(b, n), neg_fn(b), x, len);
    lemma_power_sum_neg(b, x, len);
    lemma_power_sum_shift(b, n, x, len);
    lemma_power_sum_past_end(b, x, len);
    lemma_power_sum_past_end(b, x, (len - n) as nat);
    lemma_power_sum_past_end(base, x, len);
    lemma_power_sum_past_end(mv, x, len);
    let eb = eval(b, x);
    let pn = pow(x, n);
    assert(pn * eb - eb == eb * (pn - 1)) by (nonlinear_arith);
    lemma_mod_add_cong(eval(base, x), eval(base, x), power_sum(coef_fn(mv), x, len), pn * eb - eb);
}

/// At a point where `x^n - 1` vanishes the blinded polynomial and its base
/// agree in the field.
pub proof fn lemma_blinding_transparent(base: Seq<int>, b: Seq<int>, n: nat, x: int)
    requires
        (pow(x, n) - 1) % field_order() == 0,
    ensures
        eval(blind_spec(base, b, n), x) % field_order() == eval(base, x) % field_order(),
{
    lemma_eval_blind(base, b, n, x);
    lemma_mod_mul_cong(eval(b, x), eval(b, x), pow(x, n) - 1, 0);
    lemma_small_mod(0, field_order() as nat);
    lemma_mod_add_cong(eval(base, x), eval(base, x), eval(b, x) * (pow(x, n) - 1), 0);
}

/// Adds two polynomials coefficientwise; the result is as long as the longer.
pub fn poly_add(a: &Vec<Scalar>, b: &Vec<Scalar>) -> (r: Vec<Scalar>)
    requires
        all_wf(a@),
        all_wf(b@),
    ensures
        all_wf(r@),
        vals(r@) == add_spec(vals(a@), vals(b@)),
{
    let len = if a.len() >= b.len() { a.len() } else { b.len() };
    let zero = Scalar::zero();
    let mut out: Vec<Scalar> = Vec::new();
    let mut i: usize = 0;
    while i < len
        invariant
            i <= len,
            len == if a@.len() >= b@.len() { a@.len() } else { b@.len() },
            all_wf(a@),
            all_wf(b@),
            zero.wf() && zero.val() == 0,
            out@.len() == i,
            all_wf(out@),
            forall|j: int| 0 <= j < i ==> #[trigger] out@[j].val() == (coef(vals(a@), j) + coef(vals(b@), j)) % field_order(),
        decreases len - i,
    {
        let x = if i < a.len() { &a[i] } else { &zero };
        let y = if i < b.len() { &b[i] } else { &zero };
        out.push(fr_add(x, y));
        i += 1;
    }
    assert(vals(out@) =~= add_spec(vals(a@), vals(b@)));
    out
}

/// Multiplies `b` by the vanishing polynomial `x^n - 1` of a domain of size
/// `n`: `b` shifted up by `n` degrees, minus `b`.
pub fn mul_by_vanishing(b: &Vec<Scalar>, n: usize) -> (r: Vec<Scalar>)
    requires
        all_wf(b@),
        b@.len() + n <= usize::MAX,
    ensures
        all_wf(r@),
        vals(r@) == mul_vanishing_spec(vals(b@), n as nat),
{
    let len = b.len() + n;
    let zero = Scalar::zero();
    let mut out: Vec<Scalar> = Vec::new();
    let mut i: usize = 0;
    while i < len
        invariant
            i <= len,
            len == b@.len() + n,
            all_wf(b@),
            zero.wf() && zero.val() == 0,
            out@.len() == i,
            all_wf(out@),
            forall|j: int| 0 <= j < i ==> #[trigger] out@[j].val() == (coef(vals(b@), j - n) - coef(vals(b@), j)) % field_order(),
        decreases len - i,
    {
        let x = if i >= n { &b[i - n] } else { &zero };
        let y = if i < b.len() { &b[i] } else { &zero };
        out.push(fr_sub(x, y));
        i += 1;
    }
    assert(vals(out@) =~= mul_vanishing_spec(vals(b@), n as nat));
    out
}

proof fn lemma_division(p: Seq<int>, q: Seq<int>, r: Seq<int>, n: nat)
    requires
        forall|t: int| 0 <= t < p.len() ==> 0 <= #[trigger] p[t] < field_order(),
        p.len() >= n,
        q.len() == p.len() - n,
        r.len() == n,
        forall|j: int| n <= j < p.len() ==> #[trigger] q[j - n] == (p[j] + coef(q, j)) % field_order(),
        forall|t: int| 0 <= t < n ==> #[trigger] r[t] == (coef(p, t) + coef(q, t)) % field_order(),
    ensures
        add_spec(r, mul_vanishing_spec(q, n)) == p,
{
    let P = field_order();
    assert forall|t: int| 0 <= t < p.len() implies #[trigger] add_spec(r, mul_vanishing_spec(q, n))[t] == p[t] by {
        let pt = p[t];
        let qt = coef(q, t);
        let qs = coef(q, t - n);
        lemma_small_mod(pt as nat, P as nat);
        if t >= n {
            assert(qs == q[t - n]);
            lemma_mod_twice(pt + qt, P);
            lemma_mod_sub_cong(qs, pt + qt, qt, qt);
            lemma_mod_twice(qs - qt, P);
            lemma_small_mod(0, P as nat);
            lemma_mod_add_cong(0, 0, (qs - qt) % P, pt);
        } else {
            assert(qs == 0);
            lemma_mod_twice(pt + qt, P);
            lemma_mod_twice(0 - qt, P);
            lemma_mod_add_cong((pt + qt) % P, pt + qt, (0 - qt) % P, 0 - qt);
        }
    }
    assert(add_spec(r, mul_vanishing_spec(q, n)) =~= p);
}

/// Multiplies every coefficient of `c` by `k`.
pub fn scale(c: &Vec<Scalar>, k: &Scalar) -> (r: Vec<Scalar>)
    requires
        all_wf(c@),
        k.wf(),
    ensures
        all_wf(r@),
        r@.len() == c@.len(),
        forall|i: int| 0 <= i < c@.len() ==> #[trigger] r@[i].val() == (c@[i].val() * k.val()) % field_order(),
{
    let mut out: Vec<Scalar> = Vec::new();
    let mut i: usize = 0;
    while i < c.len()
        invariant
            i <= c@.len(),
            all_wf(c@),
            k.wf(),
            out@.len() == i,
            all_wf(out@),
            forall|j: int| 0 <= j < i ==> #[trigger] out@[j].val() == (c@[j].val() * k.val()) % field_order(),
        decreases c@.len() - i,
    {
        out.push(fr_mul(&c[i], k));
        i += 1;
    }
    out
}

/// Coefficient `j` of `v`, zero past either end.
pub open spec fn cval(v: Seq<Scalar>, j: int) -> int {
    if 0 <= j < v.len() {
        v[j].val()
    } else {
        0
    }
}

/// Divides `p` by the vanishing polynomial `x^n - 1`: a quotient `q` and a
/// remainder `r` of `n` coefficients with `p = q * (x^n - 1) + r`. The
/// remainder is zero exactly when `p` is a multiple of the vanishing
/// polynomial.
pub fn divide_by_vanishing(p: &Vec<Scalar>, n: usize) -> (r: (Vec<Scalar>, Vec<Scalar>))
    requires
        all_wf(p@),
        n >= 1,
    ensures
        all_wf(r.0@) && all_wf(r.1@),
        r.1@.len() == n,
        p@.len() >= n ==> r.0@.len() == p@.len() - n
            && add_spec(vals(r.1@), mul_vanishing_spec(vals(r.0@), n as nat)) == vals(p@),
        p@.len() < n ==> r.0@.len() == 0 && forall|k: int| 0 <= k < n ==> #[trigger] r.1@[k].val() == coef(vals(p@), k),
{
    let len = p.len();
    let qlen: usize = if len >= n { len - n } else { 0 };
    let mut q: Vec<Scalar> = Vec::new();
    let mut i: usize = 0;
    while i < qlen
        invariant
            i <= qlen,
            q@.len() == i,
            all_wf(q@),
        decreases qlen - i,
    {
        q.push(Scalar::zero());
        i += 1;
    }
    let zero = Scalar::zero();
    // from the top degree down: p_k = q_(k-n) - q_k for k >= n
    let mut k: usize = len;
    while k > n
        invariant
            len == p@.len(),
            qlen == (if len >= n { len - n } else { 0 }),
            n >= 1,
            n <= k <= len || (len < n && k == len),
            q@.len() == qlen,
            all_wf(q@),
            all_wf(p@),
            zero.wf() && zero.val() == 0,
            forall|j: int| k <= j < len && j >= n ==> (#[trigger] q@[j - n]).val()
                == (p@[j].val() + cval(q@, j)) % field_order(),
        decreases k,
    {
        k -= 1;
        let hi = if k < qlen { &q[k] } else { &zero };
        let v = crate::field::fr_add(&p[k], hi);
        let ghost old_q = q@;
        q.set(k - n, v);
        proof {
            assert(q@ == old_q.update(k - n, v));
            assert forall|j: int| k <= j < len && j >= n implies (#[trigger] q@[j - n]).val()
                == (p@[j].val() + cval(q@, j)) % field_order() by {
                assert(cval(q@, j) == cval(old_q, j));
                if j > k {
                    assert(q@[j - n] == old_q[j - n]);
                }
            }
        }
    }
    let mut rem: Vec<Scalar> = Vec::new();
    let mut j: usize = 0;
    while j < n
        invariant
            j <= n,
            len == p@.len(),
            q@.len() == qlen,
            qlen == (if len >= n { len - n } else { 0 }),
            all_wf(q@),
            all_wf(p@),
            zero.wf() && zero.val() == 0,
            rem@.len() == j,
            all_wf(rem@),
            forall|t: int| 0 <= t < j ==> (#[trigger] rem@[t]).val()
                == (cval(p@, t) + cval(q@, t)) % field_order(),
        decreases n - j,
    {
        let lo = if j < len { &p[j] } else { &zero };
        let hi = if j < qlen { &q[j] } else { &zero };
        rem.push(crate::field::fr_add(lo, hi));
        j += 1;
    }
    proof {
        assert forall|t: int| #![all_triggers] true implies coef(vals(p@), t) == cval(p@, t)
            && coef(vals(q@), t) == cval(q@, t) && coef(vals(rem@), t) == cval(rem@, t) by {}
        if len >= n {
            assert forall|t: int| 0 <= t < vals(p@).len() implies 0 <= #[trigger] vals(p@)[t] < field_order() by {
                assert(p@[t].wf());
            }
            assert forall|t: int| n <= t < len implies #[trigger] vals(q@)[t - n] == (vals(p@)[t] + coef(vals(q@), t)) % field_order() by {
                assert(q@[t - n].val() == (p@[t].val() + cval(q@, t)) % field_order());
            }
            assert forall|t: int| 0 <= t < n implies #[trigger] vals(rem@)[t] == (coef(vals(p@), t) + coef(vals(q@), t)) % field_order() by {
                assert(rem@[t].val() == (cval(p@, t) + cval(q@, t)) % field_order());
            }
            lemma_division(vals(p@), vals(q@), vals(rem@), n as nat);
        } else {
            assert forall|t: int| 0 <= t < n implies #[trigger] rem@[t].val() == coef(vals(p@), t) by {
                assert(rem@[t].val() == (cval(p@, t) + cval(q@, t)) % field_order());
                if t < len {
                    assert(p@[t].wf());
                }
                lemma_small_mod(coef(vals(p@), t) as nat, field_order() as nat);
            }
        }
    }
    (q, rem)
}

/// The polynomial with coefficients `c` at the point `x`.
pub fn evaluate(c: &Vec<Scalar>, x: &Scalar) -> (r: Scalar)
    requires
        all_wf(c@),
        x.wf(),
    ensures
        r.wf(),
        r.val() == eval(vals(c@), x.val()) % field_order(),
{
    let ghost p = field_order();
    let mut acc = Scalar::zero();
    let mut power = Scalar::from_u64(1);
    let mut i: usize = 0;
    proof {
        lemma_pow0(x.val());
        lemma_small_mod(1, p as nat);
        lemma_small_mod(0, p as nat);
    }
    while i < c.len()
        invariant
            i <= c@.len(),
            all_wf(c@),
            x.wf(),
            p == field_order(),
            acc.wf(),
            power.wf(),
            acc.val() == power_sum(coef_fn(vals(c@)), x.val(), i as nat) % p,
            power.val() == pow(x.val(), i as nat) % p,
        decreases c@.len() - i,
    {
        let ghost s = power_sum(coef_fn(vals(c@)), x.val(), i as nat);
        let ghost px = pow(x.val(), i as nat);
        let ghost ci = c@[i as int].val();
        let term = fr_mul(&c[i], &power);
        proof {
            lemma_mul_mod_noop_right(ci, px, p);
            lemma_add_mod_noop(s, ci * px, p);
            lemma_pow1(x.val());
            lemma_pow_adds(x.val(), i as nat, 1);
            lemma_mul_mod_noop_left(px, x.val(), p);
            lemma_mod_twice(ci * px, p);
            lemma_mod_twice(s, p);
        }
        acc = fr_add(&acc, &term);
        power = fr_mul(&power, x);
        i += 1;
    }
    proof {
        lemma_power_sum_past_end(vals(c@), x.val(), c@.len());
    }
    acc
}

} // verus!
