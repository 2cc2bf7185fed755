//! Univariate polynomials of small degree over the field, given by their
//! coefficients from the highest degree down, as exchanged in the sum-check
//! protocol.
use crate::field::{
    fe_add, fe_mul, fe_one, fe_pow, fe_reduce, fe_zero, lemma_add_assoc, lemma_add_comm, lemma_fe_of_reduced, lemma_lift,
    lemma_mul_assoc, lemma_mul_comm, lemma_mul_distrib, lemma_mul_one_any, lemma_mul_zero, FieldElement,
};
use vstd::prelude::*;

verus! {

/// `a x + b`.
#[derive(Clone, Copy, Debug)]
pub struct LinearPoly {
    pub a: FieldElement,
    pub b: FieldElement,
}

/// `a x^2 + b x + c`.
#[derive(Clone, Copy, Debug)]
pub struct QuadraticPoly {
    pub a: FieldElement,
    pub b: FieldElement,
    pub c: FieldElement,
}

/// `a x^3 + b x^2 + c x + d`.
#[derive(Clone, Copy, Debug)]
pub struct CubicPoly {
    pub a: FieldElement,
    pub b: FieldElement,
    pub c: FieldElement,
    pub d: FieldElement,
}

/// `a x^4 + b x^3 + c x^2 + d x + e`.
#[derive(Clone, Copy, Debug)]
pub struct QuadruplePoly {
    pub a: FieldElement,
    pub b: FieldElement,
    pub c: FieldElement,
    pub d: FieldElement,
    pub e: FieldElement,
}

/// `a x^5 + b x^4 + c x^3 + d x^2 + e x + f`.
#[derive(Clone, Copy, Debug)]
pub struct QuintuplePoly {
    pub a: FieldElement,
    pub b: FieldElement,
    pub c: FieldElement,
    pub d: FieldElement,
    pub e: FieldElement,
    pub f: FieldElement,
}

pub open spec fn linear_eval(p: LinearPoly, x: FieldElement) -> FieldElement {
    fe_add(fe_mul(p.a, x), p.b)
}

pub open spec fn quadratic_eval(p: QuadraticPoly, x: FieldElement) -> FieldElement {
    fe_add(fe_add(fe_mul(fe_mul(p.a, x), x), fe_mul(p.b, x)), p.c)
}

pub open spec fn cubic_eval(p: CubicPoly, x: FieldElement) -> FieldElement {
    fe_add(fe_mul(fe_add(fe_mul(fe_add(fe_mul(p.a, x), p.b), x), p.c), x), p.d)
}

pub open spec fn quadruple_eval(p: QuadruplePoly, x: FieldElement) -> FieldElement {
    fe_add(
        fe_mul(fe_add(fe_mul(fe_add(fe_mul(fe_add(fe_mul(p.a, x), p.b), x), p.c), x), p.d), x),
        p.e,
    )
}

pub open spec fn quintuple_eval(p: QuintuplePoly, x: FieldElement) -> FieldElement {
    fe_add(
        fe_mul(
            fe_add(
                fe_mul(fe_add(fe_mul(fe_add(fe_mul(fe_add(fe_mul(p.a, x), p.b), x), p.c), x), p.d), x),
                p.e,
            ),
            x,
        ),
        p.f,
    )
}

/// The sum of `coefs[i] x^(n - 1 - i)` over `i < m`, from zero: with
/// `m == n == coefs.len()`, the polynomial whose coefficients, highest
/// power first, are `coefs`, written as a sum of powers of `x`.
pub open spec fn power_sum(coefs: Seq<FieldElement>, x: FieldElement, n: nat, m: nat) -> FieldElement
    decreases m,
{
    if m == 0 {
        fe_zero()
    } else {
        fe_add(power_sum(coefs, x, n, (m - 1) as nat), fe_mul(coefs[m - 1], fe_pow(x, (n - m) as nat)))
    }
}

/// The polynomial with the coefficients `coefs`, highest power first,
/// evaluated at `x` as a sum of powers.
pub open spec fn power_form(coefs: Seq<FieldElement>, x: FieldElement) -> FieldElement {
    power_sum(coefs, x, coefs.len(), coefs.len())
}

/// Horner's scheme over the first `m` coefficients, from zero.
spec fn horner(coefs: Seq<FieldElement>, x: FieldElement, m: nat) -> FieldElement
    decreases m,
{
    if m == 0 {
        fe_zero()
    } else {
        fe_add(fe_mul(horner(coefs, x, (m - 1) as nat), x), coefs[m - 1])
    }
}

proof fn lemma_power_sum_reduced(coefs: Seq<FieldElement>, x: FieldElement, n: nat, m: nat)
    ensures
        power_sum(coefs, x, n, m).reduced(),
{
    if m > 0 {
        let a = power_sum(coefs, x, n, (m - 1) as nat);
        let b = fe_mul(coefs[m - 1], fe_pow(x, (n - m) as nat));
        lemma_fe_of_reduced(a.real + b.real, a.img + b.img);
    } else {
        lemma_fe_of_reduced(0, 0);
    }
}

/// Raising every power by one multiplies the sum by `x`.
proof fn lemma_power_sum_shift(coefs: Seq<FieldElement>, x: FieldElement, n: nat, m: nat)
    requires
        m <= n,
    ensures
        power_sum(coefs, x, n + 1, m) == fe_mul(power_sum(coefs, x, n, m), x),
    decreases m,
{
    if m == 0 {
        lemma_mul_zero(x);
    } else {
        let k = (m - 1) as nat;
        lemma_power_sum_shift(coefs, x, n, k);
        let prev = power_sum(coefs, x, n, k);
        let c = coefs[k as int];
        let pw = fe_pow(x, (n - m) as nat);
        assert(((n + 1) - m) as nat == (n - m) as nat + 1);
        assert(fe_pow(x, ((n + 1) - m) as nat) == fe_mul(x, pw));
        // c (x pw) = (c pw) x
        lemma_mul_assoc(c, x, pw);
        lemma_mul_comm(c, x);
        lemma_mul_assoc(x, c, pw);
        lemma_mul_comm(x, fe_mul(c, pw));
        // (prev + c pw) x = prev x + (c pw) x
        lemma_mul_distrib(x, prev, fe_mul(c, pw));
        lemma_mul_comm(x, fe_add(prev, fe_mul(c, pw)));
        lemma_mul_comm(x, prev);
    }
}

/// Horner's scheme gives the sum of powers.
proof fn lemma_horner_is_power_sum(coefs: Seq<FieldElement>, x: FieldElement, m: nat)
    ensures
        horner(coefs, x, m) == power_sum(coefs, x, m, m),
    decreases m,
{
    if m > 0 {
        let k = (m - 1) as nat;
        lemma_horner_is_power_sum(coefs, x, k);
        lemma_power_sum_shift(coefs, x, k, k);
        assert(k + 1 == m);
        let c = coefs[k as int];
        assert((m - m) as nat == 0);
        assert(fe_pow(x, 0) == fe_one());
        lemma_mul_one_any(c);
        lemma_lift(c);
        assert(fe_add(fe_mul(power_sum(coefs, x, k, k), x), c) == fe_add(fe_mul(power_sum(coefs, x, k, k), x), fe_reduce(c)));
    }
}

/// The first Horner steps from zero: the leading coefficient, then the
/// leading coefficient times `x` plus the next.
proof fn lemma_horner_start(coefs: Seq<FieldElement>, x: FieldElement)
    requires
        coefs.len() >= 2,
    ensures
        horner(coefs, x, 2) == fe_add(fe_mul(coefs[0], x), coefs[1]),
{
    lemma_mul_zero(x);
    lemma_lift(coefs[0]);
    assert(horner(coefs, x, 0) == fe_zero());
    assert(fe_mul(fe_zero(), x) == fe_zero());
    assert(horner(coefs, x, 1) == fe_add(fe_zero(), coefs[0]));
    assert(fe_add(fe_zero(), coefs[0]) == fe_reduce(coefs[0]));
    assert(fe_mul(coefs[0], x) == fe_mul(fe_reduce(coefs[0]), x));
}

proof fn lemma_linear_power_form(l: LinearPoly, x: FieldElement)
    ensures
        linear_eval(l, x) == power_form(seq![l.a, l.b], x),
{
    let s = seq![l.a, l.b];
    lemma_horner_start(s, x);
    lemma_horner_is_power_sum(s, x, 2);
}

proof fn lemma_quadratic_power_form(q: QuadraticPoly, x: FieldElement)
    ensures
        quadratic_eval(q, x) == power_form(seq![q.a, q.b, q.c], x),
{
    let s = seq![q.a, q.b, q.c];
    lemma_horner_start(s, x);
    lemma_horner_is_power_sum(s, x, 3);
    assert(horner(s, x, 3) == fe_add(fe_mul(horner(s, x, 2), x), q.c));
    // (a x + b) x = a x x + b x
    lemma_mul_distrib(x, fe_mul(q.a, x), q.b);
    lemma_mul_comm(x, fe_add(fe_mul(q.a, x), q.b));
    lemma_mul_comm(x, fe_mul(q.a, x));
    lemma_mul_comm(x, q.b);
}

proof fn lemma_cubic_power_form(c: CubicPoly, x: FieldElement)
    ensures
        cubic_eval(c, x) == power_form(seq![c.a, c.b, c.c, c.d], x),
{
    let s = seq![c.a, c.b, c.c, c.d];
    lemma_horner_start(s, x);
    lemma_horner_is_power_sum(s, x, 4);
    assert(horner(s, x, 3) == fe_add(fe_mul(horner(s, x, 2), x), c.c));
    assert(horner(s, x, 4) == fe_add(fe_mul(horner(s, x, 3), x), c.d));
}

proof fn lemma_quadruple_power_form(d: QuadruplePoly, x: FieldElement)
    ensures
        quadruple_eval(d, x) == power_form(seq![d.a, d.b, d.c, d.d, d.e], x),
{
    let s = seq![d.a, d.b, d.c, d.d, d.e];
    lemma_horner_start(s, x);
    lemma_horner_is_power_sum(s, x, 5);
    assert(horner(s, x, 3) == fe_add(fe_mul(horner(s, x, 2), x), d.c));
    assert(horner(s, x, 4) == fe_add(fe_mul(horner(s, x, 3), x), d.d));
    assert(horner(s, x, 5) == fe_add(fe_mul(horner(s, x, 4), x), d.e));
}

proof fn lemma_quintuple_power_form(p: QuintuplePoly, x: FieldElement)
    ensures
        quintuple_eval(p, x) == power_form(seq![p.a, p.b, p.c, p.d, p.e, p.f], x),
{
    let s = seq![p.a, p.b, p.c, p.d, p.e, p.f];
    lemma_horner_start(s, x);
    lemma_horner_is_power_sum(s, x, 6);
    assert(horner(s, x, 3) == fe_add(fe_mul(horner(s, x, 2), x), p.c));
    assert(horner(s, x, 4) == fe_add(fe_mul(horner(s, x, 3), x), p.d));
    assert(horner(s, x, 5) == fe_add(fe_mul(horner(s, x, 4), x), p.e));
    assert(horner(s, x, 6) == fe_add(fe_mul(horner(s, x, 5), x), p.f));
}

/// Evaluation at `x` is the sum of the coefficients times the powers of
/// `x`: `a x + b`, `a x^2 + b x + c`, and so on up to
/// `a x^5 + b x^4 + c x^3 + d x^2 + e x + f`.
pub proof fn lemma_eval_is_power_form(
    l: LinearPoly,
    q: QuadraticPoly,
    c: CubicPoly,
    d: QuadruplePoly,
    p: QuintuplePoly,
    x: FieldElement,
)
    ensures
        linear_eval(l, x) == power_form(seq![l.a, l.b], x),
        quadratic_eval(q, x) == power_form(seq![q.a, q.b, q.c], x),
        cubic_eval(c, x) == power_form(seq![c.a, c.b, c.c, c.d], x),
        quadruple_eval(d, x) == power_form(seq![d.a, d.b, d.c, d.d, d.e], x),
        quintuple_eval(p, x) == power_form(seq![p.a, p.b, p.c, p.d, p.e, p.f], x),
{
    lemma_linear_power_form(l, x);
    lemma_quadratic_power_form(q, x);
    lemma_cubic_power_form(c, x);
    lemma_quadruple_power_form(d, x);
    lemma_quintuple_power_form(p, x);
}

pub open spec fn linear_add(p: LinearPoly, q: LinearPoly) -> LinearPoly {
    LinearPoly { a: fe_add(p.a, q.a), b: fe_add(p.b, q.b) }
}

pub open spec fn linear_mul(p: LinearPoly, q: LinearPoly) -> QuadraticPoly {
    QuadraticPoly {
        a: fe_mul(p.a, q.a),
        b: fe_add(fe_mul(p.a, q.b), fe_mul(p.b, q.a)),
        c: fe_mul(p.b, q.b),
    }
}

pub open spec fn quadratic_add(p: QuadraticPoly, q: QuadraticPoly) -> QuadraticPoly {
    QuadraticPoly { a: fe_add(p.a, q.a), b: fe_add(p.b, q.b), c: fe_add(p.c, q.c) }
}

pub open spec fn quadratic_multi(p: QuadraticPoly, x: LinearPoly) -> CubicPoly {
    CubicPoly {
        a: fe_mul(p.a, x.a),
        b: fe_add(fe_mul(p.a, x.b), fe_mul(p.b, x.a)),
        c: fe_add(fe_mul(p.b, x.b), fe_mul(p.c, x.a)),
        d: fe_mul(p.c, x.b),
    }
}

pub open spec fn cubic_add(p: CubicPoly, q: CubicPoly) -> CubicPoly {
    CubicPoly {
        a: fe_add(p.a, q.a),
        b: fe_add(p.b, q.b),
        c: fe_add(p.c, q.c),
        d: fe_add(p.d, q.d),
    }
}

pub open spec fn quadruple_add(p: QuadruplePoly, q: QuadruplePoly) -> QuadruplePoly {
    QuadruplePoly {
        a: fe_add(p.a, q.a),
        b: fe_add(p.b, q.b),
        c: fe_add(p.c, q.c),
        d: fe_add(p.d, q.d),
        e: fe_add(p.e, q.e),
    }
}

pub open spec fn quintuple_add(p: QuintuplePoly, q: QuintuplePoly) -> QuintuplePoly {
    QuintuplePoly {
        a: fe_add(p.a, q.a),
        b: fe_add(p.b, q.b),
        c: fe_add(p.c, q.c),
        d: fe_add(p.d, q.d),
        e: fe_add(p.e, q.e),
        f: fe_add(p.f, q.f),
    }
}

impl LinearPoly {
    /// The constant polynomial `arg`.
    pub fn new_single_input(arg: FieldElement) -> (r: LinearPoly)
        ensures
            r == (LinearPoly { a: fe_zero(), b: arg }),
    {
        LinearPoly { a: FieldElement::zero(), b: arg }
    }

    pub fn zero() -> (r: LinearPoly)
        ensures
            r == (LinearPoly { a: fe_zero(), b: fe_zero() }),
    {
        LinearPoly { a: FieldElement::zero(), b: FieldElement::zero() }
    }

    pub fn new(a: FieldElement, b: FieldElement) -> (r: LinearPoly)
        ensures
            r == (LinearPoly { a, b }),
    {
        LinearPoly { a, b }
    }

    /// The monomial without variables: the constant `b`.
    pub fn new_constant_monomial(b: FieldElement) -> (r: LinearPoly)
        ensures
            r == (LinearPoly { a: fe_zero(), b }),
    {
        LinearPoly { a: FieldElement::from_real(0), b }
    }

    pub fn eval(&self, x: FieldElement) -> (r: FieldElement)
        ensures
            r == linear_eval(*self, x),
    {
        self.a * x + self.b
    }
}

impl core::ops::Add for LinearPoly {
    type Output = LinearPoly;

    fn add(self, x: LinearPoly) -> (r: LinearPoly) {
        let a = self.a + x.a;
        let b = self.b + x.b;
        LinearPoly { a, b }
    }
}

impl vstd::std_specs::ops::AddSpecImpl for LinearPoly {
    open spec fn obeys_add_spec() -> bool {
        true
    }

    open spec fn add_req(self, rhs: LinearPoly) -> bool {
        true
    }

    open spec fn add_spec(self, rhs: LinearPoly) -> LinearPoly {
        linear_add(self, rhs)
    }
}

impl core::ops::Mul for LinearPoly {
    type Output = QuadraticPoly;

    fn mul(self, x: LinearPoly) -> (r: QuadraticPoly) {
        let a = self.a * x.a;
        let b = self.a * x.b + self.b * x.a;
        let c = self.b * x.b;
        QuadraticPoly::new(a, b, c)
    }
}

impl vstd::std_specs::ops::MulSpecImpl for LinearPoly {
    open spec fn obeys_mul_spec() -> bool {
        true
    }

    open spec fn mul_req(self, rhs: LinearPoly) -> bool {
        true
    }

    open spec fn mul_spec(self, rhs: LinearPoly) -> QuadraticPoly {
        linear_mul(self, rhs)
    }
}

impl QuadraticPoly {
    pub fn zero() -> (r: QuadraticPoly)
        ensures
            r == (QuadraticPoly { a: fe_zero(), b: fe_zero(), c: fe_zero() }),
    {
        QuadraticPoly { a: FieldElement::zero(), b: FieldElement::zero(), c: FieldElement::zero() }
    }

    pub fn new(a: FieldElement, b: FieldElement, c: FieldElement) -> (r: QuadraticPoly)
        ensures
            r == (QuadraticPoly { a, b, c }),
    {
        QuadraticPoly { a, b, c }
    }

    pub fn eval(&self, x: &FieldElement) -> (r: FieldElement)
        ensures
            r == quadratic_eval(*self, *x),
    {
        self.a * *x * *x + self.b * *x + self.c
    }

    /// The product with a linear polynomial.
    pub fn multi(self, x: LinearPoly) -> (r: CubicPoly)
        ensures
            r == quadratic_multi(self, x),
    {
        let a = self.a * x.a;
        let b = self.a * x.b + self.b * x.a;
        let c = self.b * x.b + self.c * x.a;
        let d = self.c * x.b;
        CubicPoly::new(a, b, c, d)
    }
}

impl core::ops::Add for QuadraticPoly {
    type Output = QuadraticPoly;

    fn add(self, x: QuadraticPoly) -> (r: QuadraticPoly) {
        let a = self.a + x.a;
        let b = self.b + x.b;
        let c = self.c + x.c;
        QuadraticPoly { a, b, c }
    }
}

impl vstd::std_specs::ops::AddSpecImpl for QuadraticPoly {
    open spec fn obeys_add_spec() -> bool {
        true
    }

    open spec fn add_req(self, rhs: QuadraticPoly) -> bool {
        true
    }

    open spec fn add_spec(self, rhs: QuadraticPoly) -> QuadraticPoly {
        quadratic_add(self, rhs)
    }
}

impl CubicPoly {
    pub fn new(a: FieldElement, b: FieldElement, c: FieldElement, d: FieldElement) -> (r:
        CubicPoly)
        ensures
            r == (CubicPoly { a, b, c, d }),
    {
        CubicPoly { a, b, c, d }
    }

    pub fn eval(self, x: FieldElement) -> (r: FieldElement)
        ensures
            r == cubic_eval(self, x),
    {
        ((self.a * x + self.b) * x + self.c) * x + self.d
    }
}

impl core::ops::Add for CubicPoly {
    type Output = CubicPoly;

    fn add(self, x: CubicPoly) -> (r: CubicPoly) {
        let a = self.a + x.a;
        let b = self.b + x.b;
        let c = self.c + x.c;
        let d = self.d + x.d;
        CubicPoly { a, b, c, d }
    }
}

impl vstd::std_specs::ops::AddSpecImpl for CubicPoly {
    open spec fn obeys_add_spec() -> bool {
        true
    }

    open spec fn add_req(self, rhs: CubicPoly) -> bool {
        true
    }

    open spec fn add_spec(self, rhs: CubicPoly) -> CubicPoly {
        cubic_add(self, rhs)
    }
}

impl QuadruplePoly {
    pub fn new(
        a: FieldElement,
        b: FieldElement,
        c: FieldElement,
        d: FieldElement,
        e: FieldElement,
    ) -> (r: QuadruplePoly)
        ensures
            r == (QuadruplePoly { a, b, c, d, e }),
    {
        QuadruplePoly { a, b, c, d, e }
    }

    pub fn eval(self, x: FieldElement) -> (r: FieldElement)
        ensures
            r == quadruple_eval(self, x),
    {
        (((self.a * x + self.b) * x + self.c) * x + self.d) * x + self.e
    }
}

impl core::ops::Add for QuadruplePoly {
    type Output = QuadruplePoly;

    fn add(self, x: QuadruplePoly) -> (r: QuadruplePoly) {
        let a = self.a + x.a;
        let b = self.b + x.b;
        let c = self.c + x.c;
        let d = self.d + x.d;
        let e = self.e + x.e;
        QuadruplePoly { a, b, c, d, e }
    }
}

impl vstd::std_specs::ops::AddSpecImpl for QuadruplePoly {
    open spec fn obeys_add_spec() -> bool {
        true
    }

    open spec fn add_req(self, rhs: QuadruplePoly) -> bool {
        true
    }

    open spec fn add_spec(self, rhs: QuadruplePoly) -> QuadruplePoly {
        quadruple_add(self, rhs)
    }
}

impl QuintuplePoly {
    pub fn new(
        a: FieldElement,
        b: FieldElement,
        c: FieldElement,
        d: FieldElement,
        e: FieldElement,
        f: FieldElement,
    ) -> (r: QuintuplePoly)
        ensures
            r == (QuintuplePoly { a, b, c, d, e, f }),
    {
        QuintuplePoly { a, b, c, d, e, f }
    }

    pub fn eval(self, x: FieldElement) -> (r: FieldElement)
        ensures
            r == quintuple_eval(self, x),
    {
        (((((self.a * x) + self.b) * x + self.c) * x + self.d) * x + self.e) * x + self.f
    }
}

impl core::ops::Add for QuintuplePoly {
    type Output = QuintuplePoly;

    fn add(self, x: QuintuplePoly) -> (r: QuintuplePoly) {
        let a = self.a + x.a;
        let b = self.b + x.b;
        let c = self.c + x.c;
        let d = self.d + x.d;
        let e = self.e + x.e;
        let f = self.f + x.f;
        QuintuplePoly { a, b, c, d, e, f }
    }
}

impl vstd::std_specs::ops::AddSpecImpl for QuintuplePoly {
    open spec fn obeys_add_spec() -> bool {
        true
    }

    open spec fn add_req(self, rhs: QuintuplePoly) -> bool {
        true
    }

    open spec fn add_spec(self, rhs: QuintuplePoly) -> QuintuplePoly {
        quintuple_add(self, rhs)
    }
}

// ---------------------------------------------------------------------------
// Laws
// ---------------------------------------------------------------------------
/// `(u + v) + (w + z) == (u + w) + (v + z)`.
pub proof fn lemma_add_swap(u: FieldElement, v: FieldElement, w: FieldElement, z: FieldElement)
    ensures
        fe_add(fe_add(u, v), fe_add(w, z)) == fe_add(fe_add(u, w), fe_add(v, z)),
{
    lemma_add_assoc(u, v, fe_add(w, z));
    lemma_add_assoc(v, w, z);
    lemma_add_comm(v, w);
    lemma_add_assoc(w, v, z);
    lemma_add_assoc(u, w, fe_add(v, z));
}

/// `(u + v) x == u x + v x`.
proof fn lemma_distrib_right(u: FieldElement, v: FieldElement, x: FieldElement)
    ensures
        fe_mul(fe_add(u, v), x) == fe_add(fe_mul(u, x), fe_mul(v, x)),
{
    lemma_mul_comm(fe_add(u, v), x);
    lemma_mul_distrib(x, u, v);
    lemma_mul_comm(x, u);
    lemma_mul_comm(x, v);
}

/// Evaluation of linear polynomials is additive.
pub proof fn lemma_linear_eval_add(p: LinearPoly, q: LinearPoly, x: FieldElement)
    ensures
        linear_eval(linear_add(p, q), x) == fe_add(linear_eval(p, x), linear_eval(q, x)),
{
    lemma_distrib_right(p.a, q.a, x);
    lemma_add_swap(fe_mul(p.a, x), fe_mul(q.a, x), p.b, q.b);
}

/// Evaluation of quadratic polynomials is additive.
pub proof fn lemma_quadratic_eval_add(p: QuadraticPoly, q: QuadraticPoly, x: FieldElement)
    ensures
        quadratic_eval(quadratic_add(p, q), x) == fe_add(quadratic_eval(p, x), quadratic_eval(q, x)),
{
    lemma_distrib_right(p.a, q.a, x);
    lemma_distrib_right(fe_mul(p.a, x), fe_mul(q.a, x), x);
    lemma_distrib_right(p.b, q.b, x);
    let (pa, qa) = (fe_mul(fe_mul(p.a, x), x), fe_mul(fe_mul(q.a, x), x));
    let (pb, qb) = (fe_mul(p.b, x), fe_mul(q.b, x));
    lemma_add_swap(pa, qa, pb, qb);
    lemma_add_swap(fe_add(pa, pb), fe_add(qa, qb), p.c, q.c);
}

/// Evaluation of cubic polynomials is additive.
pub proof fn lemma_cubic_eval_add(p: CubicPoly, q: CubicPoly, x: FieldElement)
    ensures
        cubic_eval(cubic_add(p, q), x) == fe_add(cubic_eval(p, x), cubic_eval(q, x)),
{
    lemma_distrib_right(p.a, q.a, x);
    lemma_add_swap(fe_mul(p.a, x), fe_mul(q.a, x), p.b, q.b);
    let (u1, v1) = (fe_add(fe_mul(p.a, x), p.b), fe_add(fe_mul(q.a, x), q.b));
    lemma_distrib_right(u1, v1, x);
    lemma_add_swap(fe_mul(u1, x), fe_mul(v1, x), p.c, q.c);
    let (u2, v2) = (fe_add(fe_mul(u1, x), p.c), fe_add(fe_mul(v1, x), q.c));
    lemma_distrib_right(u2, v2, x);
    lemma_add_swap(fe_mul(u2, x), fe_mul(v2, x), p.d, q.d);
}

/// `(a x)(b y) == ((a b) x) y`.
proof fn lemma_mul_rearrange(a: FieldElement, x: FieldElement, b: FieldElement, y: FieldElement)
    ensures
        fe_mul(fe_mul(a, x), fe_mul(b, y)) == fe_mul(fe_mul(fe_mul(a, b), x), y),
{
    // (a x)(b y) = a (x (b y)) = a ((x b) y) = a ((b x) y) = (a (b x)) y = ((a b) x) y
    lemma_mul_assoc(a, x, fe_mul(b, y));
    lemma_mul_assoc(x, b, y);
    lemma_mul_comm(x, b);
    lemma_mul_assoc(b, x, y);
    lemma_mul_assoc(a, fe_mul(b, x), y);
    lemma_mul_assoc(a, b, x);
}

/// `(a x) b == (a b) x`.
proof fn lemma_mul_swap_right(a: FieldElement, x: FieldElement, b: FieldElement)
    ensures
        fe_mul(fe_mul(a, x), b) == fe_mul(fe_mul(a, b), x),
{
    lemma_mul_assoc(a, x, b);
    lemma_mul_comm(x, b);
    lemma_mul_assoc(a, b, x);
}

/// Evaluation is multiplicative for the product of linear polynomials.
pub proof fn lemma_linear_eval_mul(p: LinearPoly, q: LinearPoly, x: FieldElement)
    ensures
        quadratic_eval(linear_mul(p, q), x) == fe_mul(linear_eval(p, x), linear_eval(q, x)),
{
    let ax1 = fe_mul(p.a, x);
    let ax2 = fe_mul(q.a, x);
    let l1 = fe_add(ax1, p.b);
    let l2 = fe_add(ax2, q.b);
    // right side expanded
    lemma_mul_distrib(l1, ax2, q.b);
    lemma_distrib_right(ax1, p.b, ax2);
    lemma_distrib_right(ax1, p.b, q.b);
    let t_aa = fe_mul(ax1, ax2);
    let t_ab = fe_mul(ax1, q.b);
    let t_ba = fe_mul(p.b, ax2);
    let t_bb = fe_mul(p.b, q.b);
    // fe_mul(l1, l2) == (t_aa + t_ba) + (t_ab + t_bb)
    lemma_mul_rearrange(p.a, x, q.a, x);
    lemma_mul_swap_right(p.a, x, q.b);
    lemma_mul_assoc(p.b, q.a, x);
    // left side
    let a = fe_mul(p.a, q.a);
    let b = fe_add(fe_mul(p.a, q.b), fe_mul(p.b, q.a));
    lemma_distrib_right(fe_mul(p.a, q.b), fe_mul(p.b, q.a), x);
    // quadratic_eval == (t_aa + (t_ab + t_ba)) + t_bb
    lemma_add_comm(t_ab, t_ba);
    lemma_add_assoc(t_aa, t_ba, t_ab);
    lemma_add_assoc(fe_add(t_aa, t_ba), t_ab, t_bb);
}

/// Evaluation is multiplicative for the product of a quadratic and a linear
/// polynomial.
#[verifier::spinoff_prover]
pub proof fn lemma_quadratic_eval_multi(p: QuadraticPoly, l: LinearPoly, x: FieldElement)
    ensures
        cubic_eval(quadratic_multi(p, l), x) == fe_mul(quadratic_eval(p, x), linear_eval(l, x)),
{
    let r = quadratic_multi(p, l);
    let qa = fe_mul(fe_mul(p.a, x), x);
    let qb = fe_mul(p.b, x);
    let lx = fe_mul(l.a, x);
    let q = fe_add(fe_add(qa, qb), p.c);
    let m_aa = fe_mul(qa, lx);
    let m_ba = fe_mul(qb, lx);
    let m_ca = fe_mul(p.c, lx);
    let m_ab = fe_mul(qa, l.b);
    let m_bb = fe_mul(qb, l.b);
    let m_cb = fe_mul(p.c, l.b);
    let rhs_a = fe_add(fe_add(m_aa, m_ba), m_ca);
    let rhs_b = fe_add(fe_add(m_ab, m_bb), m_cb);
    assert(fe_mul(q, fe_add(lx, l.b)) == fe_add(rhs_a, rhs_b)) by {
        lemma_mul_distrib(q, lx, l.b);
        lemma_distrib_right(fe_add(qa, qb), p.c, lx);
        lemma_distrib_right(qa, qb, lx);
        lemma_distrib_right(fe_add(qa, qb), p.c, l.b);
        lemma_distrib_right(qa, qb, l.b);
    }
    // monomials by degree
    let d3 = fe_mul(fe_mul(fe_mul(r.a, x), x), x);
    let u2 = fe_mul(fe_mul(fe_mul(p.a, l.b), x), x);
    let v2 = fe_mul(fe_mul(fe_mul(p.b, l.a), x), x);
    let u1 = fe_mul(fe_mul(p.b, l.b), x);
    let v1 = fe_mul(fe_mul(p.c, l.a), x);
    assert(m_aa == d3) by {
        lemma_mul_rearrange(fe_mul(p.a, x), x, l.a, x);
        lemma_mul_swap_right(p.a, x, l.a);
    }
    assert(m_ab == u2) by {
        lemma_mul_swap_right(fe_mul(p.a, x), x, l.b);
        lemma_mul_swap_right(p.a, x, l.b);
    }
    assert(m_ba == v2) by {
        lemma_mul_rearrange(p.b, x, l.a, x);
    }
    assert(m_bb == u1) by {
        lemma_mul_swap_right(p.b, x, l.b);
    }
    assert(m_ca == v1) by {
        lemma_mul_assoc(p.c, l.a, x);
    }
    // left side
    let lhs = cubic_eval(r, x);
    assert(fe_mul(fe_mul(r.b, x), x) == fe_add(u2, v2)) by {
        lemma_distrib_right(fe_mul(p.a, l.b), fe_mul(p.b, l.a), x);
        lemma_distrib_right(fe_mul(fe_mul(p.a, l.b), x), fe_mul(fe_mul(p.b, l.a), x), x);
    }
    assert(fe_mul(r.c, x) == fe_add(u1, v1)) by {
        lemma_distrib_right(fe_mul(p.b, l.b), fe_mul(p.c, l.a), x);
    }
    assert(lhs == fe_add(fe_add(fe_add(d3, fe_mul(fe_mul(r.b, x), x)), fe_mul(r.c, x)), m_cb))
        by {
        lemma_distrib_right(fe_mul(r.a, x), r.b, x);
        lemma_distrib_right(fe_add(fe_mul(fe_mul(r.a, x), x), fe_mul(r.b, x)), r.c, x);
        lemma_distrib_right(fe_mul(fe_mul(r.a, x), x), fe_mul(r.b, x), x);
    }
    // rearrange sums: lhs = ((d3 + (u2 + v2)) + (u1 + v1)) + m_cb
    //                 rhs = ((d3 + v2) + v1) + ((u2 + u1) + m_cb)
    assert(fe_add(fe_add(fe_add(d3, fe_add(u2, v2)), fe_add(u1, v1)), m_cb) == fe_add(
        fe_add(fe_add(d3, v2), v1),
        fe_add(fe_add(u2, u1), m_cb),
    )) by {
        lemma_add_comm(u2, v2);
        lemma_add_assoc(d3, v2, u2);
        // (d3 + v2 + u2) + (u1 + v1) = ((d3 + v2) + v1) + (u2 + u1)
        lemma_add_comm(u1, v1);
        lemma_add_swap(fe_add(d3, v2), u2, v1, u1);
        lemma_add_assoc(fe_add(fe_add(d3, v2), v1), fe_add(u2, u1), m_cb);
    }
}

} // verus!
