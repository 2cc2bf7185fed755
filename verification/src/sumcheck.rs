//! What the prover's sum-check tables hold.
//!
//! In a layer's sum-check the prover keeps, for every value `x` of the
//! previous layer, two linear polynomials: `add_mult_sum[x]`, the weight with
//! which the value at `x` enters the layer's claim multiplied by the value of
//! the other input, and `add_v_array[x]`, the part that does not depend on it.
//! Both are built gate by gate: each gate adds (or subtracts) its terms at the
//! positions it reads.  The weight of a gate `g` is the value at `g` of the
//! (scaled) equality polynomial of the random point, read off two tables that
//! each cover half of the bits of `g`.
use crate::circuit::Gate;
use crate::field::{fe_add, fe_mul, fe_of, fe_sub, fe_zero, FieldElement};
use crate::polynomial::{quadratic_add, LinearPoly, QuadraticPoly};
use vstd::arithmetic::power2::pow2;
use vstd::prelude::*;

verus! {

/// The weight of position `x` split at `size = 2^half`:
/// `f0[x mod size] s0[x / size] + f1[x mod size] s1[x / size]`.
pub open spec fn split_weight(
    f0: Seq<FieldElement>,
    s0: Seq<FieldElement>,
    f1: Seq<FieldElement>,
    s1: Seq<FieldElement>,
    size: int,
    x: int,
) -> FieldElement {
    fe_add(fe_mul(f0[x % size], s0[x / size]), fe_mul(f1[x % size], s1[x / size]))
}

/// The weight of position `x` in one pair of half tables.
pub open spec fn half_weight(f: Seq<FieldElement>, s: Seq<FieldElement>, size: int, x: int) -> FieldElement {
    fe_mul(f[x % size], s[x / size])
}

/// `t` doubled `k` times.
pub open spec fn double_times(t: FieldElement, k: nat) -> FieldElement
    decreases k,
{
    if k == 0 {
        t
    } else {
        let d = double_times(t, (k - 1) as nat);
        fe_add(d, d)
    }
}

// ---------------------------------------------------------------------------
// Phase one: the tables over the first input `u` of each gate
// ---------------------------------------------------------------------------
/// The two terms that gate `g` of type `ty` contributes in phase one, given
/// its weight `w`, the weight `w_u` of its first input's position and the
/// value `val_v` of its second input.
pub open spec fn phase1_terms(ty: usize, w: FieldElement, w_u: FieldElement, val_v: FieldElement) -> (
    FieldElement,
    FieldElement,
) {
    if ty == 0 {
        (fe_mul(val_v, w), w)
    } else if ty == 1 {
        (fe_mul(val_v, w), fe_zero())
    } else if ty == 5 || ty == 12 || ty == 6 || ty == 14 {
        (fe_zero(), w)
    } else if ty == 4 {
        (fe_zero(), w_u)
    } else if ty == 7 {
        (fe_mul(val_v, w), w)
    } else if ty == 8 || ty == 13 {
        (fe_mul(w, val_v), w)
    } else if ty == 9 {
        (fe_zero(), fe_mul(w, val_v))
    } else if ty == 10 {
        (w, fe_zero())
    } else {
        (fe_zero(), fe_zero())
    }
}

/// `acc` plus `weight[j] t` for each `j < k` with `src[j] == x`, in order.
pub open spec fn comb_update(
    acc: FieldElement,
    src: Seq<usize>,
    weight: Seq<FieldElement>,
    t: FieldElement,
    x: int,
    k: nat,
) -> FieldElement
    decreases k,
{
    if k == 0 {
        acc
    } else {
        let a = comb_update(acc, src, weight, t, x, (k - 1) as nat);
        if src[k - 1] == x {
            fe_add(a, fe_mul(weight[k - 1], t))
        } else {
            a
        }
    }
}

/// How gate `g`, with phase-one terms `t0` and `t1`, changes the constant
/// coefficient `acc` of `add_mult_sum[x]`.
pub open spec fn phase1_mult_step(g: Gate, t0: FieldElement, t1: FieldElement, x: int, acc: FieldElement) -> FieldElement {
    let ty = g.ty;
    let at_u = x == g.u;
    if ty == 0 || ty == 4 || ty == 7 {
        if at_u { fe_add(acc, t1) } else { acc }
    } else if ty == 1 || ty == 10 {
        if at_u { fe_add(acc, t0) } else { acc }
    } else if ty == 5 {
        if g.u <= x < g.v { fe_add(acc, t1) } else { acc }
    } else if ty == 12 {
        if g.u <= x < g.v { fe_add(acc, double_times(t1, (x - g.u) as nat)) } else { acc }
    } else if ty == 14 {
        comb_update(acc, g.src@, g.weight@, t1, x, g.parameter_length as nat)
    } else if ty == 6 || ty == 9 {
        if at_u { fe_sub(acc, t1) } else { acc }
    } else if ty == 8 {
        if at_u { fe_sub(fe_sub(fe_add(acc, t1), t0), t0) } else { acc }
    } else if ty == 13 {
        if at_u { fe_add(fe_sub(acc, t0), t1) } else { acc }
    } else {
        acc
    }
}

/// How gate `g` changes the constant coefficient `acc` of `add_v_array[x]`.
pub open spec fn phase1_add_step(g: Gate, t0: FieldElement, t1: FieldElement, x: int, acc: FieldElement) -> FieldElement {
    let ty = g.ty;
    if x != g.u {
        acc
    } else if ty == 0 || ty == 8 {
        fe_add(acc, t0)
    } else if ty == 6 || ty == 9 {
        fe_add(acc, t1)
    } else if ty == 7 {
        fe_sub(acc, t0)
    } else {
        acc
    }
}

/// Phase one scatters each gate correctly. Take a gate with one or two
/// inputs (addition, multiplication, NOT, minus, XOR, NAAB, relay or
/// x-and-not-y) and weight `w`, over the values `vals` of the layer below.
/// Starting from zero, at the position `x` of its first input it adds a
/// multiplier `m` and an addend `a` for which `m vals[x] + a` is `w` times
/// the output of that gate (for a direct relay, weighed by the position of
/// its input, `w_u` times it); at every other position it adds nothing.
/// Summed over the positions, the tables then give the weighted sum of the
/// gates' values, the layer's claim.
pub proof fn lemma_phase1_gate_contribution(g: Gate, w: FieldElement, w_u: FieldElement, vals: Seq<FieldElement>, x: int)
    requires
        g.ty == 0 || g.ty == 1 || g.ty == 4 || g.ty == 6 || g.ty == 7 || g.ty == 8 || g.ty == 9 || g.ty == 10 || g.ty == 13,
        g.u < vals.len(),
        g.v < vals.len(),
        0 <= x < vals.len(),
    ensures
        ({
            let t = phase1_terms(g.ty, w, w_u, vals[g.v as int]);
            let m = phase1_mult_step(g, t.0, t.1, x, fe_zero());
            let a = phase1_add_step(g, t.0, t.1, x, fe_zero());
            &&& (x == g.u && g.ty != 4) ==> fe_add(fe_mul(m, vals[x]), a) == fe_mul(w, crate::circuit::gate_eval(g, vals))
            &&& (x == g.u && g.ty == 4) ==> fe_add(fe_mul(m, vals[x]), a) == fe_mul(w_u, crate::circuit::gate_eval(g, vals))
            &&& x != g.u ==> m == fe_zero() && a == fe_zero()
        }),
{
    if x == g.u {
        if g.ty == 4 {
            let xv = vals[x];
            let p = fe_mul(w_u, xv);
            crate::field::lemma_fe_of_reduced(w_u.real * xv.real - w_u.img * xv.img, w_u.real * xv.img + w_u.img * xv.real);
            crate::field::lemma_add_zero(p);
            crate::field::lemma_ops_reduce(w_u, xv);
            assert(fe_add(fe_zero(), w_u) == crate::field::fe_reduce(w_u));
        } else {
            lemma_phase1_at_input(g, w, w_u, vals);
        }
    }
}

proof fn lemma_phase1_at_input(g: Gate, w: FieldElement, w_u: FieldElement, vals: Seq<FieldElement>)
    requires
        g.ty == 0 || g.ty == 1 || g.ty == 6 || g.ty == 7 || g.ty == 8 || g.ty == 9 || g.ty == 10 || g.ty == 13,
        g.u < vals.len(),
        g.v < vals.len(),
    ensures
        ({
            let x = g.u as int;
            let t = phase1_terms(g.ty, w, w_u, vals[g.v as int]);
            let m = phase1_mult_step(g, t.0, t.1, x, fe_zero());
            let a = phase1_add_step(g, t.0, t.1, x, fe_zero());
            fe_add(fe_mul(m, vals[x]), a) == fe_mul(w, crate::circuit::gate_eval(g, vals))
        }),
{
    let xv = vals[g.u as int];
    let yv = vals[g.v as int];
    crate::field::lemma_lift(xv);
    crate::field::lemma_lift(yv);
    crate::field::lemma_lift(w);
    crate::field::lemma_fe_of_reduced(0, 0);
    crate::field::lemma_fe_of_reduced(1, 0);
    crate::field::lemma_fe_of_reduced(2, 0);
    assert(fe_zero() == fe_of(0, 0));
    assert(crate::field::fe_one() == fe_of(1, 0));
    let ty = g.ty;
    if ty == 0 {
        lemma_gate0(w, xv, yv);
    } else if ty == 1 {
        lemma_gate1(w, xv, yv);
    } else if ty == 6 {
        lemma_gate6(w, xv);
    } else if ty == 7 {
        lemma_gate7(w, xv, yv);
    } else if ty == 8 {
        lemma_gate8(w, xv, yv);
    } else if ty == 9 {
        lemma_gate9(w, xv, yv);
    } else if ty == 10 {
        lemma_gate10(w, xv);
    } else {
        lemma_gate13(w, xv, yv);
    }
}

proof fn lemma_gate0(w: FieldElement, xv: FieldElement, yv: FieldElement)
    ensures
        fe_add(fe_mul(fe_add(fe_zero(), w), xv), fe_add(fe_zero(), fe_mul(yv, w))) == fe_mul(w, fe_add(xv, yv)),
{
    let (xr, xi, yr, yi, wr, wi) = (xv.real as int, xv.img as int, yv.real as int, yv.img as int, w.real as int, w.img as int);
    crate::field::lemma_lift(xv);
    crate::field::lemma_lift(w);
    crate::field::lemma_hom_mul(wr, wi, xr, xi);
    crate::field::lemma_hom_add(0, 0, yr * wr - yi * wi, yr * wi + yi * wr);
    crate::field::lemma_hom_add(wr * xr - wi * xi, wr * xi + wi * xr, yr * wr - yi * wi, yr * wi + yi * wr);
    crate::field::lemma_hom_mul(wr, wi, xr + yr, xi + yi);
    crate::field::lemma_fe_of_reduced(0, 0);
    assert(fe_zero() == fe_of(0, 0));
    id_gate0(wr, wi, xr, xi, yr, yi);
}

proof fn id_gate0(wr: int, wi: int, xr: int, xi: int, yr: int, yi: int)
    by (nonlinear_arith)
    ensures
        wr * xr - wi * xi + (yr * wr - yi * wi) == wr * (xr + yr) - wi * (xi + yi),
        wr * xi + wi * xr + (yr * wi + yi * wr) == wr * (xi + yi) + wi * (xr + yr),
{
}

proof fn lemma_gate1(w: FieldElement, xv: FieldElement, yv: FieldElement)
    ensures
        fe_add(fe_mul(fe_add(fe_zero(), fe_mul(yv, w)), xv), fe_zero()) == fe_mul(w, fe_mul(xv, yv)),
{
    let (xr, xi, yr, yi, wr, wi) = (xv.real as int, xv.img as int, yv.real as int, yv.img as int, w.real as int, w.img as int);
    crate::field::lemma_lift(xv);
    crate::field::lemma_lift(w);
    crate::field::lemma_fe_of_reduced(0, 0);
    assert(fe_zero() == fe_of(0, 0));
    let (pr, pi) = (yr * wr - yi * wi, yr * wi + yi * wr);
    crate::field::lemma_hom_add(0, 0, pr, pi);
    crate::field::lemma_hom_mul(pr, pi, xr, xi);
    crate::field::lemma_hom_add(pr * xr - pi * xi, pr * xi + pi * xr, 0, 0);
    crate::field::lemma_hom_mul(wr, wi, xr * yr - xi * yi, xr * yi + xi * yr);
    crate::gate_identities::id_gate1(wr, wi, xr, xi, yr, yi);
}

proof fn lemma_gate6(w: FieldElement, xv: FieldElement)
    ensures
        fe_add(fe_mul(fe_sub(fe_zero(), w), xv), fe_add(fe_zero(), w)) == fe_mul(w, fe_sub(crate::field::fe_one(), xv)),
{
    let (xr, xi, wr, wi) = (xv.real as int, xv.img as int, w.real as int, w.img as int);
    crate::field::lemma_lift(xv);
    crate::field::lemma_lift(w);
    crate::field::lemma_fe_of_reduced(0, 0);
    crate::field::lemma_fe_of_reduced(1, 0);
    assert(fe_zero() == fe_of(0, 0));
    assert(crate::field::fe_one() == fe_of(1, 0));
    crate::field::lemma_hom_sub(0, 0, wr, wi);
    crate::field::lemma_hom_mul(0 - wr, 0 - wi, xr, xi);
    crate::field::lemma_hom_add((0 - wr) * xr - (0 - wi) * xi, (0 - wr) * xi + (0 - wi) * xr, wr, wi);
    crate::field::lemma_hom_mul(wr, wi, 1 - xr, 0 - xi);
    id_gate6(wr, wi, xr, xi);
}

proof fn id_gate6(wr: int, wi: int, xr: int, xi: int)
    by (nonlinear_arith)
    ensures
        (0 - wr) * xr - (0 - wi) * xi + wr == wr * (1 - xr) - wi * (0 - xi),
        (0 - wr) * xi + (0 - wi) * xr + wi == wr * (0 - xi) + wi * (1 - xr),
{
}

proof fn lemma_gate7(w: FieldElement, xv: FieldElement, yv: FieldElement)
    ensures
        fe_add(fe_mul(fe_add(fe_zero(), w), xv), fe_sub(fe_zero(), fe_mul(yv, w))) == fe_mul(w, fe_sub(xv, yv)),
{
    let (xr, xi, yr, yi, wr, wi) = (xv.real as int, xv.img as int, yv.real as int, yv.img as int, w.real as int, w.img as int);
    crate::field::lemma_lift(xv);
    crate::field::lemma_lift(w);
    crate::field::lemma_fe_of_reduced(0, 0);
    assert(fe_zero() == fe_of(0, 0));
    let (pr, pi) = (yr * wr - yi * wi, yr * wi + yi * wr);
    crate::field::lemma_hom_mul(wr, wi, xr, xi);
    crate::field::lemma_hom_sub(0, 0, pr, pi);
    crate::field::lemma_hom_add(wr * xr - wi * xi, wr * xi + wi * xr, 0 - pr, 0 - pi);
    crate::field::lemma_hom_mul(wr, wi, xr - yr, xi - yi);
    id_gate7(wr, wi, xr, xi, yr, yi);
}

proof fn id_gate7(wr: int, wi: int, xr: int, xi: int, yr: int, yi: int)
    by (nonlinear_arith)
    ensures
        wr * xr - wi * xi + (0 - (yr * wr - yi * wi)) == wr * (xr - yr) - wi * (xi - yi),
        wr * xi + wi * xr + (0 - (yr * wi + yi * wr)) == wr * (xi - yi) + wi * (xr - yr),
{
}

proof fn lemma_gate8(w: FieldElement, xv: FieldElement, yv: FieldElement)
    ensures
        fe_add(
            fe_mul(fe_sub(fe_sub(fe_add(fe_zero(), w), fe_mul(w, yv)), fe_mul(w, yv)), xv),
            fe_add(fe_zero(), fe_mul(w, yv)),
        ) == fe_mul(w, fe_sub(fe_add(xv, yv), fe_mul(fe_mul(crate::field::fe_nat(2), xv), yv))),
{
    let (xr, xi, yr, yi, wr, wi) = (xv.real as int, xv.img as int, yv.real as int, yv.img as int, w.real as int, w.img as int);
    crate::field::lemma_lift(xv);
    crate::field::lemma_lift(yv);
    crate::field::lemma_lift(w);
    crate::field::lemma_fe_of_reduced(0, 0);
    crate::field::lemma_fe_of_reduced(2, 0);
    assert(fe_zero() == fe_of(0, 0));
    let (pr, pi) = (wr * yr - wi * yi, wr * yi + wi * yr);
    crate::field::lemma_hom_sub(wr, wi, pr, pi);
    crate::field::lemma_hom_sub(wr - pr, wi - pi, pr, pi);
    let (mr, mi) = (wr - pr - pr, wi - pi - pi);
    crate::field::lemma_hom_mul(mr, mi, xr, xi);
    crate::field::lemma_hom_add(0, 0, pr, pi);
    crate::field::lemma_hom_add(mr * xr - mi * xi, mr * xi + mi * xr, pr, pi);
    let two = crate::field::fe_nat(2);
    assert(two == fe_of(2, 0));
    crate::field::lemma_hom_mul(2, 0, xr, xi);
    crate::field::lemma_hom_mul(2 * xr - 0 * xi, 2 * xi + 0 * xr, yr, yi);
    let (qr, qi) = ((2 * xr - 0 * xi) * yr - (2 * xi + 0 * xr) * yi, (2 * xr - 0 * xi) * yi + (2 * xi + 0 * xr) * yr);
    crate::field::lemma_hom_sub(xr + yr, xi + yi, qr, qi);
    crate::field::lemma_hom_mul(wr, wi, xr + yr - qr, xi + yi - qi);
    crate::gate_identities::id_gate8(wr, wi, xr, xi, yr, yi);
}

proof fn lemma_gate9(w: FieldElement, xv: FieldElement, yv: FieldElement)
    ensures
        fe_add(fe_mul(fe_sub(fe_zero(), fe_mul(w, yv)), xv), fe_add(fe_zero(), fe_mul(w, yv))) == fe_mul(
            w,
            fe_sub(yv, fe_mul(xv, yv)),
        ),
{
    let (xr, xi, yr, yi, wr, wi) = (xv.real as int, xv.img as int, yv.real as int, yv.img as int, w.real as int, w.img as int);
    crate::field::lemma_lift(xv);
    crate::field::lemma_lift(yv);
    crate::field::lemma_lift(w);
    crate::field::lemma_fe_of_reduced(0, 0);
    assert(fe_zero() == fe_of(0, 0));
    let (pr, pi) = (wr * yr - wi * yi, wr * yi + wi * yr);
    crate::field::lemma_hom_sub(0, 0, pr, pi);
    crate::field::lemma_hom_mul(0 - pr, 0 - pi, xr, xi);
    crate::field::lemma_hom_add(0, 0, pr, pi);
    crate::field::lemma_hom_add((0 - pr) * xr - (0 - pi) * xi, (0 - pr) * xi + (0 - pi) * xr, pr, pi);
    crate::field::lemma_hom_sub(yr, yi, xr * yr - xi * yi, xr * yi + xi * yr);
    assert(fe_sub(yv, fe_mul(xv, yv)) == fe_sub(crate::field::fe_reduce(yv), fe_mul(xv, yv)));
    crate::field::lemma_hom_mul(wr, wi, yr - (xr * yr - xi * yi), yi - (xr * yi + xi * yr));
    crate::gate_identities::id_gate9(wr, wi, xr, xi, yr, yi);
}

proof fn lemma_gate10(w: FieldElement, xv: FieldElement)
    ensures
        fe_add(fe_mul(fe_add(fe_zero(), w), xv), fe_zero()) == fe_mul(w, xv),
{
    let (xr, xi, wr, wi) = (xv.real as int, xv.img as int, w.real as int, w.img as int);
    crate::field::lemma_lift(xv);
    crate::field::lemma_lift(w);
    crate::field::lemma_fe_of_reduced(0, 0);
    assert(fe_zero() == fe_of(0, 0));
    crate::field::lemma_hom_mul(wr, wi, xr, xi);
    crate::field::lemma_hom_add(wr * xr - wi * xi, wr * xi + wi * xr, 0, 0);
}

proof fn lemma_gate13(w: FieldElement, xv: FieldElement, yv: FieldElement)
    ensures
        fe_add(fe_mul(fe_add(fe_sub(fe_zero(), fe_mul(w, yv)), w), xv), fe_zero()) == fe_mul(
            w,
            fe_mul(xv, fe_sub(crate::field::fe_one(), yv)),
        ),
{
    let (xr, xi, yr, yi, wr, wi) = (xv.real as int, xv.img as int, yv.real as int, yv.img as int, w.real as int, w.img as int);
    crate::field::lemma_lift(xv);
    crate::field::lemma_lift(yv);
    crate::field::lemma_lift(w);
    crate::field::lemma_fe_of_reduced(0, 0);
    crate::field::lemma_fe_of_reduced(1, 0);
    assert(fe_zero() == fe_of(0, 0));
    assert(crate::field::fe_one() == fe_of(1, 0));
    let (pr, pi) = (wr * yr - wi * yi, wr * yi + wi * yr);
    crate::field::lemma_hom_sub(0, 0, pr, pi);
    crate::field::lemma_hom_add(0 - pr, 0 - pi, wr, wi);
    let (mr, mi) = (0 - pr + wr, 0 - pi + wi);
    crate::field::lemma_hom_mul(mr, mi, xr, xi);
    crate::field::lemma_hom_add(mr * xr - mi * xi, mr * xi + mi * xr, 0, 0);
    crate::field::lemma_hom_sub(1, 0, yr, yi);
    crate::field::lemma_hom_mul(xr, xi, 1 - yr, 0 - yi);
    let (gr, gi) = (xr * (1 - yr) - xi * (0 - yi), xr * (0 - yi) + xi * (1 - yr));
    crate::field::lemma_hom_mul(wr, wi, gr, gi);
    crate::gate_identities::id_gate13(wr, wi, xr, xi, yr, yi);
}

/// The phase-one terms of gate `k` of `gates`, with weights `w` and the
/// values `vals` of the previous layer.
pub open spec fn phase1_gate_terms(
    gates: Seq<Gate>,
    w: spec_fn(int) -> FieldElement,
    vals: Seq<FieldElement>,
    k: int,
) -> (FieldElement, FieldElement) {
    phase1_terms(gates[k].ty, w(k), w(gates[k].u as int), vals[gates[k].v as int])
}

/// The constant coefficient of `add_mult_sum[x]` after the first `k` gates,
/// starting from `base`.
pub open spec fn phase1_mult_sum(
    gates: Seq<Gate>,
    w: spec_fn(int) -> FieldElement,
    vals: Seq<FieldElement>,
    x: int,
    base: FieldElement,
    k: nat,
) -> FieldElement
    decreases k,
{
    if k == 0 {
        base
    } else {
        let t = phase1_gate_terms(gates, w, vals, k - 1);
        phase1_mult_step(gates[k - 1], t.0, t.1, x, phase1_mult_sum(gates, w, vals, x, base, (k - 1) as nat))
    }
}

/// The constant coefficient of `add_v_array[x]` after the first `k` gates,
/// starting from `base`.
pub open spec fn phase1_add_sum(
    gates: Seq<Gate>,
    w: spec_fn(int) -> FieldElement,
    vals: Seq<FieldElement>,
    x: int,
    base: FieldElement,
    k: nat,
) -> FieldElement
    decreases k,
{
    if k == 0 {
        base
    } else {
        let t = phase1_gate_terms(gates, w, vals, k - 1);
        phase1_add_step(gates[k - 1], t.0, t.1, x, phase1_add_sum(gates, w, vals, x, base, (k - 1) as nat))
    }
}

/// Gate types that mark their presence in `gate_meet`.
pub open spec fn recorded_type(ty: usize) -> bool {
    ty == 0 || ty == 1 || ty == 4 || ty == 5 || ty == 6 || ty == 7 || ty == 8 || ty == 9 || ty == 10
        || ty == 12 || ty == 13 || ty == 14
}

// ---------------------------------------------------------------------------
// Folding a table with a random value, and the round polynomial
// ---------------------------------------------------------------------------
/// The linear polynomial in the next variable of the pair `(p0, p1)`, after
/// the previous variable was bound to `r` (or, in the first round
/// (`bit == 0`), with no previous variable).
pub open spec fn fold_pair(p0: LinearPoly, p1: LinearPoly, bit: usize, r: FieldElement) -> LinearPoly {
    if bit == 0 {
        LinearPoly { a: fe_sub(p1.b, p0.b), b: p0.b }
    } else {
        let b = fe_add(fe_mul(p0.a, r), p0.b);
        LinearPoly { a: fe_sub(fe_add(fe_mul(p1.a, r), p1.b), b), b }
    }
}

/// The table folded pairwise: entry `i` of the first `half` comes from the
/// entries `2i` and `2i + 1`; the rest is `rest`.
pub open spec fn fold_lin_table(
    s: Seq<LinearPoly>,
    rest: Seq<LinearPoly>,
    half: int,
    bit: usize,
    r: FieldElement,
) -> Seq<LinearPoly> {
    Seq::new(
        rest.len(),
        |i: int|
            if i < half {
                fold_pair(s[2 * i], s[2 * i + 1], bit, r)
            } else {
                rest[i]
            },
    )
}

/// The contribution of position `i` to the round polynomial:
/// `mult (v) + add`, a quadratic in the round's variable.
pub open spec fn round_term(mult: LinearPoly, v: LinearPoly, add: LinearPoly) -> QuadraticPoly {
    QuadraticPoly {
        a: fe_mul(mult.a, v.a),
        b: fe_add(fe_add(fe_mul(mult.a, v.b), fe_mul(mult.b, v.a)), add.a),
        c: fe_add(fe_mul(mult.b, v.b), add.b),
    }
}

/// The round terms of the first `half` positions, followed by `rest`.
pub open spec fn round_terms(
    mult: Seq<LinearPoly>,
    v: Seq<LinearPoly>,
    add: Seq<LinearPoly>,
    rest: Seq<QuadraticPoly>,
    half: int,
) -> Seq<QuadraticPoly> {
    Seq::new(
        rest.len(),
        |k: int|
            if k < half {
                round_term(mult[k], v[k], add[k])
            } else {
                rest[k]
            },
    )
}

/// The sum of the `2^k` entries `j 2^k .. (j + 1) 2^k` of `s`, added pairwise
/// as a balanced tree.
pub open spec fn tree_sum(s: Seq<QuadraticPoly>, k: nat, j: int) -> QuadraticPoly
    decreases k,
{
    if k == 0 {
        s[j]
    } else {
        quadratic_add(tree_sum(s, (k - 1) as nat, 2 * j), tree_sum(s, (k - 1) as nat, 2 * j + 1))
    }
}

// ---------------------------------------------------------------------------
// What a gate needs of the tables in phase one
// ---------------------------------------------------------------------------
/// The positions that gate `g` reads and writes in phase one lie inside the
/// previous layer's values (`vals_len`), the two tables (`mult_len`,
/// `add_len`) and, for a relay of position `u`, the second half tables
/// (`s_len`, split at `size`).
pub open spec fn phase1_gate_ok(g: Gate, vals_len: int, mult_len: int, add_len: int, s_len: int, size: int) -> bool {
    let ty = g.ty;
    &&& (ty == 0 || ty == 1 || ty == 7 || ty == 8 || ty == 9 || ty == 13) ==> g.v < vals_len
    &&& (ty == 0 || ty == 1 || ty == 4 || ty == 6 || ty == 7 || ty == 8 || ty == 9 || ty == 10 || ty
        == 13) ==> g.u < mult_len
    &&& (ty == 0 || ty == 6 || ty == 7 || ty == 8 || ty == 9) ==> g.u < add_len
    &&& ty == 4 ==> (g.u as int) / size < s_len
    &&& (ty == 5 || ty == 12) ==> (g.u < g.v ==> g.v <= mult_len)
    &&& ty == 14 ==> {
        &&& g.parameter_length <= g.src@.len()
        &&& g.parameter_length <= g.weight@.len()
        &&& forall|j: int| 0 <= j < g.parameter_length ==> #[trigger] g.src@[j] < mult_len
    }
}

// ---------------------------------------------------------------------------
// Phase one, executed
// ---------------------------------------------------------------------------
/// The weight of position `x`, read off the half tables.
pub fn weight_at(
    f0: &Vec<FieldElement>,
    s0: &Vec<FieldElement>,
    f1: &Vec<FieldElement>,
    s1: &Vec<FieldElement>,
    size: usize,
    x: usize,
) -> (r: FieldElement)
    requires
        0 < size,
        size <= f0@.len(),
        size <= f1@.len(),
        x / size < s0@.len(),
        x / size < s1@.len(),
    ensures
        r == split_weight(f0@, s0@, f1@, s1@, size as int, x as int),
{
    let lo = x % size;
    let hi = x / size;
    f0[lo] * s0[hi] + f1[lo] * s1[hi]
}

/// Adds `t` to the constant coefficient of entry `k`.
fn bump(table: &mut Vec<LinearPoly>, k: usize, t: FieldElement)
    requires
        k < old(table)@.len(),
    ensures
        final(table)@ == old(table)@.update(k as int, LinearPoly { a: old(table)@[k as int].a, b: fe_add(old(table)@[k as int].b, t) }),
{
    let p = table[k];
    table.set(k, LinearPoly { a: p.a, b: p.b + t });
}

/// Replaces the constant coefficient `c` of entry `k` by `c - t`.
fn lower(table: &mut Vec<LinearPoly>, k: usize, t: FieldElement)
    requires
        k < old(table)@.len(),
    ensures
        final(table)@ == old(table)@.update(k as int, LinearPoly { a: old(table)@[k as int].a, b: fe_sub(old(table)@[k as int].b, t) }),
{
    let p = table[k];
    table.set(k, LinearPoly { a: p.a, b: p.b - t });
}

/// Applies the phase-one updates of one gate, with terms `t0` and `t1`.
fn phase1_apply(
    gate: &Gate,
    t0: FieldElement,
    t1: FieldElement,
    mult: &mut Vec<LinearPoly>,
    add: &mut Vec<LinearPoly>,
    vals_len: Ghost<int>,
    s_len: Ghost<int>,
    size: Ghost<int>,
)
    requires
        phase1_gate_ok(*gate, vals_len@, old(mult)@.len() as int, old(add)@.len() as int, s_len@, size@),
    ensures
        final(mult)@.len() == old(mult)@.len(),
        final(add)@.len() == old(add)@.len(),
        forall|x: int|
            0 <= x < old(mult)@.len() ==> #[trigger] final(mult)@[x] == (LinearPoly {
                a: old(mult)@[x].a,
                b: phase1_mult_step(*gate, t0, t1, x, old(mult)@[x].b),
            }),
        forall|x: int|
            0 <= x < old(add)@.len() ==> #[trigger] final(add)@[x] == (LinearPoly {
                a: old(add)@[x].a,
                b: phase1_add_step(*gate, t0, t1, x, old(add)@[x].b),
            }),
{
    let ty = gate.ty;
    let u = gate.u;
    let v = gate.v;
    if ty == 0 {
        bump(add, u, t0);
        bump(mult, u, t1);
    } else if ty == 1 || ty == 10 {
        bump(mult, u, t0);
    } else if ty == 4 {
        bump(mult, u, t1);
    } else if ty == 5 || ty == 12 {
        let ghost m0 = mult@;
        let mut t = t1;
        let mut j = u;
        while j < v
            invariant
                u <= j <= v || (j == u && v < u),
                ty == gate.ty && u == gate.u && v == gate.v,
                ty == 5 || ty == 12,
                u < v ==> v <= m0.len(),
                mult@.len() == m0.len(),
                ty == 12 ==> t == double_times(t1, (j - u) as nat),
                ty == 5 ==> t == t1,
                forall|x: int|
                    0 <= x < m0.len() ==> #[trigger] mult@[x] == (if u <= x < j {
                        LinearPoly { a: m0[x].a, b: phase1_mult_step(*gate, t0, t1, x, m0[x].b) }
                    } else {
                        m0[x]
                    }),
            decreases v - j,
        {
            bump(mult, j, t);
            if ty == 12 {
                t = t + t;
            }
            j += 1;
        }
    } else if ty == 14 {
        let ghost m0 = mult@;
        let mut j: usize = 0;
        while j < gate.parameter_length
            invariant
                j <= gate.parameter_length,
                ty == gate.ty && ty == 14,
                gate.parameter_length <= gate.src@.len(),
                gate.parameter_length <= gate.weight@.len(),
                forall|k: int| 0 <= k < gate.parameter_length ==> #[trigger] gate.src@[k] < m0.len(),
                mult@.len() == m0.len(),
                forall|x: int|
                    0 <= x < m0.len() ==> #[trigger] mult@[x] == (LinearPoly {
                        a: m0[x].a,
                        b: comb_update(m0[x].b, gate.src@, gate.weight@, t1, x, j as nat),
                    }),
            decreases gate.parameter_length - j,
        {
            let src = gate.src[j];
            let w = gate.weight[j];
            bump(mult, src, w * t1);
            j += 1;
        }
    } else if ty == 6 || ty == 9 {
        lower(mult, u, t1);
        bump(add, u, t1);
    } else if ty == 7 {
        lower(add, u, t0);
        bump(mult, u, t1);
    } else if ty == 8 {
        bump(add, u, t0);
        let p = mult[u];
        mult.set(u, LinearPoly { a: p.a, b: p.b + t1 - t0 - t0 });
    } else if ty == 13 {
        let p = mult[u];
        mult.set(u, LinearPoly { a: p.a, b: p.b - t0 + t1 });
    }
}

/// The smaller of `a` and `b`.
pub open spec fn least(a: int, b: int) -> int {
    if a <= b { a } else { b }
}

/// The weights of all positions, read off the half tables split at `size`.
pub open spec fn split_weights(
    f0: Seq<FieldElement>,
    s0: Seq<FieldElement>,
    f1: Seq<FieldElement>,
    s1: Seq<FieldElement>,
    size: int,
) -> spec_fn(int) -> FieldElement {
    |x: int| split_weight(f0, s0, f1, s1, size, x)
}

/// Sets the first `count` entries of the three tables to the start of a
/// layer's sum-check: `v_table` holds the values as constants, the two others
/// are zero.
pub fn reset_tables(
    vals: &Vec<FieldElement>,
    count: usize,
    v_table: &mut Vec<LinearPoly>,
    mult: &mut Vec<LinearPoly>,
    add: &mut Vec<LinearPoly>,
)
    requires
        count <= vals@.len(),
        count <= old(v_table)@.len(),
        count <= old(mult)@.len(),
        count <= old(add)@.len(),
    ensures
        final(v_table)@.len() == old(v_table)@.len(),
        final(mult)@.len() == old(mult)@.len(),
        final(add)@.len() == old(add)@.len(),
        forall|x: int|
            0 <= x < old(v_table)@.len() ==> #[trigger] final(v_table)@[x] == (if x < count {
                LinearPoly { a: fe_zero(), b: vals@[x] }
            } else {
                old(v_table)@[x]
            }),
        forall|x: int|
            0 <= x < old(mult)@.len() ==> #[trigger] final(mult)@[x] == (if x < count {
                LinearPoly { a: fe_zero(), b: fe_zero() }
            } else {
                old(mult)@[x]
            }),
        forall|x: int|
            0 <= x < old(add)@.len() ==> #[trigger] final(add)@[x] == (if x < count {
                LinearPoly { a: fe_zero(), b: fe_zero() }
            } else {
                old(add)@[x]
            }),
{
    let ghost v0 = v_table@;
    let ghost m0 = mult@;
    let ghost a0 = add@;
    let mut i: usize = 0;
    while i < count
        invariant
            i <= count,
            count <= vals@.len(),
            v_table@.len() == v0.len(),
            mult@.len() == m0.len(),
            add@.len() == a0.len(),
            count <= v0.len(),
            count <= m0.len(),
            count <= a0.len(),
            forall|x: int|
                0 <= x < v0.len() ==> #[trigger] v_table@[x] == (if x < i {
                    LinearPoly { a: fe_zero(), b: vals@[x] }
                } else {
                    v0[x]
                }),
            forall|x: int|
                0 <= x < m0.len() ==> #[trigger] mult@[x] == (if x < i {
                    LinearPoly { a: fe_zero(), b: fe_zero() }
                } else {
                    m0[x]
                }),
            forall|x: int|
                0 <= x < a0.len() ==> #[trigger] add@[x] == (if x < i {
                    LinearPoly { a: fe_zero(), b: fe_zero() }
                } else {
                    a0[x]
                }),
        decreases count - i,
    {
        v_table.set(i, LinearPoly::new_single_input(vals[i]));
        add.set(i, LinearPoly::zero());
        mult.set(i, LinearPoly::zero());
        i += 1;
    }
}

/// Phase one's pass over the first `n` gates: each gate adds its terms to the
/// two tables, and its type is recorded in `meet`.
pub fn phase1_scatter(
    gates: &Vec<Gate>,
    n: usize,
    f0: &Vec<FieldElement>,
    s0: &Vec<FieldElement>,
    f1: &Vec<FieldElement>,
    s1: &Vec<FieldElement>,
    size: usize,
    vals: &Vec<FieldElement>,
    mult: &mut Vec<LinearPoly>,
    add: &mut Vec<LinearPoly>,
    meet: &mut Vec<bool>,
)
    requires
        n <= gates@.len(),
        0 < size,
        size <= f0@.len(),
        size <= f1@.len(),
        n <= size * s0@.len(),
        n <= size * s1@.len(),
        15 <= old(meet)@.len(),
        forall|g: int|
            0 <= g < n ==> phase1_gate_ok(
                #[trigger] gates@[g],
                vals@.len() as int,
                old(mult)@.len() as int,
                old(add)@.len() as int,
                least(s0@.len() as int, s1@.len() as int),
                size as int,
            ),
    ensures
        final(mult)@.len() == old(mult)@.len(),
        final(add)@.len() == old(add)@.len(),
        final(meet)@.len() == old(meet)@.len(),
        forall|x: int|
            0 <= x < old(mult)@.len() ==> #[trigger] final(mult)@[x] == (LinearPoly {
                a: old(mult)@[x].a,
                b: phase1_mult_sum(
                    gates@,
                    split_weights(f0@, s0@, f1@, s1@, size as int),
                    vals@,
                    x,
                    old(mult)@[x].b,
                    n as nat,
                ),
            }),
        forall|x: int|
            0 <= x < old(add)@.len() ==> #[trigger] final(add)@[x] == (LinearPoly {
                a: old(add)@[x].a,
                b: phase1_add_sum(
                    gates@,
                    split_weights(f0@, s0@, f1@, s1@, size as int),
                    vals@,
                    x,
                    old(add)@[x].b,
                    n as nat,
                ),
            }),
        forall|t: int|
            0 <= t < old(meet)@.len() ==> #[trigger] final(meet)@[t] == (old(meet)@[t] || exists|g: int|
                0 <= g < n && (#[trigger] gates@[g]).ty == t && recorded_type(gates@[g].ty)),
{
    let ghost w = split_weights(f0@, s0@, f1@, s1@, size as int);
    let ghost m0 = mult@;
    let ghost a0 = add@;
    let ghost g0 = meet@;
    let ghost s_len = least(s0@.len() as int, s1@.len() as int);
    let mut i: usize = 0;
    while i < n
        invariant
            i <= n,
            n <= gates@.len(),
            0 < size,
            size <= f0@.len(),
            size <= f1@.len(),
            n <= size * s0@.len(),
            n <= size * s1@.len(),
            s_len == least(s0@.len() as int, s1@.len() as int),
            w == split_weights(f0@, s0@, f1@, s1@, size as int),
            mult@.len() == m0.len(),
            add@.len() == a0.len(),
            meet@.len() == g0.len(),
            15 <= g0.len(),
            forall|g: int|
                0 <= g < n ==> phase1_gate_ok(
                    #[trigger] gates@[g],
                    vals@.len() as int,
                    m0.len() as int,
                    a0.len() as int,
                    s_len,
                    size as int,
                ),
            forall|x: int|
                0 <= x < m0.len() ==> #[trigger] mult@[x] == (LinearPoly {
                    a: m0[x].a,
                    b: phase1_mult_sum(gates@, w, vals@, x, m0[x].b, i as nat),
                }),
            forall|x: int|
                0 <= x < a0.len() ==> #[trigger] add@[x] == (LinearPoly {
                    a: a0[x].a,
                    b: phase1_add_sum(gates@, w, vals@, x, a0[x].b, i as nat),
                }),
            forall|t: int|
                0 <= t < g0.len() ==> #[trigger] meet@[t] == (g0[t] || exists|g: int|
                    0 <= g < i && (#[trigger] gates@[g]).ty == t && recorded_type(gates@[g].ty)),
        decreases n - i,
    {
        let ty = gates[i].ty;
        let u = gates[i].u;
        let v = gates[i].v;
        assert((i as int) / (size as int) < s0@.len() && (i as int) / (size as int) < s1@.len()) by (nonlinear_arith)
            requires
                i < n,
                n <= size * s0@.len(),
                n <= size * s1@.len(),
                0 < size,
        ;
        let wi = weight_at(f0, s0, f1, s1, size, i);
        let val_v = if ty == 0 || ty == 1 || ty == 7 || ty == 8 || ty == 9 || ty == 13 {
            vals[v]
        } else {
            FieldElement::zero()
        };
        let w_u = if ty == 4 {
            weight_at(f0, s0, f1, s1, size, u)
        } else {
            FieldElement::zero()
        };
        let terms: (FieldElement, FieldElement) = if ty == 0 {
            (val_v * wi, wi)
        } else if ty == 1 {
            (val_v * wi, FieldElement::zero())
        } else if ty == 5 || ty == 12 || ty == 6 || ty == 14 {
            (FieldElement::zero(), wi)
        } else if ty == 4 {
            (FieldElement::zero(), w_u)
        } else if ty == 7 {
            (val_v * wi, wi)
        } else if ty == 8 || ty == 13 {
            (wi * val_v, wi)
        } else if ty == 9 {
            (FieldElement::zero(), wi * val_v)
        } else if ty == 10 {
            (wi, FieldElement::zero())
        } else {
            (FieldElement::zero(), FieldElement::zero())
        };
        assert(terms == phase1_gate_terms(gates@, w, vals@, i as int));
        let ghost mb = mult@;
        let ghost ab = add@;
        phase1_apply(&gates[i], terms.0, terms.1, mult, add, Ghost(vals@.len() as int), Ghost(s_len), Ghost(size as int));
        if ty == 0 || ty == 1 || ty == 4 || ty == 5 || ty == 6 || ty == 7 || ty == 8 || ty == 9 || ty == 10
            || ty == 12 || ty == 13 || ty == 14 {
            meet.set(ty, true);
        }
        proof {
            assert forall|t: int| 0 <= t < g0.len() implies #[trigger] meet@[t] == (g0[t] || exists|g: int|
                0 <= g < i + 1 && (#[trigger] gates@[g]).ty == t && recorded_type(gates@[g].ty)) by {
                if t == ty && recorded_type(ty) {
                    assert(gates@[i as int].ty == t);
                } else {
                    if exists|g: int| 0 <= g < i + 1 && (#[trigger] gates@[g]).ty == t && recorded_type(gates@[g].ty) {
                        let g = choose|g: int| 0 <= g < i + 1 && (#[trigger] gates@[g]).ty == t && recorded_type(gates@[g].ty);
                        assert(g != i);
                    }
                }
            }
        }
        i += 1;
    }
}

// ---------------------------------------------------------------------------
// A round of the sum-check, executed
// ---------------------------------------------------------------------------
/// Folds the first `2 half` entries of `src` pairwise into the first `half`
/// entries of `dst`.
pub fn fold_into(src: &Vec<LinearPoly>, dst: &mut Vec<LinearPoly>, half: usize, bit: usize, r: FieldElement)
    requires
        2 * half <= src@.len(),
        half <= old(dst)@.len(),
    ensures
        final(dst)@ == fold_lin_table(src@, old(dst)@, half as int, bit, r),
{
    let ghost d0 = dst@;
    let slen = src.len();
    let mut i: usize = 0;
    while i < half
        invariant
            i <= half,
            slen == src@.len(),
            2 * half <= src@.len(),
            half <= d0.len(),
            dst@.len() == d0.len(),
            forall|k: int|
                0 <= k < d0.len() ==> #[trigger] dst@[k] == (if k < i {
                    fold_pair(src@[2 * k], src@[2 * k + 1], bit, r)
                } else {
                    d0[k]
                }),
        decreases half - i,
    {
        let p0 = src[2 * i];
        let p1 = src[2 * i + 1];
        let folded = if bit == 0 {
            let b = p0.b;
            LinearPoly { a: p1.b - b, b }
        } else {
            let b = p0.a * r + p0.b;
            LinearPoly { a: p1.a * r + p1.b - b, b }
        };
        dst.set(i, folded);
        i += 1;
    }
    assert(dst@ =~= fold_lin_table(src@, d0, half as int, bit, r));
}

/// Writes the round terms of the first `half` positions into `out`.
pub fn fill_round_terms(
    mult: &Vec<LinearPoly>,
    v: &Vec<LinearPoly>,
    add: &Vec<LinearPoly>,
    out: &mut Vec<QuadraticPoly>,
    half: usize,
)
    requires
        half <= mult@.len(),
        half <= v@.len(),
        half <= add@.len(),
        half <= old(out)@.len(),
    ensures
        final(out)@.len() == old(out)@.len(),
        forall|k: int|
            0 <= k < old(out)@.len() ==> #[trigger] final(out)@[k] == (if k < half {
                round_term(mult@[k], v@[k], add@[k])
            } else {
                old(out)@[k]
            }),
{
    let ghost o0 = out@;
    let mut i: usize = 0;
    while i < half
        invariant
            i <= half,
            half <= mult@.len(),
            half <= v@.len(),
            half <= add@.len(),
            half <= o0.len(),
            out@.len() == o0.len(),
            forall|k: int|
                0 <= k < o0.len() ==> #[trigger] out@[k] == (if k < i {
                    round_term(mult@[k], v@[k], add@[k])
                } else {
                    o0[k]
                }),
        decreases half - i,
    {
        let m = mult[i];
        let x = v[i];
        let s = add[i];
        out.set(i, QuadraticPoly { a: m.a * x.a, b: m.a * x.b + m.b * x.a + s.a, c: m.b * x.b + s.b });
        i += 1;
    }
}

/// Sums the first `2^m` entries of `prev` as a balanced tree, for the
/// largest `m` with `2^m <= tot`, using `cur` as scratch space; with
/// `tot == 0` the first entry is returned.
pub fn tree_reduce(prev: &mut Vec<QuadraticPoly>, cur: &mut Vec<QuadraticPoly>, tot: usize) -> (r: QuadraticPoly)
    requires
        tot <= old(prev)@.len(),
        tot <= old(cur)@.len(),
        1 <= old(prev)@.len(),
    ensures
        tot == 0 ==> r == old(prev)@[0],
        tot >= 1 ==> exists|m: nat|
            pow2(m) <= tot < pow2(m + 1) && r == #[trigger] tree_sum(old(prev)@, m, 0),
        final(prev)@.len() + final(cur)@.len() == old(prev)@.len() + old(cur)@.len(),
{
    let ghost p0 = prev@;
    if tot == 0 {
        return prev[0];
    }
    proof {
        vstd::arithmetic::power2::lemma2_to64();
    }
    let mut width: usize = tot;
    let ghost mut level: nat = 0;
    while width >= 2
        invariant
            tot >= 1,
            width >= 1,
            pow2(level) <= tot,
            width == (tot as nat) / pow2(level),
            tot <= prev@.len(),
            tot <= cur@.len(),
            prev@.len() + cur@.len() == p0.len() + old(cur)@.len(),
            forall|j: int| 0 <= j < width ==> #[trigger] prev@[j] == tree_sum(p0, level, j),
        decreases width,
    {
        let next = width / 2;
        proof {
            vstd::arithmetic::power2::lemma_pow2_pos(level);
            vstd::arithmetic::div_mod::lemma_div_is_ordered_by_denominator(tot as int, 1, pow2(level) as int);
        }
        let mut j: usize = 0;
        while j < next
            invariant
                j <= next,
                next == width / 2,
                width <= tot,
                tot <= prev@.len(),
                tot <= cur@.len(),
                forall|k: int| 0 <= k < width ==> #[trigger] prev@[k] == tree_sum(p0, level, k),
                forall|k: int| 0 <= k < j ==> #[trigger] cur@[k] == tree_sum(p0, level + 1, k),
                prev@.len() + cur@.len() == p0.len() + old(cur)@.len(),
            decreases next - j,
        {
            let s = prev[2 * j] + prev[2 * j + 1];
            cur.set(j, s);
            j += 1;
        }
        std::mem::swap(prev, cur);
        proof {
            let d = pow2(level) as int;
            vstd::arithmetic::div_mod::lemma_fundamental_div_mod(tot as int, d);
            assert(tot >= 2 * d) by (nonlinear_arith)
                requires
                    tot as int == d * (width as int) + (tot as int) % d,
                    width >= 2,
                    (tot as int) % d >= 0,
                    d > 0,
            ;
            vstd::arithmetic::power2::lemma_pow2_unfold(level + 1);
            vstd::arithmetic::div_mod::lemma_div_denominator(tot as int, d, 2);
            vstd::arithmetic::mul::lemma_mul_is_commutative(d, 2);
            level = level + 1;
        }
        width = next;
    }
    proof {
        let d = pow2(level) as int;
        vstd::arithmetic::power2::lemma_pow2_pos(level);
        vstd::arithmetic::div_mod::lemma_fundamental_div_mod(tot as int, d);
        vstd::arithmetic::div_mod::lemma_mod_bound(tot as int, d);
        assert(tot < 2 * d) by (nonlinear_arith)
            requires
                tot as int == d * (width as int) + (tot as int) % d,
                width <= 1,
                (tot as int) % d < d,
        ;
        vstd::arithmetic::power2::lemma_pow2_unfold(level + 1);
        assert(prev@[0] == tree_sum(p0, level, 0));
    }
    prev[0]
}

// ---------------------------------------------------------------------------
// Phase two: the tables over the second input `v` of each gate
// ---------------------------------------------------------------------------
/// The weights of all positions in one pair of half tables split at `size`.
pub open spec fn half_weights(f: Seq<FieldElement>, s: Seq<FieldElement>, size: int) -> spec_fn(int) -> FieldElement {
    |x: int| half_weight(f, s, size, x)
}

/// `acc + f(lo) + ... + f(lo + k - 1)`, added from the left.
pub open spec fn acc_terms(acc: FieldElement, f: spec_fn(int) -> FieldElement, lo: int, k: nat) -> FieldElement
    decreases k,
{
    if k == 0 {
        acc
    } else {
        fe_add(acc_terms(acc, f, lo, (k - 1) as nat), f(lo + k - 1))
    }
}

/// The number of positions `u .. v`.
pub open spec fn span(u: usize, v: usize) -> nat {
    if u < v { (v - u) as nat } else { 0 }
}

/// The two terms that a gate of type `ty` contributes in phase two, given
/// its weight `wg`, the weight `wu` of its first input's position at the
/// bound point of `u`, and the value `vu` there.
pub open spec fn phase2_terms(ty: usize, wg: FieldElement, wu: FieldElement, vu: FieldElement) -> (
    FieldElement,
    FieldElement,
) {
    let gu = fe_mul(wg, wu);
    if ty == 0 || ty == 7 {
        (gu, fe_mul(gu, vu))
    } else if ty == 1 || ty == 10 {
        (fe_mul(gu, vu), fe_zero())
    } else if ty == 5 || ty == 12 || ty == 14 {
        (fe_mul(wg, vu), fe_zero())
    } else if ty == 6 {
        (fe_sub(gu, fe_mul(gu, vu)), fe_zero())
    } else if ty == 8 {
        let t = fe_mul(gu, vu);
        (fe_sub(fe_sub(gu, t), t), t)
    } else if ty == 9 {
        (fe_sub(gu, fe_mul(vu, gu)), fe_zero())
    } else if ty == 13 {
        (fe_mul(gu, vu), fe_zero())
    } else {
        (fe_zero(), fe_zero())
    }
}

/// How gate `g`, with phase-two terms `t0` and `t1`, changes the constant
/// coefficient `acc` of `add_mult_sum[x]`.
pub open spec fn phase2_mult_step(g: Gate, t0: FieldElement, t1: FieldElement, x: int, acc: FieldElement) -> FieldElement {
    let ty = g.ty;
    if x != g.v {
        acc
    } else if ty == 0 || ty == 1 || ty == 8 || ty == 9 {
        fe_add(acc, t0)
    } else if ty == 7 || ty == 13 {
        fe_sub(acc, t0)
    } else {
        acc
    }
}

/// How gate `g` changes the constant coefficient `acc` of `add_v_array[x]`;
/// the summation gates add all their terms at position `0`.
pub open spec fn phase2_add_step(
    g: Gate,
    t0: FieldElement,
    t1: FieldElement,
    wu: spec_fn(int) -> FieldElement,
    x: int,
    acc: FieldElement,
) -> FieldElement {
    let ty = g.ty;
    if ty == 5 || ty == 12 || ty == 14 {
        if x != 0 {
            acc
        } else if ty == 5 {
            acc_terms(acc, |j: int| fe_mul(t0, wu(j)), g.u as int, span(g.u, g.v))
        } else if ty == 12 {
            acc_terms(acc, |j: int| fe_mul(double_times(t0, (j - g.u) as nat), wu(j)), g.u as int, span(g.u, g.v))
        } else {
            acc_terms(
                acc,
                |j: int| fe_mul(fe_mul(t0, wu(g.src@[j] as int)), g.weight@[j]),
                0,
                g.parameter_length as nat,
            )
        }
    } else if x != g.v {
        acc
    } else if ty == 0 || ty == 7 {
        fe_add(t1, acc)
    } else if ty == 8 {
        fe_add(acc, t1)
    } else if ty == 6 || ty == 10 || ty == 13 {
        fe_add(acc, t0)
    } else {
        acc
    }
}

/// Phase two scatters each gate correctly. Take a gate with one or two
/// inputs (addition, multiplication, NOT, minus, XOR, NAAB, relay or
/// x-and-not-y) with weight `wg`, whose first input is already bound to the
/// value `vu` with weight `wu`, over the values `vals` of the layer below.
/// Starting from zero, at the position `x` of its second input it adds a
/// multiplier `m` and an addend `a` for which `m vals[x] + a` is `wg wu`
/// times the output of that gate on the inputs `vu` and `vals[x]`; at
/// every other position it adds nothing.
pub proof fn lemma_phase2_gate_contribution(
    g: Gate,
    wg: FieldElement,
    wu: FieldElement,
    vu: FieldElement,
    vals: Seq<FieldElement>,
    x: int,
)
    requires
        g.ty == 0 || g.ty == 1 || g.ty == 6 || g.ty == 7 || g.ty == 8 || g.ty == 9 || g.ty == 10 || g.ty == 13,
        g.v < vals.len(),
        0 <= x < vals.len(),
    ensures
        ({
            let t = phase2_terms(g.ty, wg, wu, vu);
            let m = phase2_mult_step(g, t.0, t.1, x, fe_zero());
            let a = phase2_add_step(g, t.0, t.1, |j: int| wu, x, fe_zero());
            &&& x == g.v ==> fe_add(fe_mul(m, vals[x]), a) == fe_mul(
                fe_mul(wg, wu),
                crate::circuit::gate_value(g.ty, 0, 1, Seq::empty(), Seq::empty(), 0, seq![vu, vals[x]]),
            )
            &&& x != g.v ==> m == fe_zero() && a == fe_zero()
        }),
{
    if x == g.v {
        lemma_phase2_at_input(g, wg, wu, vu, vals[x]);
    }
}

/// `a - b a` is `a (1 - b)`.
proof fn lemma_one_minus(a: FieldElement, b: FieldElement)
    ensures
        fe_sub(a, fe_mul(b, a)) == fe_mul(a, fe_sub(crate::field::fe_one(), b)),
{
    let (ar, ai, br, bi) = (a.real as int, a.img as int, b.real as int, b.img as int);
    crate::field::lemma_lift(a);
    let (pr, pi) = (br * ar - bi * ai, br * ai + bi * ar);
    crate::field::lemma_hom_sub(ar, ai, pr, pi);
    crate::field::lemma_hom_mul(ar, ai, 1 - br, 0 - bi);
    id_one_minus(ar, ai, br, bi);
}

proof fn id_one_minus(ar: int, ai: int, br: int, bi: int)
    by (nonlinear_arith)
    ensures
        ar - (br * ar - bi * ai) == ar * (1 - br) - ai * (0 - bi),
        ai - (br * ai + bi * ar) == ar * (0 - bi) + ai * (1 - br),
{
}

proof fn lemma_p2_gate7(gu: FieldElement, xv: FieldElement, yv: FieldElement)
    ensures
        fe_add(fe_mul(fe_sub(fe_zero(), gu), yv), fe_add(fe_mul(gu, xv), fe_zero())) == fe_mul(gu, fe_sub(xv, yv)),
{
    let (xr, xi, yr, yi, gr, gi) = (xv.real as int, xv.img as int, yv.real as int, yv.img as int, gu.real as int, gu.img as int);
    crate::field::lemma_lift(yv);
    crate::field::lemma_lift(gu);
    crate::field::lemma_fe_of_reduced(0, 0);
    assert(fe_zero() == fe_of(0, 0));
    crate::field::lemma_hom_mul(0 - gr, 0 - gi, yr, yi);
    let (pr, pi) = (gr * xr - gi * xi, gr * xi + gi * xr);
    crate::field::lemma_hom_add(pr, pi, 0, 0);
    crate::field::lemma_hom_add((0 - gr) * yr - (0 - gi) * yi, (0 - gr) * yi + (0 - gi) * yr, pr + 0, pi + 0);
    crate::field::lemma_hom_mul(gr, gi, xr - yr, xi - yi);
    id_p2_gate7(gr, gi, xr, xi, yr, yi);
}

proof fn id_p2_gate7(gr: int, gi: int, xr: int, xi: int, yr: int, yi: int)
    by (nonlinear_arith)
    ensures
        (0 - gr) * yr - (0 - gi) * yi + (gr * xr - gi * xi + 0) == gr * (xr - yr) - gi * (xi - yi),
        (0 - gr) * yi + (0 - gi) * yr + (gr * xi + gi * xr + 0) == gr * (xi - yi) + gi * (xr - yr),
{
}

proof fn lemma_phase2_at_input(g: Gate, wg: FieldElement, wu: FieldElement, vu: FieldElement, y: FieldElement)
    requires
        g.ty == 0 || g.ty == 1 || g.ty == 6 || g.ty == 7 || g.ty == 8 || g.ty == 9 || g.ty == 10 || g.ty == 13,
    ensures
        ({
            let t = phase2_terms(g.ty, wg, wu, vu);
            let m = phase2_mult_step(g, t.0, t.1, g.v as int, fe_zero());
            let a = phase2_add_step(g, t.0, t.1, |j: int| wu, g.v as int, fe_zero());
            fe_add(fe_mul(m, y), a) == fe_mul(
                fe_mul(wg, wu),
                crate::circuit::gate_value(g.ty, 0, 1, Seq::empty(), Seq::empty(), 0, seq![vu, y]),
            )
        }),
{
    let ty = g.ty;
    let gu = fe_mul(wg, wu);
    let s = seq![vu, y];
    assert(s[0] == vu && s[1] == y);
    let z = fe_zero();
    let one = crate::field::fe_one();
    crate::field::lemma_fe_of_reduced(0, 0);
    crate::field::lemma_fe_of_reduced(wg.real * wu.real - wg.img * wu.img, wg.real * wu.img + wg.img * wu.real);
    assert(gu.reduced());
    crate::field::lemma_add_zero(gu);
    let p = fe_mul(gu, vu);
    crate::field::lemma_fe_of_reduced(gu.real * vu.real - gu.img * vu.img, gu.real * vu.img + gu.img * vu.real);
    crate::field::lemma_add_zero(p);
    if ty == 0 {
        crate::field::lemma_mul_distrib(gu, vu, y);
        crate::field::lemma_add_comm(fe_mul(gu, y), p);
    } else if ty == 1 {
        let q = fe_mul(p, y);
        crate::field::lemma_fe_of_reduced(p.real * y.real - p.img * y.img, p.real * y.img + p.img * y.real);
        crate::field::lemma_add_zero(q);
        crate::field::lemma_mul_assoc(gu, vu, y);
    } else if ty == 6 {
        let t0 = fe_sub(gu, p);
        crate::field::lemma_fe_of_reduced(gu.real - p.real, gu.img - p.img);
        crate::field::lemma_add_zero(t0);
        crate::field::lemma_mul_zero(y);
        crate::field::lemma_mul_comm(gu, vu);
        lemma_one_minus(gu, vu);
    } else if ty == 7 {
        lemma_p2_gate7(gu, vu, y);
    } else if ty == 8 {
        let t0 = fe_sub(fe_sub(gu, p), p);
        let t1 = fe_sub(gu, p);
        crate::field::lemma_fe_of_reduced(t1.real - p.real, t1.img - p.img);
        crate::field::lemma_add_zero(t0);
        lemma_gate8(gu, y, vu);
        crate::field::lemma_add_comm(y, vu);
        let two = crate::field::fe_nat(2);
        crate::field::lemma_mul_assoc(two, y, vu);
        crate::field::lemma_mul_assoc(two, vu, y);
        crate::field::lemma_mul_comm(y, vu);
    } else if ty == 9 {
        let t0 = fe_sub(gu, fe_mul(vu, gu));
        let d = fe_sub(one, vu);
        crate::field::lemma_fe_of_reduced(gu.real - fe_mul(vu, gu).real, gu.img - fe_mul(vu, gu).img);
        crate::field::lemma_add_zero(t0);
        let q = fe_mul(t0, y);
        crate::field::lemma_fe_of_reduced(t0.real * y.real - t0.img * y.img, t0.real * y.img + t0.img * y.real);
        crate::field::lemma_add_zero(q);
        lemma_one_minus(gu, vu);
        lemma_one_minus(y, vu);
        crate::field::lemma_mul_assoc(gu, d, y);
        crate::field::lemma_mul_comm(d, y);
    } else if ty == 10 {
        crate::field::lemma_mul_zero(y);
        crate::field::lemma_add_zero(z);
    } else {
        lemma_gate9(gu, y, vu);
        lemma_one_minus(vu, y);
    }
}

/// The phase-two terms of gate `k` of `gates`.
pub open spec fn phase2_gate_terms(
    gates: Seq<Gate>,
    wg: spec_fn(int) -> FieldElement,
    wu: spec_fn(int) -> FieldElement,
    vu: FieldElement,
    k: int,
) -> (FieldElement, FieldElement) {
    phase2_terms(gates[k].ty, wg(k), wu(gates[k].u as int), vu)
}

/// The constant coefficient of `add_mult_sum[x]` after the first `k` gates
/// of phase two, starting from `base`.
pub open spec fn phase2_mult_sum(
    gates: Seq<Gate>,
    wg: spec_fn(int) -> FieldElement,
    wu: spec_fn(int) -> FieldElement,
    vu: FieldElement,
    x: int,
    base: FieldElement,
    k: nat,
) -> FieldElement
    decreases k,
{
    if k == 0 {
        base
    } else {
        let t = phase2_gate_terms(gates, wg, wu, vu, k - 1);
        phase2_mult_step(gates[k - 1], t.0, t.1, x, phase2_mult_sum(gates, wg, wu, vu, x, base, (k - 1) as nat))
    }
}

/// The constant coefficient of `add_v_array[x]` after the first `k` gates
/// of phase two, starting from `base`.
pub open spec fn phase2_add_sum(
    gates: Seq<Gate>,
    wg: spec_fn(int) -> FieldElement,
    wu: spec_fn(int) -> FieldElement,
    vu: FieldElement,
    x: int,
    base: FieldElement,
    k: nat,
) -> FieldElement
    decreases k,
{
    if k == 0 {
        base
    } else {
        let t = phase2_gate_terms(gates, wg, wu, vu, k - 1);
        phase2_add_step(gates[k - 1], t.0, t.1, wu, x, phase2_add_sum(gates, wg, wu, vu, x, base, (k - 1) as nat))
    }
}

/// The positions that gate `g` reads and writes in phase two lie inside the
/// tables: `mult_len` and `add_len` entries, and second half tables of the
/// bound point of `u` with `su_len` entries, split at `size_u`.
pub open spec fn phase2_gate_ok(g: Gate, mult_len: int, add_len: int, su_len: int, size_u: int) -> bool {
    let ty = g.ty;
    &&& (g.u as int) / size_u < su_len
    &&& (ty == 0 || ty == 1 || ty == 7 || ty == 8 || ty == 9 || ty == 13) ==> g.v < mult_len
    &&& (ty == 0 || ty == 6 || ty == 7 || ty == 8 || ty == 10 || ty == 13) ==> g.v < add_len
    &&& (ty == 5 || ty == 12 || ty == 14) ==> 1 <= add_len
    &&& (ty == 5 || ty == 12) ==> forall|j: int| g.u <= j < g.v ==> #[trigger] (j / size_u) < su_len
    &&& ty == 14 ==> {
        &&& g.parameter_length <= g.src@.len()
        &&& g.parameter_length <= g.weight@.len()
        &&& forall|j: int| 0 <= j < g.parameter_length ==> (#[trigger] g.src@[j] as int) / size_u < su_len
    }
}

/// The weight of position `x` in one pair of half tables.
pub fn half_weight_at(f: &Vec<FieldElement>, s: &Vec<FieldElement>, size: usize, x: usize) -> (r: FieldElement)
    requires
        0 < size,
        size <= f@.len(),
        x / size < s@.len(),
    ensures
        r == half_weight(f@, s@, size as int, x as int),
{
    f[x % size] * s[x / size]
}

/// Applies the phase-two updates of one gate, with terms `t0` and `t1`.
fn phase2_apply(
    gate: &Gate,
    t0: FieldElement,
    t1: FieldElement,
    fu: &Vec<FieldElement>,
    su: &Vec<FieldElement>,
    size_u: usize,
    mult: &mut Vec<LinearPoly>,
    add: &mut Vec<LinearPoly>,
)
    requires
        0 < size_u,
        size_u <= fu@.len(),
        phase2_gate_ok(*gate, old(mult)@.len() as int, old(add)@.len() as int, su@.len() as int, size_u as int),
    ensures
        final(mult)@.len() == old(mult)@.len(),
        final(add)@.len() == old(add)@.len(),
        forall|x: int|
            0 <= x < old(mult)@.len() ==> #[trigger] final(mult)@[x] == (LinearPoly {
                a: old(mult)@[x].a,
                b: phase2_mult_step(*gate, t0, t1, x, old(mult)@[x].b),
            }),
        forall|x: int|
            0 <= x < old(add)@.len() ==> #[trigger] final(add)@[x] == (LinearPoly {
                a: old(add)@[x].a,
                b: phase2_add_step(*gate, t0, t1, half_weights(fu@, su@, size_u as int), x, old(add)@[x].b),
            }),
{
    let ghost wu = half_weights(fu@, su@, size_u as int);
    let ty = gate.ty;
    let u = gate.u;
    let v = gate.v;
    if ty == 0 || ty == 7 {
        if ty == 0 {
            bump(mult, v, t0);
        } else {
            lower(mult, v, t0);
        }
        let p = add[v];
        add.set(v, LinearPoly { a: p.a, b: t1 + p.b });
    } else if ty == 1 || ty == 9 {
        bump(mult, v, t0);
    } else if ty == 8 {
        bump(mult, v, t0);
        bump(add, v, t1);
    } else if ty == 13 {
        lower(mult, v, t0);
        bump(add, v, t0);
    } else if ty == 6 || ty == 10 {
        bump(add, v, t0);
    } else if ty == 5 || ty == 12 {
        let ghost a0 = add@;
        let ghost f = if ty == 5 {
            |j: int| fe_mul(t0, wu(j))
        } else {
            |j: int| fe_mul(double_times(t0, (j - u) as nat), wu(j))
        };
        let mut t = t0;
        let mut j = u;
        while j < v
            invariant
                u <= j <= v || (j == u && v < u),
                ty == gate.ty && u == gate.u && v == gate.v,
                ty == 5 || ty == 12,
                0 < size_u,
                size_u <= fu@.len(),
                forall|k: int| u <= k < v ==> #[trigger] (k / (size_u as int)) < su@.len(),
                1 <= a0.len(),
                add@.len() == a0.len(),
                wu == half_weights(fu@, su@, size_u as int),
                f == (if ty == 5 {
                    |j: int| fe_mul(t0, wu(j))
                } else {
                    |j: int| fe_mul(double_times(t0, (j - u) as nat), wu(j))
                }),
                ty == 12 ==> t == double_times(t0, (j - u) as nat),
                ty == 5 ==> t == t0,
                add@[0] == (LinearPoly { a: a0[0].a, b: acc_terms(a0[0].b, f, u as int, span(u, j)) }),
                forall|x: int| 1 <= x < a0.len() ==> #[trigger] add@[x] == a0[x],
            decreases v - j,
        {
            assert((j as int) / (size_u as int) < su@.len());
            let w = half_weight_at(fu, su, size_u, j);
            bump(add, 0, t * w);
            proof {
                assert(span(u, (j + 1) as usize) == span(u, j) + 1);
            }
            if ty == 12 {
                t = t + t;
            }
            j += 1;
        }
    } else if ty == 14 {
        let ghost a0 = add@;
        let ghost f = |j: int| fe_mul(fe_mul(t0, wu(gate.src@[j] as int)), gate.weight@[j]);
        let mut j: usize = 0;
        while j < gate.parameter_length
            invariant
                j <= gate.parameter_length,
                ty == gate.ty && ty == 14,
                0 < size_u,
                size_u <= fu@.len(),
                gate.parameter_length <= gate.src@.len(),
                gate.parameter_length <= gate.weight@.len(),
                forall|k: int| 0 <= k < gate.parameter_length ==> (#[trigger] gate.src@[k] as int) / (size_u as int) < su@.len(),
                1 <= a0.len(),
                add@.len() == a0.len(),
                wu == half_weights(fu@, su@, size_u as int),
                f == |j: int| fe_mul(fe_mul(t0, wu(gate.src@[j] as int)), gate.weight@[j]),
                add@[0] == (LinearPoly { a: a0[0].a, b: acc_terms(a0[0].b, f, 0, j as nat) }),
                forall|x: int| 1 <= x < a0.len() ==> #[trigger] add@[x] == a0[x],
            decreases gate.parameter_length - j,
        {
            let src = gate.src[j];
            assert((src as int) / (size_u as int) < su@.len());
            let w = half_weight_at(fu, su, size_u, src);
            let wt = gate.weight[j];
            bump(add, 0, t0 * w * wt);
            j += 1;
        }
    }
}

/// Phase two's pass over all gates of the layer: each gate adds its terms
/// to the two tables; `vu` is the value at the bound point of `u`.
pub fn phase2_scatter(
    gates: &Vec<Gate>,
    f0: &Vec<FieldElement>,
    s0: &Vec<FieldElement>,
    f1: &Vec<FieldElement>,
    s1: &Vec<FieldElement>,
    size: usize,
    fu: &Vec<FieldElement>,
    su: &Vec<FieldElement>,
    size_u: usize,
    vu: FieldElement,
    mult: &mut Vec<LinearPoly>,
    add: &mut Vec<LinearPoly>,
)
    requires
        0 < size,
        size <= f0@.len(),
        size <= f1@.len(),
        gates@.len() <= size * s0@.len(),
        gates@.len() <= size * s1@.len(),
        0 < size_u,
        size_u <= fu@.len(),
        forall|g: int|
            0 <= g < gates@.len() ==> phase2_gate_ok(
                #[trigger] gates@[g],
                old(mult)@.len() as int,
                old(add)@.len() as int,
                su@.len() as int,
                size_u as int,
            ),
    ensures
        final(mult)@.len() == old(mult)@.len(),
        final(add)@.len() == old(add)@.len(),
        forall|x: int|
            0 <= x < old(mult)@.len() ==> #[trigger] final(mult)@[x] == (LinearPoly {
                a: old(mult)@[x].a,
                b: phase2_mult_sum(
                    gates@,
                    split_weights(f0@, s0@, f1@, s1@, size as int),
                    half_weights(fu@, su@, size_u as int),
                    vu,
                    x,
                    old(mult)@[x].b,
                    gates@.len(),
                ),
            }),
        forall|x: int|
            0 <= x < old(add)@.len() ==> #[trigger] final(add)@[x] == (LinearPoly {
                a: old(add)@[x].a,
                b: phase2_add_sum(
                    gates@,
                    split_weights(f0@, s0@, f1@, s1@, size as int),
                    half_weights(fu@, su@, size_u as int),
                    vu,
                    x,
                    old(add)@[x].b,
                    gates@.len(),
                ),
            }),
{
    let ghost wg = split_weights(f0@, s0@, f1@, s1@, size as int);
    let ghost wu = half_weights(fu@, su@, size_u as int);
    let ghost m0 = mult@;
    let ghost a0 = add@;
    let n = gates.len();
    let mut i: usize = 0;
    while i < n
        invariant
            i <= n,
            n == gates@.len(),
            0 < size,
            size <= f0@.len(),
            size <= f1@.len(),
            n <= size * s0@.len(),
            n <= size * s1@.len(),
            0 < size_u,
            size_u <= fu@.len(),
            wg == split_weights(f0@, s0@, f1@, s1@, size as int),
            wu == half_weights(fu@, su@, size_u as int),
            mult@.len() == m0.len(),
            add@.len() == a0.len(),
            forall|g: int|
                0 <= g < n ==> phase2_gate_ok(
                    #[trigger] gates@[g],
                    m0.len() as int,
                    a0.len() as int,
                    su@.len() as int,
                    size_u as int,
                ),
            forall|x: int|
                0 <= x < m0.len() ==> #[trigger] mult@[x] == (LinearPoly {
                    a: m0[x].a,
                    b: phase2_mult_sum(gates@, wg, wu, vu, x, m0[x].b, i as nat),
                }),
            forall|x: int|
                0 <= x < a0.len() ==> #[trigger] add@[x] == (LinearPoly {
                    a: a0[x].a,
                    b: phase2_add_sum(gates@, wg, wu, vu, x, a0[x].b, i as nat),
                }),
        decreases n - i,
    {
        let ty = gates[i].ty;
        let u = gates[i].u;
        assert((i as int) / (size as int) < s0@.len() && (i as int) / (size as int) < s1@.len()) by (nonlinear_arith)
            requires
                i < n,
                n <= size * s0@.len(),
                n <= size * s1@.len(),
                0 < size,
        ;
        assert(phase2_gate_ok(gates@[i as int], m0.len() as int, a0.len() as int, su@.len() as int, size_u as int));
        let wgi = weight_at(f0, s0, f1, s1, size, i);
        let wui = half_weight_at(fu, su, size_u, u);
        let gu = wgi * wui;
        let terms: (FieldElement, FieldElement) = if ty == 0 || ty == 7 {
            (gu, gu * vu)
        } else if ty == 1 || ty == 10 {
            (gu * vu, FieldElement::zero())
        } else if ty == 5 || ty == 12 || ty == 14 {
            (wgi * vu, FieldElement::zero())
        } else if ty == 6 {
            (gu - gu * vu, FieldElement::zero())
        } else if ty == 8 {
            let t = gu * vu;
            (gu - t - t, t)
        } else if ty == 9 {
            (gu - vu * gu, FieldElement::zero())
        } else if ty == 13 {
            (gu * vu, FieldElement::zero())
        } else {
            (FieldElement::zero(), FieldElement::zero())
        };
        assert(terms == phase2_gate_terms(gates@, wg, wu, vu, i as int));
        phase2_apply(&gates[i], terms.0, terms.1, fu, su, size_u, mult, add);
        i += 1;
    }
}

/// The entries `src[0 .. k]` are all below `bound`.
pub fn sources_below(g: &Gate, k: usize, bound: usize) -> (r: bool)
    requires
        k <= g.src@.len(),
    ensures
        r == forall|j: int| 0 <= j < k ==> #[trigger] g.src@[j] < bound,
{
    let mut j: usize = 0;
    while j < k
        invariant
            j <= k,
            k <= g.src@.len(),
            forall|t: int| 0 <= t < j ==> #[trigger] g.src@[t] < bound,
        decreases k - j,
    {
        if g.src[j] >= bound {
            return false;
        }
        j += 1;
    }
    true
}

/// The entries `src[0 .. k]` all have quotient by `size` below `bound`.
pub fn sources_quotient_below(g: &Gate, k: usize, size: usize, bound: usize) -> (r: bool)
    requires
        k <= g.src@.len(),
        size > 0,
    ensures
        r == forall|j: int| 0 <= j < k ==> (#[trigger] g.src@[j] as int) / (size as int) < bound,
{
    let mut j: usize = 0;
    while j < k
        invariant
            j <= k,
            k <= g.src@.len(),
            size > 0,
            forall|t: int| 0 <= t < j ==> (#[trigger] g.src@[t] as int) / (size as int) < bound,
        decreases k - j,
    {
        if g.src[j] / size >= bound {
            return false;
        }
        j += 1;
    }
    true
}

/// `phase1_gate_ok`, computed.
pub fn phase1_gate_check(
    g: &Gate,
    vals_len: usize,
    mult_len: usize,
    add_len: usize,
    s_len: usize,
    size: usize,
) -> (r: bool)
    requires
        size > 0,
    ensures
        r == phase1_gate_ok(*g, vals_len as int, mult_len as int, add_len as int, s_len as int, size as int),
{
    let ty = g.ty;
    if (ty == 0 || ty == 1 || ty == 7 || ty == 8 || ty == 9 || ty == 13) && !(g.v < vals_len) {
        return false;
    }
    if (ty == 0 || ty == 1 || ty == 4 || ty == 6 || ty == 7 || ty == 8 || ty == 9 || ty == 10 || ty == 13)
        && !(g.u < mult_len) {
        return false;
    }
    if (ty == 0 || ty == 6 || ty == 7 || ty == 8 || ty == 9) && !(g.u < add_len) {
        return false;
    }
    if ty == 4 && !(g.u / size < s_len) {
        return false;
    }
    if (ty == 5 || ty == 12) && g.u < g.v && !(g.v <= mult_len) {
        return false;
    }
    if ty == 14 {
        if !(g.parameter_length <= g.src.len() && g.parameter_length <= g.weight.len()) {
            return false;
        }
        return sources_below(g, g.parameter_length, mult_len);
    }
    true
}

/// `phase2_gate_ok`, computed.
pub fn phase2_gate_check(g: &Gate, mult_len: usize, add_len: usize, su_len: usize, size_u: usize) -> (r: bool)
    requires
        size_u > 0,
    ensures
        r == phase2_gate_ok(*g, mult_len as int, add_len as int, su_len as int, size_u as int),
{
    let ty = g.ty;
    if !(g.u / size_u < su_len) {
        return false;
    }
    if (ty == 0 || ty == 1 || ty == 7 || ty == 8 || ty == 9 || ty == 13) && !(g.v < mult_len) {
        return false;
    }
    if (ty == 0 || ty == 6 || ty == 7 || ty == 8 || ty == 10 || ty == 13) && !(g.v < add_len) {
        return false;
    }
    if (ty == 5 || ty == 12 || ty == 14) && add_len < 1 {
        return false;
    }
    if ty == 5 || ty == 12 {
        if g.u < g.v {
            let last = g.v - 1;
            if !(last / size_u < su_len) {
                proof {
                    assert(!(((last as int) / (size_u as int)) < su_len));
                }
                return false;
            }
            proof {
                assert forall|j: int| g.u <= j < g.v implies #[trigger] (j / (size_u as int)) < su_len by {
                    vstd::arithmetic::div_mod::lemma_div_is_ordered(j, last as int, size_u as int);
                }
            }
        }
        return true;
    }
    if ty == 14 {
        if !(g.parameter_length <= g.src.len() && g.parameter_length <= g.weight.len()) {
            return false;
        }
        return sources_quotient_below(g, g.parameter_length, size_u, su_len);
    }
    true
}

} // verus!
