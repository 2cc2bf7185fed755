//! The phase-one tables of the sum-check prover add up to the claim of the
//! layer: summed over the positions, the multiplier times the value below
//! plus the addend is the weighted sum of the gates' values.
use crate::circuit::{gate_eval, Gate};
use crate::field::{fe_add, fe_mul, fe_sub, fe_zero, FieldElement};
use crate::sumcheck::{
    lemma_phase1_gate_contribution, phase1_add_step, phase1_add_sum, phase1_gate_terms, phase1_mult_step,
    phase1_mult_sum,
};
use vstd::prelude::*;

verus! {

/// Types of gates whose phase-one terms stand at their first input alone.
pub open spec fn pointwise_type(ty: usize) -> bool {
    ty == 0 || ty == 1 || ty == 4 || ty == 6 || ty == 7 || ty == 8 || ty == 9 || ty == 10 || ty == 13
}

/// The weight by which the claim counts gate `k`: its own, or for a direct
/// relay that of the position of its input.
pub open spec fn claim_weight(gates: Seq<Gate>, w: spec_fn(int) -> FieldElement, k: int) -> FieldElement {
    if gates[k].ty == 4 {
        w(gates[k].u as int)
    } else {
        w(k)
    }
}

/// The claim of a layer over its first `k` gates: each gate's value on the
/// values `vals` below, times its weight, summed.
pub open spec fn layer_claim(gates: Seq<Gate>, w: spec_fn(int) -> FieldElement, vals: Seq<FieldElement>, k: nat) -> FieldElement
    decreases k,
{
    if k == 0 {
        fe_zero()
    } else {
        fe_add(
            layer_claim(gates, w, vals, (k - 1) as nat),
            fe_mul(claim_weight(gates, w, k - 1), gate_eval(gates[k - 1], vals)),
        )
    }
}

/// Position `x` of the phase-one tables after `k` gates, taken at the
/// values below: the multiplier times `vals[x]`, plus the addend.
pub open spec fn phase1_point(gates: Seq<Gate>, w: spec_fn(int) -> FieldElement, vals: Seq<FieldElement>, x: int, k: nat) -> FieldElement {
    fe_add(
        fe_mul(phase1_mult_sum(gates, w, vals, x, fe_zero(), k), vals[x]),
        phase1_add_sum(gates, w, vals, x, fe_zero(), k),
    )
}

/// The sum of `phase1_point` over the positions below `n`.
pub open spec fn phase1_total(gates: Seq<Gate>, w: spec_fn(int) -> FieldElement, vals: Seq<FieldElement>, n: nat, k: nat) -> FieldElement
    decreases n,
{
    if n == 0 {
        fe_zero()
    } else {
        fe_add(phase1_total(gates, w, vals, (n - 1) as nat, k), phase1_point(gates, w, vals, n - 1, k))
    }
}

/// Completeness of phase one: for a layer whose gates read one or two
/// inputs (addition, multiplication, direct relay, NOT, minus, XOR, NAAB,
/// relay, x-and-not-y), the tables that the first `k` gates leave, summed
/// over all positions as multiplier times value plus addend, equal the
/// weighted sum of those gates' values. So the first round polynomial of an
/// honest prover sums to the claim of the layer.
pub proof fn lemma_phase1_tables_sum_to_claim(gates: Seq<Gate>, w: spec_fn(int) -> FieldElement, vals: Seq<FieldElement>, k: nat)
    requires
        k <= gates.len(),
        forall|j: int|
            0 <= j < k ==> pointwise_type(#[trigger] gates[j].ty) && gates[j].u < vals.len() && gates[j].v < vals.len(),
    ensures
        phase1_total(gates, w, vals, vals.len() as nat, k) == layer_claim(gates, w, vals, k),
    decreases k,
{
    if k == 0 {
        lemma_total_empty(gates, w, vals, vals.len() as nat);
    } else {
        lemma_phase1_tables_sum_to_claim(gates, w, vals, (k - 1) as nat);
        assert(pointwise_type(gates[k - 1].ty));
        lemma_total_step(gates, w, vals, vals.len() as nat, k);
    }
}

proof fn lemma_add_reduced(a: FieldElement, b: FieldElement)
    ensures
        fe_add(a, b).reduced(),
        fe_mul(a, b).reduced(),
        fe_sub(a, b).reduced(),
{
    crate::field::lemma_fe_of_reduced(a.real + b.real, a.img + b.img);
    crate::field::lemma_fe_of_reduced(a.real - b.real, a.img - b.img);
    crate::field::lemma_fe_of_reduced(a.real * b.real - a.img * b.img, a.real * b.img + a.img * b.real);
}

proof fn lemma_total_empty(gates: Seq<Gate>, w: spec_fn(int) -> FieldElement, vals: Seq<FieldElement>, n: nat)
    requires
        n <= vals.len(),
    ensures
        phase1_total(gates, w, vals, n, 0) == fe_zero(),
    decreases n,
{
    if n > 0 {
        lemma_total_empty(gates, w, vals, (n - 1) as nat);
        crate::field::lemma_mul_zero(vals[n - 1]);
        crate::field::lemma_add_zero(fe_zero());
    }
}

/// Subtracting is adding the negation, for a canonical left operand.
proof fn lemma_sub_is_add(y: FieldElement, e: FieldElement)
    requires
        y.reduced(),
    ensures
        fe_sub(y, e) == fe_add(y, fe_sub(fe_zero(), e)),
{
    crate::field::lemma_reduce_reduced(y);
    crate::field::lemma_lift(y);
    crate::field::lemma_hom_add(y.real as int, y.img as int, 0 - e.real, 0 - e.img);
}

/// A gate's phase-one step adds to a canonical entry what it adds to zero.
proof fn lemma_step_linear(g: Gate, t0: FieldElement, t1: FieldElement, x: int, m: FieldElement, a: FieldElement)
    requires
        pointwise_type(g.ty),
        m.reduced(),
        a.reduced(),
    ensures
        phase1_mult_step(g, t0, t1, x, m) == fe_add(m, phase1_mult_step(g, t0, t1, x, fe_zero())),
        phase1_add_step(g, t0, t1, x, a) == fe_add(a, phase1_add_step(g, t0, t1, x, fe_zero())),
{
    let z = fe_zero();
    crate::field::lemma_add_zero(m);
    crate::field::lemma_add_zero(a);
    crate::field::lemma_lift(t0);
    crate::field::lemma_lift(t1);
    let c1 = fe_add(z, t1);
    let n0 = fe_sub(z, t0);
    lemma_add_reduced(z, t1);
    lemma_add_reduced(m, t1);
    if x == g.u {
        let ty = g.ty;
        if ty == 6 || ty == 9 {
            lemma_sub_is_add(m, t1);
        } else if ty == 8 {
            let s1 = fe_add(m, c1);
            lemma_sub_is_add(s1, t0);
            crate::field::lemma_add_assoc(m, c1, n0);
            let d1 = fe_add(c1, n0);
            let s2 = fe_add(m, d1);
            lemma_add_reduced(m, d1);
            lemma_sub_is_add(s2, t0);
            crate::field::lemma_add_assoc(m, d1, n0);
            lemma_sub_is_add(c1, t0);
            lemma_add_reduced(c1, n0);
            lemma_sub_is_add(d1, t0);
        } else if ty == 13 {
            lemma_sub_is_add(m, t0);
            crate::field::lemma_add_assoc(m, n0, t1);
        }
        if ty == 7 {
            lemma_sub_is_add(a, t0);
        }
    }
}

/// The phase-one tables after `k` gates of those types hold canonical
/// elements.
proof fn lemma_sums_reduced(gates: Seq<Gate>, w: spec_fn(int) -> FieldElement, vals: Seq<FieldElement>, x: int, k: nat)
    requires
        k <= gates.len(),
        forall|j: int| 0 <= j < k ==> pointwise_type(#[trigger] gates[j].ty),
    ensures
        phase1_mult_sum(gates, w, vals, x, fe_zero(), k).reduced(),
        phase1_add_sum(gates, w, vals, x, fe_zero(), k).reduced(),
    decreases k,
{
    if k > 0 {
        lemma_sums_reduced(gates, w, vals, x, (k - 1) as nat);
        let g = gates[k - 1];
        assert(pointwise_type(g.ty));
        let t = phase1_gate_terms(gates, w, vals, k - 1);
        let m = phase1_mult_sum(gates, w, vals, x, fe_zero(), (k - 1) as nat);
        let a = phase1_add_sum(gates, w, vals, x, fe_zero(), (k - 1) as nat);
        lemma_step_linear(g, t.0, t.1, x, m, a);
        lemma_add_reduced(m, phase1_mult_step(g, t.0, t.1, x, fe_zero()));
        lemma_add_reduced(a, phase1_add_step(g, t.0, t.1, x, fe_zero()));
    }
}

/// Gate `k - 1` adds its weighted value at the position of its first input
/// and nothing elsewhere.
proof fn lemma_point_step(gates: Seq<Gate>, w: spec_fn(int) -> FieldElement, vals: Seq<FieldElement>, x: int, k: nat)
    requires
        0 < k <= gates.len(),
        forall|j: int| 0 <= j < k ==> pointwise_type(#[trigger] gates[j].ty),
        gates[k - 1].u < vals.len(),
        gates[k - 1].v < vals.len(),
        0 <= x < vals.len(),
    ensures
        phase1_point(gates, w, vals, x, k) == fe_add(
            phase1_point(gates, w, vals, x, (k - 1) as nat),
            if x == gates[k - 1].u {
                fe_mul(claim_weight(gates, w, k - 1), gate_eval(gates[k - 1], vals))
            } else {
                fe_zero()
            },
        ),
{
    let g = gates[k - 1];
    assert(pointwise_type(g.ty));
    let t = phase1_gate_terms(gates, w, vals, k - 1);
    let m0 = phase1_mult_sum(gates, w, vals, x, fe_zero(), (k - 1) as nat);
    let a0 = phase1_add_sum(gates, w, vals, x, fe_zero(), (k - 1) as nat);
    lemma_sums_reduced(gates, w, vals, x, (k - 1) as nat);
    lemma_step_linear(g, t.0, t.1, x, m0, a0);
    let m = phase1_mult_step(g, t.0, t.1, x, fe_zero());
    let a = phase1_add_step(g, t.0, t.1, x, fe_zero());
    lemma_phase1_gate_contribution(g, w(k - 1), w(g.u as int), vals, x);
    let v = vals[x];
    crate::field::lemma_mul_comm(fe_add(m0, m), v);
    crate::field::lemma_mul_distrib(v, m0, m);
    crate::field::lemma_mul_comm(v, m0);
    crate::field::lemma_mul_comm(v, m);
    crate::polynomial::lemma_add_swap(fe_mul(m0, v), fe_mul(m, v), a0, a);
    if x != g.u {
        crate::field::lemma_mul_zero(v);
        crate::field::lemma_add_zero(fe_zero());
    }
}

/// Gate `k - 1` adds its weighted value to the total over the positions
/// below `n` when its first input lies there.
proof fn lemma_total_step(gates: Seq<Gate>, w: spec_fn(int) -> FieldElement, vals: Seq<FieldElement>, n: nat, k: nat)
    requires
        0 < k <= gates.len(),
        n <= vals.len(),
        forall|j: int| 0 <= j < k ==> pointwise_type(#[trigger] gates[j].ty),
        gates[k - 1].u < vals.len(),
        gates[k - 1].v < vals.len(),
    ensures
        phase1_total(gates, w, vals, n, k) == if (gates[k - 1].u as int) < n {
            fe_add(
                phase1_total(gates, w, vals, n, (k - 1) as nat),
                fe_mul(claim_weight(gates, w, k - 1), gate_eval(gates[k - 1], vals)),
            )
        } else {
            phase1_total(gates, w, vals, n, (k - 1) as nat)
        },
    decreases n,
{
    if n > 0 {
        let u = gates[k - 1].u as int;
        let c = fe_mul(claim_weight(gates, w, k - 1), gate_eval(gates[k - 1], vals));
        lemma_total_step(gates, w, vals, (n - 1) as nat, k);
        lemma_point_step(gates, w, vals, n - 1, k);
        let tt = phase1_total(gates, w, vals, (n - 1) as nat, (k - 1) as nat);
        let p = phase1_point(gates, w, vals, n - 1, (k - 1) as nat);
        lemma_add_reduced(fe_mul(phase1_mult_sum(gates, w, vals, n - 1, fe_zero(), (k - 1) as nat), vals[n - 1]), phase1_add_sum(gates, w, vals, n - 1, fe_zero(), (k - 1) as nat));
        assert(p.reduced());
        crate::field::lemma_add_zero(p);
        if n - 1 == u {
            crate::field::lemma_add_assoc(tt, p, c);
        } else if n - 1 > u {
            crate::field::lemma_add_assoc(tt, c, p);
            crate::field::lemma_add_comm(c, p);
            crate::field::lemma_add_assoc(tt, p, c);
        }
    }
}

} // verus!
