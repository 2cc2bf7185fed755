//! The phase-two tables of the sum-check prover add up to the claim that
//! remains once the first input is bound: summed over the positions of the
//! second input, the multiplier times the value below plus the addend is
//! the weighted sum of the gates' values at the bound first input.
use crate::circuit::{gate_value, Gate};
use crate::field::{fe_add, fe_mul, fe_sub, fe_zero, FieldElement};
use crate::sumcheck::{
    lemma_phase2_gate_contribution, phase2_add_step, phase2_add_sum, phase2_gate_terms, phase2_mult_step,
    phase2_mult_sum,
};
use vstd::prelude::*;

verus! {

/// Types of gates whose phase-two terms stand at their second input alone.
pub open spec fn two_input_type(ty: usize) -> bool {
    ty == 0 || ty == 1 || ty == 6 || ty == 7 || ty == 8 || ty == 9 || ty == 10 || ty == 13
}

/// What gate `k` contributes to the claim of phase two: its weight `wg`,
/// times the weight `wu` of its first input's position, times its value on
/// the bound first input `vu` and the value of its second input.
pub open spec fn phase2_gate_claim(
    gates: Seq<Gate>,
    wg: spec_fn(int) -> FieldElement,
    wu: spec_fn(int) -> FieldElement,
    vu: FieldElement,
    vals: Seq<FieldElement>,
    k: int,
) -> FieldElement {
    let g = gates[k];
    fe_mul(
        fe_mul(wg(k), wu(g.u as int)),
        gate_value(g.ty, 0, 1, Seq::empty(), Seq::empty(), 0, seq![vu, vals[g.v as int]]),
    )
}

/// The claim of phase two over the first `k` gates.
pub open spec fn phase2_claim(
    gates: Seq<Gate>,
    wg: spec_fn(int) -> FieldElement,
    wu: spec_fn(int) -> FieldElement,
    vu: FieldElement,
    vals: Seq<FieldElement>,
    k: nat,
) -> FieldElement
    decreases k,
{
    if k == 0 {
        fe_zero()
    } else {
        fe_add(phase2_claim(gates, wg, wu, vu, vals, (k - 1) as nat), phase2_gate_claim(gates, wg, wu, vu, vals, k - 1))
    }
}

/// Position `x` of the phase-two tables after `k` gates, taken at the
/// values below: the multiplier times `vals[x]`, plus the addend.
pub open spec fn phase2_point(
    gates: Seq<Gate>,
    wg: spec_fn(int) -> FieldElement,
    wu: spec_fn(int) -> FieldElement,
    vu: FieldElement,
    vals: Seq<FieldElement>,
    x: int,
    k: nat,
) -> FieldElement {
    fe_add(
        fe_mul(phase2_mult_sum(gates, wg, wu, vu, x, fe_zero(), k), vals[x]),
        phase2_add_sum(gates, wg, wu, vu, x, fe_zero(), k),
    )
}

/// The sum of `phase2_point` over the positions below `n`.
pub open spec fn phase2_total(
    gates: Seq<Gate>,
    wg: spec_fn(int) -> FieldElement,
    wu: spec_fn(int) -> FieldElement,
    vu: FieldElement,
    vals: Seq<FieldElement>,
    n: nat,
    k: nat,
) -> FieldElement
    decreases n,
{
    if n == 0 {
        fe_zero()
    } else {
        fe_add(phase2_total(gates, wg, wu, vu, vals, (n - 1) as nat, k), phase2_point(gates, wg, wu, vu, vals, n - 1, k))
    }
}

/// Completeness of phase two: for a layer whose gates read one or two
/// inputs (addition, multiplication, NOT, minus, XOR, NAAB, relay,
/// x-and-not-y), with the first input bound to the value `vu`, the tables
/// that the first `k` gates leave, summed over all positions as multiplier
/// times value plus addend, equal the sum over those gates of their weight,
/// times the weight of their first input's position, times their value on
/// `vu` and their second input.
pub proof fn lemma_phase2_tables_sum_to_claim(
    gates: Seq<Gate>,
    wg: spec_fn(int) -> FieldElement,
    wu: spec_fn(int) -> FieldElement,
    vu: FieldElement,
    vals: Seq<FieldElement>,
    k: nat,
)
    requires
        k <= gates.len(),
        forall|j: int| 0 <= j < k ==> two_input_type(#[trigger] gates[j].ty) && gates[j].v < vals.len(),
    ensures
        phase2_total(gates, wg, wu, vu, vals, vals.len() as nat, k) == phase2_claim(gates, wg, wu, vu, vals, k),
    decreases k,
{
    if k == 0 {
        lemma_total_empty(gates, wg, wu, vu, vals, vals.len() as nat);
    } else {
        lemma_phase2_tables_sum_to_claim(gates, wg, wu, vu, vals, (k - 1) as nat);
        assert(two_input_type(gates[k - 1].ty));
        lemma_total_step(gates, wg, wu, vu, vals, vals.len() as nat, k);
    }
}

proof fn lemma_add_reduced(a: FieldElement, b: FieldElement)
    ensures
        fe_add(a, b).reduced(),
        fe_sub(a, b).reduced(),
{
    crate::field::lemma_fe_of_reduced(a.real + b.real, a.img + b.img);
    crate::field::lemma_fe_of_reduced(a.real - b.real, a.img - b.img);
}

proof fn lemma_total_empty(
    gates: Seq<Gate>,
    wg: spec_fn(int) -> FieldElement,
    wu: spec_fn(int) -> FieldElement,
    vu: FieldElement,
    vals: Seq<FieldElement>,
    n: nat,
)
    requires
        n <= vals.len(),
    ensures
        phase2_total(gates, wg, wu, vu, vals, n, 0) == fe_zero(),
    decreases n,
{
    if n > 0 {
        lemma_total_empty(gates, wg, wu, vu, vals, (n - 1) as nat);
        crate::field::lemma_mul_zero(vals[n - 1]);
        crate::field::lemma_add_zero(fe_zero());
    }
}

/// Subtracting is adding the negation, for a canonical left operand.
proof fn lemma_sub_is_add(y: FieldElement, e: FieldElement)
    requires
        y.reduced(),
    ensures
        fe_sub(y, e) == fe_add(y, fe_sub(fe_zero(), e)),
{
    crate::field::lemma_reduce_reduced(y);
    crate::field::lemma_lift(y);
    crate::field::lemma_hom_add(y.real as int, y.img as int, 0 - e.real, 0 - e.img);
}

/// A gate's phase-two step adds to a canonical entry what it adds to zero.
proof fn lemma_step_linear(
    g: Gate,
    t0: FieldElement,
    t1: FieldElement,
    wu: spec_fn(int) -> FieldElement,
    x: int,
    m: FieldElement,
    a: FieldElement,
)
    requires
        two_input_type(g.ty),
        m.reduced(),
        a.reduced(),
    ensures
        phase2_mult_step(g, t0, t1, x, m) == fe_add(m, phase2_mult_step(g, t0, t1, x, fe_zero())),
        phase2_add_step(g, t0, t1, wu, x, a) == fe_add(a, phase2_add_step(g, t0, t1, wu, x, fe_zero())),
{
    crate::field::lemma_add_zero(m);
    crate::field::lemma_add_zero(a);
    crate::field::lemma_lift(t0);
    crate::field::lemma_lift(t1);
    if x == g.v {
        let ty = g.ty;
        if ty == 7 || ty == 13 {
            lemma_sub_is_add(m, t0);
        }
        if ty == 0 || ty == 7 {
            crate::field::lemma_add_comm(t1, a);
            crate::field::lemma_add_comm(t1, fe_zero());
        }
    }
}

/// The phase-two tables after `k` gates of those types hold canonical
/// elements.
proof fn lemma_sums_reduced(
    gates: Seq<Gate>,
    wg: spec_fn(int) -> FieldElement,
    wu: spec_fn(int) -> FieldElement,
    vu: FieldElement,
    x: int,
    k: nat,
)
    requires
        k <= gates.len(),
        forall|j: int| 0 <= j < k ==> two_input_type(#[trigger] gates[j].ty),
    ensures
        phase2_mult_sum(gates, wg, wu, vu, x, fe_zero(), k).reduced(),
        phase2_add_sum(gates, wg, wu, vu, x, fe_zero(), k).reduced(),
    decreases k,
{
    if k > 0 {
        lemma_sums_reduced(gates, wg, wu, vu, x, (k - 1) as nat);
        let g = gates[k - 1];
        assert(two_input_type(g.ty));
        let t = phase2_gate_terms(gates, wg, wu, vu, k - 1);
        let m = phase2_mult_sum(gates, wg, wu, vu, x, fe_zero(), (k - 1) as nat);
        let a = phase2_add_sum(gates, wg, wu, vu, x, fe_zero(), (k - 1) as nat);
        lemma_step_linear(g, t.0, t.1, wu, x, m, a);
        lemma_add_reduced(m, phase2_mult_step(g, t.0, t.1, x, fe_zero()));
        lemma_add_reduced(a, phase2_add_step(g, t.0, t.1, wu, x, fe_zero()));
    }
}

/// Gate `k - 1` adds its weighted value at the position of its second
/// input and nothing elsewhere.
proof fn lemma_point_step(
    gates: Seq<Gate>,
    wg: spec_fn(int) -> FieldElement,
    wu: spec_fn(int) -> FieldElement,
    vu: FieldElement,
    vals: Seq<FieldElement>,
    x: int,
    k: nat,
)
    requires
        0 < k <= gates.len(),
        forall|j: int| 0 <= j < k ==> two_input_type(#[trigger] gates[j].ty),
        gates[k - 1].v < vals.len(),
        0 <= x < vals.len(),
    ensures
        phase2_point(gates, wg, wu, vu, vals, x, k) == fe_add(
            phase2_point(gates, wg, wu, vu, vals, x, (k - 1) as nat),
            if x == gates[k - 1].v {
                phase2_gate_claim(gates, wg, wu, vu, vals, k - 1)
            } else {
                fe_zero()
            },
        ),
{
    let g = gates[k - 1];
    assert(two_input_type(g.ty));
    let t = phase2_gate_terms(gates, wg, wu, vu, k - 1);
    let m0 = phase2_mult_sum(gates, wg, wu, vu, x, fe_zero(), (k - 1) as nat);
    let a0 = phase2_add_sum(gates, wg, wu, vu, x, fe_zero(), (k - 1) as nat);
    lemma_sums_reduced(gates, wg, wu, vu, x, (k - 1) as nat);
    lemma_step_linear(g, t.0, t.1, wu, x, m0, a0);
    let m = phase2_mult_step(g, t.0, t.1, x, fe_zero());
    let a = phase2_add_step(g, t.0, t.1, wu, x, fe_zero());
    let wuv = wu(g.u as int);
    lemma_phase2_gate_contribution(g, wg(k - 1), wuv, vu, vals, x);
    assert(phase2_add_step(g, t.0, t.1, |j: int| wuv, x, fe_zero()) == a);
    let v = vals[x];
    crate::field::lemma_mul_comm(fe_add(m0, m), v);
    crate::field::lemma_mul_distrib(v, m0, m);
    crate::field::lemma_mul_comm(v, m0);
    crate::field::lemma_mul_comm(v, m);
    crate::polynomial::lemma_add_swap(fe_mul(m0, v), fe_mul(m, v), a0, a);
    if x != g.v {
        crate::field::lemma_mul_zero(v);
        crate::field::lemma_add_zero(fe_zero());
    }
}

/// Gate `k - 1` adds its weighted value to the total over the positions
/// below `n` when its second input lies there.
proof fn lemma_total_step(
    gates: Seq<Gate>,
    wg: spec_fn(int) -> FieldElement,
    wu: spec_fn(int) -> FieldElement,
    vu: FieldElement,
    vals: Seq<FieldElement>,
    n: nat,
    k: nat,
)
    requires
        0 < k <= gates.len(),
        n <= vals.len(),
        forall|j: int| 0 <= j < k ==> two_input_type(#[trigger] gates[j].ty),
        gates[k - 1].v < vals.len(),
    ensures
        phase2_total(gates, wg, wu, vu, vals, n, k) == if (gates[k - 1].v as int) < n {
            fe_add(phase2_total(gates, wg, wu, vu, vals, n, (k - 1) as nat), phase2_gate_claim(gates, wg, wu, vu, vals, k - 1))
        } else {
            phase2_total(gates, wg, wu, vu, vals, n, (k - 1) as nat)
        },
    decreases n,
{
    if n > 0 {
        let v = gates[k - 1].v as int;
        let c = phase2_gate_claim(gates, wg, wu, vu, vals, k - 1);
        lemma_total_step(gates, wg, wu, vu, vals, (n - 1) as nat, k);
        lemma_point_step(gates, wg, wu, vu, vals, n - 1, k);
        let tt = phase2_total(gates, wg, wu, vu, vals, (n - 1) as nat, (k - 1) as nat);
        let p = phase2_point(gates, wg, wu, vu, vals, n - 1, (k - 1) as nat);
        lemma_add_reduced(
            fe_mul(phase2_mult_sum(gates, wg, wu, vu, n - 1, fe_zero(), (k - 1) as nat), vals[n - 1]),
            phase2_add_sum(gates, wg, wu, vu, n - 1, fe_zero(), (k - 1) as nat),
        );
        assert(p.reduced());
        crate::field::lemma_add_zero(p);
        if n - 1 == v {
            crate::field::lemma_add_assoc(tt, p, c);
        } else if n - 1 > v {
            crate::field::lemma_add_assoc(tt, c, p);
            crate::field::lemma_add_comm(c, p);
            crate::field::lemma_add_assoc(tt, p, c);
        }
    }
}

} // verus!
