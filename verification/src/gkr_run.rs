//! A run of the GKR protocol between the prover and the verifier, layer by
//! layer from the output down to the inputs.
use crate::field::{fe_add, fe_mul, fe_nat, fe_one, fe_reduce, fe_sub, fe_zero, FieldElement, RANDOM_BOUND};
use crate::circuit::{same_layer, same_layers, circuit_evaluable, lemma_same_layers_evaluable, lemma_same_layers_values, layer_values, Layer, LayeredCircuit};
use crate::gkr_verifier::{generate_randomness, ZkVerifier};
use crate::polynomial::{linear_eval, quadratic_eval, LinearPoly, QuadraticPoly};
use crate::prover::{fold_once, fold_table, fold_value, SumcheckInitArgs, ZkProver, SIZE};
use crate::sumcheck::{fold_lin_table, fold_pair};
use crate::field::{fe_of, lemma_fe_of_reduced, lemma_hom_add, lemma_hom_mul, lemma_hom_sub, lemma_lift, lemma_ops_reduce, lemma_reduce_reduced};
use vstd::arithmetic::power2::pow2;
use crate::utility::pow2_at_most;
use vstd::prelude::*;

verus! {

/// The bytes that a round polynomial adds to the proof.
pub const ROUND_BYTES: usize = 48;

/// `p(0) + p(1)`.
pub open spec fn round_sum(p: QuadraticPoly) -> FieldElement {
    fe_add(quadratic_eval(p, fe_zero()), quadratic_eval(p, fe_one()))
}

/// A round of phase one is consistent with the claim `claim`.
pub fn phase1_round_ok(p: &QuadraticPoly, claim: FieldElement) -> (r: bool)
    ensures
        r == (round_sum(*p) == claim),
{
    let e0 = p.eval(&FieldElement::zero());
    let e1 = p.eval(&FieldElement::real_one());
    e0 + e1 == claim
}

/// A round of phase two is consistent with the claim `claim`, the relay
/// term `relay` and the value `v_u` at the point of `u`.
pub fn phase2_round_ok(p: &QuadraticPoly, relay: FieldElement, v_u: FieldElement, claim: FieldElement) -> (r: bool)
    ensures
        r == (fe_add(round_sum(*p), fe_mul(relay, v_u)) == claim),
{
    let e0 = p.eval(&FieldElement::zero());
    let e1 = p.eval(&FieldElement::real_one());
    e0 + e1 + relay * v_u == claim
}

/// The value that the wiring predicates `preds` (one per gate type) give a
/// layer whose two inputs take the values `v_u` and `v_v`, with the relay
/// term `relay`.
pub open spec fn layer_value(preds: Seq<FieldElement>, v_u: FieldElement, v_v: FieldElement, relay: FieldElement) -> FieldElement {
    let one = fe_one();
    let terms = fe_add(
        fe_add(
            fe_add(
                fe_add(
                    fe_add(
                        fe_add(
                            fe_add(
                                fe_add(
                                    fe_add(
                                        fe_add(
                                            fe_mul(preds[0], fe_add(v_u, v_v)),
                                            fe_mul(fe_mul(preds[1], v_u), v_v),
                                        ),
                                        fe_mul(preds[6], fe_sub(one, v_u)),
                                    ),
                                    fe_mul(preds[7], fe_sub(v_u, v_v)),
                                ),
                                fe_mul(preds[8], fe_sub(fe_add(v_u, v_v), fe_mul(fe_mul(fe_nat(2), v_u), v_v))),
                            ),
                            fe_mul(preds[9], fe_sub(v_v, fe_mul(v_u, v_v))),
                        ),
                        fe_mul(preds[5], v_u),
                    ),
                    fe_mul(preds[14], v_u),
                ),
                fe_mul(preds[10], v_u),
            ),
            fe_mul(preds[12], v_u),
        ),
        fe_mul(fe_mul(preds[13], fe_sub(one, v_v)), v_u),
    );
    fe_add(terms, fe_mul(relay, v_u))
}

/// The wiring predicates that weigh gate type `t` by `c` and every other
/// type by zero.
pub open spec fn single_type_preds(t: int, c: FieldElement) -> Seq<FieldElement> {
    Seq::new(15, |k: int| if k == t { c } else { fe_zero() })
}

/// The final check of a layer weighs each gate type by the value a gate of
/// that type takes on the inputs `v_u` and `v_v`: with the predicates
/// weighing only type `t` (an addition, multiplication, NOT, minus, XOR,
/// NAAB, relay or x-and-not-y gate reading `v_u` as its first input and
/// `v_v` as its second) by `c`, and no relay term, the value the check
/// compares the claim with is `c` times that gate's value; for the
/// summation gates (sum, exponential sum, linear combination), whose
/// predicate already holds the weights of their inputs, it is `c v_u`; and
/// with all predicates zero it is the relay term alone. So an honest claim, the
/// predicates times the gates' values, passes the check.
pub proof fn lemma_layer_value_weighs_gates(t: usize, c: FieldElement, v_u: FieldElement, v_v: FieldElement, relay: FieldElement)
    requires
        t == 0 || t == 1 || t == 5 || t == 6 || t == 7 || t == 8 || t == 9 || t == 10 || t == 12 || t == 13 || t == 14,
    ensures
        !(t == 5 || t == 12 || t == 14) ==> layer_value(single_type_preds(t as int, c), v_u, v_v, fe_zero()) == fe_mul(
            c,
            crate::circuit::gate_value(t, 0, 1, Seq::empty(), Seq::empty(), 0, seq![v_u, v_v]),
        ),
        (t == 5 || t == 12 || t == 14) ==> layer_value(single_type_preds(t as int, c), v_u, v_v, fe_zero()) == fe_mul(c, v_u),
        layer_value(Seq::new(15, |k: int| fe_zero()), v_u, v_v, relay) == fe_mul(relay, v_u),
{
    let z = fe_zero();
    let one = fe_one();
    crate::field::lemma_fe_of_reduced(0, 0);
    // every product with a zero predicate is zero
    crate::field::lemma_mul_zero(fe_add(v_u, v_v));
    crate::field::lemma_mul_zero(v_u);
    crate::field::lemma_mul_zero(v_v);
    crate::field::lemma_mul_zero(fe_sub(one, v_u));
    crate::field::lemma_mul_zero(fe_sub(v_u, v_v));
    crate::field::lemma_mul_zero(fe_sub(fe_add(v_u, v_v), fe_mul(fe_mul(fe_nat(2), v_u), v_v)));
    crate::field::lemma_mul_zero(fe_sub(v_v, fe_mul(v_u, v_v)));
    crate::field::lemma_mul_zero(fe_sub(one, v_v));
    crate::field::lemma_mul_zero(fe_mul(z, fe_sub(one, v_v)));
    crate::field::lemma_mul_zero(fe_mul(z, v_u));
    // products are canonical, so adding zero keeps them
    let prods = seq![
        fe_mul(c, fe_add(v_u, v_v)),
        fe_mul(fe_mul(c, v_u), v_v),
        fe_mul(c, fe_sub(one, v_u)),
        fe_mul(c, fe_sub(v_u, v_v)),
        fe_mul(c, fe_sub(fe_add(v_u, v_v), fe_mul(fe_mul(fe_nat(2), v_u), v_v))),
        fe_mul(c, fe_sub(v_v, fe_mul(v_u, v_v))),
        fe_mul(c, v_u),
        fe_mul(fe_mul(c, fe_sub(one, v_v)), v_u),
        fe_mul(relay, v_u),
    ];
    assert forall|i: int| 0 <= i < prods.len() implies (#[trigger] prods[i]).reduced() by {
        let a = prods[i];
        assert(exists|p: FieldElement, q: FieldElement| a == fe_mul(p, q));
        let (p, q) = choose|p: FieldElement, q: FieldElement| a == fe_mul(p, q);
        crate::field::lemma_fe_of_reduced(p.real * q.real - p.img * q.img, p.real * q.img + p.img * q.real);
    }
    assert forall|i: int| 0 <= i < prods.len() implies fe_add(z, #[trigger] prods[i]) == prods[i] && fe_add(prods[i], z) == prods[i] by {
        crate::field::lemma_add_zero(prods[i]);
    }
    crate::field::lemma_add_zero(z);
    let preds = single_type_preds(t as int, c);
    assert(preds[0] == (if t == 0 { c } else { z }));
    assert(preds[1] == (if t == 1 { c } else { z }));
    assert(preds[5] == (if t == 5 { c } else { z }));
    assert(preds[12] == (if t == 12 { c } else { z }));
    assert(preds[14] == (if t == 14 { c } else { z }));
    assert(preds[6] == (if t == 6 { c } else { z }));
    assert(preds[7] == (if t == 7 { c } else { z }));
    assert(preds[8] == (if t == 8 { c } else { z }));
    assert(preds[9] == (if t == 9 { c } else { z }));
    assert(preds[10] == (if t == 10 { c } else { z }));
    assert(preds[13] == (if t == 13 { c } else { z }));
    // the two gates whose predicate term groups the factors differently
    crate::field::lemma_mul_assoc(c, v_u, v_v);
    crate::field::lemma_mul_assoc(c, fe_sub(one, v_v), v_u);
    crate::field::lemma_mul_comm(fe_sub(one, v_v), v_u);
    assert(prods[1] == fe_mul(c, fe_mul(v_u, v_v)));
    assert(prods[7] == fe_mul(c, fe_mul(v_u, fe_sub(one, v_v))));
    let zs = Seq::new(15, |k: int| fe_zero());
    assert(zs[0] == z && zs[1] == z && zs[5] == z && zs[6] == z && zs[7] == z && zs[8] == z);
    assert(zs[9] == z && zs[10] == z && zs[12] == z && zs[13] == z && zs[14] == z);
}

/// The final check of a layer: the claim equals `layer_value`.
pub fn layer_ok(
    claim: FieldElement,
    preds: &Vec<FieldElement>,
    v_u: FieldElement,
    v_v: FieldElement,
    relay: FieldElement,
) -> (r: bool)
    requires
        preds@.len() == 15,
    ensures
        r == (claim == layer_value(preds@, v_u, v_v, relay)),
{
    let one = FieldElement::real_one();
    let terms = preds[0] * (v_u + v_v) + preds[1] * v_u * v_v + preds[6] * (one - v_u) + preds[7] * (v_u - v_v)
        + preds[8] * (v_u + v_v - FieldElement::from_real(2) * v_u * v_v) + preds[9] * (v_v - v_u * v_v)
        + preds[5] * v_u + preds[14] * v_u + preds[10] * v_u + preds[12] * v_u + preds[13] * (one - v_v)
        * v_u;
    claim == terms + relay * v_u
}

/// `1 - r` for every coordinate of `r`.
pub open spec fn complements(r: Seq<FieldElement>) -> Seq<FieldElement> {
    Seq::new(r.len(), |k: int| fe_sub(fe_nat(1), r[k]))
}

fn complement(r: &Vec<FieldElement>) -> (c: Vec<FieldElement>)
    ensures
        c@ == complements(r@),
{
    let mut c: Vec<FieldElement> = Vec::new();
    let mut k: usize = 0;
    while k < r.len()
        invariant
            k <= r@.len(),
            c@ == complements(r@).subrange(0, k as int),
        decreases r@.len() - k,
    {
        c.push(FieldElement::from_real(1) - r[k]);
        k += 1;
    }
    assert(c@ =~= complements(r@));
    c
}

fn copy_elements(v: &Vec<FieldElement>) -> (c: Vec<FieldElement>)
    ensures
        c@ == v@,
{
    let mut c: Vec<FieldElement> = Vec::new();
    let mut k: usize = 0;
    while k < v.len()
        invariant
            k <= v@.len(),
            c@ == v@.subrange(0, k as int),
        decreases v@.len() - k,
    {
        c.push(v[k]);
        k += 1;
    }
    assert(c@ =~= v@);
    c
}

/// The outcome of a run.
pub enum Verdict {
    /// Every check passed; `claim` is the value at the point `r` (with
    /// `one_minus_r` its complements) of the input layer's multilinear
    /// extension, which a commitment to the inputs would be opened at. That
    /// opening is not part of this library.
    Accepted { claim: FieldElement, r: Vec<FieldElement>, one_minus_r: Vec<FieldElement> },
    /// A round of phase one of layer `layer` was inconsistent.
    Phase1Rejected { layer: usize, round: usize },
    /// A round of phase two of layer `layer` was inconsistent.
    Phase2Rejected { layer: usize, round: usize },
    /// The final check of layer `layer` failed.
    LayerRejected { layer: usize },
    /// The output at position `index` is not the combined codeword at the
    /// queried position.
    QueryMismatch { index: usize },
    /// The circuit, the inputs or the tables do not fit together.
    Malformed,
}

/// The round polynomials sent for the layers `i + 1 .. depth`: two phases
/// of `bit_length` rounds of the layer below each of them.
pub open spec fn rounds_above(layers: Seq<Layer>, depth: int, i: int) -> int
    decreases depth - i,
{
    if i + 1 >= depth {
        0
    } else {
        2 * layers[i].bit_length + rounds_above(layers, depth, i + 1)
    }
}

/// The values of the output layer of the circuit on `inputs`.
pub open spec fn circuit_outputs(a: LayeredCircuit, inputs: Seq<FieldElement>) -> Seq<FieldElement> {
    layer_values(a.circuit@, inputs, (a.total_depth - 1) as nat)
}

/// The first `n` outputs equal the combined codeword at the queried
/// positions.
pub open spec fn queries_match(outs: Seq<FieldElement>, codeword: Seq<FieldElement>, q: Seq<usize>, n: int) -> bool {
    &&& n <= outs.len()
    &&& n <= q.len()
    &&& forall|k: int| 0 <= k < n ==> (#[trigger] q[k]) < codeword.len() && outs[k] == codeword[q[k] as int]
}

/// One more matching query extends the matching prefix.
proof fn lemma_queries_extend(outs: Seq<FieldElement>, codeword: Seq<FieldElement>, q: Seq<usize>, n: int)
    requires
        0 <= n,
        queries_match(outs, codeword, q, n),
        n < outs.len() && n < q.len() && q[n] < codeword.len(),
        outs[n] == codeword[q[n] as int],
    ensures
        queries_match(outs, codeword, q, n + 1),
{
    assert forall|t: int| 0 <= t < n + 1 implies (#[trigger] q[t]) < codeword.len() && outs[t] == codeword[q[t] as int] by {
        if t < n {
            assert(q[t] < codeword.len());
        }
    }
}

/// A linear polynomial is the interpolation of its values at `0` and `1`:
/// `l(x) = (1 - x) l(0) + x l(1)`.
proof fn lemma_linear_interpolation(l: LinearPoly, x: FieldElement)
    ensures
        linear_eval(l, x) == fe_add(
            fe_mul(linear_eval(l, fe_zero()), fe_sub(fe_nat(1), x)),
            fe_mul(linear_eval(l, fe_one()), x),
        ),
{
    let (ar, ai) = (l.a.real as int, l.a.img as int);
    let (br, bi) = (l.b.real as int, l.b.img as int);
    let (xr, xi) = (x.real as int, x.img as int);
    lemma_lift(l.a);
    lemma_lift(l.b);
    lemma_lift(x);
    // l(x)
    lemma_hom_mul(ar, ai, xr, xi);
    assert(fe_mul(l.a, x) == fe_of(ar * xr - ai * xi, ar * xi + ai * xr)) by {
        assert(fe_mul(l.a, x) == fe_mul(fe_reduce(l.a), x));
        assert(fe_mul(fe_reduce(l.a), x) == fe_mul(fe_reduce(l.a), fe_reduce(x)));
    }
    lemma_hom_add(ar * xr - ai * xi, ar * xi + ai * xr, br, bi);
    assert(linear_eval(l, x) == fe_of(ar * xr - ai * xi + br, ar * xi + ai * xr + bi));
    // l(0) and l(1)
    assert(fe_mul(l.a, fe_zero()) == fe_of(0, 0)) by {
        assert(ar * 0 - ai * 0 == 0 && ar * 0 + ai * 0 == 0) by (nonlinear_arith);
    }
    lemma_hom_add(0, 0, br, bi);
    let e0 = linear_eval(l, fe_zero());
    assert(e0 == fe_of(br, bi));
    assert(fe_mul(l.a, fe_one()) == fe_of(ar, ai)) by {
        assert(ar * 1 - ai * 0 == ar && ar * 0 + ai * 1 == ai) by (nonlinear_arith);
    }
    lemma_hom_add(ar, ai, br, bi);
    let e1 = linear_eval(l, fe_one());
    assert(e1 == fe_of(ar + br, ai + bi));
    // 1 - x
    lemma_hom_sub(1, 0, xr, xi);
    let omx = fe_sub(fe_nat(1), x);
    assert(omx == fe_of(1 - xr, 0 - xi)) by {
        assert(fe_sub(fe_nat(1), x) == fe_sub(fe_nat(1), fe_reduce(x))) by {
            lemma_ops_reduce(x, fe_nat(1));
            lemma_fe_of_reduced(xr, xi);
        }
    }
    lemma_hom_mul(br, bi, 1 - xr, 0 - xi);
    lemma_hom_mul(ar + br, ai + bi, xr, xi);
    assert(fe_mul(e1, x) == fe_mul(e1, fe_reduce(x)));
    let t0r = br * (1 - xr) - bi * (0 - xi);
    let t0i = br * (0 - xi) + bi * (1 - xr);
    let t1r = (ar + br) * xr - (ai + bi) * xi;
    let t1i = (ar + br) * xi + (ai + bi) * xr;
    lemma_hom_add(t0r, t0i, t1r, t1i);
    assert(t0r + t1r == ar * xr - ai * xi + br && t0i + t1i == ar * xi + ai * xr + bi) by (nonlinear_arith)
        requires
            t0r == br * (1 - xr) - bi * (0 - xi),
            t0i == br * (0 - xi) + bi * (1 - xr),
            t1r == (ar + br) * xr - (ai + bi) * xi,
            t1i == (ar + br) * xi + (ai + bi) * xr,
    ;
}

/// Phase one of a layer's sum-check has run `j` of its `bl` rounds on the
/// values `vals` of the previous layer, to be bound to the point `r` (`omr`
/// its complements): `2^(bl - j)` entries remain; before the first round
/// entry `x` is the constant `vals[x]`; after it, entry `i` is worth at `0`
/// and at `1` the entries `2i` and `2i + 1` of the values folded with the
/// first `j - 1` coordinates of `r`.
#[verifier::opaque]
spec fn phase1_folded(p: ZkProver, vals: Seq<FieldElement>, omr: Seq<FieldElement>, r: Seq<FieldElement>, j: nat, bl: nat) -> bool {
    let t = fold_table(vals, omr, r, (j - 1) as nat);
    &&& j <= bl
    &&& p.total_uv == pow2((bl - j) as nat)
    &&& vals.len() >= pow2(bl)
    &&& j == 0 ==> forall|x: int| 0 <= x < pow2(bl) ==> (#[trigger] p.v_mult_add@[x]) == (LinearPoly { a: fe_zero(), b: vals[x] })
    &&& j >= 1 ==> forall|i: int|
        0 <= i < p.total_uv ==> linear_eval(#[trigger] p.v_mult_add@[i], fe_zero()) == fe_reduce(t[2 * i])
            && linear_eval(p.v_mult_add@[i], fe_one()) == fe_reduce(t[2 * i + 1])
}

/// Folding `m` times a table of at least `2^k` values (`m <= k`) leaves at
/// least `2^(k - m)` of them.
proof fn lemma_fold_table_len(s: Seq<FieldElement>, omr: Seq<FieldElement>, r: Seq<FieldElement>, m: nat, k: nat)
    requires
        s.len() >= pow2(k),
        m <= k,
    ensures
        fold_table(s, omr, r, m).len() >= pow2((k - m) as nat),
    decreases m,
{
    if m > 0 {
        lemma_fold_table_len(s, omr, r, (m - 1) as nat, k);
        vstd::arithmetic::power2::lemma_pow2_unfold((k - m + 1) as nat);
    }
}

/// A constant entry is worth its value, reduced, at zero.
proof fn lemma_constant_entry(v: FieldElement)
    ensures
        linear_eval(LinearPoly { a: fe_zero(), b: v }, fe_zero()) == fe_reduce(v),
{
    assert(fe_mul(fe_zero(), fe_zero()) == fe_zero()) by {
        lemma_fe_of_reduced(0, 0);
    }
}

/// A folded value, and so a value of a folded table past the first fold, is
/// canonical.
proof fn lemma_folded_reduced(t: Seq<FieldElement>, a: FieldElement, b: FieldElement, x: int)
    requires
        0 <= x < t.len() / 2,
    ensures
        fe_reduce(fold_once(t, a, b)[x]) == fold_once(t, a, b)[x],
{
    let u = fe_mul(t[2 * x], a);
    let w = fe_mul(t[2 * x + 1], b);
    lemma_fe_of_reduced(u.real + w.real, u.img + w.img);
    lemma_reduce_reduced(fold_once(t, a, b)[x]);
}

/// Entry `x` before a round, read off `phase1_folded`.
proof fn lemma_phase1_entry(p0: ZkProver, vals: Seq<FieldElement>, r: Seq<FieldElement>, j: nat, bl: nat, x: int)
    requires
        phase1_folded(p0, vals, complements(r), r, j, bl),
        j < bl,
        0 <= x < p0.total_uv,
    ensures
        j == 0 ==> p0.v_mult_add@[x] == (LinearPoly { a: fe_zero(), b: vals[x] }),
        j >= 1 ==> linear_eval(p0.v_mult_add@[x], fe_zero()) == fe_reduce(fold_table(vals, complements(r), r, (j - 1) as nat)[2 * x]),
        j >= 1 ==> linear_eval(p0.v_mult_add@[x], fe_one()) == fe_reduce(fold_table(vals, complements(r), r, (j - 1) as nat)[2 * x + 1]),
        p0.total_uv == pow2((bl - j) as nat),
        vals.len() >= pow2(bl),
{
    reveal(phase1_folded);
}

/// Bound to `y`, an entry worth `t[2x]` at `0` and `t[2x + 1]` at `1` is
/// the fold of `t` at `x`.
proof fn lemma_entry_fold(l: LinearPoly, t: Seq<FieldElement>, a: FieldElement, y: FieldElement, x: int)
    requires
        0 <= x < t.len() / 2,
        a == fe_sub(fe_nat(1), y),
        linear_eval(l, fe_zero()) == fe_reduce(t[2 * x]),
        linear_eval(l, fe_one()) == fe_reduce(t[2 * x + 1]),
    ensures
        linear_eval(l, y) == fold_once(t, a, y)[x],
        fe_reduce(fold_once(t, a, y)[x]) == fold_once(t, a, y)[x],
{
    lemma_linear_interpolation(l, y);
    lemma_ops_reduce(t[2 * x], a);
    lemma_ops_reduce(t[2 * x + 1], y);
    crate::field::lemma_mul_comm(fe_reduce(t[2 * x]), a);
    crate::field::lemma_mul_comm(t[2 * x], a);
    crate::field::lemma_mul_comm(fe_reduce(t[2 * x + 1]), y);
    crate::field::lemma_mul_comm(t[2 * x + 1], y);
    lemma_folded_reduced(t, a, y, x);
}

/// The entries before a round, bound to the round's point, are the values
/// folded with the coordinates bound so far.
proof fn lemma_phase1_bound(p0: ZkProver, vals: Seq<FieldElement>, r: Seq<FieldElement>, j: nat, bl: nat, prev: FieldElement, x: int)
    requires
        phase1_folded(p0, vals, complements(r), r, j, bl),
        j < bl,
        j < usize::MAX,
        r.len() >= bl,
        j >= 1 ==> prev == r[j - 1],
        0 <= x < p0.total_uv,
    ensures
        linear_eval(p0.v_mult_add@[x], crate::sumcheck_rounds::bound_point(j as usize, prev)) == fe_reduce(
            fold_table(vals, complements(r), r, j)[x],
        ),
        fold_table(vals, complements(r), r, j).len() >= pow2((bl - j) as nat),
{
    let omr = complements(r);
    assert((j as usize) as nat == j);
    lemma_phase1_entry(p0, vals, r, j, bl, x);
    lemma_fold_table_len(vals, omr, r, j, bl);
    if j == 0 {
        assert((bl - j) as nat == bl);
        lemma_constant_entry(vals[x]);
    } else {
        lemma_phase1_bound_later(p0.v_mult_add@[x], vals, omr, r, j, bl, x);
    }
}

/// `lemma_phase1_bound` past the first round.
#[verifier::spinoff_prover]
proof fn lemma_phase1_bound_later(l: LinearPoly, vals: Seq<FieldElement>, omr: Seq<FieldElement>, r: Seq<FieldElement>, j: nat, bl: nat, x: int)
    requires
        omr == complements(r),
        1 <= j < bl,
        r.len() >= bl,
        vals.len() >= pow2(bl),
        0 <= x < pow2((bl - j) as nat),
        linear_eval(l, fe_zero()) == fe_reduce(fold_table(vals, omr, r, (j - 1) as nat)[2 * x]),
        linear_eval(l, fe_one()) == fe_reduce(fold_table(vals, omr, r, (j - 1) as nat)[2 * x + 1]),
    ensures
        linear_eval(l, r[j - 1]) == fe_reduce(fold_table(vals, omr, r, j)[x]),
{
    let t = fold_table(vals, omr, r, (j - 1) as nat);
    lemma_fold_table_len(vals, omr, r, (j - 1) as nat, bl);
    vstd::arithmetic::power2::lemma_pow2_unfold((bl - j + 1) as nat);
    assert((bl - (j - 1)) as nat == (bl - j + 1) as nat);
    assert(omr[j - 1] == fe_sub(fe_nat(1), r[j - 1]));
    assert(fold_table(vals, omr, r, j) == fold_once(t, omr[j - 1], r[j - 1]));
    lemma_entry_fold(l, t, omr[j - 1], r[j - 1], x);
}

/// A round of phase one keeps `phase1_folded`, one round further.
proof fn lemma_phase1_step(p0: ZkProver, p1: ZkProver, vals: Seq<FieldElement>, r: Seq<FieldElement>, j: nat, bl: nat, prev: FieldElement)
    requires
        phase1_folded(p0, vals, complements(r), r, j, bl),
        j < bl,
        j < usize::MAX,
        r.len() >= bl,
        p0.round_ready(),
        p1.folded_from(&p0, j as usize, prev),
        j >= 1 ==> prev == r[j - 1],
    ensures
        phase1_folded(p1, vals, complements(r), r, j + 1, bl),
{
    let omr = complements(r);
    let h = pow2((bl - j - 1) as nat);
    assert(p0.total_uv == pow2((bl - j) as nat)) by {
        reveal(phase1_folded);
    }
    assert(vals.len() >= pow2(bl)) by {
        reveal(phase1_folded);
    }
    vstd::arithmetic::power2::lemma_pow2_unfold((bl - j) as nat);
    assert((bl - j - 1) as nat == ((bl - j) as nat - 1) as nat);
    assert(p0.total_uv == 2 * h);
    let t = fold_table(vals, omr, r, j);
    assert forall|i: int| 0 <= i < p1.total_uv implies linear_eval(#[trigger] p1.v_mult_add@[i], fe_zero()) == fe_reduce(t[2 * i])
        && linear_eval(p1.v_mult_add@[i], fe_one()) == fe_reduce(t[2 * i + 1]) by {
        let bp = crate::sumcheck_rounds::bound_point(j as usize, prev);
        assert(p1.v_mult_add@[i] == fold_pair(p0.v_mult_add@[2 * i], p0.v_mult_add@[2 * i + 1], j as usize, prev));
        crate::sumcheck_rounds::lemma_fold_pair_eval(p0.v_mult_add@[2 * i], p0.v_mult_add@[2 * i + 1], j as usize, prev);
        lemma_phase1_bound(p0, vals, r, j, bl, prev, 2 * i);
        lemma_phase1_bound(p0, vals, r, j, bl, prev, 2 * i + 1);
    }
    reveal(phase1_folded);
    assert(((j + 1) - 1) as nat == j);
}

/// Before the first round: the entries are the previous layer's values.
proof fn lemma_phase1_start(p: ZkProver, r: Seq<FieldElement>, bl: nat)
    requires
        p.total_uv == p.prev_count(),
        pow2(bl) == p.prev_count(),
        p.prev_count() <= p.prev_values().len(),
        forall|x: int| 0 <= x < p.prev_count() ==> #[trigger] p.v_mult_add@[x] == (LinearPoly { a: fe_zero(), b: p.prev_values()[x] }),
    ensures
        phase1_folded(p, p.prev_values(), complements(r), r, 0, bl),
{
    reveal(phase1_folded);
}

/// After the last round, the remaining entry bound to the last coordinate
/// is the previous layer's values folded with all of `r`.
proof fn lemma_phase1_end(p: ZkProver, vals: Seq<FieldElement>, r: Seq<FieldElement>, bl: nat, prev: FieldElement)
    requires
        phase1_folded(p, vals, complements(r), r, bl, bl),
        r.len() >= bl,
        bl >= 1 ==> prev == r[bl - 1],
        bl == 0 ==> prev == fe_zero(),
    ensures
        linear_eval(p.v_mult_add@[0], prev) == fe_reduce(fold_value(vals, complements(r), r, bl)),
{
    let omr = complements(r);
    reveal(phase1_folded);
    vstd::arithmetic::power2::lemma_pow2_pos(bl);
    if bl == 0 {
        lemma_constant_entry(vals[0]);
    } else {
        let t = fold_table(vals, omr, r, (bl - 1) as nat);
        lemma_fold_table_len(vals, omr, r, (bl - 1) as nat, bl);
        lemma_fold_table_len(vals, omr, r, bl, bl);
        assert((bl - (bl - 1)) as nat == 1);
        vstd::arithmetic::power2::lemma2_to64();
        assert(fold_table(vals, omr, r, bl) == fold_once(t, omr[bl - 1], r[bl - 1]));
        lemma_entry_fold(p.v_mult_add@[0], t, omr[bl - 1], r[bl - 1], 0);
    }
}

/// Every layer has `2^bit_length` gates.
pub open spec fn layers_full(a: LayeredCircuit) -> bool {
    forall|j: int| 0 <= j < a.circuit@.len() ==> (#[trigger] a.circuit@[j]).gates@.len() == pow2(a.circuit@[j].bit_length as nat)
}

/// Past the first round, which round a fold belongs to does not matter.
proof fn lemma_folded_any_later_round(s1: ZkProver, s2: ZkProver, bit: usize, r: FieldElement)
    requires
        bit >= 1,
        s2.folded_from(&s1, bit, r),
    ensures
        s2.folded_from(&s1, 1, r),
{
    let half = (s1.total_uv / 2) as int;
    assert(fold_lin_table(s1.v_mult_add@, s1.ctx.v_mult_add_new@, half, bit, r) =~= fold_lin_table(
        s1.v_mult_add@,
        s1.ctx.v_mult_add_new@,
        half,
        1,
        r,
    ));
    assert(fold_lin_table(s1.add_v_array@, s1.ctx.add_v_array_new@, half, bit, r) =~= fold_lin_table(
        s1.add_v_array@,
        s1.ctx.add_v_array_new@,
        half,
        1,
        r,
    ));
    assert(fold_lin_table(s1.add_mult_sum@, s1.ctx.add_mult_sum_new@, half, bit, r) =~= fold_lin_table(
        s1.add_mult_sum@,
        s1.ctx.add_mult_sum_new@,
        half,
        1,
        r,
    ));
}

/// `s1` came from `s0` by a round with `b0` and `r0` that returned `p1`.
#[verifier::opaque]
spec fn round_link(s0: ZkProver, s1: ZkProver, b0: usize, r0: FieldElement, p1: QuadraticPoly) -> bool {
    &&& s0.round_ready()
    &&& s1.folded_from(&s0, b0, r0)
    &&& s1.round_result(&s0, p1)
}

proof fn lemma_round_link(s0: ZkProver, s1: ZkProver, b0: usize, r0: FieldElement, p1: QuadraticPoly)
    requires
        s0.round_ready(),
        s1.folded_from(&s0, b0, r0),
        s1.round_result(&s0, p1),
    ensures
        round_link(s0, s1, b0, r0, p1),
        s1.total_uv == s0.total_uv / 2,
{
    reveal(round_link);
}

/// A round after the first agrees with the claim the previous round left:
/// its values at `0` and `1` add up to the previous round polynomial at the
/// point that round's variable was bound to.
proof fn lemma_next_round_agrees(
    s0: ZkProver,
    s1: ZkProver,
    s2: ZkProver,
    b0: usize,
    r0: FieldElement,
    r: FieldElement,
    p1: QuadraticPoly,
    p2: QuadraticPoly,
    j: usize,
    bl: nat,
)
    requires
        1 <= j < bl,
        s0.total_uv == pow2((bl - j + 1) as nat),
        round_link(s0, s1, b0, r0, p1),
        round_link(s1, s2, j, r, p2),
    ensures
        round_sum(p2) == quadratic_eval(p1, r),
{
    reveal(round_link);
    lemma_folded_any_later_round(s1, s2, j, r);
    let k = (bl - j - 1) as nat;
    assert(k + 2 == (bl - j + 1) as nat);
    crate::sumcheck_rounds::lemma_rounds_consistent(s0, s1, s2, b0, r0, r, p1, p2, k);
}

/// Layer `k` of a copy has the original's gate count and bit length.
proof fn lemma_same_layer_shape(a: Seq<Layer>, b: Seq<Layer>, k: int)
    requires
        same_layers(a, b),
        0 <= k < a.len(),
    ensures
        a[k].gates@.len() == b[k].gates@.len(),
        a[k].bit_length == b[k].bit_length,
{
    assert(same_layer(a[k], b[k]));
}

/// In a circuit whose layers are full, layer `k` has `2^bit_length` gates.
proof fn lemma_full_at(a: LayeredCircuit, k: int)
    requires
        layers_full(a),
        0 <= k < a.circuit@.len(),
    ensures
        a.circuit@[k].gates@.len() == pow2(a.circuit@[k].bit_length as nat),
{
    assert(a.circuit@[k].gates@.len() == pow2(a.circuit@[k].bit_length as nat));
}

/// The input layer has `2^bit_length` gates.
pub open spec fn input_layer_full(a: LayeredCircuit) -> bool {
    a.circuit@.len() >= 1 && a.circuit@[0].gates@.len() == pow2(a.circuit@[0].bit_length as nat)
}

/// A run can start on the circuit `a` with the inputs `inputs` and tables
/// for layers of up to `bit_length` bits: the depth fits the circuit and
/// stays below `SIZE`, the tables fit in memory, and the circuit can be
/// evaluated on the inputs.
pub open spec fn run_ready(a: LayeredCircuit, inputs: Seq<FieldElement>, bit_length: nat) -> bool {
    &&& 1 <= a.total_depth <= a.circuit@.len()
    &&& a.total_depth < SIZE
    &&& pow2(bit_length) <= usize::MAX
    &&& pow2(bit_length / 2 + 1) <= usize::MAX
    &&& circuit_evaluable(a.circuit@, inputs, a.total_depth as int)
}

impl ZkVerifier {
    /// Runs the protocol with a fresh prover on the circuit and `inputs`,
    /// with tables for layers of up to `bit_length` bits: the output is
    /// evaluated at a random point, each layer's claim is reduced by the two
    /// sum-check phases to the previous layer, and the final checks are
    /// made; then the outputs are compared with the combined codeword at the
    /// queried positions `q[0 .. query_count]`.
    #[verifier::rlimit(100)]
    #[verifier::spinoff_prover]
    pub fn verify(
        &mut self,
        bit_length: usize,
        inputs: Vec<FieldElement>,
        query_count: usize,
        combined_codeword: Vec<FieldElement>,
        q: Vec<usize>,
    ) -> (r: Verdict)
        ensures
            final(self).a_c == old(self).a_c,
            r matches Verdict::Accepted { claim, r, one_minus_r } ==> {
                &&& r@.len() == old(self).a_c.circuit@[0].bit_length
                &&& one_minus_r@ == complements(r@)
                &&& forall|k: int| 0 <= k < r@.len() ==> (#[trigger] r@[k]).real < RANDOM_BOUND
            },
            r matches Verdict::Phase1Rejected { layer, round } ==> 1 <= layer < old(self).a_c.total_depth
                && round < old(self).a_c.circuit@[layer - 1].bit_length,
            r matches Verdict::Phase2Rejected { layer, round } ==> 1 <= layer < old(self).a_c.total_depth
                && round < old(self).a_c.circuit@[layer - 1].bit_length,
            r matches Verdict::LayerRejected { layer } ==> 1 <= layer < old(self).a_c.total_depth,
            r matches Verdict::QueryMismatch { index } ==> index < query_count,
            !(r is Malformed) ==> circuit_evaluable(old(self).a_c.circuit@, inputs@, old(self).a_c.total_depth as int),
            !run_ready(old(self).a_c, inputs@, bit_length as nat) ==> r is Malformed,
            layers_full(old(self).a_c) ==> (r matches Verdict::Phase1Rejected { round, .. } ==> round == 0),
            layers_full(old(self).a_c) ==> (r matches Verdict::Phase2Rejected { round, .. } ==> round == 0),
            input_layer_full(old(self).a_c) ==> (r matches Verdict::Accepted { claim, r, one_minus_r } ==> claim == fe_reduce(
                fold_value(inputs@, one_minus_r@, r@, r@.len()),
            )),
            run_ready(old(self).a_c, inputs@, bit_length as nat) && old(self).a_c.total_depth == 1 && inputs@.len() > 0 ==> {
                &&& r is Accepted <==> queries_match(circuit_outputs(old(self).a_c, inputs@), combined_codeword@, q@, query_count as int)
                &&& r matches Verdict::Accepted { claim, r, one_minus_r } ==> claim == fe_reduce(fold_value(inputs@, one_minus_r@, r@, r@.len()))
            },
            ({
                let layers = old(self).a_c.circuit@;
                let depth = old(self).a_c.total_depth as int;
                let outs = circuit_outputs(old(self).a_c, inputs@);
                &&& r is Accepted ==> {
                    &&& queries_match(outs, combined_codeword@, q@, query_count as int)
                    &&& final(self).proof_size == ROUND_BYTES * rounds_above(layers, depth, 0)
                }
                &&& r matches Verdict::QueryMismatch { index } ==> {
                    &&& queries_match(outs, combined_codeword@, q@, index as int)
                    &&& index < outs.len() && index < q@.len() && q@[index as int] < combined_codeword@.len()
                    &&& outs[index as int] != combined_codeword@[q@[index as int] as int]
                    &&& final(self).proof_size == ROUND_BYTES * rounds_above(layers, depth, 0)
                }
                &&& r matches Verdict::Phase1Rejected { layer, round } ==> final(self).proof_size == ROUND_BYTES * (
                rounds_above(layers, depth, layer as int) + round + 1)
                &&& r matches Verdict::Phase2Rejected { layer, round } ==> final(self).proof_size == ROUND_BYTES * (
                rounds_above(layers, depth, layer as int) + layers[layer - 1].bit_length + round + 1)
                &&& r matches Verdict::LayerRejected { layer } ==> final(self).proof_size == ROUND_BYTES
                    * rounds_above(layers, depth, layer - 1)
            }),
    {
        let depth = self.a_c.total_depth;
        if !(1 <= depth && depth <= self.a_c.circuit.len()) {
            return Verdict::Malformed;
        }
        if !(pow2_at_most(bit_length, usize::MAX) && bit_length / 2 + 1 <= usize::MAX - 0 && pow2_at_most(
            bit_length / 2 + 1,
            usize::MAX,
        )) {
            return Verdict::Malformed;
        }
        let ghost ins = inputs@;
        let mut prover = ZkProver::new();
        prover.init_array(bit_length, self.a_c.copy());
        prover.get_witness(inputs);
        self.proof_size = 0;
        proof {
            lemma_same_layers_evaluable(prover.a_c.circuit@, self.a_c.circuit@, ins, depth as int);
        }
        if !prover.evaluable_check() {
            return Verdict::Malformed;
        }
        assert(run_ready(old(self).a_c, ins, bit_length as nat));
        let result = prover.evaluate();
        let ghost cv = prover.circuit_value@;
        let ghost pac = prover.a_c;
        let ghost full = input_layer_full(old(self).a_c);
        let ghost lf = layers_full(old(self).a_c);
        let ghost outs = circuit_outputs(self.a_c, ins);
        proof {
            lemma_same_layers_values(prover.a_c.circuit@, self.a_c.circuit@, ins, (depth - 1) as nat);
            assert(cv[depth - 1]@ == outs);
            assert(rounds_above(self.a_c.circuit@, depth as int, (depth - 1) as int) == 0);
        }
        let mut alpha = FieldElement::real_one();
        let mut beta = FieldElement::zero();
        let capacity = self.a_c.circuit[depth - 1].bit_length;
        let mut r_0 = generate_randomness(capacity);
        let mut r_1 = generate_randomness(capacity);
        let mut one_minus_r_0 = complement(&r_0);
        let mut one_minus_r_1 = complement(&r_1);
        if result.len() == 0 {
            return Verdict::Malformed;
        }
        let ghost out_vals = result@;
        let a_0 = prover.v_res(one_minus_r_0.as_slice(), r_0.as_slice(), result);
        let mut alpha_beta_sum = alpha * a_0;
        proof {
            crate::field::lemma_mul_comm(alpha, a_0);
            crate::field::lemma_mul_one_any(a_0);
        }
        let mut i = depth - 1;
        while i >= 1
            invariant
                1 <= depth <= self.a_c.circuit@.len(),
                depth == self.a_c.total_depth,
                i < depth,
                self.a_c == old(self).a_c,
                prover.circuit_value@.len() > 0,
                self.proof_size == ROUND_BYTES * rounds_above(self.a_c.circuit@, depth as int, i as int),
                circuit_evaluable(self.a_c.circuit@, ins, depth as int),
                run_ready(old(self).a_c, ins, bit_length as nat),
                prover.circuit_value@ == cv,
                ins == inputs@,
                depth <= cv.len(),
                cv[depth - 1]@ == outs,
                outs == circuit_outputs(old(self).a_c, ins),
                r_0@.len() == self.a_c.circuit@[i as int].bit_length,
                one_minus_r_0@ == complements(r_0@),
                forall|k: int| 0 <= k < r_0@.len() ==> (#[trigger] r_0@[k]).real < RANDOM_BOUND,
                i == depth - 1 ==> alpha_beta_sum == fe_reduce(fold_value(out_vals, one_minus_r_0@, r_0@, r_0@.len())),
                out_vals == outs,
                prover.a_c == pac,
                same_layers(pac.circuit@, self.a_c.circuit@),
                cv[0]@ == ins,
                full == input_layer_full(old(self).a_c),
                lf == layers_full(old(self).a_c),
                i == 0 && depth >= 2 && full ==> alpha_beta_sum == fe_reduce(fold_value(ins, one_minus_r_0@, r_0@, r_0@.len())),
            decreases i,
        {
            let bl_i = self.a_c.circuit[i].bit_length;
            let bl_p = self.a_c.circuit[i - 1].bit_length;
            prover.sumcheck_init(
                SumcheckInitArgs {
                    sumcheck_layer_id: i,
                    length_g: bl_i,
                    length_v: bl_p,
                    alpha,
                    beta,
                    r_0: copy_elements(&r_0),
                    r_1: copy_elements(&r_1),
                    one_minus_r_0: copy_elements(&one_minus_r_0),
                    one_minus_r_1: copy_elements(&one_minus_r_1),
                },
            );
            if !prover.phase1_ready_check() {
                return Verdict::Malformed;
            }
            prover.sumcheck_phase1_init();
            let mut previous_random = FieldElement::from_real(0);
            let r_u = generate_randomness(bl_p);
            let ghost mut g_s0 = prover;
            let ghost mut g_p1 = QuadraticPoly { a: fe_zero(), b: fe_zero(), c: fe_zero() };
            let ghost mut g_b0: usize = 0;
            let ghost mut g_r0 = fe_zero();
            proof {
                lemma_same_layer_shape(pac.circuit@, self.a_c.circuit@, i - 1);
                if lf {
                    lemma_full_at(self.a_c, i - 1);
                    assert((bl_p - 0) as nat == bl_p as nat);
                }
                if i == 1 && full {
                    lemma_phase1_start(prover, r_u@, bl_p as nat);
                }
                lemma_fe_of_reduced(0, 0);
            }
            let mut r_v = generate_randomness(bl_p);
            let relay = alpha * self.direct_relay(i, r_0.as_slice(), r_u.as_slice()) + beta * self.direct_relay(
                i,
                r_1.as_slice(),
                r_u.as_slice(),
            );
            if i == 1 {
                let mut j: usize = 0;
                while j < bl_p
                    invariant
                        j <= bl_p,
                        r_v@.len() == bl_p,
                        forall|k: int| 0 <= k < bl_p ==> (#[trigger] r_v@[k]).real < RANDOM_BOUND,
                    decreases bl_p - j,
                {
                    r_v.set(j, FieldElement::zero());
                    j += 1;
                }
            }
            let one_minus_r_u = complement(&r_u);
            let one_minus_r_v = complement(&r_v);
            let mut j: usize = 0;
            while j < bl_p
                invariant
                    j <= bl_p,
                    r_u@.len() == bl_p,
                    prover.circuit_value@.len() > 0,
                    self.proof_size == ROUND_BYTES * (rounds_above(self.a_c.circuit@, depth as int, i as int) + j),
                    circuit_evaluable(self.a_c.circuit@, ins, depth as int),
                    run_ready(old(self).a_c, ins, bit_length as nat),
                    prover.circuit_value@ == cv,
                    ins == inputs@,
                    bl_p == self.a_c.circuit@[i - 1].bit_length,
                    1 <= i < depth,
                    depth == self.a_c.total_depth,
                    self.a_c == old(self).a_c,
                    prover.a_c == pac,
                    i == 1 && full ==> phase1_folded(prover, ins, complements(r_u@), r_u@, j as nat, bl_p as nat),
                    i == 1 && full && j == 0 ==> previous_random == fe_zero(),
                    i == 1 && full && j >= 1 ==> previous_random == r_u@[j - 1],
                    lf == layers_full(old(self).a_c),
                    prover.sumcheck_layer_id == i,
                    lf ==> prover.total_uv == pow2((bl_p - j) as nat),
                    lf && j >= 1 ==> {
                        &&& g_s0.total_uv == pow2((bl_p - j + 1) as nat)
                        &&& round_link(g_s0, prover, g_b0, g_r0, g_p1)
                        &&& alpha_beta_sum == quadratic_eval(g_p1, r_u@[j - 1])
                        &&& previous_random == r_u@[j - 1]
                    },
                decreases bl_p - j,
            {
                if !prover.round_ready_check() {
                    return Verdict::Malformed;
                }
                let ghost before = prover;
                let ghost prev_before = previous_random;
                let poly = prover.sumcheck_phase1_update(previous_random, j);
                proof {
                    if i == 1 && full {
                        lemma_phase1_step(before, prover, ins, r_u@, j as nat, bl_p as nat, prev_before);
                    }
                    if lf {
                        vstd::arithmetic::power2::lemma_pow2_unfold((bl_p - j) as nat);
                        assert(((bl_p - j) as nat - 1) as nat == (bl_p - (j + 1)) as nat);
                        lemma_round_link(before, prover, j, prev_before, poly);
                        if j >= 1 {
                            lemma_next_round_agrees(g_s0, before, prover, g_b0, g_r0, prev_before, g_p1, poly, j, bl_p as nat);
                        }
                    }
                }
                if self.proof_size > usize::MAX - ROUND_BYTES {
                    return Verdict::Malformed;
                }
                self.proof_size = self.proof_size + ROUND_BYTES;
                previous_random = r_u[j];
                if !phase1_round_ok(&poly, alpha_beta_sum) {
                    return Verdict::Phase1Rejected { layer: i, round: j };
                }
                alpha_beta_sum = poly.eval(&r_u[j]);
                proof {
                    g_s0 = before;
                    g_p1 = poly;
                    g_b0 = j;
                    g_r0 = prev_before;
                }
                j += 1;
            }
            if !prover.phase2_ready_check(&r_u, &one_minus_r_u) {
                return Verdict::Malformed;
            }
            let ghost vu = fe_reduce(fold_value(ins, complements(r_u@), r_u@, bl_p as nat));
            proof {
                if i == 1 && full {
                    lemma_phase1_end(prover, ins, r_u@, bl_p as nat, previous_random);
                }
            }
            prover.sumcheck_phase2_init(previous_random, copy_elements(&r_u), copy_elements(&one_minus_r_u));
            let mut previous_random = FieldElement::zero();
            let ghost vu_now = prover.v_u;
            let ghost mut h_s0 = prover;
            let ghost mut h_p1 = QuadraticPoly { a: fe_zero(), b: fe_zero(), c: fe_zero() };
            let ghost mut h_b0: usize = 0;
            let ghost mut h_r0 = fe_zero();
            proof {
                if lf {
                    assert((bl_p - 0) as nat == bl_p as nat);
                }
            }
            let mut j: usize = 0;
            while j < bl_p
                invariant
                    j <= bl_p,
                    r_v@.len() == bl_p,
                    prover.circuit_value@.len() > 0,
                    self.proof_size == ROUND_BYTES * (rounds_above(self.a_c.circuit@, depth as int, i as int) + bl_p
                        + j),
                    circuit_evaluable(self.a_c.circuit@, ins, depth as int),
                    run_ready(old(self).a_c, ins, bit_length as nat),
                    prover.circuit_value@ == cv,
                    ins == inputs@,
                    bl_p == self.a_c.circuit@[i - 1].bit_length,
                    1 <= i < depth,
                    depth == self.a_c.total_depth,
                    self.a_c == old(self).a_c,
                    prover.a_c == pac,
                    i == 1 && full ==> prover.v_u == vu,
                    prover.v_u == vu_now,
                    lf == layers_full(old(self).a_c),
                    lf ==> prover.total_uv == pow2((bl_p - j) as nat),
                    lf && j >= 1 ==> {
                        &&& h_s0.total_uv == pow2((bl_p - j + 1) as nat)
                        &&& round_link(h_s0, prover, h_b0, h_r0, h_p1)
                        &&& alpha_beta_sum == fe_add(quadratic_eval(h_p1, r_v@[j - 1]), fe_mul(relay, vu_now))
                        &&& previous_random == r_v@[j - 1]
                    },
                decreases bl_p - j,
            {
                if !prover.round_ready_check() {
                    return Verdict::Malformed;
                }
                let ghost before = prover;
                let ghost prev_before = previous_random;
                let poly = prover.sumcheck_phase2_update(previous_random, j);
                proof {
                    if lf {
                        vstd::arithmetic::power2::lemma_pow2_unfold((bl_p - j) as nat);
                        assert(((bl_p - j) as nat - 1) as nat == (bl_p - (j + 1)) as nat);
                        lemma_round_link(before, prover, j, prev_before, poly);
                        if j >= 1 {
                            lemma_next_round_agrees(h_s0, before, prover, h_b0, h_r0, prev_before, h_p1, poly, j, bl_p as nat);
                        }
                    }
                }
                if self.proof_size > usize::MAX - ROUND_BYTES {
                    return Verdict::Malformed;
                }
                self.proof_size = self.proof_size + ROUND_BYTES;
                previous_random = r_v[j];
                if !phase2_round_ok(&poly, relay, prover.v_u, alpha_beta_sum) {
                    return Verdict::Phase2Rejected { layer: i, round: j };
                }
                alpha_beta_sum = poly.eval(&r_v[j]) + relay * prover.v_u;
                proof {
                    h_s0 = before;
                    h_p1 = poly;
                    h_b0 = j;
                    h_r0 = prev_before;
                }
                j += 1;
            }
            if prover.v_mult_add.len() < 1 {
                return Verdict::Malformed;
            }
            let claims = prover.sumcheck_finalize(previous_random);
            let v_u = claims.0;
            let v_v = claims.1;
            if !self.beta_init_ready_check(
                i,
                &r_0,
                &r_1,
                &r_u,
                &r_v,
                &one_minus_r_0,
                &one_minus_r_1,
                &one_minus_r_u,
                &one_minus_r_v,
            ) {
                return Verdict::Malformed;
            }
            self.beta_init(
                i,
                alpha,
                beta,
                r_0.as_slice(),
                r_1.as_slice(),
                r_u.as_slice(),
                r_v.as_slice(),
                one_minus_r_0.as_slice(),
                one_minus_r_1.as_slice(),
                one_minus_r_u.as_slice(),
                one_minus_r_v.as_slice(),
            );
            if i != 1 {
                let fits = if self.a_c.circuit[i].is_parallel {
                    self.parallel_ready_check(i, &r_0, &r_1, &r_u, &r_v)
                } else {
                    self.serial_ready_check(i)
                };
                if !fits {
                    return Verdict::Malformed;
                }
            }
            let preds = self.predicates(
                i,
                copy_elements(&r_0),
                copy_elements(&r_1),
                copy_elements(&r_u),
                copy_elements(&r_v),
                alpha,
                beta,
            );
            if !layer_ok(alpha_beta_sum, &preds, v_u, v_v, relay) {
                return Verdict::LayerRejected { layer: i };
            }
            alpha = FieldElement::new_random();
            beta = FieldElement::new_random();
            if i != 1 {
                alpha_beta_sum = alpha * v_u + beta * v_v;
            } else {
                alpha_beta_sum = v_u;
            }
            r_0 = r_u;
            r_1 = r_v;
            one_minus_r_0 = one_minus_r_u;
            one_minus_r_1 = one_minus_r_v;
            i -= 1;
        }
        let mut k: usize = 0;
        while k < query_count
            invariant
                k <= query_count,
                1 <= depth <= self.a_c.circuit@.len(),
                depth == self.a_c.total_depth,
                self.a_c == old(self).a_c,
                self.proof_size == ROUND_BYTES * rounds_above(self.a_c.circuit@, depth as int, 0),
                circuit_evaluable(self.a_c.circuit@, ins, depth as int),
                run_ready(old(self).a_c, ins, bit_length as nat),
                prover.circuit_value@ == cv,
                ins == inputs@,
                depth <= cv.len(),
                cv[depth - 1]@ == outs,
                outs == circuit_outputs(old(self).a_c, ins),
                queries_match(outs, combined_codeword@, q@, k as int),
                r_0@.len() == self.a_c.circuit@[0].bit_length,
                one_minus_r_0@ == complements(r_0@),
                forall|t: int| 0 <= t < r_0@.len() ==> (#[trigger] r_0@[t]).real < RANDOM_BOUND,
                depth >= 2 && full ==> alpha_beta_sum == fe_reduce(fold_value(ins, one_minus_r_0@, r_0@, r_0@.len())),
                full == input_layer_full(old(self).a_c),
                depth == 1 ==> alpha_beta_sum == fe_reduce(fold_value(outs, one_minus_r_0@, r_0@, r_0@.len())),
            decreases query_count - k,
        {
            if !(depth - 1 < prover.circuit_value.len() && k < prover.circuit_value[depth - 1].len() && k < q.len()
                && q[k] < combined_codeword.len()) {
                return Verdict::Malformed;
            }
            if prover.circuit_value[depth - 1][k] != combined_codeword[q[k]] {
                return Verdict::QueryMismatch { index: k };
            }
            proof {
                lemma_queries_extend(outs, combined_codeword@, q@, k as int);
            }
            k += 1;
        }
        Verdict::Accepted { claim: alpha_beta_sum, r: r_0, one_minus_r: one_minus_r_0 }
    }
}

} // verus!
