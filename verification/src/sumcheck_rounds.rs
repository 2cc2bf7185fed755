//! How the round polynomials of a layer's sum-check fit together.
//!
//! A round folds the prover's three tables pairwise and returns the sum, over
//! the remaining positions, of `mult(x) v(x) + add(x)` as a quadratic in the
//! round's variable `x`.  The laws below say what that polynomial is worth at
//! a point, that its values at `0` and `1` add up to the sum of the previous
//! tables at the point bound in the round, and hence that two consecutive
//! rounds agree: the first polynomial at the random value bound by the second
//! equals the second's value at `0` plus its value at `1`.
use crate::field::{
    fe_add, fe_mul, fe_one, fe_sub, fe_zero, lemma_add_zero, lemma_fe_of_reduced, lemma_mul_one, lemma_mul_zero,
    lemma_reduce_reduced, lemma_sub_add, FieldElement,
};
use crate::polynomial::{
    lemma_add_swap, lemma_linear_eval_mul, lemma_quadratic_eval_add, linear_eval, linear_mul, quadratic_add,
    quadratic_eval, LinearPoly, QuadraticPoly,
};
use crate::prover::ZkProver;
use crate::sumcheck::{fold_lin_table, fold_pair, round_term, round_terms, tree_sum};
use vstd::arithmetic::power2::{lemma_pow2_strictly_increases, lemma_pow2_unfold, pow2};
use vstd::prelude::*;

verus! {

/// The balanced-tree sum of `f` over the `2^k` positions
/// `j 2^k .. (j + 1) 2^k`.
pub open spec fn tree_vals(f: spec_fn(int) -> FieldElement, k: nat, j: int) -> FieldElement
    decreases k,
{
    if k == 0 {
        f(j)
    } else {
        fe_add(tree_vals(f, (k - 1) as nat, 2 * j), tree_vals(f, (k - 1) as nat, 2 * j + 1))
    }
}

/// `mult(x) v(x) + add(x)`.
pub open spec fn term_value(mult: LinearPoly, v: LinearPoly, add: LinearPoly, x: FieldElement) -> FieldElement {
    fe_add(fe_mul(linear_eval(mult, x), linear_eval(v, x)), linear_eval(add, x))
}

/// Position `i` of the three tables, worth `mult(x) v(x) + add(x)` at `x`.
pub open spec fn table_values(
    mult: Seq<LinearPoly>,
    v: Seq<LinearPoly>,
    add: Seq<LinearPoly>,
    x: FieldElement,
) -> spec_fn(int) -> FieldElement {
    |i: int| term_value(mult[i], v[i], add[i], x)
}

/// The value at `x` of each polynomial of `s`.
pub open spec fn evals_at(s: Seq<QuadraticPoly>, x: FieldElement) -> spec_fn(int) -> FieldElement {
    |i: int| quadratic_eval(s[i], x)
}

/// The point at which a round binds the previous variable: none in the first
/// round (`bit == 0`), where only the constant parts of the entries count.
pub open spec fn bound_point(bit: usize, r: FieldElement) -> FieldElement {
    if bit == 0 {
        fe_zero()
    } else {
        r
    }
}

/// A round term is worth `mult(x) v(x) + add(x)` at `x`.
proof fn lemma_round_term_eval(m: LinearPoly, v: LinearPoly, a: LinearPoly, x: FieldElement)
    ensures
        quadratic_eval(round_term(m, v, a), x) == term_value(m, v, a, x),
{
    let lm = linear_mul(m, v);
    let aq = QuadraticPoly { a: fe_zero(), b: a.a, c: a.b };
    let ma = fe_mul(m.a, v.a);
    lemma_fe_of_reduced(m.a.real * v.a.real - m.a.img * v.a.img, m.a.real * v.a.img + m.a.img * v.a.real);
    lemma_add_zero(ma);
    assert(round_term(m, v, a) == quadratic_add(lm, aq));
    lemma_quadratic_eval_add(lm, aq, x);
    lemma_linear_eval_mul(m, v, x);
    lemma_mul_zero(x);
    let ax = fe_mul(a.a, x);
    lemma_fe_of_reduced(a.a.real * x.real - a.a.img * x.img, a.a.real * x.img + a.a.img * x.real);
    lemma_add_zero(ax);
    assert(quadratic_eval(aq, x) == linear_eval(a, x));
}

/// The folded entry is worth, at `0` and at `1`, what the two entries it came
/// from are worth at the bound point.
pub(crate) proof fn lemma_fold_pair_eval(p0: LinearPoly, p1: LinearPoly, bit: usize, r: FieldElement)
    ensures
        linear_eval(fold_pair(p0, p1, bit, r), fe_zero()) == linear_eval(p0, bound_point(bit, r)),
        linear_eval(fold_pair(p0, p1, bit, r), fe_one()) == linear_eval(p1, bound_point(bit, r)),
{
    let l = fold_pair(p0, p1, bit, r);
    lemma_mul_zero(l.a);
    lemma_mul_zero(p0.a);
    lemma_mul_zero(p1.a);
    lemma_fe_of_reduced(l.a.real as int, l.a.img as int);
    if bit == 0 {
        lemma_fe_of_reduced(p1.b.real - p0.b.real, p1.b.img - p0.b.img);
        lemma_mul_one(l.a);
        lemma_sub_add(p1.b, p0.b);
    } else {
        let e0 = linear_eval(p0, r);
        let e1 = linear_eval(p1, r);
        lemma_fe_of_reduced(fe_mul(p0.a, r).real + p0.b.real, fe_mul(p0.a, r).img + p0.b.img);
        lemma_fe_of_reduced(fe_mul(p1.a, r).real + p1.b.real, fe_mul(p1.a, r).img + p1.b.img);
        lemma_add_zero(e0);
        lemma_fe_of_reduced(e1.real - e0.real, e1.img - e0.img);
        lemma_mul_one(l.a);
        lemma_sub_add(e1, e0);
        lemma_reduce_reduced(e1);
    }
}

/// The tree sum over a block depends only on the values inside the block.
proof fn lemma_tree_agree(f: spec_fn(int) -> FieldElement, g: spec_fn(int) -> FieldElement, k: nat, j: int)
    requires
        j >= 0,
        forall|i: int| j * pow2(k) <= i < (j + 1) * pow2(k) ==> #[trigger] f(i) == g(i),
    ensures
        tree_vals(f, k, j) == tree_vals(g, k, j),
    decreases k,
{
    if k == 0 {
        vstd::arithmetic::power2::lemma2_to64();
        assert(f(j) == g(j));
    } else {
        let h = pow2((k - 1) as nat);
        lemma_pow2_unfold(k);
        let a = j * pow2(k);
        assert(a == (2 * j) * h) by (nonlinear_arith)
            requires
                pow2(k) == 2 * h,
                a == j * pow2(k),
        ;
        assert((j + 1) * pow2(k) == a + 2 * h) by (nonlinear_arith)
            requires
                pow2(k) == 2 * h,
                a == j * pow2(k),
        ;
        assert((2 * j + 1) * h == a + h) by (nonlinear_arith)
            requires
                a == (2 * j) * h,
        ;
        assert((2 * j + 2) * h == a + 2 * h) by (nonlinear_arith)
            requires
                a == (2 * j) * h,
        ;
        assert forall|i: int| (2 * j) * h <= i < (2 * j + 1) * h implies #[trigger] f(i) == g(i) by {
            assert(j * pow2(k) <= i < (j + 1) * pow2(k));
        }
        assert forall|i: int| (2 * j + 1) * h <= i < (2 * j + 1 + 1) * h implies #[trigger] f(i) == g(i) by {
            assert((2 * j + 1 + 1) * h == (2 * j + 2) * h);
            assert(j * pow2(k) <= i < (j + 1) * pow2(k));
        }
        lemma_tree_agree(f, g, (k - 1) as nat, 2 * j);
        lemma_tree_agree(f, g, (k - 1) as nat, 2 * j + 1);
    }
}

proof fn lemma_tree_agree_first(f: spec_fn(int) -> FieldElement, g: spec_fn(int) -> FieldElement, k: nat)
    requires
        forall|i: int| 0 <= i < pow2(k) ==> #[trigger] f(i) == g(i),
    ensures
        tree_vals(f, k, 0) == tree_vals(g, k, 0),
{
    assert(0 * pow2(k) == 0 && (0 + 1) * pow2(k) == pow2(k)) by (nonlinear_arith);
    lemma_tree_agree(f, g, k, 0);
}

/// Evaluation commutes with the tree sum of polynomials.
proof fn lemma_tree_sum_eval(s: Seq<QuadraticPoly>, k: nat, j: int, x: FieldElement)
    ensures
        quadratic_eval(tree_sum(s, k, j), x) == tree_vals(evals_at(s, x), k, j),
    decreases k,
{
    if k > 0 {
        lemma_tree_sum_eval(s, (k - 1) as nat, 2 * j, x);
        lemma_tree_sum_eval(s, (k - 1) as nat, 2 * j + 1, x);
        lemma_quadratic_eval_add(
            tree_sum(s, (k - 1) as nat, 2 * j),
            tree_sum(s, (k - 1) as nat, 2 * j + 1),
            x,
        );
    }
}

/// The tree sum of a pointwise sum is the sum of the tree sums.
proof fn lemma_tree_add(
    f: spec_fn(int) -> FieldElement,
    g: spec_fn(int) -> FieldElement,
    h: spec_fn(int) -> FieldElement,
    k: nat,
    j: int,
)
    requires
        forall|i: int| #[trigger] h(i) == fe_add(f(i), g(i)),
    ensures
        tree_vals(h, k, j) == fe_add(tree_vals(f, k, j), tree_vals(g, k, j)),
    decreases k,
{
    if k > 0 {
        let k1 = (k - 1) as nat;
        lemma_tree_add(f, g, h, k1, 2 * j);
        lemma_tree_add(f, g, h, k1, 2 * j + 1);
        lemma_add_swap(tree_vals(f, k1, 2 * j), tree_vals(g, k1, 2 * j), tree_vals(f, k1, 2 * j + 1), tree_vals(g, k1, 2 * j + 1));
    }
}

/// A tree over `2^(k+1)` positions is the tree over `2^k` adjacent pairs.
proof fn lemma_tree_pairs(f: spec_fn(int) -> FieldElement, g: spec_fn(int) -> FieldElement, k: nat, j: int)
    requires
        forall|i: int| #[trigger] g(i) == fe_add(f(2 * i), f(2 * i + 1)),
    ensures
        tree_vals(f, k + 1, j) == tree_vals(g, k, j),
    decreases k,
{
    if k == 0 {
        assert(tree_vals(f, 1, j) == fe_add(tree_vals(f, 0, 2 * j), tree_vals(f, 0, 2 * j + 1)));
        assert(g(j) == fe_add(f(2 * j), f(2 * j + 1)));
    } else {
        let k1 = (k - 1) as nat;
        lemma_tree_pairs(f, g, k1, 2 * j);
        lemma_tree_pairs(f, g, k1, 2 * j + 1);
        assert((k + 1 - 1) as nat == k1 + 1);
    }
}

/// The only `m` with `2^m <= 2^k < 2^(m + 1)` is `k`.
proof fn lemma_pow2_exponent(m: nat, k: nat)
    requires
        pow2(m) <= pow2(k) < pow2(m + 1),
    ensures
        m == k,
{
    if m < k {
        if m + 1 < k {
            lemma_pow2_strictly_increases(m + 1, k);
        }
    } else if m > k {
        lemma_pow2_strictly_increases(k, m);
    }
}

/// The tree sum of the first `2^k` round terms, at `x`.
proof fn lemma_terms_eval(
    mult: Seq<LinearPoly>,
    v: Seq<LinearPoly>,
    add: Seq<LinearPoly>,
    rest: Seq<QuadraticPoly>,
    k: nat,
    x: FieldElement,
)
    requires
        pow2(k) <= rest.len(),
    ensures
        quadratic_eval(tree_sum(round_terms(mult, v, add, rest, pow2(k) as int), k, 0), x) == tree_vals(
            table_values(mult, v, add, x),
            k,
            0,
        ),
{
    let terms = round_terms(mult, v, add, rest, pow2(k) as int);
    lemma_tree_sum_eval(terms, k, 0, x);
    let tv = table_values(mult, v, add, x);
    assert forall|i: int| 0 <= i < pow2(k) implies #[trigger] evals_at(terms, x)(i) == tv(i) by {
        assert(terms[i] == round_term(mult[i], v[i], add[i]));
        lemma_round_term_eval(mult[i], v[i], add[i], x);
    }
    lemma_tree_agree_first(evals_at(terms, x), tv, k);
}

/// The round polynomial at a point: after a round that started from
/// `2^(k+1)` entries, the returned polynomial is worth at `x` the tree sum,
/// over the `2^k` folded positions, of `mult(x) v(x) + add(x)`.
pub proof fn lemma_round_eval(s0: ZkProver, s1: ZkProver, bit: usize, r: FieldElement, p: QuadraticPoly, k: nat, x: FieldElement)
    requires
        s0.round_ready(),
        s0.total_uv == pow2(k + 1),
        s1.folded_from(&s0, bit, r),
        s1.round_result(&s0, p),
    ensures
        quadratic_eval(p, x) == tree_vals(table_values(s1.add_mult_sum@, s1.v_mult_add@, s1.add_v_array@, x), k, 0),
{
    lemma_pow2_unfold(k + 1);
    let half = pow2(k);
    assert(s0.total_uv / 2 == half);
    vstd::arithmetic::power2::lemma_pow2_pos(k);
    let terms = round_terms(s1.add_mult_sum@, s1.v_mult_add@, s1.add_v_array@, s0.ctx.rets_prev@, half as int);
    assert(s0.ctx.rets_prev@.len() >= half);
    let m = choose|m: nat| pow2(m) <= half < pow2(m + 1) && p == #[trigger] tree_sum(terms, m, 0);
    lemma_pow2_exponent(m, k);
    lemma_terms_eval(s1.add_mult_sum@, s1.v_mult_add@, s1.add_v_array@, s0.ctx.rets_prev@, k, x);
}

/// Position `i` after a round, at `0` and at `1`, is worth what positions
/// `2i` and `2i + 1` were worth before it at the bound point.
proof fn lemma_folded_values(s0: ZkProver, s1: ZkProver, bit: usize, r: FieldElement, i: int)
    requires
        s0.round_ready(),
        s1.folded_from(&s0, bit, r),
        0 <= i < s0.total_uv / 2,
    ensures
        fe_add(
            table_values(s1.add_mult_sum@, s1.v_mult_add@, s1.add_v_array@, fe_zero())(i),
            table_values(s1.add_mult_sum@, s1.v_mult_add@, s1.add_v_array@, fe_one())(i),
        ) == fe_add(
            table_values(s0.add_mult_sum@, s0.v_mult_add@, s0.add_v_array@, bound_point(bit, r))(2 * i),
            table_values(s0.add_mult_sum@, s0.v_mult_add@, s0.add_v_array@, bound_point(bit, r))(2 * i + 1),
        ),
{
    let (m0, m1) = (s0.add_mult_sum@[2 * i], s0.add_mult_sum@[2 * i + 1]);
    let (v0, v1) = (s0.v_mult_add@[2 * i], s0.v_mult_add@[2 * i + 1]);
    let (a0, a1) = (s0.add_v_array@[2 * i], s0.add_v_array@[2 * i + 1]);
    assert(s1.add_mult_sum@[i] == fold_pair(m0, m1, bit, r));
    assert(s1.v_mult_add@[i] == fold_pair(v0, v1, bit, r));
    assert(s1.add_v_array@[i] == fold_pair(a0, a1, bit, r));
    lemma_fold_pair_eval(m0, m1, bit, r);
    lemma_fold_pair_eval(v0, v1, bit, r);
    lemma_fold_pair_eval(a0, a1, bit, r);
}

/// The round sum: after a round that started from `2^(k+1)` entries, the
/// returned polynomial's values at `0` and `1` add up to the tree sum, over
/// the `2^(k+1)` entries before the round, of `mult(x) v(x) + add(x)` at the
/// point the round bound (`0` in the first round, where only the constant
/// parts count).
pub proof fn lemma_round_sum(s0: ZkProver, s1: ZkProver, bit: usize, r: FieldElement, p: QuadraticPoly, k: nat)
    requires
        s0.round_ready(),
        s0.total_uv == pow2(k + 1),
        s1.folded_from(&s0, bit, r),
        s1.round_result(&s0, p),
    ensures
        fe_add(quadratic_eval(p, fe_zero()), quadratic_eval(p, fe_one())) == tree_vals(
            table_values(s0.add_mult_sum@, s0.v_mult_add@, s0.add_v_array@, bound_point(bit, r)),
            k + 1,
            0,
        ),
{
    let xb = bound_point(bit, r);
    let t0 = table_values(s1.add_mult_sum@, s1.v_mult_add@, s1.add_v_array@, fe_zero());
    let t1 = table_values(s1.add_mult_sum@, s1.v_mult_add@, s1.add_v_array@, fe_one());
    let old = table_values(s0.add_mult_sum@, s0.v_mult_add@, s0.add_v_array@, xb);
    lemma_round_eval(s0, s1, bit, r, p, k, fe_zero());
    lemma_round_eval(s0, s1, bit, r, p, k, fe_one());
    let both = |i: int| fe_add(t0(i), t1(i));
    lemma_tree_add(t0, t1, both, k, 0);
    let pairs = |i: int| fe_add(old(2 * i), old(2 * i + 1));
    lemma_tree_pairs(old, pairs, k, 0);
    lemma_pow2_unfold(k + 1);
    assert forall|i: int| 0 <= i < pow2(k) implies #[trigger] both(i) == pairs(i) by {
        lemma_folded_values(s0, s1, bit, r, i);
    }
    lemma_tree_agree_first(both, pairs, k);
}

/// Consecutive rounds agree: when the tables held `2^(k+2)` entries before
/// a round that returned `p1`, and the next round binds that round's variable
/// to `r` and returns `p2`, then `p1(r) == p2(0) + p2(1)`.
pub proof fn lemma_rounds_consistent(
    s0: ZkProver,
    s1: ZkProver,
    s2: ZkProver,
    bit: usize,
    r0: FieldElement,
    r: FieldElement,
    p1: QuadraticPoly,
    p2: QuadraticPoly,
    k: nat,
)
    requires
        s0.round_ready(),
        s0.total_uv == pow2(k + 2),
        s1.folded_from(&s0, bit, r0),
        s1.round_result(&s0, p1),
        s1.round_ready(),
        s2.folded_from(&s1, 1, r),
        s2.round_result(&s1, p2),
    ensures
        quadratic_eval(p1, r) == fe_add(quadratic_eval(p2, fe_zero()), quadratic_eval(p2, fe_one())),
{
    lemma_pow2_unfold(k + 2);
    lemma_round_eval(s0, s1, bit, r0, p1, k + 1, r);
    assert(s1.total_uv == pow2(k + 1));
    lemma_round_sum(s1, s2, 1, r, p2, k);
}

} // verus!
