//! The table of a point, as the depth-first fill writes it, entry by entry:
//! entry `x` is the product of `r[b]` or `1 - r[b]` over the coordinates
//! `b`, by bit `b` of `x`; hence the table of `n + m` coordinates splits
//! into the tables of the low `n` and of the high `m` coordinates.
use crate::beta::{bit, lemma_bits_of_sum};
use crate::field::{
    fe_mul, fe_one, lemma_fe_of_reduced, lemma_mul_assoc, lemma_mul_comm, lemma_mul_one, lemma_mul_one_any,
    lemma_ops_reduce, FieldElement,
};
use crate::gkr_verifier::tensor_table;
use vstd::arithmetic::power2::pow2;
use vstd::prelude::*;

verus! {

/// `r[b]` when bit `b` of `x` is set, `om[b]` otherwise.
pub open spec fn coord(r: Seq<FieldElement>, om: Seq<FieldElement>, x: int, b: nat) -> FieldElement {
    if bit(x, b) {
        r[b as int]
    } else {
        om[b as int]
    }
}

/// `val` multiplied by the coordinates `lo + m - 1` down to `lo` of `x`.
pub open spec fn top_from(val: FieldElement, r: Seq<FieldElement>, om: Seq<FieldElement>, x: int, lo: nat, m: nat) -> FieldElement
    decreases m,
{
    if m == 0 {
        val
    } else {
        top_from(fe_mul(val, coord(r, om, x, (lo + m - 1) as nat)), r, om, x, lo, (m - 1) as nat)
    }
}

/// Indices that agree on the bits below `i` give the same product of the
/// coordinates below `i`.
proof fn lemma_top_from_high(val: FieldElement, r: Seq<FieldElement>, om: Seq<FieldElement>, x: int, i: nat, m: nat)
    requires
        0 <= x < pow2(i),
        m <= i,
    ensures
        top_from(val, r, om, x + pow2(i), 0, m) == top_from(val, r, om, x, 0, m),
    decreases m,
{
    if m > 0 {
        lemma_bits_of_sum(x, i, (m - 1) as nat);
        lemma_top_from_high(fe_mul(val, coord(r, om, x, (m - 1) as nat)), r, om, x, i, (m - 1) as nat);
    }
}

/// Entry `x` of the table filled from depth `dep` with value `val`.
pub proof fn lemma_tensor_entry(val: FieldElement, r: Seq<FieldElement>, om: Seq<FieldElement>, dep: nat, len: nat, x: int)
    requires
        dep <= len,
        0 <= x < pow2((len - dep) as nat),
    ensures
        tensor_table(val, r, om, dep, len)[x] == top_from(val, r, om, x, 0, (len - dep) as nat),
    decreases len - dep,
{
    crate::gkr_verifier::lemma_tensor_table_len(val, r, om, dep, len);
    if dep == len {
        vstd::arithmetic::power2::lemma2_to64();
    } else {
        let m = (len - dep) as nat;
        let c = (len - 1 - dep) as nat;
        assert(c == (m - 1) as nat);
        let h = pow2((m - 1) as nat) as int;
        vstd::arithmetic::power2::lemma_pow2_unfold(m);
        let lo_t = tensor_table(fe_mul(val, om[c as int]), r, om, dep + 1, len);
        let hi_t = tensor_table(fe_mul(val, r[c as int]), r, om, dep + 1, len);
        crate::gkr_verifier::lemma_tensor_table_len(fe_mul(val, om[c as int]), r, om, dep + 1, len);
        crate::gkr_verifier::lemma_tensor_table_len(fe_mul(val, r[c as int]), r, om, dep + 1, len);
        assert((len - (dep + 1)) as nat == (m - 1) as nat);
        if x < h {
            vstd::arithmetic::power2::lemma_pow2_pos((m - 1) as nat);
            lemma_bits_of_sum(x, (m - 1) as nat, (m - 1) as nat);
            assert(!bit(x, (m - 1) as nat));
            lemma_tensor_entry(fe_mul(val, om[c as int]), r, om, dep + 1, len, x);
        } else {
            let y = x - h;
            lemma_bits_of_sum(y, (m - 1) as nat, (m - 1) as nat);
            assert(bit(x, (m - 1) as nat));
            lemma_tensor_entry(fe_mul(val, r[c as int]), r, om, dep + 1, len, y);
            lemma_top_from_high(fe_mul(val, r[c as int]), r, om, y, (m - 1) as nat, (m - 1) as nat);
        }
    }
}

/// A canonical value can be taken out of the product.
proof fn lemma_top_from_scale(val: FieldElement, r: Seq<FieldElement>, om: Seq<FieldElement>, x: int, lo: nat, m: nat)
    requires
        val.reduced(),
    ensures
        top_from(val, r, om, x, lo, m) == fe_mul(val, top_from(fe_one(), r, om, x, lo, m)),
    decreases m,
{
    if m == 0 {
        lemma_mul_one(val);
    } else {
        let c = coord(r, om, x, (lo + m - 1) as nat);
        let vc = fe_mul(val, c);
        let oc = fe_mul(fe_one(), c);
        lemma_fe_of_reduced(val.real * c.real - val.img * c.img, val.real * c.img + val.img * c.real);
        lemma_fe_of_reduced(1 * c.real - 0 * c.img, 1 * c.img + 0 * c.real);
        lemma_top_from_scale(vc, r, om, x, lo, (m - 1) as nat);
        lemma_top_from_scale(oc, r, om, x, lo, (m - 1) as nat);
        let t = top_from(fe_one(), r, om, x, lo, (m - 1) as nat);
        // (v c) t == v ((1 c) t)
        lemma_mul_one_any(c);
        lemma_mul_comm(fe_one(), c);
        lemma_ops_reduce(c, t);
        lemma_mul_assoc(val, c, t);
        lemma_ops_reduce(c, val);
        lemma_mul_comm(val, c);
        lemma_mul_comm(val, oc);
        lemma_mul_assoc(val, oc, t);
    }
}

/// The product over `n + m` coordinates is the product over the low `n`
/// started from the product over the high `m`.
proof fn lemma_top_from_split(val: FieldElement, r: Seq<FieldElement>, om: Seq<FieldElement>, x: int, n: nat, m: nat)
    ensures
        top_from(val, r, om, x, 0, n + m) == top_from(top_from(val, r, om, x, n, m), r, om, x, 0, n),
    decreases m,
{
    if m > 0 {
        let v2 = fe_mul(val, coord(r, om, x, (n + m - 1) as nat));
        lemma_top_from_split(v2, r, om, x, n, (m - 1) as nat);
        assert((n + m - 1) as nat == (n + (m - 1) as nat) as nat);
    }
}

/// Bit `n + b` of `i 2^n + j` is bit `b` of `i`, and bit `b < n` is bit `b`
/// of `j`.
proof fn lemma_bits_of_pair(i: int, j: int, n: nat, b: nat)
    requires
        0 <= i,
        0 <= j < pow2(n),
    ensures
        bit(i * pow2(n) + j, n + b) == bit(i, b),
        b < n ==> bit(i * pow2(n) + j, b) == bit(j, b),
{
    let x = i * pow2(n) + j;
    let pn = pow2(n) as int;
    vstd::arithmetic::power2::lemma_pow2_pos(n);
    vstd::arithmetic::power2::lemma_pow2_pos(b);
    vstd::arithmetic::power2::lemma_pow2_adds(n, b);
    vstd::arithmetic::div_mod::lemma_fundamental_div_mod_converse(x, pn, i, j);
    assert(x / pn == i);
    vstd::arithmetic::div_mod::lemma_div_denominator(x, pn, pow2(b) as int);
    assert(pn * (pow2(b) as int) == pow2(n + b) as int);
    if b < n {
        let q = pow2((n - b) as nat) as int;
        let d = pow2(b) as int;
        vstd::arithmetic::power2::lemma_pow2_adds(b, (n - b) as nat);
        assert(pn == d * q);
        vstd::arithmetic::power2::lemma_pow2_unfold((n - b) as nat);
        assert(i * pn == (i * q) * d) by (nonlinear_arith)
            requires
                pn == d * q,
        ;
        vstd::arithmetic::div_mod::lemma_hoist_over_denominator(j, i * q, d as nat);
        assert((j + (i * q) * d) / d == j / d + i * q);
        vstd::arithmetic::power2::lemma_pow2_pos((n - b - 1) as nat);
        assert(i * q == 2 * (i * pow2((n - b - 1) as nat) as int)) by (nonlinear_arith)
            requires
                q == 2 * pow2((n - b - 1) as nat),
        ;
        vstd::arithmetic::div_mod::lemma_mod_multiples_vanish(i * pow2((n - b - 1) as nat) as int, j / d, 2);
        assert(x == j + (i * q) * d);
    }
}

/// The high coordinates of `i 2^n + j` are the coordinates of `i` in the
/// shifted point.
proof fn lemma_top_from_high_part(
    val: FieldElement,
    r: Seq<FieldElement>,
    om: Seq<FieldElement>,
    i: int,
    j: int,
    n: nat,
    m: nat,
)
    requires
        0 <= i,
        0 <= j < pow2(n),
        n + m <= r.len(),
        n + m <= om.len(),
    ensures
        top_from(val, r, om, i * pow2(n) + j, n, m) == top_from(
            val,
            r.subrange(n as int, r.len() as int),
            om.subrange(n as int, om.len() as int),
            i,
            0,
            m,
        ),
    decreases m,
{
    if m > 0 {
        let b = (m - 1) as nat;
        lemma_bits_of_pair(i, j, n, b);
        assert((n + m - 1) as nat == n + b);
        assert(coord(r, om, i * pow2(n) + j, n + b) == coord(
            r.subrange(n as int, r.len() as int),
            om.subrange(n as int, om.len() as int),
            i,
            b,
        ));
        lemma_top_from_high_part(
            fe_mul(val, coord(r, om, i * pow2(n) + j, n + b)),
            r,
            om,
            i,
            j,
            n,
            b,
        );
    }
}

/// The low coordinates of `i 2^n + j` are those of `j`.
proof fn lemma_top_from_low_part(val: FieldElement, r: Seq<FieldElement>, om: Seq<FieldElement>, i: int, j: int, n: nat, m: nat)
    requires
        0 <= i,
        0 <= j < pow2(n),
        m <= n,
    ensures
        top_from(val, r, om, i * pow2(n) + j, 0, m) == top_from(val, r, om, j, 0, m),
    decreases m,
{
    if m > 0 {
        let b = (m - 1) as nat;
        lemma_bits_of_pair(i, j, n, b);
        lemma_top_from_low_part(fe_mul(val, coord(r, om, j, b)), r, om, i, j, n, b);
    }
}

/// The table of `r[0 .. n + m]` is the product of the tables of its high `m`
/// and low `n` coordinates: entry `i 2^n + j` is entry `i` of the table of
/// `r[n .. n + m]` times entry `j` of the table of `r[0 .. n]`.
pub proof fn lemma_tensor_split(r: Seq<FieldElement>, om: Seq<FieldElement>, n: nat, m: nat, i: int, j: int)
    requires
        n + m <= r.len(),
        n + m <= om.len(),
        0 <= i < pow2(m),
        0 <= j < pow2(n),
    ensures
        tensor_table(fe_one(), r, om, 0, n + m)[i * pow2(n) + j] == fe_mul(
            tensor_table(
                fe_one(),
                r.subrange(n as int, r.len() as int),
                om.subrange(n as int, om.len() as int),
                0,
                m,
            )[i],
            tensor_table(fe_one(), r, om, 0, n)[j],
        ),
{
    let x = i * pow2(n) + j;
    vstd::arithmetic::power2::lemma_pow2_adds(n, m);
    assert(x < pow2(n + m)) by (nonlinear_arith)
        requires
            x == i * pow2(n) + j,
            i < pow2(m),
            j < pow2(n),
            pow2(n + m) == pow2(n) * pow2(m),
    ;
    assert(0 <= x) by (nonlinear_arith)
        requires
            x == i * pow2(n) + j,
            0 <= i,
            0 <= j,
    ;
    let rh = r.subrange(n as int, r.len() as int);
    let omh = om.subrange(n as int, om.len() as int);
    lemma_tensor_entry(fe_one(), r, om, 0, n + m, x);
    lemma_tensor_entry(fe_one(), rh, omh, 0, m, i);
    lemma_tensor_entry(fe_one(), r, om, 0, n, j);
    lemma_top_from_split(fe_one(), r, om, x, n, m);
    let hpart = top_from(fe_one(), r, om, x, n, m);
    lemma_top_from_high_part(fe_one(), r, om, i, j, n, m);
    lemma_top_from_low_part(hpart, r, om, i, j, n, n);
    lemma_top_from_reduced(fe_one(), rh, omh, i, m);
    lemma_top_from_scale(hpart, r, om, j, 0, n);
}

/// The product stays canonical.
proof fn lemma_top_from_reduced(val: FieldElement, r: Seq<FieldElement>, om: Seq<FieldElement>, x: int, m: nat)
    requires
        val.reduced(),
    ensures
        top_from(val, r, om, x, 0, m).reduced(),
    decreases m,
{
    if m > 0 {
        let c = coord(r, om, x, (m - 1) as nat);
        lemma_fe_of_reduced(val.real * c.real - val.img * c.img, val.real * c.img + val.img * c.real);
        lemma_top_from_reduced(fe_mul(val, c), r, om, x, (m - 1) as nat);
    }
}

} // verus!
