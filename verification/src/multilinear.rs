//! The multilinear opening of the commitment gives the multilinear extension
//! of the committed coefficients.
use crate::field::{
    fe_add, fe_mul, fe_one, fe_reduce, fe_sub, fe_zero, lemma_add_assoc, lemma_add_zero, lemma_fe_of_reduced, lemma_lift,
    lemma_mul_assoc, lemma_mul_comm, lemma_mul_one_any, FieldElement,
};
use crate::linear_code::{lincomb, vscale, COLUMN_SIZE};
use crate::linear_pc::{dfs_val, dot, lemma_dot_vadd, lemma_dot_zero, row_of};
use vstd::arithmetic::power2::pow2;
use vstd::prelude::*;

verus! {

/// The sum of `src[k] w(k)` over `k < len`, accumulated from zero.
pub open spec fn weighted_sum(src: Seq<FieldElement>, w: spec_fn(int) -> FieldElement, len: int) -> FieldElement
    decreases len,
{
    if len <= 0 {
        fe_zero()
    } else {
        fe_add(weighted_sum(src, w, len - 1), fe_mul(src[len - 1], w(len - 1)))
    }
}

/// The sum of `src[base + t] w(base + t)` over `t < len`, from zero.
pub open spec fn weighted_block(src: Seq<FieldElement>, w: spec_fn(int) -> FieldElement, base: int, len: int) -> FieldElement
    decreases len,
{
    if len <= 0 {
        fe_zero()
    } else {
        fe_add(weighted_block(src, w, base, len - 1), fe_mul(src[base + len - 1], w(base + len - 1)))
    }
}

/// The weight of position `k` among `n` positions at the point `r`: the
/// product over the coordinates of `r[t]` or `1 - r[t]` as bit `t` of `k`,
/// counted from the most significant, is one or zero.
pub open spec fn mle_weight(r: Seq<FieldElement>, n: int) -> spec_fn(int) -> FieldElement {
    |k: int| dfs_val(r, n, 0, fe_one(), k)
}

/// The multilinear extension at `r` of the `n` values `src`: each value
/// times its weight, summed.
pub open spec fn mle_value(src: Seq<FieldElement>, r: Seq<FieldElement>, n: int) -> FieldElement {
    weighted_sum(src, mle_weight(r, n), n)
}

proof fn lemma_weighted_sum_reduced(src: Seq<FieldElement>, w: spec_fn(int) -> FieldElement, len: int)
    ensures
        weighted_sum(src, w, len).reduced(),
{
    if len > 0 {
        let a = weighted_sum(src, w, len - 1);
        let b = fe_mul(src[len - 1], w(len - 1));
        lemma_fe_of_reduced(a.real + b.real, a.img + b.img);
    } else {
        lemma_fe_of_reduced(0, 0);
    }
}

proof fn lemma_weighted_split(src: Seq<FieldElement>, w: spec_fn(int) -> FieldElement, base: int, t: int)
    requires
        0 <= base,
        0 <= t,
    ensures
        weighted_sum(src, w, base + t) == fe_add(weighted_sum(src, w, base), weighted_block(src, w, base, t)),
    decreases t,
{
    if t == 0 {
        lemma_weighted_sum_reduced(src, w, base);
        lemma_add_zero(weighted_sum(src, w, base));
    } else {
        lemma_weighted_split(src, w, base, t - 1);
        lemma_add_assoc(
            weighted_sum(src, w, base),
            weighted_block(src, w, base, t - 1),
            fe_mul(src[base + t - 1], w(base + t - 1)),
        );
    }
}

/// The tensor over `2^b` positions read past the first `c` coordinates is
/// the tensor read from coordinate `c` on.
proof fn lemma_dfs_shift(r: Seq<FieldElement>, c: int, b: nat, d: int, v: FieldElement, j: int)
    requires
        0 <= c,
        0 <= d,
        d + c + b <= r.len(),
    ensures
        dfs_val(r.skip(c), pow2(b) as int, d, v, j) == dfs_val(r, pow2(b) as int, d + c, v, j),
    decreases b,
{
    vstd::arithmetic::power2::lemma_pow2_pos(b);
    vstd::arithmetic::power2::lemma2_to64();
    if b > 0 {
        vstd::arithmetic::power2::lemma_pow2_unfold(b);
        let n = pow2(b) as int;
        let h = pow2((b - 1) as nat) as int;
        assert(n / 2 == h && n - n / 2 == h);
        assert(r.skip(c)[d] == r[d + c]);
        let f0 = fe_mul(v, fe_sub(fe_one(), r[d + c]));
        let f1 = fe_mul(v, r[d + c]);
        assert(n > 1);
        assert(dfs_val(r.skip(c), n, d, v, j) == if j < h {
            dfs_val(r.skip(c), h, d + 1, f0, j)
        } else {
            dfs_val(r.skip(c), h, d + 1, f1, j - h)
        });
        assert(dfs_val(r, n, d + c, v, j) == if j < h {
            dfs_val(r, h, d + c + 1, f0, j)
        } else {
            dfs_val(r, h, d + c + 1, f1, j - h)
        });
        lemma_dfs_shift(r, c, (b - 1) as nat, d + 1, f0, j);
        lemma_dfs_shift(r, c, (b - 1) as nat, d + 1, f1, j - h);
        assert(d + 1 + c == d + c + 1);
    }
}

/// The tensor over `2^a B` positions splits: position `i B + j` carries the
/// weight of `i` among `2^a`, continued over `B` positions from coordinate
/// `d + a`.
proof fn lemma_dfs_split(r: Seq<FieldElement>, a: nat, bb: int, d: int, v: FieldElement, i: int, j: int)
    requires
        bb >= 1,
        0 <= i < pow2(a),
        0 <= j < bb,
    ensures
        dfs_val(r, pow2(a) * bb, d, v, i * bb + j) == dfs_val(r, bb, d + a, dfs_val(r, pow2(a) as int, d, v, i), j),
    decreases a,
{
    if a == 0 {
        assert(pow2(0) == 1) by {
            vstd::arithmetic::power2::lemma2_to64();
        }
        assert(i == 0);
        assert(pow2(a) == 1);
        assert(pow2(a) * bb == bb) by (nonlinear_arith)
            requires
                pow2(a) == 1,
        ;
        assert(i * bb + j == j);
    } else {
        vstd::arithmetic::power2::lemma_pow2_unfold(a);
        let h = pow2((a - 1) as nat) as int;
        vstd::arithmetic::power2::lemma_pow2_pos((a - 1) as nat);
        let n = pow2(a) * bb;
        assert(n == 2 * (h * bb)) by (nonlinear_arith)
            requires
                n == pow2(a) * bb,
                pow2(a) == 2 * h,
        ;
        assert(h * bb >= 1) by (nonlinear_arith)
            requires
                h >= 1,
                bb >= 1,
        ;
        assert(n / 2 == h * bb && n - n / 2 == h * bb);
        let k = i * bb + j;
        let f0 = fe_mul(v, fe_sub(fe_one(), r[d]));
        let f1 = fe_mul(v, r[d]);
        if i < h {
            assert(k < h * bb) by (nonlinear_arith)
                requires
                    k == i * bb + j,
                    i < h,
                    j < bb,
                    i >= 0,
                    bb >= 1,
            ;
            lemma_dfs_split(r, (a - 1) as nat, bb, d + 1, f0, i, j);
            assert(d + 1 + (a - 1) == d + a);
            assert(dfs_val(r, pow2(a) as int, d, v, i) == dfs_val(r, h, d + 1, f0, i));
        } else {
            assert(k >= h * bb && k - h * bb == (i - h) * bb + j) by (nonlinear_arith)
                requires
                    k == i * bb + j,
                    i >= h,
                    j >= 0,
                    bb >= 1,
                    h >= 1,
            ;
            assert(i - h < h);
            lemma_dfs_split(r, (a - 1) as nat, bb, d + 1, f1, i - h, j);
            assert(d + 1 + (a - 1) == d + a);
            assert(dfs_val(r, pow2(a) as int, d, v, i) == dfs_val(r, h, d + 1, f1, i - h));
        }
    }
}

/// Started from a canonical value, the tensor entries are canonical.
proof fn lemma_dfs_reduced(r: Seq<FieldElement>, b: nat, d: int, v: FieldElement, j: int)
    requires
        v.reduced(),
    ensures
        dfs_val(r, pow2(b) as int, d, v, j).reduced(),
    decreases b,
{
    vstd::arithmetic::power2::lemma_pow2_pos(b);
    vstd::arithmetic::power2::lemma2_to64();
    if b > 0 {
        vstd::arithmetic::power2::lemma_pow2_unfold(b);
        let n = pow2(b) as int;
        let h = pow2((b - 1) as nat) as int;
        assert(n / 2 == h && n - n / 2 == h);
        let f0 = fe_mul(v, fe_sub(fe_one(), r[d]));
        let f1 = fe_mul(v, r[d]);
        lemma_fe_of_reduced(v.real * fe_sub(fe_one(), r[d]).real - v.img * fe_sub(fe_one(), r[d]).img, v.real * fe_sub(fe_one(), r[d]).img + v.img * fe_sub(fe_one(), r[d]).real);
        lemma_fe_of_reduced(v.real * r[d].real - v.img * r[d].img, v.real * r[d].img + v.img * r[d].real);
        assert(n > 1);
        assert(dfs_val(r, n, d, v, j) == if j < h {
            dfs_val(r, h, d + 1, f0, j)
        } else {
            dfs_val(r, h, d + 1, f1, j - h)
        });
        lemma_dfs_reduced(r, (b - 1) as nat, d + 1, f0, j);
        lemma_dfs_reduced(r, (b - 1) as nat, d + 1, f1, j - h);
    }
}

/// The starting value comes out as a factor of the tensor entry.
proof fn lemma_dfs_factor(r: Seq<FieldElement>, b: nat, d: int, v: FieldElement, j: int)
    ensures
        fe_mul(v, dfs_val(r, pow2(b) as int, d, fe_one(), j)) == fe_reduce(dfs_val(r, pow2(b) as int, d, v, j)),
    decreases b,
{
    vstd::arithmetic::power2::lemma_pow2_pos(b);
    if b == 0 {
        assert(pow2(0) == 1) by {
            vstd::arithmetic::power2::lemma2_to64();
        }
        lemma_mul_one_any(v);
    } else {
        vstd::arithmetic::power2::lemma_pow2_unfold(b);
        let n = pow2(b) as int;
        let h = pow2((b - 1) as nat) as int;
        assert(n / 2 == h && n - n / 2 == h);
        let f = if j < h { fe_sub(fe_one(), r[d]) } else { r[d] };
        let jj = if j < h { j } else { j - h };
        let b1 = (b - 1) as nat;
        let g = fe_mul(fe_one(), f);
        let e = dfs_val(r, h, d + 1, fe_one(), jj);
        assert(dfs_val(r, n, d, fe_one(), j) == dfs_val(r, h, d + 1, g, jj));
        assert(dfs_val(r, n, d, v, j) == dfs_val(r, h, d + 1, fe_mul(v, f), jj));
        // the entry started from `g` is `g e`
        lemma_mul_comm(fe_one(), f);
        lemma_mul_one_any(f);
        assert(g == fe_reduce(f));
        lemma_fe_of_reduced(f.real as int, f.img as int);
        lemma_dfs_reduced(r, b1, d + 1, g, jj);
        lemma_dfs_factor(r, b1, d + 1, g, jj);
        let dg = dfs_val(r, h, d + 1, g, jj);
        crate::field::lemma_reduce_reduced(dg);
        assert(dg == fe_mul(g, e));
        // v (g e) = (v f) e
        lemma_mul_assoc(v, g, e);
        lemma_lift(f);
        assert(fe_mul(v, g) == fe_mul(v, f));
        lemma_dfs_factor(r, b1, d + 1, fe_mul(v, f), jj);
    }
}

/// The weight of position `i 2^b + j` among `128 2^b` positions is the weight
/// of `i` among the 128 rows times the weight of `j` within a row at the
/// coordinates past the seventh.
proof fn lemma_weight_product(r: Seq<FieldElement>, b: nat, i: int, j: int)
    requires
        0 <= i < COLUMN_SIZE,
        0 <= j < pow2(b),
        7 + b <= r.len(),
    ensures
        dfs_val(r, (COLUMN_SIZE * pow2(b)) as int, 0, fe_one(), i * pow2(b) + j) == fe_mul(
            dfs_val(r, COLUMN_SIZE as int, 0, fe_one(), i),
            dfs_val(r.skip(7), pow2(b) as int, 0, fe_one(), j),
        ),
{
    let s = pow2(b) as int;
    vstd::arithmetic::power2::lemma_pow2_pos(b);
    assert(pow2(7) == COLUMN_SIZE) by {
        vstd::arithmetic::power2::lemma2_to64();
    }
    lemma_dfs_split(r, 7, s, 0, fe_one(), i, j);
    let ri = dfs_val(r, COLUMN_SIZE as int, 0, fe_one(), i);
    lemma_dfs_shift(r, 7, b, 0, fe_one(), j);
    lemma_fe_of_reduced(1, 0);
    assert(fe_one().reduced());
    lemma_dfs_reduced(r, 7, 0, fe_one(), i);
    lemma_dfs_reduced(r, b, 7, ri, j);
    lemma_dfs_factor(r, b, 7, ri, j);
    crate::field::lemma_reduce_reduced(dfs_val(r, s, 7, ri, j));
}

/// One row's contribution: the row scaled by its weight, weighted within the
/// row, is the block of the multilinear sum over that row's positions.
proof fn lemma_row_block(src: Seq<FieldElement>, r: Seq<FieldElement>, b: nat, i: int, row: Seq<FieldElement>, t: int)
    requires
        0 <= i < COLUMN_SIZE,
        0 <= t <= pow2(b),
        7 + b <= r.len(),
        row.len() == pow2(b),
        forall|j: int| 0 <= j < pow2(b) ==> #[trigger] row[j] == src[i * pow2(b) + j],
    ensures
        ({
            let s = pow2(b) as int;
            let r0 = dfs_val(r, COLUMN_SIZE as int, 0, fe_one(), i);
            let r1 = Seq::new(pow2(b), |k: int| dfs_val(r.skip(7), s, 0, fe_one(), k));
            dot(r1, vscale(r0, row), t) == weighted_block(src, mle_weight(r, COLUMN_SIZE * s), i * s, t)
        }),
    decreases t,
{
    if t > 0 {
        lemma_row_block(src, r, b, i, row, t - 1);
        let s = pow2(b) as int;
        let j = t - 1;
        let c = dfs_val(r, COLUMN_SIZE as int, 0, fe_one(), i);
        let r1 = Seq::new(pow2(b), |k: int| dfs_val(r.skip(7), s, 0, fe_one(), k));
        let x = row[j];
        lemma_weight_product(r, b, i, j);
        assert(mle_weight(r, COLUMN_SIZE * s)(i * s + j) == fe_mul(c, r1[j]));
        assert(vscale(c, row)[j] == fe_mul(c, x));
        lemma_mul_assoc(r1[j], c, x);
        lemma_mul_comm(r1[j], c);
        lemma_mul_comm(fe_mul(c, r1[j]), x);
        assert(i * s + t - 1 == i * s + j);
    }
}

proof fn lemma_multi_rows(src: Seq<FieldElement>, rows: Seq<Seq<FieldElement>>, r: Seq<FieldElement>, b: nat, m: int)
    requires
        src.len() == COLUMN_SIZE * pow2(b),
        0 <= m <= COLUMN_SIZE,
        7 + b <= r.len(),
        rows.len() >= COLUMN_SIZE,
        forall|i: int| 0 <= i < COLUMN_SIZE ==> #[trigger] rows[i] == row_of(src, pow2(b) as int, i),
    ensures
        ({
            let s = pow2(b) as int;
            let r0 = Seq::new(COLUMN_SIZE as nat, |k: int| dfs_val(r, COLUMN_SIZE as int, 0, fe_one(), k));
            let r1 = Seq::new(pow2(b), |k: int| dfs_val(r.skip(7), s, 0, fe_one(), k));
            dot(r1, lincomb(rows, r0, pow2(b), m), s) == weighted_sum(src, mle_weight(r, COLUMN_SIZE * s), m * s)
        }),
    decreases m,
{
    let s = pow2(b) as int;
    let seg = pow2(b);
    let r0 = Seq::new(COLUMN_SIZE as nat, |k: int| dfs_val(r, COLUMN_SIZE as int, 0, fe_one(), k));
    let r1 = Seq::new(pow2(b), |k: int| dfs_val(r.skip(7), s, 0, fe_one(), k));
    let w = mle_weight(r, COLUMN_SIZE * s);
    vstd::arithmetic::power2::lemma_pow2_pos(b);
    if m == 0 {
        lemma_dot_zero(r1, seg, s);
        assert(m * s == 0) by (nonlinear_arith)
            requires
                m == 0,
        ;
    } else {
        lemma_multi_rows(src, rows, r, b, m - 1);
        let prev = lincomb(rows, r0, seg, m - 1);
        crate::linear_code::lemma_lincomb_len(rows, r0, seg, m - 1);
        let i = m - 1;
        assert((m - 1) * s + s <= COLUMN_SIZE * s) by (nonlinear_arith)
            requires
                m <= COLUMN_SIZE,
                s >= 1,
        ;
        assert(m * s == (m - 1) * s + s) by (nonlinear_arith);
        assert(0 <= (m - 1) * s) by (nonlinear_arith)
            requires
                m >= 1,
                s >= 1,
        ;
        assert(rows[m - 1] == row_of(src, s, m - 1));
        assert(rows[m - 1].len() == seg);
        let row = rows[m - 1].take(s);
        assert(row.len() == seg);
        assert forall|j: int| 0 <= j < seg implies #[trigger] row[j] == src[i * s + j] by {
            assert(row[j] == rows[m - 1][j]);
        }
        let sc = vscale(r0[m - 1], row);
        lemma_dot_vadd(r1, prev, sc, s);
        assert(r0[m - 1] == dfs_val(r, COLUMN_SIZE as int, 0, fe_one(), i));
        lemma_row_block(src, r, b, i, row, s);
        lemma_weighted_split(src, w, (m - 1) * s, s);
    }
}

/// The multilinear opening gives the multilinear extension: for rows of
/// `2^b` symbols cut from `src` (`COLUMN_SIZE` of them), the rows combined
/// with the tensor of the first seven coordinates of `r` and weighted with
/// the tensor of the coordinates past them give the multilinear extension
/// of `src` at `r`.
pub proof fn lemma_multi_opening_is_extension(src: Seq<FieldElement>, rows: Seq<Seq<FieldElement>>, r: Seq<FieldElement>, b: nat)
    requires
        src.len() == COLUMN_SIZE * pow2(b),
        7 + b <= r.len(),
        rows.len() >= COLUMN_SIZE,
        forall|i: int| 0 <= i < COLUMN_SIZE ==> #[trigger] rows[i] == row_of(src, pow2(b) as int, i),
    ensures
        ({
            let s = pow2(b) as int;
            let r0 = Seq::new(COLUMN_SIZE as nat, |k: int| dfs_val(r, COLUMN_SIZE as int, 0, fe_one(), k));
            let r1 = Seq::new(pow2(b), |k: int| dfs_val(r.skip(7), s, 0, fe_one(), k));
            dot(r1, lincomb(rows, r0, pow2(b), COLUMN_SIZE as int), s) == mle_value(src, r, src.len() as int)
        }),
{
    lemma_multi_rows(src, rows, r, b, COLUMN_SIZE as int);
}

} // verus!
