//! The coefficients of the public array's polynomial, prepared slice by
//! slice: the table of the point `r` splits into the table of its low
//! `log_length - LOG_SLICE_NUMBER` coordinates and the ratios given by its
//! high `LOG_SLICE_NUMBER` coordinates.
use crate::constants::{LOG_SLICE_NUMBER, MAX_ORDER_FFT};
use crate::fft::{fft_spec, ifft_ready, scratch_after, ifft_ready_check, ifft_scale, inverse_fast_fourier_transform, lemma_log_of, ScratchPad};
use crate::field::{fe_mul, fe_one, fe_root_base, fe_square_times, FieldElement, MAX_ORDER};
use crate::gkr_verifier::{lemma_tensor_table_len, tensor_table, zeros, ZkVerifier};
use crate::tensor::lemma_tensor_split;
use crate::utility::two_pow;
use vstd::arithmetic::power2::pow2;
use vstd::prelude::*;

verus! {

/// The coefficients that the inverse transform makes of the `2^n` values
/// `evals` with the scratch pad `sp`.
pub open spec fn slice_coefficients(sp: ScratchPad, evals: Seq<FieldElement>, n: nat) -> Seq<FieldElement> {
    let c = pow2(n) as int;
    Seq::new(
        pow2(n),
        |j: int| fe_mul(fft_spec(evals, sp.inv_twiddle_factor@, (sp.twiddle_factor_size / (c as usize)) as int, n, n)[j], ifft_scale(c)),
    )
}

/// The root of unity of order `2^n`.
pub open spec fn slice_root(n: nat) -> FieldElement {
    fe_square_times(fe_root_base(), (MAX_ORDER - n) as nat)
}

/// When `q_eval_real` holds the table of the point `r[0 .. log_length]`,
/// as the depth-first fill from the start writes it, each of its entries
/// `i 2^n + j` is ratio `i` times entry `j` of the low table: the tables
/// that `public_array_prepare` compares always agree.
pub proof fn lemma_public_tables_agree(q: Seq<FieldElement>, r: Seq<FieldElement>, om: Seq<FieldElement>, log_length: nat)
    requires
        LOG_SLICE_NUMBER <= log_length <= r.len(),
        log_length <= om.len(),
        forall|x: int|
            0 <= x < pow2(log_length) ==> #[trigger] q[x] == tensor_table(fe_one(), r, om, 0, log_length)[x],
    ensures
        ({
            let n = (log_length - LOG_SLICE_NUMBER) as nat;
            let ratio = tensor_table(
                fe_one(),
                r.subrange(n as int, r.len() as int),
                om.subrange(n as int, om.len() as int),
                0,
                LOG_SLICE_NUMBER as nat,
            );
            let low = tensor_table(fe_one(), r, om, 0, n);
            forall|i: int, j: int|
                0 <= i < pow2(LOG_SLICE_NUMBER as nat) && 0 <= j < pow2(n) ==> #[trigger] q[i * pow2(n) + j]
                    == fe_mul(ratio[i], #[trigger] low[j])
        }),
{
    let n = (log_length - LOG_SLICE_NUMBER) as nat;
    let m = LOG_SLICE_NUMBER as nat;
    assert forall|i: int, j: int| 0 <= i < pow2(m) && 0 <= j < pow2(n) implies #[trigger] q[i * pow2(n) + j]
        == fe_mul(
        tensor_table(
            fe_one(),
            r.subrange(n as int, r.len() as int),
            om.subrange(n as int, om.len() as int),
            0,
            m,
        )[i],
        #[trigger] tensor_table(fe_one(), r, om, 0, n)[j],
    ) by {
        lemma_tensor_split(r, om, n, m, i, j);
        vstd::arithmetic::power2::lemma_pow2_adds(n, m);
        assert(i * pow2(n) + j < pow2(n + m)) by (nonlinear_arith)
            requires
                i < pow2(m),
                j < pow2(n),
                0 <= i,
                pow2(n + m) == pow2(n) * pow2(m),
        ;
        assert(n + m == log_length);
        assert(0 <= i * pow2(n) + j) by (nonlinear_arith)
            requires
                0 <= i,
                0 <= j,
        ;
    }
}

/// `v[lo ..]`.
fn suffix(v: &Vec<FieldElement>, lo: usize) -> (r: Vec<FieldElement>)
    requires
        lo <= v@.len(),
    ensures
        r@ == v@.subrange(lo as int, v@.len() as int),
{
    let mut r: Vec<FieldElement> = Vec::new();
    let mut i = lo;
    while i < v.len()
        invariant
            lo <= i <= v@.len(),
            r@ == v@.subrange(lo as int, i as int),
        decreases v@.len() - i,
    {
        r.push(v[i]);
        proof {
            assert(r@ =~= v@.subrange(lo as int, i + 1));
        }
        i += 1;
    }
    r
}

/// Positions `a size + b` of distinct pairs with `b < size` differ.
proof fn lemma_index_distinct(a: int, b: int, i: int, j: int, size: int)
    requires
        0 <= a < 64,
        0 <= i,
        0 <= b < size,
        0 <= j < size,
        a != i || b != j,
    ensures
        a * size + b != i * size + j,
        0 <= a * size + b < 64 * size,
{
    assert(0 <= a * size + b < 64 * size) by (nonlinear_arith)
        requires
            0 <= a < 64,
            0 <= b < size,
    ;
    if a < i {
        assert(a * size + b < i * size) by (nonlinear_arith)
            requires
                0 <= a < i,
                0 <= b < size,
        ;
    } else if a > i {
        assert(a * size >= i * size + size) by (nonlinear_arith)
            requires
                a > i,
                size >= 0,
        ;
    }
}

impl ZkVerifier {
    /// The coefficients of the public array's polynomial at the point `r`:
    /// `q_ratio` gets the table of the high `LOG_SLICE_NUMBER` coordinates
    /// of `r[0 .. log_length]`, `q_eval_verifier` that of the low ones, and
    /// entry `i 2^n + j` of the result (`n = log_length - LOG_SLICE_NUMBER`)
    /// is coefficient `j` of the low table, by the inverse transform, times
    /// ratio `i`.  `None` where the inverse transform cannot run on the
    /// scratch pad, or where `q_eval_real` is not the product of the two
    /// tables.
    pub fn public_array_prepare(
        &mut self,
        r: &Vec<FieldElement>,
        one_minus_r: Vec<FieldElement>,
        log_length: usize,
        scratch_pad: &mut ScratchPad,
    ) -> (res: Option<Vec<FieldElement>>)
        requires
            LOG_SLICE_NUMBER <= log_length,
            log_length - LOG_SLICE_NUMBER < MAX_ORDER_FFT,
            log_length <= r@.len(),
            r@.len() == one_minus_r@.len(),
            old(self).ctx.q_eval_real@.len() >= pow2(log_length as nat),
            pow2(log_length as nat) <= usize::MAX,
        ensures
            ({
                let n = (log_length - LOG_SLICE_NUMBER) as nat;
                let size = pow2(n) as int;
                let ratio = tensor_table(
                    fe_one(),
                    r@.subrange(n as int, r@.len() as int),
                    one_minus_r@.subrange(n as int, one_minus_r@.len() as int),
                    0,
                    LOG_SLICE_NUMBER as nat,
                );
                let low = tensor_table(fe_one(), r@, one_minus_r@, 0, n);
                let coefs = slice_coefficients(*old(scratch_pad), low, n);
                &&& final(self).ctx.q_ratio@ == ratio
                &&& final(self).ctx.q_eval_verifier@ == low
                &&& final(self).ctx.q_eval_real@ == old(self).ctx.q_eval_real@
                &&& final(self).a_c == old(self).a_c
                &&& if ifft_ready(*old(scratch_pad), low, size as usize, size as usize, slice_root(n), size) {
                    scratch_after(*old(scratch_pad), *final(scratch_pad), low, old(scratch_pad).inv_twiddle_factor@, size as usize, size as usize)
                } else {
                    *final(scratch_pad) == *old(scratch_pad)
                }
                &&& res is Some <==> {
                    &&& ifft_ready(*old(scratch_pad), low, size as usize, size as usize, slice_root(n), size)
                    &&& forall|i: int, j: int|
                        0 <= i < pow2(LOG_SLICE_NUMBER as nat) && 0 <= j < size ==> #[trigger] old(
                            self,
                        ).ctx.q_eval_real@[i * size + j] == fe_mul(ratio[i], #[trigger] low[j])
                }
                &&& res matches Some(a) ==> {
                    &&& a@.len() == pow2(log_length as nat)
                    &&& forall|i: int, j: int|
                        0 <= i < pow2(LOG_SLICE_NUMBER as nat) && 0 <= j < size ==> #[trigger] a@[i * size + j]
                            == fe_mul(coefs[j], #[trigger] ratio[i])
                }
            }),
    {
        let n = log_length - LOG_SLICE_NUMBER;
        let ghost gn = n as nat;
        proof {
            vstd::arithmetic::power2::lemma2_to64();
            if n < 28 {
                vstd::arithmetic::power2::lemma_pow2_strictly_increases(gn, 28);
            }
            vstd::arithmetic::power2::lemma_pow2_adds(gn, 6);
            assert(gn + 6 == log_length);
        }
        let size = two_pow(n);
        let total = 64 * size;
        self.ctx.q_eval_verifier = zeros(size);
        self.ctx.q_ratio = zeros(64);
        let r_hi = suffix(r, n);
        let om_hi = suffix(&one_minus_r, n);
        self.dfs_ratio(0, FieldElement::real_one(), &r_hi, om_hi, 0);
        self.dfs_coef(0, FieldElement::real_one(), r, one_minus_r, 0, n);
        let ghost ratio = tensor_table(
            fe_one(),
            r@.subrange(n as int, r@.len() as int),
            one_minus_r@.subrange(n as int, one_minus_r@.len() as int),
            0,
            LOG_SLICE_NUMBER as nat,
        );
        let ghost low = tensor_table(fe_one(), r@, one_minus_r@, 0, gn);
        proof {
            lemma_tensor_table_len(fe_one(), r@.subrange(n as int, r@.len() as int), one_minus_r@.subrange(n as int, one_minus_r@.len() as int), 0, LOG_SLICE_NUMBER as nat);
            lemma_tensor_table_len(fe_one(), r@, one_minus_r@, 0, gn);
            assert(self.ctx.q_ratio@ =~= ratio);
            assert(self.ctx.q_eval_verifier@ =~= low);
        }
        let root = match FieldElement::get_root_of_unity(n) {
            Ok(x) => x,
            Err(_) => {
                return None;
            },
        };
        if !ifft_ready_check(scratch_pad, self.ctx.q_eval_verifier.as_slice(), size, size, root, size) {
            return None;
        }
        let mut q_coef = zeros(size);
        inverse_fast_fourier_transform(
            scratch_pad,
            self.ctx.q_eval_verifier.as_slice(),
            size,
            size,
            root,
            q_coef.as_mut_slice(),
        );
        let ghost coefs = slice_coefficients(*old(scratch_pad), low, gn);
        proof {
            lemma_log_of(gn);
            assert forall|j: int| 0 <= j < size implies #[trigger] q_coef@[j] == coefs[j] by {}
        }
        let mut q_coef_arr = zeros(total);
        let mut i: usize = 0;
        while i < 64
            invariant
                i <= 64,
                total == 64 * size,
                pow2(LOG_SLICE_NUMBER as nat) == 64,
                scratch_after(*old(scratch_pad), *scratch_pad, low, old(scratch_pad).inv_twiddle_factor@, size, size),
                self.a_c == old(self).a_c,
                gn == (log_length - LOG_SLICE_NUMBER) as nat,
                ratio == tensor_table(
                    fe_one(),
                    r@.subrange(gn as int, r@.len() as int),
                    one_minus_r@.subrange(gn as int, one_minus_r@.len() as int),
                    0,
                    LOG_SLICE_NUMBER as nat,
                ),
                low == tensor_table(fe_one(), r@, one_minus_r@, 0, gn),
                coefs == slice_coefficients(*old(scratch_pad), low, gn),
                ifft_ready(*old(scratch_pad), low, size, size, slice_root(gn), size as int),
                size == pow2(gn),
                q_coef_arr@.len() == total,
                q_coef@.len() == size,
                forall|j: int| 0 <= j < size ==> #[trigger] q_coef@[j] == coefs[j],
                self.ctx.q_ratio@ == ratio,
                self.ctx.q_eval_verifier@ == low,
                self.ctx.q_eval_real@ == old(self).ctx.q_eval_real@,
                self.ctx.q_eval_real@.len() >= total,
                ratio.len() == 64,
                low.len() == size,
                forall|a: int, b: int|
                    0 <= a < i && 0 <= b < size ==> #[trigger] q_coef_arr@[a * size + b] == fe_mul(coefs[b], ratio[a]),
                forall|a: int, b: int|
                    0 <= a < i && 0 <= b < size ==> #[trigger] old(self).ctx.q_eval_real@[a * size + b] == fe_mul(
                        ratio[a],
                        low[b],
                    ),
            decreases 64 - i,
        {
            let mut j: usize = 0;
            while j < size
                invariant
                    i < 64,
                    j <= size,
                    pow2(LOG_SLICE_NUMBER as nat) == 64,
                    scratch_after(*old(scratch_pad), *scratch_pad, low, old(scratch_pad).inv_twiddle_factor@, size, size),
                    self.a_c == old(self).a_c,
                    gn == (log_length - LOG_SLICE_NUMBER) as nat,
                    ratio == tensor_table(
                        fe_one(),
                        r@.subrange(gn as int, r@.len() as int),
                        one_minus_r@.subrange(gn as int, one_minus_r@.len() as int),
                        0,
                        LOG_SLICE_NUMBER as nat,
                    ),
                    low == tensor_table(fe_one(), r@, one_minus_r@, 0, gn),
                    coefs == slice_coefficients(*old(scratch_pad), low, gn),
                    ifft_ready(*old(scratch_pad), low, size, size, slice_root(gn), size as int),
                    total == 64 * size,
                    size == pow2(gn),
                    q_coef_arr@.len() == total,
                    q_coef@.len() == size,
                    forall|j: int| 0 <= j < size ==> #[trigger] q_coef@[j] == coefs[j],
                    self.ctx.q_ratio@ == ratio,
                    self.ctx.q_eval_verifier@ == low,
                    self.ctx.q_eval_real@ == old(self).ctx.q_eval_real@,
                    self.ctx.q_eval_real@.len() >= total,
                    ratio.len() == 64,
                    low.len() == size,
                    forall|a: int, b: int|
                        (0 <= a < i && 0 <= b < size) || (a == i && 0 <= b < j) ==> #[trigger] q_coef_arr@[a * size + b]
                            == fe_mul(coefs[b], ratio[a]),
                    forall|a: int, b: int|
                        (0 <= a < i && 0 <= b < size) || (a == i && 0 <= b < j) ==> #[trigger] old(
                            self,
                        ).ctx.q_eval_real@[a * size + b] == fe_mul(ratio[a], low[b]),
                decreases size - j,
            {
                proof {
                    assert(i * size + j < 64 * size) by (nonlinear_arith)
                        requires
                            i < 64,
                            j < size,
                    ;
                }
                let idx = i * size + j;
                let ghost prev = q_coef_arr@;
                let v = q_coef[j] * self.ctx.q_ratio[i];
                q_coef_arr.set(idx, v);
                proof {
                    assert forall|a: int, b: int|
                        (0 <= a < i && 0 <= b < size) || (a == i && 0 <= b < j + 1) implies #[trigger] q_coef_arr@[a
                        * size + b] == fe_mul(coefs[b], ratio[a]) by {
                        if a != i || b != j {
                            lemma_index_distinct(a, b, i as int, j as int, size as int);
                            assert(q_coef_arr@[a * size + b] == prev[a * size + b]);
                        }
                    }
                }
                if self.ctx.q_eval_real[idx] != self.ctx.q_ratio[i] * self.ctx.q_eval_verifier[j] {
                    proof {
                        assert(old(self).ctx.q_eval_real@[i * size + j] != fe_mul(ratio[i as int], low[j as int]));
                    }
                    return None;
                }
                j += 1;
            }
            i += 1;
        }
        Some(q_coef_arr)
    }
}

} // verus!
