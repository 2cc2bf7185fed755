//! The GKR verifier: the equality-polynomial tables of a layer, the values
//! of the wiring predicates at the random points, the relay term of the
//! input layer and the public evaluation tables.
use crate::beta::{beta_entry, fill_beta_table, is_beta_table};
use crate::circuit::{Gate, LayeredCircuit};
use crate::field::{fe_add, fe_mul, fe_nat, fe_one, fe_sub, fe_zero, FieldElement, RANDOM_BOUND};
use crate::sumcheck::{acc_terms, double_times, half_weight, span, split_weight};
use crate::constants::LOG_SLICE_NUMBER;
use crate::utility::{pow2_at_most, two_pow};
use vstd::arithmetic::power2::pow2;
use vstd::prelude::*;

verus! {

/// Tables of the public evaluation.
pub struct VerifierContext {
    pub q_eval_real: Vec<FieldElement>,
    pub q_eval_verifier: Vec<FieldElement>,
    pub q_ratio: Vec<FieldElement>,
}

pub struct ZkVerifier {
    pub proof_size: usize,
    pub beta_g_r0_first_half: Vec<FieldElement>,
    pub beta_g_r0_second_half: Vec<FieldElement>,
    pub beta_g_r1_first_half: Vec<FieldElement>,
    pub beta_g_r1_second_half: Vec<FieldElement>,
    pub beta_u_first_half: Vec<FieldElement>,
    pub beta_u_second_half: Vec<FieldElement>,
    pub beta_v_first_half: Vec<FieldElement>,
    pub beta_v_second_half: Vec<FieldElement>,
    pub beta_g_r0_block_first_half: Vec<FieldElement>,
    pub beta_g_r0_block_second_half: Vec<FieldElement>,
    pub beta_g_r1_block_first_half: Vec<FieldElement>,
    pub beta_g_r1_block_second_half: Vec<FieldElement>,
    pub beta_u_block_first_half: Vec<FieldElement>,
    pub beta_u_block_second_half: Vec<FieldElement>,
    pub beta_v_block_first_half: Vec<FieldElement>,
    pub beta_v_block_second_half: Vec<FieldElement>,
    pub a_c: LayeredCircuit,
    pub vpd_randomness: Vec<FieldElement>,
    pub one_minus_vpd_randomness: Vec<FieldElement>,
    pub ctx: VerifierContext,
}

/// `n` zeros.
pub(crate) fn zeros(n: usize) -> (r: Vec<FieldElement>)
    ensures
        r@ == Seq::new(n as nat, |i: int| fe_zero()),
{
    let mut r: Vec<FieldElement> = Vec::new();
    let mut i: usize = 0;
    while i < n
        invariant
            i <= n,
            r@ == Seq::new(i as nat, |k: int| fe_zero()),
        decreases n - i,
    {
        r.push(FieldElement::zero());
        i += 1;
    }
    r
}

// ---------------------------------------------------------------------------
// The block tables of a parallel layer
// ---------------------------------------------------------------------------
/// One round `i` of filling a second-half block table as the verifier does
/// it: the entries `2^i .. 2^(i + 1)` become the entries `0 .. 2^i` times
/// `ri`, and then the first two entries (only those) are scaled by `oi`.
pub open spec fn block_round(s: Seq<FieldElement>, i: nat, ri: FieldElement, oi: FieldElement) -> Seq<
    FieldElement,
> {
    Seq::new(
        s.len(),
        |x: int|
            {
                let a = if pow2(i) <= x < pow2(i + 1) {
                    fe_mul(s[x - pow2(i)], ri)
                } else {
                    s[x]
                };
                if x < 2 {
                    fe_mul(a, oi)
                } else {
                    a
                }
            },
    )
}

/// The second-half block table after `k` rounds over the coordinates
/// `off .. off + k`, starting from `s` with `init` in entry `0`.
pub open spec fn block_table(
    s: Seq<FieldElement>,
    init: FieldElement,
    r: Seq<FieldElement>,
    om: Seq<FieldElement>,
    off: int,
    k: nat,
) -> Seq<FieldElement>
    decreases k,
{
    if k == 0 {
        s.update(0, init)
    } else {
        block_round(block_table(s, init, r, om, off, (k - 1) as nat), (k - 1) as nat, r[off + k - 1], om[off + k - 1])
    }
}

/// Fills a second-half block table over `len` coordinates from `off`.
fn fill_block_table(
    t: &mut Vec<FieldElement>,
    init: FieldElement,
    r: &[FieldElement],
    om: &[FieldElement],
    off: usize,
    len: usize,
)
    requires
        pow2(len as nat) <= old(t)@.len(),
        len >= 1 ==> 2 <= old(t)@.len(),
        off + len <= r@.len(),
        off + len <= om@.len(),
    ensures
        final(t)@ == block_table(old(t)@, init, r@, om@, off as int, len as nat),
{
    let ghost t0 = t@;
    let tlen = t.len();
    proof {
        vstd::arithmetic::power2::lemma2_to64();
        vstd::arithmetic::power2::lemma_pow2_pos(len as nat);
    }
    t.set(0, init);
    let mut i: usize = 0;
    let mut step: usize = 1;
    while i < len
        invariant
            i <= len,
            step == pow2(i as nat),
            pow2(len as nat) <= t@.len(),
            len >= 1 ==> 2 <= t@.len(),
            t@.len() == t0.len(),
            tlen == t0.len(),
            off + len <= r.len(),
            off + len <= om.len(),
            t@ == block_table(t0, init, r@, om@, off as int, i as nat),
        decreases len - i,
    {
        let ri = r[off + i];
        let oi = om[off + i];
        proof {
            vstd::arithmetic::power2::lemma_pow2_unfold((i + 1) as nat);
            if i + 1 < len {
                vstd::arithmetic::power2::lemma_pow2_strictly_increases((i + 1) as nat, len as nat);
            }
        }
        let ghost before = t@;
        let mut j: usize = 0;
        while j < step
            invariant
                j <= step,
                step == pow2(i as nat),
                2 * step <= t@.len(),
                t@.len() == before.len(),
                tlen == before.len(),
                forall|x: int|
                    0 <= x < before.len() ==> #[trigger] t@[x] == (if step <= x < step + j {
                        fe_mul(before[x - step], ri)
                    } else {
                        before[x]
                    }),
            decreases step - j,
        {
            let cur = t[j];
            t.set(j + step, cur * ri);
            j += 1;
        }
        let a0 = t[0];
        t.set(0, a0 * oi);
        let a1 = t[1];
        t.set(1, a1 * oi);
        proof {
            assert(t@ =~= block_round(before, i as nat, ri, oi));
        }
        i += 1;
        step = step * 2;
    }
}

impl ZkVerifier {
    /// A verifier with no circuit and empty tables.
    pub fn new() -> (r: ZkVerifier)
        ensures
            r.proof_size == 0,
            r.a_c.circuit@.len() == 0,
            r.a_c.total_depth == 0,
            r.beta_g_r0_first_half@.len() == 0,
            r.beta_u_first_half@.len() == 0,
            r.ctx.q_eval_real@.len() == 0,
    {
        ZkVerifier {
            proof_size: 0,
            beta_g_r0_first_half: Vec::new(),
            beta_g_r0_second_half: Vec::new(),
            beta_g_r1_first_half: Vec::new(),
            beta_g_r1_second_half: Vec::new(),
            beta_u_first_half: Vec::new(),
            beta_u_second_half: Vec::new(),
            beta_v_first_half: Vec::new(),
            beta_v_second_half: Vec::new(),
            beta_g_r0_block_first_half: Vec::new(),
            beta_g_r0_block_second_half: Vec::new(),
            beta_g_r1_block_first_half: Vec::new(),
            beta_g_r1_block_second_half: Vec::new(),
            beta_u_block_first_half: Vec::new(),
            beta_u_block_second_half: Vec::new(),
            beta_v_block_first_half: Vec::new(),
            beta_v_block_second_half: Vec::new(),
            a_c: LayeredCircuit::new(),
            vpd_randomness: Vec::new(),
            one_minus_vpd_randomness: Vec::new(),
            ctx: VerifierContext { q_eval_real: Vec::new(), q_eval_verifier: Vec::new(), q_ratio: Vec::new() },
        }
    }

    /// Allocates the sixteen tables for layers of up to `max_bit_length` bits:
    /// `2^(max_bit_length / 2)` zeros for a first half, and
    /// `2^(max_bit_length - max_bit_length / 2)` for a second half.
    pub fn init_array(&mut self, max_bit_length: usize)
        requires
            pow2((max_bit_length - max_bit_length / 2) as nat) <= usize::MAX,
        ensures
            ({
                let f = Seq::new(pow2((max_bit_length / 2) as nat), |i: int| fe_zero());
                let s = Seq::new(pow2((max_bit_length - max_bit_length / 2) as nat), |i: int| fe_zero());
                &&& final(self).beta_g_r0_first_half@ == f
                &&& final(self).beta_g_r1_first_half@ == f
                &&& final(self).beta_u_first_half@ == f
                &&& final(self).beta_v_first_half@ == f
                &&& final(self).beta_g_r0_block_first_half@ == f
                &&& final(self).beta_g_r1_block_first_half@ == f
                &&& final(self).beta_u_block_first_half@ == f
                &&& final(self).beta_v_block_first_half@ == f
                &&& final(self).beta_g_r0_second_half@ == s
                &&& final(self).beta_g_r1_second_half@ == s
                &&& final(self).beta_u_second_half@ == s
                &&& final(self).beta_v_second_half@ == s
                &&& final(self).beta_g_r0_block_second_half@ == s
                &&& final(self).beta_g_r1_block_second_half@ == s
                &&& final(self).beta_u_block_second_half@ == s
                &&& final(self).beta_v_block_second_half@ == s
            }),
            final(self).a_c == old(self).a_c,
            final(self).proof_size == old(self).proof_size,
    {
        let first_half_len = max_bit_length / 2;
        let second_half_len = max_bit_length - first_half_len;
        proof {
            if first_half_len < second_half_len {
                vstd::arithmetic::power2::lemma_pow2_strictly_increases(first_half_len as nat, second_half_len as nat);
            }
        }
        let f = two_pow(first_half_len);
        let s = two_pow(second_half_len);
        self.beta_g_r0_first_half = zeros(f);
        self.beta_g_r0_second_half = zeros(s);
        self.beta_g_r1_first_half = zeros(f);
        self.beta_g_r1_second_half = zeros(s);
        self.beta_v_first_half = zeros(f);
        self.beta_v_second_half = zeros(s);
        self.beta_u_first_half = zeros(f);
        self.beta_u_second_half = zeros(s);
        self.beta_g_r0_block_first_half = zeros(f);
        self.beta_g_r0_block_second_half = zeros(s);
        self.beta_g_r1_block_first_half = zeros(f);
        self.beta_g_r1_block_second_half = zeros(s);
        self.beta_v_block_first_half = zeros(f);
        self.beta_v_block_second_half = zeros(s);
        self.beta_u_block_first_half = zeros(f);
        self.beta_u_block_second_half = zeros(s);
    }
}

impl ZkVerifier {
    /// The tables that `beta_init` fills for layer `depth` are large enough,
    /// and so are the points.
    pub open spec fn beta_init_ready(
        &self,
        depth: usize,
        r_0: Seq<FieldElement>,
        r_1: Seq<FieldElement>,
        r_u: Seq<FieldElement>,
        r_v: Seq<FieldElement>,
        one_minus_r_0: Seq<FieldElement>,
        one_minus_r_1: Seq<FieldElement>,
        one_minus_r_u: Seq<FieldElement>,
        one_minus_r_v: Seq<FieldElement>,
    ) -> bool {
        let layers = self.a_c.circuit@;
        let bg = layers[depth as int].bit_length;
        let buv = layers[depth - 1].bit_length;
        let lb = layers[depth - 1].log_block_size;
        &&& 1 <= depth < layers.len()
        &&& buv <= r_u.len() && buv <= r_v.len() && buv <= one_minus_r_u.len() && buv <= one_minus_r_v.len()
        &&& !layers[depth as int].is_parallel ==> {
            &&& bg <= r_0.len() && bg <= r_1.len()
            &&& bg <= one_minus_r_0.len() && bg <= one_minus_r_1.len()
            &&& pow2((bg / 2) as nat) <= self.beta_g_r0_first_half@.len()
            &&& pow2((bg / 2) as nat) <= self.beta_g_r1_first_half@.len()
            &&& pow2((bg - bg / 2) as nat) <= self.beta_g_r0_second_half@.len()
            &&& pow2((bg - bg / 2) as nat) <= self.beta_g_r1_second_half@.len()
            &&& pow2((buv / 2) as nat) <= self.beta_u_first_half@.len()
            &&& pow2((buv / 2) as nat) <= self.beta_v_first_half@.len()
            &&& pow2((buv - buv / 2) as nat) <= self.beta_u_second_half@.len()
            &&& pow2((buv - buv / 2) as nat) <= self.beta_v_second_half@.len()
        }
        &&& layers[depth as int].is_parallel ==> {
            &&& lb <= r_0.len() && lb <= r_1.len()
            &&& lb <= one_minus_r_0.len() && lb <= one_minus_r_1.len()
            &&& pow2((lb / 2) as nat) <= self.beta_g_r0_block_first_half@.len()
            &&& pow2((lb / 2) as nat) <= self.beta_g_r1_block_first_half@.len()
            &&& pow2((lb - lb / 2) as nat) <= self.beta_g_r0_block_second_half@.len()
            &&& pow2((lb - lb / 2) as nat) <= self.beta_g_r1_block_second_half@.len()
            &&& lb - lb / 2 >= 1 ==> 2 <= self.beta_g_r0_block_second_half@.len()
                && 2 <= self.beta_g_r1_block_second_half@.len()
            &&& pow2((buv / 2) as nat) <= self.beta_u_block_first_half@.len()
            &&& pow2((buv / 2) as nat) <= self.beta_v_block_first_half@.len()
            &&& pow2((buv - buv / 2) as nat) <= self.beta_u_block_second_half@.len()
            &&& pow2((buv - buv / 2) as nat) <= self.beta_v_block_second_half@.len()
        }
    }

    /// Fills the equality-polynomial tables of layer `depth`: for a layer
    /// that is not parallel, the halves of the tables of `r_0` (scaled by
    /// `alpha`) and `r_1` (scaled by `beta`) over the layer's bits, and of
    /// `r_u` and `r_v` over the previous layer's bits; for a parallel layer,
    /// the block tables, whose first halves take the coordinates from
    /// `log_block_size / 2` of the previous layer on, and whose second halves
    /// are filled round by round with only the first two entries scaled by
    /// `1 - r` (`block_table`).
    pub fn beta_init(
        &mut self,
        depth: usize,
        alpha: FieldElement,
        beta: FieldElement,
        r_0: &[FieldElement],
        r_1: &[FieldElement],
        r_u: &[FieldElement],
        r_v: &[FieldElement],
        one_minus_r_0: &[FieldElement],
        one_minus_r_1: &[FieldElement],
        one_minus_r_u: &[FieldElement],
        one_minus_r_v: &[FieldElement],
    )
        requires
            old(self).beta_init_ready(
                depth,
                r_0@,
                r_1@,
                r_u@,
                r_v@,
                one_minus_r_0@,
                one_minus_r_1@,
                one_minus_r_u@,
                one_minus_r_v@,
            ),
        ensures
            final(self).a_c == old(self).a_c,
            final(self).proof_size == old(self).proof_size,
            final(self).ctx == old(self).ctx,
            ({
                let layers = old(self).a_c.circuit@;
                let bg = layers[depth as int].bit_length;
                let buv = layers[depth - 1].bit_length;
                let fh = (bg / 2) as nat;
                let sh = (bg - bg / 2) as nat;
                let fu = (buv / 2) as nat;
                let su = (buv - buv / 2) as nat;
                if !layers[depth as int].is_parallel {
                    &&& is_beta_table(final(self).beta_g_r0_first_half@, old(self).beta_g_r0_first_half@, alpha, r_0@, one_minus_r_0@, 0, fh)
                    &&& is_beta_table(final(self).beta_g_r1_first_half@, old(self).beta_g_r1_first_half@, beta, r_1@, one_minus_r_1@, 0, fh)
                    &&& is_beta_table(final(self).beta_g_r0_second_half@, old(self).beta_g_r0_second_half@, fe_one(), r_0@, one_minus_r_0@, fh as int, sh)
                    &&& is_beta_table(final(self).beta_g_r1_second_half@, old(self).beta_g_r1_second_half@, fe_one(), r_1@, one_minus_r_1@, fh as int, sh)
                    &&& is_beta_table(final(self).beta_u_first_half@, old(self).beta_u_first_half@, fe_one(), r_u@, one_minus_r_u@, 0, fu)
                    &&& is_beta_table(final(self).beta_v_first_half@, old(self).beta_v_first_half@, fe_one(), r_v@, one_minus_r_v@, 0, fu)
                    &&& is_beta_table(final(self).beta_u_second_half@, old(self).beta_u_second_half@, fe_one(), r_u@, one_minus_r_u@, fu as int, su)
                    &&& is_beta_table(final(self).beta_v_second_half@, old(self).beta_v_second_half@, fe_one(), r_v@, one_minus_r_v@, fu as int, su)
                    &&& final(self).beta_g_r0_block_first_half@ == old(self).beta_g_r0_block_first_half@
                    &&& final(self).beta_g_r1_block_first_half@ == old(self).beta_g_r1_block_first_half@
                    &&& final(self).beta_g_r0_block_second_half@ == old(self).beta_g_r0_block_second_half@
                    &&& final(self).beta_g_r1_block_second_half@ == old(self).beta_g_r1_block_second_half@
                    &&& final(self).beta_u_block_first_half@ == old(self).beta_u_block_first_half@
                    &&& final(self).beta_v_block_first_half@ == old(self).beta_v_block_first_half@
                    &&& final(self).beta_u_block_second_half@ == old(self).beta_u_block_second_half@
                    &&& final(self).beta_v_block_second_half@ == old(self).beta_v_block_second_half@
                } else {
                    let lb = layers[depth - 1].log_block_size;
                    let fb = (lb / 2) as nat;
                    let sb = (lb - lb / 2) as nat;
                    &&& is_beta_table(final(self).beta_g_r0_block_first_half@, old(self).beta_g_r0_block_first_half@, alpha, r_0@, one_minus_r_0@, fb as int, fb)
                    &&& is_beta_table(final(self).beta_g_r1_block_first_half@, old(self).beta_g_r1_block_first_half@, beta, r_1@, one_minus_r_1@, fb as int, fb)
                    &&& final(self).beta_g_r0_block_second_half@ == block_table(old(self).beta_g_r0_block_second_half@, fe_one(), r_0@, one_minus_r_0@, fb as int, sb)
                    &&& final(self).beta_g_r1_block_second_half@ == block_table(old(self).beta_g_r1_block_second_half@, fe_one(), r_1@, one_minus_r_1@, fb as int, sb)
                    &&& is_beta_table(final(self).beta_u_block_first_half@, old(self).beta_u_block_first_half@, fe_one(), r_u@, one_minus_r_u@, 0, fu)
                    &&& is_beta_table(final(self).beta_v_block_first_half@, old(self).beta_v_block_first_half@, fe_one(), r_v@, one_minus_r_v@, 0, fu)
                    &&& is_beta_table(final(self).beta_u_block_second_half@, old(self).beta_u_block_second_half@, fe_one(), r_u@, one_minus_r_u@, fu as int, su)
                    &&& is_beta_table(final(self).beta_v_block_second_half@, old(self).beta_v_block_second_half@, fe_one(), r_v@, one_minus_r_v@, fu as int, su)
                    &&& final(self).beta_g_r0_first_half@ == old(self).beta_g_r0_first_half@
                    &&& final(self).beta_g_r1_first_half@ == old(self).beta_g_r1_first_half@
                    &&& final(self).beta_g_r0_second_half@ == old(self).beta_g_r0_second_half@
                    &&& final(self).beta_g_r1_second_half@ == old(self).beta_g_r1_second_half@
                    &&& final(self).beta_u_first_half@ == old(self).beta_u_first_half@
                    &&& final(self).beta_v_first_half@ == old(self).beta_v_first_half@
                    &&& final(self).beta_u_second_half@ == old(self).beta_u_second_half@
                    &&& final(self).beta_v_second_half@ == old(self).beta_v_second_half@
                }
            }),
    {
        let is_parallel = self.a_c.circuit[depth].is_parallel;
        let bg = self.a_c.circuit[depth].bit_length;
        let buv = self.a_c.circuit[depth - 1].bit_length;
        let fu = buv / 2;
        let su = buv - fu;
        let one = FieldElement::real_one();
        if !is_parallel {
            let fh = bg / 2;
            let sh = bg - fh;
            fill_beta_table(&mut self.beta_g_r0_first_half, alpha, r_0, one_minus_r_0, 0, fh);
            fill_beta_table(&mut self.beta_g_r1_first_half, beta, r_1, one_minus_r_1, 0, fh);
            fill_beta_table(&mut self.beta_g_r0_second_half, one, r_0, one_minus_r_0, fh, sh);
            fill_beta_table(&mut self.beta_g_r1_second_half, one, r_1, one_minus_r_1, fh, sh);
            fill_beta_table(&mut self.beta_u_first_half, one, r_u, one_minus_r_u, 0, fu);
            fill_beta_table(&mut self.beta_v_first_half, one, r_v, one_minus_r_v, 0, fu);
            fill_beta_table(&mut self.beta_u_second_half, one, r_u, one_minus_r_u, fu, su);
            fill_beta_table(&mut self.beta_v_second_half, one, r_v, one_minus_r_v, fu, su);
        } else {
            let lb = self.a_c.circuit[depth - 1].log_block_size;
            let fb = lb / 2;
            let sb = lb - fb;
            fill_beta_table(&mut self.beta_g_r0_block_first_half, alpha, r_0, one_minus_r_0, fb, fb);
            fill_beta_table(&mut self.beta_g_r1_block_first_half, beta, r_1, one_minus_r_1, fb, fb);
            fill_block_table(&mut self.beta_g_r0_block_second_half, one, r_0, one_minus_r_0, fb, sb);
            fill_block_table(&mut self.beta_g_r1_block_second_half, one, r_1, one_minus_r_1, fb, sb);
            fill_beta_table(&mut self.beta_u_block_first_half, one, r_u, one_minus_r_u, 0, fu);
            fill_beta_table(&mut self.beta_v_block_first_half, one, r_v, one_minus_r_v, 0, fu);
            fill_beta_table(&mut self.beta_u_block_second_half, one, r_u, one_minus_r_u, fu, su);
            fill_beta_table(&mut self.beta_v_block_second_half, one, r_v, one_minus_r_v, fu, su);
        }
    }
}

// ---------------------------------------------------------------------------
// The wiring predicates of a layer that is not parallel
// ---------------------------------------------------------------------------
/// The number of positions `u ..= v`.
pub open spec fn span_incl(u: usize, v: usize) -> nat {
    if u <= v { (v - u + 1) as nat } else { 0 }
}

/// How gate `g` at position `k` adds to the predicate of its type: `wg`,
/// `wu` and `wv` are the weights of positions of the layer and of the two
/// random points of the previous layer, `bv0` the weight of position `0` at
/// the point of `v`.
pub open spec fn pred_step(
    g: Gate,
    k: int,
    wg: spec_fn(int) -> FieldElement,
    wu: spec_fn(int) -> FieldElement,
    wv: spec_fn(int) -> FieldElement,
    bv0: FieldElement,
    acc: FieldElement,
) -> FieldElement {
    let ty = g.ty;
    if ty == 0 || ty == 1 || ty == 6 || ty == 7 || ty == 8 || ty == 9 || ty == 13 {
        fe_add(acc, fe_mul(fe_mul(wg(k), wu(g.u as int)), wv(g.v as int)))
    } else if ty == 5 {
        acc_terms(acc, |j: int| fe_mul(fe_mul(wg(k), bv0), wu(j)), g.u as int, span(g.u, g.v))
    } else if ty == 12 {
        acc_terms(
            acc,
            |j: int| fe_mul(fe_mul(wg(k), double_times(bv0, (j - g.u) as nat)), wu(j)),
            g.u as int,
            span_incl(g.u, g.v),
        )
    } else if ty == 14 {
        acc_terms(
            acc,
            |j: int| fe_mul(fe_mul(fe_mul(wg(k), bv0), wu(g.src@[j] as int)), g.weight@[j]),
            0,
            g.parameter_length as nat,
        )
    } else if ty == 10 {
        fe_add(acc, fe_mul(wg(k), wu(g.u as int)))
    } else {
        acc
    }
}

/// The predicate of gate type `t` over the first `k` gates.
pub open spec fn pred_sum(
    gates: Seq<Gate>,
    wg: spec_fn(int) -> FieldElement,
    wu: spec_fn(int) -> FieldElement,
    wv: spec_fn(int) -> FieldElement,
    bv0: FieldElement,
    t: int,
    k: nat,
) -> FieldElement
    decreases k,
{
    if k == 0 {
        fe_zero()
    } else {
        let prev = pred_sum(gates, wg, wu, wv, bv0, t, (k - 1) as nat);
        if gates[k - 1].ty == t {
            pred_step(gates[k - 1], k - 1, wg, wu, wv, bv0, prev)
        } else {
            prev
        }
    }
}

/// Gate `g` reads inside the tables of the random points of the previous
/// layer (`su_len` and `sv_len` second-half entries split at `size`), which
/// has `2^prev_bits` positions.
pub open spec fn pred_gate_ok(g: Gate, su_len: int, sv_len: int, size: int, prev_bits: nat) -> bool {
    let ty = g.ty;
    &&& (ty == 0 || ty == 1 || ty == 6 || ty == 7 || ty == 8 || ty == 9 || ty == 13) ==> {
        &&& (g.u as int) / size < su_len
        &&& (g.v as int) / size < sv_len
    }
    &&& ty == 5 ==> forall|j: int| g.u <= j < g.v ==> #[trigger] (j / size) < su_len
    &&& ty == 12 ==> {
        &&& g.v < usize::MAX
        &&& forall|j: int| g.u <= j <= g.v ==> #[trigger] (j / size) < su_len
    }
    &&& ty == 14 ==> {
        &&& g.parameter_length <= g.src@.len()
        &&& g.parameter_length <= g.weight@.len()
        &&& forall|j: int| 0 <= j < g.parameter_length ==> (#[trigger] g.src@[j] as int) / size < su_len
    }
    &&& ty == 10 ==> g.u < pow2(prev_bits) && pow2(prev_bits) <= size * su_len
}

/// Adds the value of one gate to `acc`.
fn pred_gate(
    gate: &Gate,
    k: usize,
    wgk: FieldElement,
    fu: &Vec<FieldElement>,
    su: &Vec<FieldElement>,
    fv: &Vec<FieldElement>,
    sv: &Vec<FieldElement>,
    size: usize,
    bv0: FieldElement,
    acc: FieldElement,
    wg: Ghost<spec_fn(int) -> FieldElement>,
    prev_bits: Ghost<nat>,
) -> (r: FieldElement)
    requires
        wg@(k as int) == wgk,
        0 < size,
        size <= fu@.len(),
        size <= fv@.len(),
        pred_gate_ok(*gate, su@.len() as int, sv@.len() as int, size as int, prev_bits@),
    ensures
        r == pred_step(
            *gate,
            k as int,
            wg@,
            crate::sumcheck::half_weights(fu@, su@, size as int),
            crate::sumcheck::half_weights(fv@, sv@, size as int),
            bv0,
            acc,
        ),
{
    let ghost wu = crate::sumcheck::half_weights(fu@, su@, size as int);
    let ghost wv = crate::sumcheck::half_weights(fv@, sv@, size as int);
    let ty = gate.ty;
    let u = gate.u;
    let v = gate.v;
    if ty == 0 || ty == 1 || ty == 6 || ty == 7 || ty == 8 || ty == 9 || ty == 13 {
        let a = crate::sumcheck::half_weight_at(fu, su, size, u);
        let b = crate::sumcheck::half_weight_at(fv, sv, size, v);
        acc + wgk * a * b
    } else if ty == 5 || ty == 12 {
        let ghost f = if ty == 5 {
            |j: int| fe_mul(fe_mul(wg@(k as int), bv0), wu(j))
        } else {
            |j: int| fe_mul(fe_mul(wg@(k as int), double_times(bv0, (j - u) as nat)), wu(j))
        };
        let ghost cnt = if ty == 5 { span(u, v) } else { span_incl(u, v) };
        let end: usize = if ty == 5 { v } else { v + 1 };
        let mut t = bv0;
        let mut r = acc;
        let mut j = u;
        while j < end
            invariant
                u <= j <= end || (j == u && end < u),
                ty == gate.ty && u == gate.u && v == gate.v,
                ty == 5 || ty == 12,
                ty == 5 ==> end == v,
                ty == 12 ==> end == v + 1,
                cnt == (if ty == 5 { span(u, v) } else { span_incl(u, v) }),
                0 < size,
                size <= fu@.len(),
                forall|x: int| u <= x < end ==> #[trigger] (x / (size as int)) < su@.len(),
                wu == crate::sumcheck::half_weights(fu@, su@, size as int),
                f == (if ty == 5 {
                    |j: int| fe_mul(fe_mul(wg@(k as int), bv0), wu(j))
                } else {
                    |j: int| fe_mul(fe_mul(wg@(k as int), double_times(bv0, (j - u) as nat)), wu(j))
                }),
                wg@(k as int) == wgk,
                ty == 12 ==> t == double_times(bv0, (j - u) as nat),
                ty == 5 ==> t == bv0,
                r == acc_terms(acc, f, u as int, span(u, j)),
            decreases end - j,
        {
            assert((j as int) / (size as int) < su@.len());
            let w = crate::sumcheck::half_weight_at(fu, su, size, j);
            r = r + wgk * t * w;
            proof {
                assert(span(u, (j + 1) as usize) == span(u, j) + 1);
            }
            if ty == 12 {
                t = t + t;
            }
            j += 1;
        }
        proof {
            if u < end {
                assert(span(u, j) == cnt);
            } else {
                assert(cnt == 0);
            }
        }
        r
    } else if ty == 14 {
        let ghost f = |j: int| fe_mul(fe_mul(fe_mul(wg@(k as int), bv0), wu(gate.src@[j] as int)), gate.weight@[j]);
        let mut r = acc;
        let mut j: usize = 0;
        while j < gate.parameter_length
            invariant
                j <= gate.parameter_length,
                ty == gate.ty && ty == 14,
                0 < size,
                size <= fu@.len(),
                gate.parameter_length <= gate.src@.len(),
                gate.parameter_length <= gate.weight@.len(),
                forall|x: int| 0 <= x < gate.parameter_length ==> (#[trigger] gate.src@[x] as int) / (size as int) < su@.len(),
                wu == crate::sumcheck::half_weights(fu@, su@, size as int),
                f == |j: int| fe_mul(fe_mul(fe_mul(wg@(k as int), bv0), wu(gate.src@[j] as int)), gate.weight@[j]),
                wg@(k as int) == wgk,
                r == acc_terms(acc, f, 0, j as nat),
            decreases gate.parameter_length - j,
        {
            let src = gate.src[j];
            assert((src as int) / (size as int) < su@.len());
            let w = crate::sumcheck::half_weight_at(fu, su, size, src);
            r = r + wgk * bv0 * w * gate.weight[j];
            j += 1;
        }
        r
    } else if ty == 10 {
        proof {
            assert((u as int) / (size as int) < su@.len()) by (nonlinear_arith)
                requires
                    u < pow2(prev_bits@),
                    pow2(prev_bits@) <= size * su@.len(),
                    0 < size,
            ;
        }
        let a = crate::sumcheck::half_weight_at(fu, su, size, u);
        acc + wgk * a
    } else {
        acc
    }
}

impl ZkVerifier {
    /// The weights of the positions of layer `depth` (the tables of `r_0`
    /// and `r_1` added).
    pub open spec fn g_weights(&self, depth: usize) -> spec_fn(int) -> FieldElement {
        crate::sumcheck::split_weights(
            self.beta_g_r0_first_half@,
            self.beta_g_r0_second_half@,
            self.beta_g_r1_first_half@,
            self.beta_g_r1_second_half@,
            pow2((self.a_c.circuit@[depth as int].bit_length / 2) as nat) as int,
        )
    }

    /// The weights of the positions of the previous layer at `r_u`.
    pub open spec fn u_weights(&self, depth: usize) -> spec_fn(int) -> FieldElement {
        crate::sumcheck::half_weights(
            self.beta_u_first_half@,
            self.beta_u_second_half@,
            pow2((self.a_c.circuit@[depth - 1].bit_length / 2) as nat) as int,
        )
    }

    /// The weights of the positions of the previous layer at `r_v`.
    pub open spec fn v_weights(&self, depth: usize) -> spec_fn(int) -> FieldElement {
        crate::sumcheck::half_weights(
            self.beta_v_first_half@,
            self.beta_v_second_half@,
            pow2((self.a_c.circuit@[depth - 1].bit_length / 2) as nat) as int,
        )
    }

    /// The predicates of a layer that is not parallel can be evaluated from
    /// the tables.
    pub open spec fn serial_ready(&self, depth: usize) -> bool {
        let layers = self.a_c.circuit@;
        let bg = layers[depth as int].bit_length;
        let buv = layers[depth - 1].bit_length;
        let size_g = pow2((bg / 2) as nat);
        let size = pow2((buv / 2) as nat);
        &&& 2 <= depth < layers.len()
        &&& buv < usize::BITS
        &&& pow2(bg as nat) <= layers[depth as int].gates@.len()
        &&& size_g <= self.beta_g_r0_first_half@.len()
        &&& size_g <= self.beta_g_r1_first_half@.len()
        &&& pow2(bg as nat) <= size_g * self.beta_g_r0_second_half@.len()
        &&& pow2(bg as nat) <= size_g * self.beta_g_r1_second_half@.len()
        &&& size <= self.beta_u_first_half@.len()
        &&& size <= self.beta_v_first_half@.len()
        &&& 1 <= self.beta_v_second_half@.len()
        &&& forall|g: int|
            0 <= g < pow2(bg as nat) ==> pred_gate_ok(
                #[trigger] layers[depth as int].gates@[g],
                self.beta_u_second_half@.len() as int,
                self.beta_v_second_half@.len() as int,
                size as int,
                buv as nat,
            )
    }

    /// The value of predicate `t` of a layer that is not parallel: the sum
    /// over its gates of type `t`; the relay predicate is also scaled by the
    /// weight of position `0` at `r_v`.
    pub open spec fn serial_predicate(&self, depth: usize, t: int) -> FieldElement {
        let bv0 = self.v_weights(depth)(0);
        let s = pred_sum(
            self.a_c.circuit@[depth as int].gates@,
            self.g_weights(depth),
            self.u_weights(depth),
            self.v_weights(depth),
            bv0,
            t,
            pow2(self.a_c.circuit@[depth as int].bit_length as nat),
        );
        if t == 10 {
            fe_mul(s, bv0)
        } else {
            s
        }
    }

    fn serial_predicates(&self, depth: usize) -> (ret: Vec<FieldElement>)
        requires
            self.serial_ready(depth),
        ensures
            ret@.len() == 15,
            forall|t: int| 0 <= t < 15 ==> #[trigger] ret@[t] == self.serial_predicate(depth, t),
    {
        let ghost wg = self.g_weights(depth);
        let ghost wu = self.u_weights(depth);
        let ghost wv = self.v_weights(depth);
        let layer = &self.a_c.circuit[depth];
        let bg = layer.bit_length;
        let buv = self.a_c.circuit[depth - 1].bit_length;
        let flen = self.beta_g_r0_first_half.len();
        let ulen = self.beta_u_first_half.len();
        let size_g = two_pow(bg / 2);
        let size = two_pow(buv / 2);
        let gl = layer.gates.len();
        let n = two_pow(bg);
        proof {
            vstd::arithmetic::power2::lemma_pow2_pos((bg / 2) as nat);
            vstd::arithmetic::power2::lemma_pow2_pos((buv / 2) as nat);
        }
        let bv0 = crate::sumcheck::half_weight_at(&self.beta_v_first_half, &self.beta_v_second_half, size, 0);
        let mut ret = zeros(15);
        let mut i: usize = 0;
        while i < n
            invariant
                i <= n,
                n == pow2(bg as nat),
                self.serial_ready(depth),
                layer == &self.a_c.circuit@[depth as int],
                bg == layer.bit_length,
                buv == self.a_c.circuit@[depth - 1].bit_length,
                size_g == pow2((bg / 2) as nat),
                size == pow2((buv / 2) as nat),
                0 < size_g,
                0 < size,
                wg == self.g_weights(depth),
                wu == self.u_weights(depth),
                wv == self.v_weights(depth),
                bv0 == wv(0),
                ret@.len() == 15,
                forall|t: int| 0 <= t < 15 ==> #[trigger] ret@[t] == pred_sum(layer.gates@, wg, wu, wv, bv0, t, i as nat),
            decreases n - i,
        {
            let gate = &layer.gates[i];
            let ty = gate.ty;
            assert((i as int) / (size_g as int) < self.beta_g_r0_second_half@.len()
                && (i as int) / (size_g as int) < self.beta_g_r1_second_half@.len()) by (nonlinear_arith)
                requires
                    i < n,
                    n <= size_g * self.beta_g_r0_second_half@.len(),
                    n <= size_g * self.beta_g_r1_second_half@.len(),
                    0 < size_g,
            ;
            let wgk = crate::sumcheck::weight_at(
                &self.beta_g_r0_first_half,
                &self.beta_g_r0_second_half,
                &self.beta_g_r1_first_half,
                &self.beta_g_r1_second_half,
                size_g,
                i,
            );
            if ty < 15 {
                let cur = ret[ty];
                let next = pred_gate(
                    gate,
                    i,
                    wgk,
                    &self.beta_u_first_half,
                    &self.beta_u_second_half,
                    &self.beta_v_first_half,
                    &self.beta_v_second_half,
                    size,
                    bv0,
                    cur,
                    Ghost(wg),
                    Ghost(buv as nat),
                );
                ret.set(ty, next);
            }
            i += 1;
        }
        let r10 = ret[10];
        ret.set(10, r10 * bv0);
        ret
    }
}

// ---------------------------------------------------------------------------
// The wiring predicates of a parallel layer
// ---------------------------------------------------------------------------
/// The value of one block for gate type `t`, over the gates `0 .. k`: gate
/// `i` is read at position `i mod 2^g_bits` of the block, its inputs at
/// `u mod 2^uv_bits` and `v mod 2^uv_bits`.
pub open spec fn block_sum(
    gates: Seq<Gate>,
    wg: spec_fn(int) -> FieldElement,
    wu: spec_fn(int) -> FieldElement,
    wv: spec_fn(int) -> FieldElement,
    bv0: FieldElement,
    g_bits: nat,
    uv_bits: nat,
    t: int,
    k: nat,
) -> FieldElement
    decreases k,
{
    if k == 0 {
        fe_zero()
    } else {
        let acc = block_sum(gates, wg, wu, wv, bv0, g_bits, uv_bits, t, (k - 1) as nat);
        if gates[k - 1].ty != t {
            acc
        } else {
            block_step(gates[k - 1], k - 1, wg, wu, wv, bv0, g_bits, uv_bits, acc)
        }
    }
}

/// How gate `gate` at index `k` adds to the block value of its type.
pub open spec fn block_step(
    gate: Gate,
    k: int,
    wg: spec_fn(int) -> FieldElement,
    wu: spec_fn(int) -> FieldElement,
    wv: spec_fn(int) -> FieldElement,
    bv0: FieldElement,
    g_bits: nat,
    uv_bits: nat,
    acc: FieldElement,
) -> FieldElement {
    let g = k % (pow2(g_bits) as int);
    let u = (gate.u as int) % (pow2(uv_bits) as int);
    let v = (gate.v as int) % (pow2(uv_bits) as int);
    let ty = gate.ty;
    if ty == 0 || ty == 1 || ty == 6 || ty == 7 || ty == 8 || ty == 9 || ty == 10 || ty == 13 {
        fe_add(acc, fe_mul(wg(g), fe_mul(wu(u), wv(v))))
    } else if ty == 5 {
        acc_terms(acc, |j: int| fe_mul(fe_mul(wg(g), bv0), wu(j)), u, span(u as usize, v as usize))
    } else if ty == 12 {
        acc_terms(
            acc,
            |j: int| fe_mul(fe_mul(wg(g), double_times(bv0, (j - u) as nat)), wu(j)),
            u,
            span_incl(u as usize, v as usize),
        )
    } else {
        acc
    }
}

/// `1 - x`.
pub open spec fn fe_comp(x: FieldElement) -> FieldElement {
    fe_sub(fe_one(), x)
}

/// The weight of copy `i` of the block over the first `k` bits of the copy
/// index, read at coordinate `g_off + j` of `rg` and `uv_off + j` of `r_u`
/// and `r_v`; a bit counts as set when `i / 2^j > 0`.  With `v0`, the copy's
/// second input is taken at position `0` of the other copy's bits.
pub open spec fn copy_weight(
    i: int,
    rg: Seq<FieldElement>,
    r_u: Seq<FieldElement>,
    r_v: Seq<FieldElement>,
    g_off: int,
    uv_off: int,
    v0: bool,
    k: nat,
) -> FieldElement
    decreases k,
{
    if k == 0 {
        fe_one()
    } else {
        let j = k - 1;
        copy_factor(
            copy_weight(i, rg, r_u, r_v, g_off, uv_off, v0, j as nat),
            rg[g_off + j],
            r_u[uv_off + j],
            r_v[uv_off + j],
            v0,
            i / (pow2(j as nat) as int) > 0,
        )
    }
}

/// One factor of `copy_weight`: `p` times the weight of one bit, set or not.
pub open spec fn copy_factor(
    p: FieldElement,
    x: FieldElement,
    ru: FieldElement,
    rv: FieldElement,
    v0: bool,
    set: bool,
) -> FieldElement {
    if set {
        let uv = if v0 {
            fe_mul(ru, fe_comp(rv))
        } else {
            fe_mul(ru, rv)
        };
        fe_mul(fe_mul(p, x), uv)
    } else {
        let uv = fe_mul(fe_comp(ru), fe_comp(rv));
        fe_mul(fe_mul(p, fe_comp(x)), uv)
    }
}

fn copy_factor_exec(
    p: FieldElement,
    x: FieldElement,
    ru: FieldElement,
    rv: FieldElement,
    v0: bool,
    set: bool,
) -> (r: FieldElement)
    ensures
        r == copy_factor(p, x, ru, rv, v0, set),
{
    let one = FieldElement::real_one();
    if set {
        let uv = if v0 {
            ru * (one - rv)
        } else {
            ru * rv
        };
        p * x * uv
    } else {
        let uv = (one - ru) * (one - rv);
        p * (one - x) * uv
    }
}

/// The sum over the first `k` copies of the weighted block values `a` (for
/// `r_0`) and `b` (for `r_1`).
pub open spec fn copies_sum(
    a: FieldElement,
    b: FieldElement,
    r_0: Seq<FieldElement>,
    r_1: Seq<FieldElement>,
    r_u: Seq<FieldElement>,
    r_v: Seq<FieldElement>,
    g_off: int,
    uv_off: int,
    v0: bool,
    bits: nat,
    k: nat,
) -> FieldElement
    decreases k,
{
    if k == 0 {
        fe_zero()
    } else {
        let i = k - 1;
        let acc = copies_sum(a, b, r_0, r_1, r_u, r_v, g_off, uv_off, v0, bits, (k - 1) as nat);
        fe_add(
            fe_add(acc, fe_mul(copy_weight(i, r_0, r_u, r_v, g_off, uv_off, v0, bits), a)),
            fe_mul(copy_weight(i, r_1, r_u, r_v, g_off, uv_off, v0, bits), b),
        )
    }
}

/// The predicate types whose second input is position `0`.
pub open spec fn reads_v0(t: int) -> bool {
    t == 5 || t == 6 || t == 10 || t == 12
}

/// Halving `i / 2^j` gives `i / 2^(j + 1)`.
proof fn lemma_halve_quotient(i: int, j: nat)
    requires
        i >= 0,
    ensures
        (i / (pow2(j) as int)) / 2 == i / (pow2(j + 1) as int),
{
    vstd::arithmetic::power2::lemma_pow2_pos(j);
    vstd::arithmetic::power2::lemma_pow2_unfold(j + 1);
    vstd::arithmetic::div_mod::lemma_div_denominator(i, pow2(j) as int, 2);
    vstd::arithmetic::mul::lemma_mul_is_commutative(pow2(j) as int, 2);
}

/// `copy_weight`, computed.
fn copy_weight_exec(
    i: usize,
    rg: &Vec<FieldElement>,
    r_u: &Vec<FieldElement>,
    r_v: &Vec<FieldElement>,
    g_off: usize,
    uv_off: usize,
    v0: bool,
    bits: usize,
) -> (r: FieldElement)
    requires
        g_off + bits <= rg@.len(),
        uv_off + bits <= r_u@.len(),
        uv_off + bits <= r_v@.len(),
    ensures
        r == copy_weight(i as int, rg@, r_u@, r_v@, g_off as int, uv_off as int, v0, bits as nat),
{
    let mut p = FieldElement::real_one();
    let mut rest = i;
    let mut j: usize = 0;
    proof {
        vstd::arithmetic::power2::lemma2_to64();
    }
    while j < bits
        invariant
            j <= bits,
            g_off + bits <= rg.len(),
            uv_off + bits <= r_u.len(),
            uv_off + bits <= r_v.len(),
            rest == (i as int) / (pow2(j as nat) as int),
            p == copy_weight(i as int, rg@, r_u@, r_v@, g_off as int, uv_off as int, v0, j as nat),
        decreases bits - j,
    {
        p = copy_factor_exec(p, rg[g_off + j], r_u[uv_off + j], r_v[uv_off + j], v0, rest > 0);
        assert(p == copy_weight(i as int, rg@, r_u@, r_v@, g_off as int, uv_off as int, v0, (j + 1) as nat));
        assert((rest / 2) as int == (i as int) / (pow2((j + 1) as nat) as int)) by {
            lemma_halve_quotient(i as int, j as nat);
        }
        rest = rest / 2;
        j += 1;
    }
    p
}

/// Adds gate `gate` at index `k` to the block values `acc_a` (for `r_0`)
/// and `acc_b` (for `r_1`) of its type.
fn block_gate(
    gate: &Gate,
    k: usize,
    wga: FieldElement,
    wgb: FieldElement,
    fu: &Vec<FieldElement>,
    su: &Vec<FieldElement>,
    fv: &Vec<FieldElement>,
    sv: &Vec<FieldElement>,
    size: usize,
    uv_mask: usize,
    bv0: FieldElement,
    acc_a: FieldElement,
    acc_b: FieldElement,
    wg_a: Ghost<spec_fn(int) -> FieldElement>,
    wg_b: Ghost<spec_fn(int) -> FieldElement>,
    g_bits: Ghost<nat>,
    uv_bits: Ghost<nat>,
) -> (r: (FieldElement, FieldElement))
    requires
        wg_a@(k as int % (pow2(g_bits@) as int)) == wga,
        wg_b@(k as int % (pow2(g_bits@) as int)) == wgb,
        uv_mask == pow2(uv_bits@),
        0 < size,
        size <= fu@.len(),
        size <= fv@.len(),
        uv_mask <= size * su@.len(),
        uv_mask <= size * sv@.len(),
    ensures
        r.0 == block_step(
            *gate,
            k as int,
            wg_a@,
            crate::sumcheck::half_weights(fu@, su@, size as int),
            crate::sumcheck::half_weights(fv@, sv@, size as int),
            bv0,
            g_bits@,
            uv_bits@,
            acc_a,
        ),
        r.1 == block_step(
            *gate,
            k as int,
            wg_b@,
            crate::sumcheck::half_weights(fu@, su@, size as int),
            crate::sumcheck::half_weights(fv@, sv@, size as int),
            bv0,
            g_bits@,
            uv_bits@,
            acc_b,
        ),
{
    let ghost wu = crate::sumcheck::half_weights(fu@, su@, size as int);
    let ghost wv = crate::sumcheck::half_weights(fv@, sv@, size as int);
    proof {
        vstd::arithmetic::power2::lemma_pow2_pos(uv_bits@);
    }
    let ty = gate.ty;
    let u = gate.u % uv_mask;
    let v = gate.v % uv_mask;
    assert((u as int) / (size as int) < su@.len() && (v as int) / (size as int) < sv@.len()) by (nonlinear_arith)
        requires
            u < uv_mask,
            v < uv_mask,
            uv_mask <= size * su@.len(),
            uv_mask <= size * sv@.len(),
            0 < size,
    ;
    if ty == 0 || ty == 1 || ty == 6 || ty == 7 || ty == 8 || ty == 9 || ty == 10 || ty == 13 {
        let uv = crate::sumcheck::half_weight_at(fu, su, size, u) * crate::sumcheck::half_weight_at(fv, sv, size, v);
        (acc_a + wga * uv, acc_b + wgb * uv)
    } else if ty == 5 || ty == 12 {
        let ghost fa = if ty == 5 {
            |j: int| fe_mul(fe_mul(wga, bv0), wu(j))
        } else {
            |j: int| fe_mul(fe_mul(wga, double_times(bv0, (j - u) as nat)), wu(j))
        };
        let ghost fb = if ty == 5 {
            |j: int| fe_mul(fe_mul(wgb, bv0), wu(j))
        } else {
            |j: int| fe_mul(fe_mul(wgb, double_times(bv0, (j - u) as nat)), wu(j))
        };
        let ghost cnt = if ty == 5 { span(u, v) } else { span_incl(u, v) };
        let end: usize = if ty == 5 { v } else { v + 1 };
        let mut t = bv0;
        let mut ra = acc_a;
        let mut rb = acc_b;
        let mut j = u;
        while j < end
            invariant
                u <= j <= end || (j == u && end < u),
                v < uv_mask,
                ty == gate.ty,
                ty == 5 || ty == 12,
                ty == 5 ==> end == v,
                ty == 12 ==> end == v + 1,
                cnt == (if ty == 5 { span(u, v) } else { span_incl(u, v) }),
                0 < size,
                size <= fu@.len(),
                uv_mask <= size * su@.len(),
                wu == crate::sumcheck::half_weights(fu@, su@, size as int),
                fa == (if ty == 5 {
                    |j: int| fe_mul(fe_mul(wga, bv0), wu(j))
                } else {
                    |j: int| fe_mul(fe_mul(wga, double_times(bv0, (j - u) as nat)), wu(j))
                }),
                fb == (if ty == 5 {
                    |j: int| fe_mul(fe_mul(wgb, bv0), wu(j))
                } else {
                    |j: int| fe_mul(fe_mul(wgb, double_times(bv0, (j - u) as nat)), wu(j))
                }),
                ty == 12 ==> t == double_times(bv0, (j - u) as nat),
                ty == 5 ==> t == bv0,
                ra == acc_terms(acc_a, fa, u as int, span(u, j)),
                rb == acc_terms(acc_b, fb, u as int, span(u, j)),
            decreases end - j,
        {
            assert((j as int) / (size as int) < su@.len()) by (nonlinear_arith)
                requires
                    j < uv_mask,
                    uv_mask <= size * su@.len(),
                    0 < size,
            ;
            let w = crate::sumcheck::half_weight_at(fu, su, size, j);
            ra = ra + wga * t * w;
            rb = rb + wgb * t * w;
            proof {
                assert(span(u, (j + 1) as usize) == span(u, j) + 1);
            }
            if ty == 12 {
                t = t + t;
            }
            j += 1;
        }
        proof {
            if u < end {
                assert(span(u, j) == cnt);
            } else {
                assert(cnt == 0);
            }
        }
        (ra, rb)
    } else {
        (acc_a, acc_b)
    }
}

impl ZkVerifier {
    /// The weights of block positions at `r_0` (`r1 == false`) or `r_1`.
    pub open spec fn block_g_weights(&self, depth: usize, r1: bool) -> spec_fn(int) -> FieldElement {
        let size = pow2((self.a_c.circuit@[depth as int].log_block_size / 2) as nat) as int;
        if r1 {
            crate::sumcheck::half_weights(self.beta_g_r1_block_first_half@, self.beta_g_r1_block_second_half@, size)
        } else {
            crate::sumcheck::half_weights(self.beta_g_r0_block_first_half@, self.beta_g_r0_block_second_half@, size)
        }
    }

    /// The weights of block positions of the previous layer at `r_u`.
    pub open spec fn block_u_weights(&self, depth: usize) -> spec_fn(int) -> FieldElement {
        crate::sumcheck::half_weights(
            self.beta_u_block_first_half@,
            self.beta_u_block_second_half@,
            pow2((self.a_c.circuit@[depth - 1].log_block_size / 2) as nat) as int,
        )
    }

    /// The weights of block positions of the previous layer at `r_v`.
    pub open spec fn block_v_weights(&self, depth: usize) -> spec_fn(int) -> FieldElement {
        crate::sumcheck::half_weights(
            self.beta_v_block_first_half@,
            self.beta_v_block_second_half@,
            pow2((self.a_c.circuit@[depth - 1].log_block_size / 2) as nat) as int,
        )
    }

    /// The predicates of a parallel layer can be evaluated from the block
    /// tables and the points.
    pub open spec fn parallel_ready(
        &self,
        depth: usize,
        r_0: Seq<FieldElement>,
        r_1: Seq<FieldElement>,
        r_u: Seq<FieldElement>,
        r_v: Seq<FieldElement>,
    ) -> bool {
        let layers = self.a_c.circuit@;
        let layer = layers[depth as int];
        let lbd = layer.log_block_size;
        let lbu = layers[depth - 1].log_block_size;
        let lrn = layer.log_repeat_num;
        let size_g = pow2((lbd / 2) as nat);
        let size = pow2((lbu / 2) as nat);
        &&& 2 <= depth < layers.len()
        &&& pow2(lbd as nat) == layer.block_size
        &&& lbd <= layer.gates@.len()
        &&& pow2(lbu as nat) <= usize::MAX
        &&& size_g <= self.beta_g_r0_block_first_half@.len()
        &&& size_g <= self.beta_g_r1_block_first_half@.len()
        &&& pow2(lbd as nat) <= size_g * self.beta_g_r0_block_second_half@.len()
        &&& pow2(lbd as nat) <= size_g * self.beta_g_r1_block_second_half@.len()
        &&& size <= self.beta_u_block_first_half@.len()
        &&& size <= self.beta_v_block_first_half@.len()
        &&& pow2(lbu as nat) <= size * self.beta_u_block_second_half@.len()
        &&& pow2(lbu as nat) <= size * self.beta_v_block_second_half@.len()
        &&& lbd + lrn <= r_0.len() && lbd + lrn <= r_1.len()
        &&& lbu + lrn <= r_u.len() && lbu + lrn <= r_v.len()
        &&& lrn <= usize::BITS
    }

    /// The value of predicate `t` of a parallel layer: the block values of
    /// the first `log_block_size` gates, weighted by the copies' weights and
    /// summed over the `repeat_num` copies.
    pub open spec fn parallel_predicate(
        &self,
        depth: usize,
        r_0: Seq<FieldElement>,
        r_1: Seq<FieldElement>,
        r_u: Seq<FieldElement>,
        r_v: Seq<FieldElement>,
        t: int,
    ) -> FieldElement {
        let layer = self.a_c.circuit@[depth as int];
        let lbd = layer.log_block_size as nat;
        let lbu = self.a_c.circuit@[depth - 1].log_block_size as nat;
        let bv0 = self.block_v_weights(depth)(0);
        let a = block_sum(
            layer.gates@,
            self.block_g_weights(depth, false),
            self.block_u_weights(depth),
            self.block_v_weights(depth),
            bv0,
            lbd,
            lbu,
            t,
            lbd,
        );
        let b = block_sum(
            layer.gates@,
            self.block_g_weights(depth, true),
            self.block_u_weights(depth),
            self.block_v_weights(depth),
            bv0,
            lbd,
            lbu,
            t,
            lbd,
        );
        copies_sum(
            a,
            b,
            r_0,
            r_1,
            r_u,
            r_v,
            lbd as int,
            lbu as int,
            reads_v0(t),
            layer.log_repeat_num as nat,
            layer.repeat_num as nat,
        )
    }

    fn parallel_predicates(
        &self,
        depth: usize,
        r_0: &Vec<FieldElement>,
        r_1: &Vec<FieldElement>,
        r_u: &Vec<FieldElement>,
        r_v: &Vec<FieldElement>,
    ) -> (ret: Vec<FieldElement>)
        requires
            self.parallel_ready(depth, r_0@, r_1@, r_u@, r_v@),
        ensures
            ret@.len() == 15,
            forall|t: int| 0 <= t < 15 ==> #[trigger] ret@[t] == self.parallel_predicate(depth, r_0@, r_1@, r_u@, r_v@, t),
    {
        let layer = &self.a_c.circuit[depth];
        let lbd = layer.log_block_size;
        let lbu = self.a_c.circuit[depth - 1].log_block_size;
        let lrn = layer.log_repeat_num;
        let repeat_num = layer.repeat_num;
        let ghost wga = self.block_g_weights(depth, false);
        let ghost wgb = self.block_g_weights(depth, true);
        let ghost wu = self.block_u_weights(depth);
        let ghost wv = self.block_v_weights(depth);
        let flen = self.beta_g_r0_block_first_half.len();
        let ulen = self.beta_u_block_first_half.len();
        let size_g = two_pow(lbd / 2);
        let size = two_pow(lbu / 2);
        let g_mask = two_pow(lbd);
        let uv_mask = two_pow(lbu);
        proof {
            vstd::arithmetic::power2::lemma_pow2_pos((lbd / 2) as nat);
            vstd::arithmetic::power2::lemma_pow2_pos((lbu / 2) as nat);
            vstd::arithmetic::power2::lemma_pow2_pos(lbd as nat);
            vstd::arithmetic::power2::lemma_pow2_pos(lbu as nat);
            assert(self.beta_v_block_second_half@.len() > 0) by (nonlinear_arith)
                requires
                    pow2(lbu as nat) <= size * self.beta_v_block_second_half@.len(),
                    pow2(lbu as nat) > 0,
            ;
        }
        let bv0 = crate::sumcheck::half_weight_at(&self.beta_v_block_first_half, &self.beta_v_block_second_half, size, 0);
        let mut block_a = zeros(15);
        let mut block_b = zeros(15);
        let mut i: usize = 0;
        while i < lbd
            invariant
                i <= lbd,
                self.parallel_ready(depth, r_0@, r_1@, r_u@, r_v@),
                layer == &self.a_c.circuit@[depth as int],
                lbd == layer.log_block_size,
                lbu == self.a_c.circuit@[depth - 1].log_block_size,
                size_g == pow2((lbd / 2) as nat),
                size == pow2((lbu / 2) as nat),
                g_mask == pow2(lbd as nat),
                uv_mask == pow2(lbu as nat),
                0 < size_g,
                0 < size,
                0 < g_mask,
                wga == self.block_g_weights(depth, false),
                wgb == self.block_g_weights(depth, true),
                wu == self.block_u_weights(depth),
                wv == self.block_v_weights(depth),
                bv0 == wv(0),
                block_a@.len() == 15,
                block_b@.len() == 15,
                forall|t: int| 0 <= t < 15 ==> #[trigger] block_a@[t] == block_sum(layer.gates@, wga, wu, wv, bv0, lbd as nat, lbu as nat, t, i as nat),
                forall|t: int| 0 <= t < 15 ==> #[trigger] block_b@[t] == block_sum(layer.gates@, wgb, wu, wv, bv0, lbd as nat, lbu as nat, t, i as nat),
            decreases lbd - i,
        {
            let gate = &layer.gates[i];
            let ty = gate.ty;
            let g = i % g_mask;
            assert((g as int) / (size_g as int) < self.beta_g_r0_block_second_half@.len()
                && (g as int) / (size_g as int) < self.beta_g_r1_block_second_half@.len()) by (nonlinear_arith)
                requires
                    g < g_mask,
                    g_mask <= size_g * self.beta_g_r0_block_second_half@.len(),
                    g_mask <= size_g * self.beta_g_r1_block_second_half@.len(),
                    0 < size_g,
            ;
            let wa = crate::sumcheck::half_weight_at(&self.beta_g_r0_block_first_half, &self.beta_g_r0_block_second_half, size_g, g);
            let wb = crate::sumcheck::half_weight_at(&self.beta_g_r1_block_first_half, &self.beta_g_r1_block_second_half, size_g, g);
            if ty < 15 {
                let ca = block_a[ty];
                let cb = block_b[ty];
                let next = block_gate(
                    gate,
                    i,
                    wa,
                    wb,
                    &self.beta_u_block_first_half,
                    &self.beta_u_block_second_half,
                    &self.beta_v_block_first_half,
                    &self.beta_v_block_second_half,
                    size,
                    uv_mask,
                    bv0,
                    ca,
                    cb,
                    Ghost(wga),
                    Ghost(wgb),
                    Ghost(lbd as nat),
                    Ghost(lbu as nat),
                );
                block_a.set(ty, next.0);
                block_b.set(ty, next.1);
            }
            i += 1;
        }
        let mut ret = zeros(15);
        let mut c: usize = 0;
        while c < repeat_num
            invariant
                c <= repeat_num,
                self.parallel_ready(depth, r_0@, r_1@, r_u@, r_v@),
                layer == &self.a_c.circuit@[depth as int],
                lbd == layer.log_block_size,
                lbu == self.a_c.circuit@[depth - 1].log_block_size,
                lrn == layer.log_repeat_num,
                repeat_num == layer.repeat_num,
                block_a@.len() == 15,
                block_b@.len() == 15,
                ret@.len() == 15,
                forall|t: int| 0 <= t < 15 ==> #[trigger] ret@[t] == copies_sum(
                    block_a@[t],
                    block_b@[t],
                    r_0@,
                    r_1@,
                    r_u@,
                    r_v@,
                    lbd as int,
                    lbu as int,
                    reads_v0(t),
                    lrn as nat,
                    c as nat,
                ),
            decreases repeat_num - c,
        {
            let pa = copy_weight_exec(c, r_0, r_u, r_v, lbd, lbu, false, lrn);
            let pb = copy_weight_exec(c, r_1, r_u, r_v, lbd, lbu, false, lrn);
            let pa0 = copy_weight_exec(c, r_0, r_u, r_v, lbd, lbu, true, lrn);
            let pb0 = copy_weight_exec(c, r_1, r_u, r_v, lbd, lbu, true, lrn);
            let ghost before = ret@;
            let mut t: usize = 0;
            while t < 15
                invariant
                    t <= 15,
                    ret@.len() == 15,
                    before.len() == 15,
                    block_a@.len() == 15,
                    block_b@.len() == 15,
                    pa == copy_weight(c as int, r_0@, r_u@, r_v@, lbd as int, lbu as int, false, lrn as nat),
                    pb == copy_weight(c as int, r_1@, r_u@, r_v@, lbd as int, lbu as int, false, lrn as nat),
                    pa0 == copy_weight(c as int, r_0@, r_u@, r_v@, lbd as int, lbu as int, true, lrn as nat),
                    pb0 == copy_weight(c as int, r_1@, r_u@, r_v@, lbd as int, lbu as int, true, lrn as nat),
                    forall|x: int| 0 <= x < t ==> #[trigger] ret@[x] == fe_add(
                        fe_add(before[x], fe_mul(copy_weight(c as int, r_0@, r_u@, r_v@, lbd as int, lbu as int, reads_v0(x), lrn as nat), block_a@[x])),
                        fe_mul(copy_weight(c as int, r_1@, r_u@, r_v@, lbd as int, lbu as int, reads_v0(x), lrn as nat), block_b@[x]),
                    ),
                    forall|x: int| t <= x < 15 ==> #[trigger] ret@[x] == before[x],
                decreases 15 - t,
            {
                let cur = ret[t];
                let next = if t == 6 || t == 10 || t == 5 || t == 12 {
                    cur + pa0 * block_a[t] + pb0 * block_b[t]
                } else {
                    cur + pa * block_a[t] + pb * block_b[t]
                };
                ret.set(t, next);
                t += 1;
            }
            c += 1;
        }
        ret
    }

    /// The values at the random points of the wiring predicates of layer
    /// `depth`, one per gate type: all zero for the first layer, else
    /// `parallel_predicate` for a parallel layer and `serial_predicate`
    /// otherwise.
    pub fn predicates(
        &mut self,
        depth: usize,
        r_0: Vec<FieldElement>,
        r_1: Vec<FieldElement>,
        r_u: Vec<FieldElement>,
        r_v: Vec<FieldElement>,
        _alpha: FieldElement,
        _beta: FieldElement,
    ) -> (ret: Vec<FieldElement>)
        requires
            1 <= depth < old(self).a_c.circuit@.len(),
            depth != 1 ==> (if old(self).a_c.circuit@[depth as int].is_parallel {
                old(self).parallel_ready(depth, r_0@, r_1@, r_u@, r_v@)
            } else {
                old(self).serial_ready(depth)
            }),
        ensures
            *final(self) == *old(self),
            ret@.len() == 15,
            forall|t: int|
                0 <= t < 15 ==> #[trigger] ret@[t] == (if depth == 1 {
                    fe_zero()
                } else if old(self).a_c.circuit@[depth as int].is_parallel {
                    old(self).parallel_predicate(depth, r_0@, r_1@, r_u@, r_v@, t)
                } else {
                    old(self).serial_predicate(depth, t)
                }),
    {
        if depth == 1 {
            return zeros(15);
        }
        if self.a_c.circuit[depth].is_parallel {
            self.parallel_predicates(depth, &r_0, &r_1, &r_u, &r_v)
        } else {
            self.serial_predicates(depth)
        }
    }
}

// ---------------------------------------------------------------------------
// The relay term, randomness and the public evaluation tables
// ---------------------------------------------------------------------------
/// The factor of one coordinate in the relay term: `1 - g - u + 2 g u`.
pub open spec fn relay_factor(g: FieldElement, u: FieldElement) -> FieldElement {
    fe_add(fe_sub(fe_sub(fe_nat(1), g), u), fe_mul(fe_mul(fe_nat(2), g), u))
}

/// The product of the relay factors of the first `k` coordinate pairs.
pub open spec fn relay_product(r_g: Seq<FieldElement>, r_u: Seq<FieldElement>, k: nat) -> FieldElement
    decreases k,
{
    if k == 0 {
        fe_nat(1)
    } else {
        fe_mul(relay_product(r_g, r_u, (k - 1) as nat), relay_factor(r_g[k - 1], r_u[k - 1]))
    }
}

/// The table of the point `r[0 .. len]` as the depth-first fill produces it
/// from depth `dep` with value `val`: the entries with the next (highest
/// remaining) bit clear come first.
pub open spec fn tensor_table(
    val: FieldElement,
    r: Seq<FieldElement>,
    om: Seq<FieldElement>,
    dep: nat,
    len: nat,
) -> Seq<FieldElement>
    decreases len - dep,
{
    if dep >= len {
        seq![val]
    } else {
        tensor_table(fe_mul(val, om[len - 1 - dep]), r, om, dep + 1, len) + tensor_table(
            fe_mul(val, r[len - 1 - dep]),
            r,
            om,
            dep + 1,
            len,
        )
    }
}

pub proof fn lemma_tensor_table_len(val: FieldElement, r: Seq<FieldElement>, om: Seq<FieldElement>, dep: nat, len: nat)
    requires
        dep <= len,
    ensures
        tensor_table(val, r, om, dep, len).len() == pow2((len - dep) as nat),
    decreases len - dep,
{
    if dep == len {
        vstd::arithmetic::power2::lemma2_to64();
    } else {
        lemma_tensor_table_len(fe_mul(val, om[len - 1 - dep]), r, om, dep + 1, len);
        lemma_tensor_table_len(fe_mul(val, r[len - 1 - dep]), r, om, dep + 1, len);
        vstd::arithmetic::power2::lemma_pow2_unfold((len - dep) as nat);
    }
}

/// Writes `tensor_table(val, r, om, dep, len)` into `table` from position
/// `pos 2^(len - dep)` on.
#[verifier::spinoff_prover]
fn dfs_fill(
    table: &mut Vec<FieldElement>,
    dep: usize,
    val: FieldElement,
    r: &[FieldElement],
    om: &[FieldElement],
    pos: usize,
    len: usize,
)
    requires
        dep <= len,
        len <= r@.len(),
        len <= om@.len(),
        (pos + 1) * pow2((len - dep) as nat) <= old(table)@.len(),
    ensures
        final(table)@.len() == old(table)@.len(),
        forall|x: int|
            0 <= x < old(table)@.len() ==> #[trigger] final(table)@[x] == (if pos * pow2((len - dep) as nat)
                <= x < (pos + 1) * pow2((len - dep) as nat) {
                tensor_table(val, r@, om@, dep as nat, len as nat)[x - pos * pow2((len - dep) as nat)]
            } else {
                old(table)@[x]
            }),
    decreases len - dep,
{
    proof {
        lemma_tensor_table_len(val, r@, om@, dep as nat, len as nat);
    }
    let tl = table.len();
    if dep == len {
        proof {
            vstd::arithmetic::power2::lemma2_to64();
            assert((pos + 1) * pow2(0) == pos + 1 && pos * pow2(0) == pos) by (nonlinear_arith)
                requires pow2(0) == 1;
            assert(tensor_table(val, r@, om@, dep as nat, len as nat) == seq![val]);
        }
        table.set(pos, val);
    } else {
        let ghost t0 = table@;
        let ghost s = pow2((len - dep) as nat) as int;
        let ghost h = pow2((len - dep - 1) as nat) as int;
        proof {
            vstd::arithmetic::power2::lemma_pow2_unfold((len - dep) as nat);
            vstd::arithmetic::power2::lemma_pow2_pos((len - dep - 1) as nat);
            assert((2 * pos + 2) * h == (pos + 1) * s) by (nonlinear_arith)
                requires s == 2 * h;
            assert((2 * pos + 1) * h == pos * s + h) by (nonlinear_arith)
                requires s == 2 * h;
            assert((2 * pos) * h == pos * s) by (nonlinear_arith)
                requires s == 2 * h;
            assert(pos * s >= 0 && h >= 1) by (nonlinear_arith)
                requires s == 2 * h, h >= 1, pos >= 0;
            assert(2 * pos + 1 < (pos + 1) * s) by (nonlinear_arith)
                requires s == 2 * h, h >= 1, pos >= 0;
            assert(h == pow2((len - (dep + 1)) as nat));
            assert(((pos * 2) + 1) * h <= tl) by (nonlinear_arith)
                requires (2 * pos + 2) * h == (pos + 1) * s, (pos + 1) * s <= tl, h >= 1;
            assert(((pos * 2 + 1) + 1) * h <= tl) by (nonlinear_arith)
                requires (2 * pos + 2) * h == (pos + 1) * s, (pos + 1) * s <= tl, h >= 1;
        }
        let left = val * om[len - 1 - dep];
        let right = val * r[len - 1 - dep];
        dfs_fill(table, dep + 1, left, r, om, pos * 2, len);
        let ghost t1 = table@;
        dfs_fill(table, dep + 1, right, r, om, pos * 2 + 1, len);
        proof {
            lemma_tensor_table_len(left, r@, om@, (dep + 1) as nat, len as nat);
            lemma_tensor_table_len(right, r@, om@, (dep + 1) as nat, len as nat);
            assert((len - (dep + 1)) as nat == (len - dep - 1) as nat);
            let ta = tensor_table(left, r@, om@, (dep + 1) as nat, len as nat);
            let tb = tensor_table(right, r@, om@, (dep + 1) as nat, len as nat);
            assert(tensor_table(val, r@, om@, dep as nat, len as nat) == ta + tb);
            assert(ta.len() == h && tb.len() == h);
            assert((pos + 1) * s == pos * s + 2 * h) by (nonlinear_arith)
                requires s == 2 * h;
            assert forall|x: int| 0 <= x < t0.len() implies #[trigger] table@[x] == (if pos * s <= x < (pos + 1) * s {
                tensor_table(val, r@, om@, dep as nat, len as nat)[x - pos * s]
            } else {
                t0[x]
            }) by {
                let a = table@[x];
                let b = t1[x];
                if pos * s <= x < pos * s + h {
                    assert(x - (2 * pos) * h == x - pos * s);
                    assert((ta + tb)[x - pos * s] == ta[x - pos * s]);
                } else if pos * s + h <= x < (pos + 1) * s {
                    assert(x - (2 * pos + 1) * h == x - pos * s - h);
                    assert((ta + tb)[x - pos * s] == tb[x - pos * s - h]);
                }
            }
        }
    }
}

/// `size` random elements, each with both coordinates below `2^31 - 1`.
pub fn generate_randomness(size: usize) -> (ret: Vec<FieldElement>)
    ensures
        ret@.len() == size,
        forall|i: int| 0 <= i < size ==> (#[trigger] ret@[i]).real < RANDOM_BOUND && ret@[i].img < RANDOM_BOUND,
{
    let mut ret = zeros(size);
    let mut i: usize = 0;
    while i < size
        invariant
            i <= size,
            ret@.len() == size,
            forall|k: int| 0 <= k < i ==> (#[trigger] ret@[k]).real < RANDOM_BOUND && ret@[k].img < RANDOM_BOUND,
        decreases size - i,
    {
        ret.set(i, FieldElement::new_random());
        i += 1;
    }
    ret
}

impl ZkVerifier {
    /// The relay term of layer `depth`: zero unless `depth == 1`, where it
    /// is the product over the coordinate pairs of `r_g` and `r_u` (as many
    /// as the shorter has) of `1 - g - u + 2 g u`.
    pub fn direct_relay(&mut self, depth: usize, r_g: &[FieldElement], r_u: &[FieldElement]) -> (r: FieldElement)
        ensures
            *final(self) == *old(self),
            r == (if depth != 1 {
                fe_nat(0)
            } else {
                fe_mul(
                    fe_nat(1),
                    relay_product(
                        r_g@,
                        r_u@,
                        (if r_g@.len() <= r_u@.len() { r_g@.len() } else { r_u@.len() }) as nat,
                    ),
                )
            }),
    {
        if depth != 1 {
            FieldElement::from_real(0)
        } else {
            let n = if r_g.len() <= r_u.len() { r_g.len() } else { r_u.len() };
            let mut acc = FieldElement::from_real(1);
            let mut i: usize = 0;
            while i < n
                invariant
                    i <= n,
                    n <= r_g@.len(),
                    n <= r_u@.len(),
                    acc == relay_product(r_g@, r_u@, i as nat),
                decreases n - i,
            {
                let g = r_g[i];
                let u = r_u[i];
                acc = acc * (FieldElement::from_real(1) - g - u + FieldElement::from_real(2) * g * u);
                i += 1;
            }
            FieldElement::from_real(1) * acc
        }
    }

    /// Writes the table of the point `r_0[0 .. r_0_len]` from depth `dep`
    /// and value `val` into `q_eval_real`, at block `pos`.
    pub fn dfs_for_public_eval(
        &mut self,
        dep: usize,
        val: FieldElement,
        r_0: &Vec<FieldElement>,
        one_minus_r_0: &Vec<FieldElement>,
        r_0_len: usize,
        pos: usize,
    )
        requires
            dep <= r_0_len,
            r_0_len <= r_0@.len(),
            r_0_len <= one_minus_r_0@.len(),
            (pos + 1) * pow2((r_0_len - dep) as nat) <= old(self).ctx.q_eval_real@.len(),
        ensures
            final(self).ctx.q_eval_real@.len() == old(self).ctx.q_eval_real@.len(),
            forall|x: int|
                0 <= x < old(self).ctx.q_eval_real@.len() ==> #[trigger] final(self).ctx.q_eval_real@[x] == (if pos
                    * pow2((r_0_len - dep) as nat) <= x < (pos + 1) * pow2((r_0_len - dep) as nat) {
                    tensor_table(val, r_0@, one_minus_r_0@, dep as nat, r_0_len as nat)[x - pos * pow2(
                        (r_0_len - dep) as nat,
                    )]
                } else {
                    old(self).ctx.q_eval_real@[x]
                }),
            final(self).a_c == old(self).a_c,
            final(self).ctx.q_eval_verifier@ == old(self).ctx.q_eval_verifier@,
            final(self).ctx.q_ratio@ == old(self).ctx.q_ratio@,
    {
        dfs_fill(&mut self.ctx.q_eval_real, dep, val, r_0.as_slice(), one_minus_r_0.as_slice(), pos, r_0_len);
    }

    /// Writes the table of the point `r[0 .. r_len]` from depth `dep` and
    /// value `val` into `q_eval_verifier`, at block `pos`.
    pub fn dfs_coef(
        &mut self,
        dep: usize,
        val: FieldElement,
        r: &Vec<FieldElement>,
        one_minus_r: Vec<FieldElement>,
        pos: usize,
        r_len: usize,
    )
        requires
            dep <= r_len,
            r_len <= r@.len(),
            r_len <= one_minus_r@.len(),
            (pos + 1) * pow2((r_len - dep) as nat) <= old(self).ctx.q_eval_verifier@.len(),
        ensures
            final(self).ctx.q_eval_verifier@.len() == old(self).ctx.q_eval_verifier@.len(),
            forall|x: int|
                0 <= x < old(self).ctx.q_eval_verifier@.len() ==> #[trigger] final(self).ctx.q_eval_verifier@[x]
                    == (if pos * pow2((r_len - dep) as nat) <= x < (pos + 1) * pow2((r_len - dep) as nat) {
                    tensor_table(val, r@, one_minus_r@, dep as nat, r_len as nat)[x - pos * pow2((r_len - dep) as nat)]
                } else {
                    old(self).ctx.q_eval_verifier@[x]
                }),
            final(self).a_c == old(self).a_c,
            final(self).ctx.q_eval_real@ == old(self).ctx.q_eval_real@,
            final(self).ctx.q_ratio@ == old(self).ctx.q_ratio@,
    {
        dfs_fill(&mut self.ctx.q_eval_verifier, dep, val, r.as_slice(), one_minus_r.as_slice(), pos, r_len);
    }

    /// Writes the table of the point `r[0 .. LOG_SLICE_NUMBER]` from depth
    /// `dep` and value `val` into `q_ratio`, at block `pos`.
    pub fn dfs_ratio(
        &mut self,
        dep: usize,
        val: FieldElement,
        r: &Vec<FieldElement>,
        one_minus_r: Vec<FieldElement>,
        pos: usize,
    )
        requires
            dep <= LOG_SLICE_NUMBER,
            LOG_SLICE_NUMBER <= r@.len(),
            LOG_SLICE_NUMBER <= one_minus_r@.len(),
            (pos + 1) * pow2((LOG_SLICE_NUMBER - dep) as nat) <= old(self).ctx.q_ratio@.len(),
        ensures
            final(self).ctx.q_ratio@.len() == old(self).ctx.q_ratio@.len(),
            forall|x: int|
                0 <= x < old(self).ctx.q_ratio@.len() ==> #[trigger] final(self).ctx.q_ratio@[x] == (if pos * pow2(
                    (LOG_SLICE_NUMBER - dep) as nat,
                ) <= x < (pos + 1) * pow2((LOG_SLICE_NUMBER - dep) as nat) {
                    tensor_table(val, r@, one_minus_r@, dep as nat, LOG_SLICE_NUMBER as nat)[x - pos * pow2(
                        (LOG_SLICE_NUMBER - dep) as nat,
                    )]
                } else {
                    old(self).ctx.q_ratio@[x]
                }),
            final(self).a_c == old(self).a_c,
            final(self).ctx.q_eval_real@ == old(self).ctx.q_eval_real@,
            final(self).ctx.q_eval_verifier@ == old(self).ctx.q_eval_verifier@,
    {
        dfs_fill(&mut self.ctx.q_ratio, dep, val, r.as_slice(), one_minus_r.as_slice(), pos, LOG_SLICE_NUMBER);
    }
}

// ---------------------------------------------------------------------------
// Whether the tables and the circuit fit, computed
// ---------------------------------------------------------------------------
/// Whether `count <= size * len`.
fn fits_times(count: usize, size: usize, len: usize) -> (r: bool)
    ensures
        r == (count <= size * len),
{
    proof {
        assert((size as u128) * (len as u128) <= u128::MAX) by (nonlinear_arith)
            requires size <= usize::MAX, len <= usize::MAX, usize::MAX <= u64::MAX;
    }
    (count as u128) <= (size as u128) * (len as u128)
}

/// `pred_gate_ok`, computed.
fn pred_gate_check(g: &Gate, su_len: usize, sv_len: usize, size: usize, prev_bits: usize) -> (r: bool)
    requires
        size > 0,
        prev_bits < usize::BITS,
    ensures
        r == pred_gate_ok(*g, su_len as int, sv_len as int, size as int, prev_bits as nat),
{
    let ty = g.ty;
    if ty == 0 || ty == 1 || ty == 6 || ty == 7 || ty == 8 || ty == 9 || ty == 13 {
        return g.u / size < su_len && g.v / size < sv_len;
    }
    if ty == 5 || ty == 12 {
        if ty == 12 && g.v == usize::MAX {
            return false;
        }
        let end = if ty == 5 { g.v } else { g.v + 1 };
        if g.u < end {
            let last = end - 1;
            if !(last / size < su_len) {
                proof {
                    assert(!(((last as int) / (size as int)) < su_len));
                }
                return false;
            }
            proof {
                assert forall|j: int| g.u <= j < end implies #[trigger] (j / (size as int)) < su_len by {
                    vstd::arithmetic::div_mod::lemma_div_is_ordered(j, last as int, size as int);
                }
            }
        }
        return true;
    }
    if ty == 14 {
        if !(g.parameter_length <= g.src.len() && g.parameter_length <= g.weight.len()) {
            return false;
        }
        return crate::sumcheck::sources_quotient_below(g, g.parameter_length, size, su_len);
    }
    if ty == 10 {
        proof {
            vstd::bits::lemma_usize_pow2_no_overflow(prev_bits as nat);
        }
        let p = two_pow(prev_bits);
        return g.u < p && fits_times(p, size, su_len);
    }
    true
}

impl ZkVerifier {
    /// `serial_ready`, computed.
    pub fn serial_ready_check(&self, depth: usize) -> (r: bool)
        ensures
            r == self.serial_ready(depth),
    {
        if !(2 <= depth && depth < self.a_c.circuit.len()) {
            return false;
        }
        let bg = self.a_c.circuit[depth].bit_length;
        let buv = self.a_c.circuit[depth - 1].bit_length;
        if !(buv < usize::BITS as usize) {
            return false;
        }
        let gates = &self.a_c.circuit[depth].gates;
        if !pow2_at_most(bg, gates.len()) {
            return false;
        }
        let fg = bg / 2;
        if !(pow2_at_most(fg, self.beta_g_r0_first_half.len()) && pow2_at_most(fg, self.beta_g_r1_first_half.len())) {
            return false;
        }
        let fu = buv / 2;
        if !(pow2_at_most(fu, self.beta_u_first_half.len()) && pow2_at_most(fu, self.beta_v_first_half.len())) {
            return false;
        }
        if self.beta_v_second_half.len() < 1 {
            return false;
        }
        let glen = gates.len();
        let n = two_pow(bg);
        let flen = self.beta_g_r0_first_half.len();
        let size_g = two_pow(fg);
        if !(fits_times(n, size_g, self.beta_g_r0_second_half.len()) && fits_times(n, size_g, self.beta_g_r1_second_half.len())) {
            return false;
        }
        let ulen = self.beta_u_first_half.len();
        let size = two_pow(fu);
        proof {
            vstd::arithmetic::power2::lemma_pow2_pos(fu as nat);
        }
        let su = self.beta_u_second_half.len();
        let sv = self.beta_v_second_half.len();
        let mut g: usize = 0;
        while g < n
            invariant
                g <= n,
                n == pow2(bg as nat),
                n <= gates@.len(),
                gates == &self.a_c.circuit@[depth as int].gates,
                bg == self.a_c.circuit@[depth as int].bit_length,
                buv == self.a_c.circuit@[depth - 1].bit_length,
                buv < usize::BITS,
                size == pow2((buv / 2) as nat),
                size > 0,
                su == self.beta_u_second_half@.len(),
                sv == self.beta_v_second_half@.len(),
                forall|k: int|
                    0 <= k < g ==> pred_gate_ok(#[trigger] gates@[k], su as int, sv as int, size as int, buv as nat),
            decreases n - g,
        {
            if !pred_gate_check(&gates[g], su, sv, size, buv) {
                return false;
            }
            g += 1;
        }
        true
    }

    /// `parallel_ready`, computed.
    pub fn parallel_ready_check(
        &self,
        depth: usize,
        r_0: &Vec<FieldElement>,
        r_1: &Vec<FieldElement>,
        r_u: &Vec<FieldElement>,
        r_v: &Vec<FieldElement>,
    ) -> (r: bool)
        ensures
            r == self.parallel_ready(depth, r_0@, r_1@, r_u@, r_v@),
    {
        if !(2 <= depth && depth < self.a_c.circuit.len()) {
            return false;
        }
        let layer = &self.a_c.circuit[depth];
        let lbd = layer.log_block_size;
        let lbu = self.a_c.circuit[depth - 1].log_block_size;
        let lrn = layer.log_repeat_num;
        let bs = layer.block_size;
        if !pow2_at_most(lbd, bs) {
            return false;
        }
        proof {
            vstd::arithmetic::power2::lemma_pow2_pos(lbd as nat);
        }
        if pow2_at_most(lbd, bs - 1) {
            return false;
        }
        if !(lbd <= layer.gates.len()) {
            return false;
        }
        if !(lbu < usize::BITS as usize) {
            proof {
                vstd::arithmetic::power2::lemma2_to64();
                vstd::arithmetic::power2::lemma2_to64_rest();
                if lbu > usize::BITS {
                    vstd::arithmetic::power2::lemma_pow2_strictly_increases(usize::BITS as nat, lbu as nat);
                }
            }
            return false;
        }
        proof {
            vstd::bits::lemma_usize_pow2_no_overflow(lbu as nat);
        }
        let fg = lbd / 2;
        if !(pow2_at_most(fg, self.beta_g_r0_block_first_half.len()) && pow2_at_most(fg, self.beta_g_r1_block_first_half.len())) {
            return false;
        }
        let flen = self.beta_g_r0_block_first_half.len();
        let size_g = two_pow(fg);
        if !(fits_times(bs, size_g, self.beta_g_r0_block_second_half.len()) && fits_times(bs, size_g, self.beta_g_r1_block_second_half.len())) {
            return false;
        }
        let fu = lbu / 2;
        if !(pow2_at_most(fu, self.beta_u_block_first_half.len()) && pow2_at_most(fu, self.beta_v_block_first_half.len())) {
            return false;
        }
        let ulen = self.beta_u_block_first_half.len();
        let size = two_pow(fu);
        let pu = two_pow(lbu);
        if !(fits_times(pu, size, self.beta_u_block_second_half.len()) && fits_times(pu, size, self.beta_v_block_second_half.len())) {
            return false;
        }
        if !(lbd <= r_0.len() && lrn <= r_0.len() - lbd && lbd <= r_1.len() && lrn <= r_1.len() - lbd) {
            return false;
        }
        if !(lbu <= r_u.len() && lrn <= r_u.len() - lbu && lbu <= r_v.len() && lrn <= r_v.len() - lbu) {
            return false;
        }
        lrn <= usize::BITS as usize
    }
}

impl ZkVerifier {
    /// `beta_init_ready`, computed.
    pub fn beta_init_ready_check(
        &self,
        depth: usize,
        r_0: &Vec<FieldElement>,
        r_1: &Vec<FieldElement>,
        r_u: &Vec<FieldElement>,
        r_v: &Vec<FieldElement>,
        one_minus_r_0: &Vec<FieldElement>,
        one_minus_r_1: &Vec<FieldElement>,
        one_minus_r_u: &Vec<FieldElement>,
        one_minus_r_v: &Vec<FieldElement>,
    ) -> (r: bool)
        ensures
            r == self.beta_init_ready(
                depth,
                r_0@,
                r_1@,
                r_u@,
                r_v@,
                one_minus_r_0@,
                one_minus_r_1@,
                one_minus_r_u@,
                one_minus_r_v@,
            ),
    {
        if !(1 <= depth && depth < self.a_c.circuit.len()) {
            return false;
        }
        let bg = self.a_c.circuit[depth].bit_length;
        let buv = self.a_c.circuit[depth - 1].bit_length;
        let lb = self.a_c.circuit[depth - 1].log_block_size;
        if !(buv <= r_u.len() && buv <= r_v.len() && buv <= one_minus_r_u.len() && buv <= one_minus_r_v.len()) {
            return false;
        }
        let fu = buv / 2;
        let su = buv - fu;
        if !self.a_c.circuit[depth].is_parallel {
            let fh = bg / 2;
            let sh = bg - fh;
            bg <= r_0.len() && bg <= r_1.len() && bg <= one_minus_r_0.len() && bg <= one_minus_r_1.len()
                && pow2_at_most(fh, self.beta_g_r0_first_half.len()) && pow2_at_most(fh, self.beta_g_r1_first_half.len())
                && pow2_at_most(sh, self.beta_g_r0_second_half.len()) && pow2_at_most(sh, self.beta_g_r1_second_half.len())
                && pow2_at_most(fu, self.beta_u_first_half.len()) && pow2_at_most(fu, self.beta_v_first_half.len())
                && pow2_at_most(su, self.beta_u_second_half.len()) && pow2_at_most(su, self.beta_v_second_half.len())
        } else {
            let fb = lb / 2;
            let sb = lb - fb;
            lb <= r_0.len() && lb <= r_1.len() && lb <= one_minus_r_0.len() && lb <= one_minus_r_1.len()
                && pow2_at_most(fb, self.beta_g_r0_block_first_half.len())
                && pow2_at_most(fb, self.beta_g_r1_block_first_half.len())
                && pow2_at_most(sb, self.beta_g_r0_block_second_half.len())
                && pow2_at_most(sb, self.beta_g_r1_block_second_half.len())
                && (sb == 0 || (2 <= self.beta_g_r0_block_second_half.len() && 2 <= self.beta_g_r1_block_second_half.len()))
                && pow2_at_most(fu, self.beta_u_block_first_half.len()) && pow2_at_most(fu, self.beta_v_block_first_half.len())
                && pow2_at_most(su, self.beta_u_block_second_half.len()) && pow2_at_most(su, self.beta_v_block_second_half.len())
        }
    }
}

} // verus!
