//! The polynomial commitment built on the linear-time code: the `n`
//! coefficients are laid out as `COLUMN_SIZE` rows of `n / COLUMN_SIZE`
//! symbols, each row is encoded, and the commitment is the Merkle tree over
//! the columns of the encoded rows. An opening combines the rows with a
//! tensor of randomness, checks sampled columns against the commitment, and
//! proves with the GKR protocol that the combined row encodes to the
//! combined codeword at the sampled positions.
use crate::field::{fe_zero, FieldElement};
use crate::circuit::{Gate, Layer};
use crate::gkr_run::{circuit_outputs, queries_match, Verdict};
use crate::circuit::circuit_evaluable;
use crate::gkr_verifier::ZkVerifier;
use crate::hash::{digest_of_elements, digest_zero, hash_pair, HashDigest};
use crate::field::{
    fe_add, fe_mul, fe_one, fe_pow, fe_sub, lemma_add_assoc, lemma_add_zero, lemma_fe_of_reduced, lemma_mul_assoc, lemma_mul_comm,
    lemma_mul_distrib, lemma_mul_one, lemma_mul_zero,
};
use crate::linear_code::{
    chain_built, chain_depth, encode_ready, level_codeword, lincomb, planned_len, random_word, rates_ok, vadd, vscale, CodeRates,
    Graph, LinearCodeEncodeContext,
    CN, COLUMN_SIZE, DISTANCE_THRESHOLD, DN, MAX_LEVELS,
};
use crate::merkle::{
    create_tree, hash_double_field_element_merkle_damgard, hash_of_element, hash_single_field_element, lemma_verify_claim_complete,
    lemma_visit_path_len, merkle_node, path_len, verify_claim,
};
use crate::utility::{is_power_of_two, lemma_pow2_is_power_of_two, my_log, smallest_pow2_larger_or_equal_to, two_pow};
use vstd::arithmetic::power2::pow2;
use vstd::prelude::*;

verus! {

/// The commitment scheme: the encoded rows and their tree, and the encoder
/// and the GKR verifier that openings use.
pub struct LinearPC {
    pub encoded_codeword: Vec<Vec<FieldElement>>,
    pub coef: Vec<Vec<FieldElement>>,
    pub codeword_size: Vec<usize>,
    pub mt: Vec<HashDigest>,
    pub verifier: ZkVerifier,
    pub lce_ctx: LinearCodeEncodeContext,
    pub gates_count: Vec<usize>,
    pub rates: CodeRates,
}

/// The length of a row of `n` coefficients.
pub open spec fn row_len(n: int) -> int {
    n / (COLUMN_SIZE as int)
}

/// Row `i` of `src` cut into rows of `seg` symbols.
pub open spec fn row_of(src: Seq<FieldElement>, seg: int, i: int) -> Seq<FieldElement> {
    src.subrange(i * seg, (i + 1) * seg)
}

/// `cw` cut or padded with zeros to `len` entries.
pub open spec fn fit_len(cw: Seq<FieldElement>, len: nat) -> Seq<FieldElement> {
    Seq::new(len, |i: int| if i < cw.len() { cw[i] } else { fe_zero() })
}

/// The digest of column `i` of the first `2 j` rows: a hash chain over the
/// pairs of rows, starting from the zero digest.
pub open spec fn column_digest(rows: Seq<Vec<FieldElement>>, i: int, j: int) -> HashDigest
    decreases j,
{
    if j <= 0 {
        digest_zero()
    } else {
        hash_pair([column_digest(rows, i, j - 1), digest_of_elements(rows[2 * j - 2]@[i], rows[2 * j - 1]@[i])])
    }
}

/// The digests of the first `len` columns of the `COLUMN_SIZE` rows.
pub open spec fn column_digests(rows: Seq<Vec<FieldElement>>, len: nat) -> Seq<HashDigest> {
    Seq::new(len, |i: int| column_digest(rows, i, (COLUMN_SIZE / 2) as int))
}

/// `tree` is the Merkle tree over `leaves` as `create_tree` lays it out.
pub open spec fn is_tree_of(tree: Seq<HashDigest>, leaves: Seq<HashDigest>) -> bool {
    &&& tree.len() == 2 * leaves.len()
    &&& tree[0] == digest_zero()
    &&& forall|k: int| 1 <= k < 2 * leaves.len() ==> #[trigger] tree[k] == merkle_node(leaves, k)
}

/// Entries `begin .. end` of `src`.
fn range_to_vec(src: &[FieldElement], begin: usize, end: usize) -> (v: Vec<FieldElement>)
    requires
        begin <= end <= src@.len(),
    ensures
        v@ == src@.subrange(begin as int, end as int),
{
    let mut v: Vec<FieldElement> = Vec::new();
    let mut k: usize = begin;
    while k < end
        invariant
            begin <= k <= end <= src@.len(),
            v@ == src@.subrange(begin as int, k as int),
        decreases end - k,
    {
        v.push(src[k]);
        k += 1;
        assert(v@ =~= src@.subrange(begin as int, k as int));
    }
    v
}

/// `cw` cut or padded with zeros to `len` entries.
fn fit_to(cw: &Vec<FieldElement>, len: usize) -> (v: Vec<FieldElement>)
    ensures
        v@ == fit_len(cw@, len as nat),
{
    let mut v: Vec<FieldElement> = Vec::new();
    let mut k: usize = 0;
    while k < len
        invariant
            k <= len,
            v@ == fit_len(cw@, len as nat).take(k as int),
        decreases len - k,
    {
        if k < cw.len() {
            v.push(cw[k]);
        } else {
            v.push(FieldElement::zero());
        }
        k += 1;
        assert(v@ =~= fit_len(cw@, len as nat).take(k as int));
    }
    assert(fit_len(cw@, len as nat).take(len as int) =~= fit_len(cw@, len as nat));
    v
}

impl LinearPC {
    /// A scheme for `n` coefficients: the encoder draws the expanders for
    /// rows of `n / COLUMN_SIZE` symbols with the sizes `rates`.
    pub fn init(n: usize, rates: CodeRates) -> (pc: Self)
        requires
            rates_ok(rates.alpha@, rates.stretch@, (n / COLUMN_SIZE) as int),
            chain_depth(rates.alpha@, (n / COLUMN_SIZE) as int) <= MAX_LEVELS,
            planned_len(rates.alpha@, rates.stretch@, (n / COLUMN_SIZE) as int) <= usize::MAX,
        ensures
            chain_built(pc.lce_ctx.c@, pc.lce_ctx.d@, rates.alpha@, rates.stretch@, (n / COLUMN_SIZE) as int, 0),
            pc.lce_ctx.c@.len() == MAX_LEVELS,
            pc.lce_ctx.d@.len() == MAX_LEVELS,
            pc.lce_ctx.scratch@.len() == 2,
            forall|i: int| 0 <= i < 2 ==> (#[trigger] pc.lce_ctx.scratch@[i])@.len() == MAX_LEVELS,
            forall|i: int, j: int| 0 <= i < 2 && 0 <= j < MAX_LEVELS ==> (#[trigger] pc.lce_ctx.scratch@[i]@[j])@.len() == 0,
            !pc.lce_ctx.encode_initialized,
            pc.rates == rates,
            pc.encoded_codeword@.len() == 0,
            pc.coef@.len() == 0,
            pc.codeword_size@.len() == 0,
            pc.mt@.len() == 0,
            pc.gates_count@.len() == 0,
            pc.verifier.a_c.circuit@.len() == 0,
    {
        let mut lce_ctx = LinearCodeEncodeContext::init();
        lce_ctx.expander_init(n / COLUMN_SIZE, None, &rates);
        LinearPC {
            encoded_codeword: Vec::new(),
            coef: Vec::new(),
            codeword_size: Vec::new(),
            mt: Vec::new(),
            verifier: ZkVerifier::new(),
            lce_ctx,
            gates_count: Vec::new(),
            rates,
        }
    }
}

impl LinearPC {
    /// Commits to `src`: its `COLUMN_SIZE` rows of `n / COLUMN_SIZE`
    /// symbols are kept, encoded and cut or padded to twice their length;
    /// the Merkle tree over the digests of the columns of the first
    /// `COLUMN_SIZE` encoded rows is kept and returned.
    pub fn commit(&mut self, src: &[FieldElement]) -> (mt: Vec<HashDigest>)
        requires
            src@.len() as int % (COLUMN_SIZE as int) == 0,
            encode_ready(old(self).lce_ctx, old(self).rates.alpha@, row_len(src@.len() as int) as int),
            is_power_of_two((2 * row_len(src@.len() as int)) as nat),
            4 * row_len(src@.len() as int) <= usize::MAX,
            forall|k: int|
                0 <= k < old(self).encoded_codeword@.len() && k < COLUMN_SIZE ==> (#[trigger] old(self).encoded_codeword@[k])@.len()
                    >= 2 * row_len(src@.len() as int),
        ensures
            ({
                let seg = row_len(src@.len() as int) as int;
                let base = old(self).encoded_codeword@.len();
                let cw = |i: int| level_codeword(old(self).lce_ctx.c@, old(self).lce_ctx.d@, old(self).rates.alpha@, row_of(src@, seg, i), 0);
                &&& final(self).coef@.len() == old(self).coef@.len() + COLUMN_SIZE
                &&& forall|k: int| 0 <= k < old(self).coef@.len() ==> #[trigger] final(self).coef@[k] == old(self).coef@[k]
                &&& forall|i: int| 0 <= i < COLUMN_SIZE ==> (#[trigger] final(self).coef@[old(self).coef@.len() + i])@ == row_of(src@, seg, i)
                &&& final(self).encoded_codeword@.len() == base + COLUMN_SIZE
                &&& forall|k: int| 0 <= k < base ==> #[trigger] final(self).encoded_codeword@[k] == old(self).encoded_codeword@[k]
                &&& forall|i: int| 0 <= i < COLUMN_SIZE ==> (#[trigger] final(self).encoded_codeword@[base + i])@ == fit_len(cw(i), (2 * seg) as nat)
                &&& final(self).codeword_size@.len() == old(self).codeword_size@.len() + COLUMN_SIZE
                &&& forall|k: int| 0 <= k < old(self).codeword_size@.len() ==> #[trigger] final(self).codeword_size@[k] == old(self).codeword_size@[k]
                &&& forall|i: int| 0 <= i < COLUMN_SIZE ==> #[trigger] final(self).codeword_size@[old(self).codeword_size@.len() + i] == cw(i).len()
                &&& is_tree_of(final(self).mt@, column_digests(final(self).encoded_codeword@, (2 * seg) as nat))
                &&& mt@ == final(self).mt@
                &&& final(self).lce_ctx.c@ == old(self).lce_ctx.c@
                &&& final(self).lce_ctx.d@ == old(self).lce_ctx.d@
                &&& encode_ready(final(self).lce_ctx, old(self).rates.alpha@, seg)
            }),
            final(self).verifier == old(self).verifier,
            final(self).gates_count == old(self).gates_count,
            final(self).rates == old(self).rates,
    {
        let n = src.len();
        let segment = n / COLUMN_SIZE;
        let ghost seg = segment as int;
        let ghost c0 = self.lce_ctx.c@;
        let ghost d0 = self.lce_ctx.d@;
        let ghost alpha = self.rates.alpha@;
        let ghost coef0 = self.coef@;
        let ghost enc0 = self.encoded_codeword@;
        let ghost size0 = self.codeword_size@;
        let ghost cw = |i: int| level_codeword(c0, d0, alpha, row_of(src@, seg, i), 0);
        let ghost ver0 = self.verifier;
        let ghost gc0 = self.gates_count;
        let ghost rates0 = self.rates;
        let mut i: usize = 0;
        while i < COLUMN_SIZE
            invariant
                n == src@.len(),
                segment == n / COLUMN_SIZE,
                seg == segment,
                n % COLUMN_SIZE == 0,
                i <= COLUMN_SIZE,
                self.lce_ctx.c@ == c0,
                self.lce_ctx.d@ == d0,
                self.rates.alpha@ == alpha,
                self.verifier == ver0,
                self.gates_count == gc0,
                self.rates == rates0,
                encode_ready(self.lce_ctx, alpha, seg),
                cw == (|i: int| level_codeword(c0, d0, alpha, row_of(src@, seg, i), 0)),
                self.coef@.len() == coef0.len() + i,
                forall|k: int| 0 <= k < coef0.len() ==> #[trigger] self.coef@[k] == coef0[k],
                forall|k: int| 0 <= k < i ==> (#[trigger] self.coef@[coef0.len() + k])@ == row_of(src@, seg, k),
                self.encoded_codeword@.len() == enc0.len() + i,
                forall|k: int| 0 <= k < enc0.len() ==> #[trigger] self.encoded_codeword@[k] == enc0[k],
                forall|k: int| 0 <= k < i ==> (#[trigger] self.encoded_codeword@[enc0.len() + k])@ == fit_len(cw(k), (2 * seg) as nat),
                self.codeword_size@.len() == size0.len() + i,
                forall|k: int| 0 <= k < size0.len() ==> #[trigger] self.codeword_size@[k] == size0[k],
                forall|k: int| 0 <= k < i ==> #[trigger] self.codeword_size@[size0.len() + k] == cw(k).len(),
            decreases COLUMN_SIZE - i,
        {
            proof {
                assert(i * seg + seg <= COLUMN_SIZE * seg) by (nonlinear_arith)
                    requires
                        i < COLUMN_SIZE,
                        seg >= 0,
                ;
                assert(COLUMN_SIZE * seg == n) by (nonlinear_arith)
                    requires
                        seg == n / COLUMN_SIZE,
                        n % COLUMN_SIZE == 0,
                ;
                assert((i + 1) * seg == i * seg + seg) by (nonlinear_arith);
                assert(0 <= i * seg) by (nonlinear_arith)
                    requires
                        seg >= 0,
                ;
            }
            let begin = i * segment;
            let end = (i + 1) * segment;
            let row = range_to_vec(src, begin, end);
            let row_copy = range_to_vec(src, begin, end);
            self.coef.push(row_copy);
            let dst = self.lce_ctx.encode(row.as_slice(), &self.rates);
            let size = dst.len();
            self.codeword_size.push(size);
            let fitted = fit_to(&dst, 2 * segment);
            self.encoded_codeword.push(fitted);
            proof {
                assert(row@ == row_of(src@, seg, i as int));
                assert(dst@ == cw(i as int));
            }
            i += 1;
        }
        let rows = 2 * segment;
        let mut stash: Vec<HashDigest> = Vec::new();
        let ghost enc = self.encoded_codeword@;
        proof {
            assert forall|k: int| 0 <= k < COLUMN_SIZE implies (#[trigger] enc[k])@.len() >= rows by {
                if k < enc0.len() {
                    assert(enc[k] == enc0[k]);
                } else {
                    assert(enc[enc0.len() + (k - enc0.len())] == enc[k]);
                }
            }
        }
        let mut col: usize = 0;
        while col < rows
            invariant
                col <= rows,
                rows == 2 * seg,
                self.encoded_codeword@ == enc,
                enc.len() >= COLUMN_SIZE,
                forall|k: int| 0 <= k < COLUMN_SIZE ==> (#[trigger] enc[k])@.len() >= rows,
                stash@ == column_digests(enc, col as nat),
            decreases rows - col,
        {
            let mut acc = HashDigest::default();
            let mut j: usize = 0;
            while j < COLUMN_SIZE / 2
                invariant
                    col < rows,
                    j <= COLUMN_SIZE / 2,
                    self.encoded_codeword@ == enc,
                    enc.len() >= COLUMN_SIZE,
                    forall|k: int| 0 <= k < COLUMN_SIZE ==> (#[trigger] enc[k])@.len() >= rows,
                    acc == column_digest(enc, col as int, j as int),
                decreases COLUMN_SIZE / 2 - j,
            {
                assert(enc[2 * j as int]@.len() >= rows);
                assert(enc[2 * j + 1]@.len() >= rows);
                acc = hash_double_field_element_merkle_damgard(
                    self.encoded_codeword[2 * j][col],
                    self.encoded_codeword[2 * j + 1][col],
                    acc,
                );
                j += 1;
            }
            stash.push(acc);
            col += 1;
            assert(stash@ =~= column_digests(enc, col as nat));
        }
        create_tree(&mut self.mt, stash.as_slice(), true);
        let mut out: Vec<HashDigest> = Vec::new();
        let mut k: usize = 0;
        while k < self.mt.len()
            invariant
                k <= self.mt@.len(),
                out@ == self.mt@.take(k as int),
            decreases self.mt@.len() - k,
        {
            out.push(self.mt[k]);
            k += 1;
            assert(out@ =~= self.mt@.take(k as int));
        }
        assert(self.mt@.take(self.mt@.len() as int) =~= self.mt@);
        out
    }
}

/// Kinds of gates in the commitment circuit.
pub const INPUT: usize = 3;
pub const DIRECT_RELAY: usize = 4;
pub const RELAY: usize = 10;
pub const CUSTOM_LINEAR_COMB: usize = 14;

/// Sets entry `k` of a table keyed by `0 .. len` (a new key extends it).
pub open spec fn table_insert(m: Seq<usize>, k: int, v: usize) -> Seq<usize> {
    if k < m.len() {
        m.update(k, v)
    } else {
        m.push(v)
    }
}

/// Sets entry `k` of a table keyed by `0 .. len` unless it is there.
pub open spec fn table_or_insert(m: Seq<usize>, k: int, v: usize) -> Seq<usize> {
    if k < m.len() {
        m
    } else {
        m.push(v)
    }
}

fn insert_at(m: &mut Vec<usize>, k: usize, v: usize)
    requires
        k <= old(m)@.len(),
    ensures
        final(m)@ == table_insert(old(m)@, k as int, v),
{
    if k < m.len() {
        m.set(k, v);
    } else {
        m.push(v);
    }
}

fn or_insert_at(m: &mut Vec<usize>, k: usize, v: usize)
    requires
        k <= old(m)@.len(),
    ensures
        final(m)@ == table_or_insert(old(m)@, k as int, v),
{
    if k >= m.len() {
        m.push(v);
    }
}

/// Counts of gates in the encoding layers from level `depth` on, for an
/// input of `input` symbols after `so_far` outputs: each level that encodes
/// further adds its input and the image under `c`; the last adds the image
/// under `d` of its level. Gives the table and the key of the last entry.
pub open spec fn enc_counts(m: Seq<usize>, c: Seq<Graph>, d: Seq<Graph>, input: int, so_far: int, depth: int) -> (Seq<
    usize,
>, int)
    decreases c.len() - depth,
{
    if input > DISTANCE_THRESHOLD && 0 <= depth < c.len() {
        let out = so_far + input + c[depth].r;
        enc_counts(table_insert(m, depth + 1, out as usize), c, d, c[depth].r as int, out, depth + 1)
    } else {
        (table_insert(m, depth + 1, (so_far + d[depth].r) as usize), depth + 1)
    }
}

/// The encoding levels from `depth` on stay within the expanders, the keys
/// stay contiguous and no count overflows.
pub open spec fn enc_counts_ok(m: Seq<usize>, c: Seq<Graph>, d: Seq<Graph>, input: int, so_far: int, depth: int) -> bool
    decreases c.len() - depth,
{
    &&& 0 <= depth
    &&& depth + 1 <= m.len()
    &&& if input > DISTANCE_THRESHOLD && depth < c.len() {
        let out = so_far + input + c[depth].r;
        &&& out <= usize::MAX
        &&& enc_counts_ok(table_insert(m, depth + 1, out as usize), c, d, c[depth].r as int, out, depth + 1)
    } else {
        &&& depth < d.len()
        &&& depth + 3 <= usize::MAX
        &&& so_far + d[depth].r <= usize::MAX
    }
}

/// The table of gate counts after `prepare_gates_count` for rows of `n`
/// symbols and `qc` queries: the input layer, the first expander, the
/// encoding levels, the redundancy of level 0 and the queries.
pub open spec fn gates_plan(m: Seq<usize>, c: Seq<Graph>, d: Seq<Graph>, n: int, qc: int) -> Seq<usize> {
    let m1 = table_insert(table_insert(m, 0, n as usize), 1, (n + c[0].r) as usize);
    let (m2, k) = enc_counts(m1, c, d, c[0].r as int, n, 1);
    let m3 = table_or_insert(m2, k + 1, (n + m2[k] + d[0].r) as usize);
    table_or_insert(m3, k + 2, qc as usize)
}

/// `prepare_gates_count` may run for rows of `n` symbols.
pub open spec fn gates_plan_ok(m: Seq<usize>, c: Seq<Graph>, d: Seq<Graph>, n: int) -> bool {
    let m1 = table_insert(table_insert(m, 0, n as usize), 1, (n + c[0].r) as usize);
    let (m2, k) = enc_counts(m1, c, d, c[0].r as int, n, 1);
    &&& 0 < c.len()
    &&& 0 < d.len()
    &&& 0 <= n
    &&& n + c[0].r <= usize::MAX
    &&& enc_counts_ok(m1, c, d, c[0].r as int, n, 1)
    &&& n + m2[k] + d[0].r <= usize::MAX
}

proof fn lemma_enc_counts_shape(m: Seq<usize>, c: Seq<Graph>, d: Seq<Graph>, input: int, so_far: int, depth: int)
    requires
        enc_counts_ok(m, c, d, input, so_far, depth),
    ensures
        enc_counts(m, c, d, input, so_far, depth).1 + 1 <= enc_counts(m, c, d, input, so_far, depth).0.len(),
        enc_counts(m, c, d, input, so_far, depth).1 + 2 <= usize::MAX,
        enc_counts(m, c, d, input, so_far, depth).0.len() >= m.len(),
    decreases c.len() - depth,
{
    if input > DISTANCE_THRESHOLD && depth < c.len() {
        let out = so_far + input + c[depth].r;
        lemma_enc_counts_shape(table_insert(m, depth + 1, out as usize), c, d, c[depth].r as int, out, depth + 1);
    }
}

impl LinearPC {
    /// Counts the gates of the encoding layers from level `depth` on (see
    /// `enc_counts`) into the table, and returns the key of the last entry
    /// and that entry.
    fn prepare_enc_count(&mut self, input_size: usize, output_size_so_far: usize, depth: usize) -> (r: (usize, usize))
        requires
            enc_counts_ok(old(self).gates_count@, old(self).lce_ctx.c@, old(self).lce_ctx.d@, input_size as int, output_size_so_far as int, depth as int),
        ensures
            ({
                let (m, k) = enc_counts(old(self).gates_count@, old(self).lce_ctx.c@, old(self).lce_ctx.d@, input_size as int, output_size_so_far as int, depth as int);
                &&& final(self).gates_count@ == m
                &&& r.0 == k
                &&& r.1 == m[k]
            }),
            final(self).lce_ctx == old(self).lce_ctx,
            final(self).verifier == old(self).verifier,
            final(self).encoded_codeword == old(self).encoded_codeword,
            final(self).coef == old(self).coef,
            final(self).codeword_size == old(self).codeword_size,
            final(self).mt == old(self).mt,
            final(self).rates == old(self).rates,
    {
        let ghost target = enc_counts(self.gates_count@, self.lce_ctx.c@, self.lce_ctx.d@, input_size as int, output_size_so_far as int, depth as int);
        let ghost pc0 = *self;
        let mut depth = depth;
        let mut input_size = input_size;
        let mut output_size_so_far = output_size_so_far;
        while input_size > DISTANCE_THRESHOLD && depth < self.lce_ctx.c.len()
            invariant
                enc_counts_ok(self.gates_count@, self.lce_ctx.c@, self.lce_ctx.d@, input_size as int, output_size_so_far as int, depth as int),
                enc_counts(self.gates_count@, self.lce_ctx.c@, self.lce_ctx.d@, input_size as int, output_size_so_far as int, depth as int) == target,
                self.lce_ctx == pc0.lce_ctx,
                self.verifier == pc0.verifier,
                self.encoded_codeword == pc0.encoded_codeword,
                self.coef == pc0.coef,
                self.codeword_size == pc0.codeword_size,
                self.mt == pc0.mt,
                self.rates == pc0.rates,
            decreases self.lce_ctx.c@.len() - depth,
        {
            let output_size = output_size_so_far + input_size + self.lce_ctx.c[depth].r;
            insert_at(&mut self.gates_count, depth + 1, output_size);
            output_size_so_far = output_size;
            input_size = self.lce_ctx.c[depth].r;
            depth += 1;
        }
        let output_depth = depth;
        let output_size = output_size_so_far + self.lce_ctx.d[output_depth].r;
        insert_at(&mut self.gates_count, output_depth + 1, output_size);
        (output_depth + 1, self.gates_count[output_depth + 1])
    }
}

impl LinearPC {
    /// Fills the table of gate counts of the commitment circuit for rows of
    /// `n` symbols and `query_count` queries (see `gates_plan`).
    fn prepare_gates_count(&mut self, n: usize, query_count: usize)
        requires
            gates_plan_ok(old(self).gates_count@, old(self).lce_ctx.c@, old(self).lce_ctx.d@, n as int),
        ensures
            final(self).gates_count@ == gates_plan(old(self).gates_count@, old(self).lce_ctx.c@, old(self).lce_ctx.d@, n as int, query_count as int),
            final(self).lce_ctx == old(self).lce_ctx,
            final(self).verifier == old(self).verifier,
            final(self).encoded_codeword == old(self).encoded_codeword,
            final(self).coef == old(self).coef,
            final(self).codeword_size == old(self).codeword_size,
            final(self).mt == old(self).mt,
            final(self).rates == old(self).rates,
    {
        insert_at(&mut self.gates_count, 0, n);
        insert_at(&mut self.gates_count, 1, n + self.lce_ctx.c[0].r);
        let ghost m1 = self.gates_count@;
        proof {
            lemma_enc_counts_shape(m1, self.lce_ctx.c@, self.lce_ctx.d@, self.lce_ctx.c@[0].r as int, n as int, 1);
        }
        let r0 = self.lce_ctx.c[0].r;
        let out = self.prepare_enc_count(r0, n, 1);
        let extra = n + out.1 + self.lce_ctx.d[0].r;
        or_insert_at(&mut self.gates_count, out.0 + 1, extra);
        or_insert_at(&mut self.gates_count, out.0 + 2, query_count);
    }
}

/// The number of gates and the bit length of each layer of a circuit.
pub open spec fn shape(circuit: Seq<Layer>) -> Seq<(int, usize)> {
    Seq::new(circuit.len(), |j: int| (circuit[j].gates@.len() as int, circuit[j].bit_length))
}

proof fn lemma_shape_same(a: Seq<Layer>, b: Seq<Layer>)
    requires
        shape(a) == shape(b),
    ensures
        a.len() == b.len(),
        forall|j: int| 0 <= j < a.len() ==> (#[trigger] a[j]).gates@.len() == b[j].gates@.len() && a[j].bit_length == b[j].bit_length,
        gate_lens(a) == gate_lens(b),
{
    assert(shape(a).len() == a.len());
    assert forall|j: int| 0 <= j < a.len() implies (#[trigger] a[j]).gates@.len() == b[j].gates@.len() && a[j].bit_length == b[j].bit_length by {
        assert(shape(a)[j] == shape(b)[j]);
    }
    assert(gate_lens(a) =~= gate_lens(b));
}

/// The number of gates of layer `j` (`0` past the last layer).
pub open spec fn gate_lens(circuit: Seq<Layer>) -> spec_fn(int) -> int {
    |j: int|
        if 0 <= j < circuit.len() {
            circuit[j].gates@.len() as int
        } else {
            0
        }
}

/// The entries of the first `t` lists.
pub open spec fn pool_total(lists: Seq<Vec<usize>>, t: int) -> int
    decreases t,
{
    if t <= 0 {
        0
    } else {
        pool_total(lists, t - 1) + lists[t - 1]@.len()
    }
}

proof fn lemma_pool_total_mono(lists: Seq<Vec<usize>>, s: int, t: int)
    requires
        0 <= s <= t,
    ensures
        pool_total(lists, s) <= pool_total(lists, t),
    decreases t,
{
    if s < t {
        lemma_pool_total_mono(lists, s, t - 1);
    }
}

/// The right adjacency of `g` can be laid out as gates: the edges fit a
/// pool of `cap` entries, each list of left ends has its weights, and the
/// left ends shifted by `offset` fit a machine word.
pub open spec fn comb_ok(g: Graph, cap: int, offset: int) -> bool {
    &&& g.r_neighbor@.len() >= g.r
    &&& g.r_weight@.len() >= g.r
    &&& pool_total(g.r_neighbor@, g.r as int) <= cap
    &&& cap <= usize::MAX
    &&& 0 <= offset
    &&& forall|t: int| 0 <= t < g.r ==> (#[trigger] g.r_weight@[t])@.len() >= g.r_neighbor@[t]@.len()
    &&& forall|t: int, j: int| 0 <= t < g.r && 0 <= j < g.r_neighbor@[t]@.len() ==> (#[trigger] g.r_neighbor@[t]@[j]) + offset <= usize::MAX
}

/// `g` has type `ty`, reads `u` (and `0`) and has no lists.
pub open spec fn is_gate(g: Gate, ty: usize, u: usize) -> bool {
    &&& g.ty == ty
    &&& g.u == u
    &&& g.v == 0
    &&& g.src@.len() == 0
    &&& g.weight@.len() == 0
    &&& g.parameter_length == 0
}

/// `g` combines the values at the left ends `nb` shifted by `offset` with
/// the weights `w`; its lists are `rest` entries long, zero past the edges.
pub open spec fn is_comb_gate(g: Gate, nb: Seq<usize>, w: Seq<FieldElement>, offset: int, rest: int) -> bool {
    &&& g.ty == CUSTOM_LINEAR_COMB
    &&& g.u == 0
    &&& g.v == 0
    &&& g.parameter_length == nb.len()
    &&& g.src@ == Seq::new(rest as nat, |j: int| if j < nb.len() { (nb[j] + offset) as usize } else { 0usize })
    &&& g.weight@ == Seq::new(rest as nat, |j: int| if j < nb.len() { w[j] } else { fe_zero() })
}

/// `a` and `b` agree on every gate but those of layer `d` in `lo .. hi`.
pub open spec fn same_gates_except(a: Seq<Layer>, b: Seq<Layer>, d: int, lo: int, hi: int) -> bool {
    forall|j: int, k: int|
        0 <= j < a.len() && 0 <= k < a[j].gates@.len() && !(j == d && lo <= k < hi) ==> #[trigger] a[j].gates@[k] == b[j].gates@[k]
}

/// `a` and `b` agree on the pools of every layer but `d` (`d` may be out of
/// range).
pub open spec fn same_pools_except(a: Seq<Layer>, b: Seq<Layer>, d: int) -> bool {
    forall|j: int|
        0 <= j < a.len() && j != d ==> {
            &&& (#[trigger] a[j]).src_expander_c_mempool@ == b[j].src_expander_c_mempool@
            &&& a[j].weight_expander_c_mempool@ == b[j].weight_expander_c_mempool@
            &&& a[j].src_expander_d_mempool@ == b[j].src_expander_d_mempool@
            &&& a[j].weight_expander_d_mempool@ == b[j].weight_expander_d_mempool@
        }
}

/// `a` and `b` agree on the layers outside `lo ..= hi`: their gates and
/// their pools.
pub open spec fn same_outside(a: Seq<Layer>, b: Seq<Layer>, lo: int, hi: int) -> bool {
    forall|j: int|
        0 <= j < a.len() && !(lo <= j <= hi) ==> {
            &&& (#[trigger] a[j]).gates@ == b[j].gates@
            &&& a[j].src_expander_c_mempool@ == b[j].src_expander_c_mempool@
            &&& a[j].weight_expander_c_mempool@ == b[j].weight_expander_c_mempool@
            &&& a[j].src_expander_d_mempool@ == b[j].src_expander_d_mempool@
            &&& a[j].weight_expander_d_mempool@ == b[j].weight_expander_d_mempool@
        }
}

/// The first `cnt` gates of `l` (as far as it goes) relay the values at
/// their own positions.
pub open spec fn layer_has_relays(l: Layer, cnt: int) -> bool {
    forall|k: int| 0 <= k < cnt && k < l.gates@.len() ==> is_gate(#[trigger] l.gates@[k], RELAY, k as usize)
}

/// Gates `base .. base + g.r` of `l` lay out the right adjacency of `g`,
/// the left ends shifted by `offset`, carved from pools of `cap` entries.
pub open spec fn layer_has_combs(l: Layer, base: int, g: Graph, offset: int, cap: int) -> bool {
    forall|i: int|
        0 <= i < g.r ==> is_comb_gate(
            l.gates@[base + i],
            (#[trigger] g.r_neighbor@[i])@,
            g.r_weight@[i]@,
            offset,
            cap - pool_total(g.r_neighbor@, i),
        )
}

/// The pools of the `c` expanders of `l` are `cap` zeros.
pub open spec fn c_pools_zero(l: Layer, cap: int) -> bool {
    &&& l.src_expander_c_mempool@ == Seq::new(cap as nat, |j: int| 0usize)
    &&& l.weight_expander_c_mempool@ == Seq::new(cap as nat, |j: int| fe_zero())
}

/// The pools of the `d` expanders of `l` are `cap` zeros.
pub open spec fn d_pools_zero(l: Layer, cap: int) -> bool {
    &&& l.src_expander_d_mempool@ == Seq::new(cap as nat, |j: int| 0usize)
    &&& l.weight_expander_d_mempool@ == Seq::new(cap as nat, |j: int| fe_zero())
}

proof fn lemma_gates_extend(a: Seq<Layer>, b: Seq<Layer>, c: Seq<Layer>, d: int, lo: int, i: int)
    requires
        same_gates_except(b, c, d, lo, i),
        same_gates_except(a, b, d, i, i + 1),
        shape(a) == shape(b),
        lo <= i,
    ensures
        same_gates_except(a, c, d, lo, i + 1),
{
    lemma_shape_same(a, b);
    assert forall|j: int, k: int|
        0 <= j < a.len() && 0 <= k < a[j].gates@.len() && !(j == d && lo <= k < i + 1) implies #[trigger] a[j].gates@[k] == c[j].gates@[k] by {
        assert(a[j].gates@[k] == b[j].gates@[k]);
    }
}

proof fn lemma_outside_trans(a: Seq<Layer>, b: Seq<Layer>, c: Seq<Layer>, l1: int, h1: int, l2: int, h2: int, l: int, h: int)
    requires
        same_outside(a, b, l1, h1),
        same_outside(b, c, l2, h2),
        a.len() == b.len(),
        l <= l1,
        h1 <= h,
        l <= l2,
        h2 <= h,
    ensures
        same_outside(a, c, l, h),
{
    assert forall|j: int| 0 <= j < a.len() && !(l <= j <= h) implies {
        &&& (#[trigger] a[j]).gates@ == c[j].gates@
        &&& a[j].src_expander_c_mempool@ == c[j].src_expander_c_mempool@
        &&& a[j].weight_expander_c_mempool@ == c[j].weight_expander_c_mempool@
        &&& a[j].src_expander_d_mempool@ == c[j].src_expander_d_mempool@
        &&& a[j].weight_expander_d_mempool@ == c[j].weight_expander_d_mempool@
    } by {
        assert(a[j].gates@ == b[j].gates@);
        assert(b[j].gates@ == c[j].gates@);
    }
}

proof fn lemma_pools_trans(a: Seq<Layer>, b: Seq<Layer>, c: Seq<Layer>, x: int, y: int)
    requires
        same_pools_except(a, b, x),
        same_pools_except(b, c, y),
        a.len() == b.len(),
        x == -1 || y == -1 || x == y,
    ensures
        same_pools_except(a, c, if x == -1 { y } else { x }),
{
    let z = if x == -1 { y } else { x };
    assert forall|j: int| 0 <= j < a.len() && j != z implies {
        &&& (#[trigger] a[j]).src_expander_c_mempool@ == c[j].src_expander_c_mempool@
        &&& a[j].weight_expander_c_mempool@ == c[j].weight_expander_c_mempool@
        &&& a[j].src_expander_d_mempool@ == c[j].src_expander_d_mempool@
        &&& a[j].weight_expander_d_mempool@ == c[j].weight_expander_d_mempool@
    } by {
        assert(a[j].src_expander_c_mempool@ == b[j].src_expander_c_mempool@);
        assert(b[j].src_expander_c_mempool@ == c[j].src_expander_c_mempool@);
    }
}

/// A gate of type `CUSTOM_LINEAR_COMB` over the left ends `nb` (shifted by
/// `offset`) with the weights `w`, its lists being the rest of a pool of
/// `pool` entries from entry `ptr` on.
fn comb_gate(pool: usize, ptr: usize, nb: &Vec<usize>, w: &Vec<FieldElement>, offset: usize) -> (g: Gate)
    requires
        ptr + nb@.len() <= pool,
        nb@.len() <= w@.len(),
        forall|j: int| 0 <= j < nb@.len() ==> #[trigger] nb@[j] + offset <= usize::MAX,
    ensures
        is_comb_gate(g, nb@, w@, offset as int, pool - ptr),
{
    let len = pool - ptr;
    let mut src: Vec<usize> = Vec::new();
    let mut weight: Vec<FieldElement> = Vec::new();
    let mut j: usize = 0;
    while j < len
        invariant
            j <= len,
            len == pool - ptr,
            ptr + nb@.len() <= pool,
            nb@.len() <= w@.len(),
            forall|k: int| 0 <= k < nb@.len() ==> #[trigger] nb@[k] + offset <= usize::MAX,
            src@ == Seq::new(j as nat, |k: int| if k < nb@.len() { (nb@[k] + offset) as usize } else { 0usize }),
            weight@ == Seq::new(j as nat, |k: int| if k < nb@.len() { w@[k] } else { fe_zero() }),
        decreases len - j,
    {
        if j < nb.len() {
            src.push(nb[j] + offset);
            weight.push(w[j]);
        } else {
            src.push(0);
            weight.push(FieldElement::zero());
        }
        j += 1;
        assert(src@ =~= Seq::new(j as nat, |k: int| if k < nb@.len() { (nb@[k] + offset) as usize } else { 0usize }));
        assert(weight@ =~= Seq::new(j as nat, |k: int| if k < nb@.len() { w@[k] } else { fe_zero() }));
    }
    Gate { ty: CUSTOM_LINEAR_COMB, u: 0, v: 0, src, weight, parameter_length: nb.len() }
}

/// Replaces gate `i` of layer `d`.
fn put_gate(circuit: &mut Vec<Layer>, d: usize, i: usize, g: Gate)
    requires
        d < old(circuit)@.len(),
        i < old(circuit)@[d as int].gates@.len(),
    ensures
        shape(final(circuit)@) == shape(old(circuit)@),
        final(circuit)@[d as int].gates@[i as int] == g,
        same_gates_except(final(circuit)@, old(circuit)@, d as int, i as int, i + 1),
        same_pools_except(final(circuit)@, old(circuit)@, -1),
        same_outside(final(circuit)@, old(circuit)@, d as int, d as int),
{
    let ghost g0 = g;
    circuit[d].gates[i] = g;
    assert(shape(circuit@) =~= shape(old(circuit)@));
    assert(circuit@[d as int].gates@[i as int] == g0);
}

/// Relays the first `count` values of the layer below in layer `d` (as
/// far as the layer goes): gate `i` of type `RELAY` reads value `i`.
fn relay_prefix(circuit: &mut Vec<Layer>, d: usize, count: usize)
    requires
        d < old(circuit)@.len(),
    ensures
        shape(final(circuit)@) == shape(old(circuit)@),
        ({
            let cnt = if count < old(circuit)@[d as int].gates@.len() { count as int } else { old(circuit)@[d as int].gates@.len() as int };
            &&& forall|k: int| 0 <= k < cnt ==> is_gate(#[trigger] final(circuit)@[d as int].gates@[k], RELAY, k as usize)
            &&& same_gates_except(final(circuit)@, old(circuit)@, d as int, 0, cnt)
        }),
        same_pools_except(final(circuit)@, old(circuit)@, -1),
        same_outside(final(circuit)@, old(circuit)@, d as int, d as int),
{
    let glen = circuit[d].gates.len();
    let count = if count < glen {
        count
    } else {
        glen
    };
    let mut i: usize = 0;
    while i < count
        invariant
            i <= count,
            d < circuit@.len(),
            count <= circuit@[d as int].gates@.len(),
            shape(circuit@) == shape(old(circuit)@),
            d < old(circuit)@.len(),
            count <= old(circuit)@[d as int].gates@.len(),
            forall|k: int| 0 <= k < i ==> is_gate(#[trigger] circuit@[d as int].gates@[k], RELAY, k as usize),
            same_gates_except(circuit@, old(circuit)@, d as int, 0, i as int),
            same_pools_except(circuit@, old(circuit)@, -1),
            same_outside(circuit@, old(circuit)@, d as int, d as int),
        decreases count - i,
    {
        let ghost cur = circuit@;
        put_gate(circuit, d, i, Gate::from_params(RELAY, i, 0));
        proof {
            lemma_shape_same(circuit@, old(circuit)@);
            lemma_shape_same(cur, old(circuit)@);
            assert forall|k: int| 0 <= k < i + 1 implies is_gate(#[trigger] circuit@[d as int].gates@[k], RELAY, k as usize) by {
                if k < i {
                    assert(circuit@[d as int].gates@[k] == cur[d as int].gates@[k]);
                }
            }
            assert forall|j: int, k: int|
                0 <= j < circuit@.len() && 0 <= k < circuit@[j].gates@.len() && !(j == d && 0 <= k < i + 1) implies #[trigger] circuit@[j].gates@[k]
                == old(circuit)@[j].gates@[k] by {
                assert(circuit@[j].gates@[k] == cur[j].gates@[k]);
            }
            assert forall|j: int| 0 <= j < circuit@.len() && !(d <= j <= d) implies {
                &&& (#[trigger] circuit@[j]).gates@ == old(circuit)@[j].gates@
                &&& circuit@[j].src_expander_c_mempool@ == old(circuit)@[j].src_expander_c_mempool@
                &&& circuit@[j].weight_expander_c_mempool@ == old(circuit)@[j].weight_expander_c_mempool@
                &&& circuit@[j].src_expander_d_mempool@ == old(circuit)@[j].src_expander_d_mempool@
                &&& circuit@[j].weight_expander_d_mempool@ == old(circuit)@[j].weight_expander_d_mempool@
            } by {
                assert(circuit@[j].gates@ == cur[j].gates@);
            }
            assert forall|j: int| 0 <= j < circuit@.len() && j != -1 implies {
                &&& (#[trigger] circuit@[j]).src_expander_c_mempool@ == old(circuit)@[j].src_expander_c_mempool@
                &&& circuit@[j].weight_expander_c_mempool@ == old(circuit)@[j].weight_expander_c_mempool@
                &&& circuit@[j].src_expander_d_mempool@ == old(circuit)@[j].src_expander_d_mempool@
                &&& circuit@[j].weight_expander_d_mempool@ == old(circuit)@[j].weight_expander_d_mempool@
            } by {
                assert(circuit@[j].src_expander_c_mempool@ == cur[j].src_expander_c_mempool@);
            }
        }
        i += 1;
    }
}

fn zero_indices(len: usize) -> (v: Vec<usize>)
    ensures
        v@ == Seq::new(len as nat, |j: int| 0usize),
{
    let mut v: Vec<usize> = Vec::new();
    let mut j: usize = 0;
    while j < len
        invariant
            j <= len,
            v@ == Seq::new(j as nat, |k: int| 0usize),
        decreases len - j,
    {
        v.push(0);
        j += 1;
        assert(v@ =~= Seq::new(j as nat, |k: int| 0usize));
    }
    v
}

fn zero_elements(len: usize) -> (v: Vec<FieldElement>)
    ensures
        v@ == Seq::new(len as nat, |j: int| fe_zero()),
{
    let mut v: Vec<FieldElement> = Vec::new();
    let mut j: usize = 0;
    while j < len
        invariant
            j <= len,
            v@ == Seq::new(j as nat, |k: int| fe_zero()),
        decreases len - j,
    {
        v.push(FieldElement::zero());
        j += 1;
        assert(v@ =~= Seq::new(j as nat, |k: int| fe_zero()));
    }
    v
}

/// Lays the right adjacency of `g` out as gates `base .. base + g.r` of
/// layer `d`, each of type `CUSTOM_LINEAR_COMB` over the left ends of the
/// edges of its right vertex shifted by `offset`, with their weights; the
/// lists are carved from pools of `cap` entries that the layer keeps (those
/// of the `c` expanders, or of the `d` expanders when `d_pool`). Returns
/// the number of entries carved.
fn comb_layer(circuit: &mut Vec<Layer>, d: usize, base: usize, g: &Graph, cap: usize, offset: usize, d_pool: bool) -> (ptr: usize)
    requires
        d < old(circuit)@.len(),
        g.r == 0 || base + g.r <= old(circuit)@[d as int].gates@.len(),
        comb_ok(*g, cap as int, offset as int),
    ensures
        shape(final(circuit)@) == shape(old(circuit)@),
        ptr == pool_total(g.r_neighbor@, g.r as int),
        layer_has_combs(final(circuit)@[d as int], base as int, *g, offset as int, cap as int),
        same_gates_except(final(circuit)@, old(circuit)@, d as int, base as int, base + g.r),
        same_pools_except(final(circuit)@, old(circuit)@, d as int),
        same_outside(final(circuit)@, old(circuit)@, d as int, d as int),
        d_pool ==> d_pools_zero(final(circuit)@[d as int], cap as int)
            && final(circuit)@[d as int].src_expander_c_mempool@ == old(circuit)@[d as int].src_expander_c_mempool@
            && final(circuit)@[d as int].weight_expander_c_mempool@ == old(circuit)@[d as int].weight_expander_c_mempool@,
        !d_pool ==> c_pools_zero(final(circuit)@[d as int], cap as int)
            && final(circuit)@[d as int].src_expander_d_mempool@ == old(circuit)@[d as int].src_expander_d_mempool@
            && final(circuit)@[d as int].weight_expander_d_mempool@ == old(circuit)@[d as int].weight_expander_d_mempool@,
{
    if d_pool {
        circuit[d].src_expander_d_mempool = zero_indices(cap);
        circuit[d].weight_expander_d_mempool = zero_elements(cap);
    } else {
        circuit[d].src_expander_c_mempool = zero_indices(cap);
        circuit[d].weight_expander_c_mempool = zero_elements(cap);
    }
    let ghost start = circuit@;
    assert(shape(circuit@) =~= shape(old(circuit)@));
    proof {
        lemma_shape_same(circuit@, old(circuit)@);
        assert forall|j: int, k: int|
            0 <= j < circuit@.len() && 0 <= k < circuit@[j].gates@.len() && !(j == d && base <= k < base + 0) implies #[trigger] circuit@[j].gates@[k]
            == old(circuit)@[j].gates@[k] by {
        }
    }
    let glen = circuit[d].gates.len();
    assert(g.r == 0 || base + g.r <= glen);
    if g.r == 0 {
        return 0;
    }
    let mut ptr: usize = 0;
    let mut i: usize = 0;
    while i < g.r
        invariant
            i <= g.r,
            base + g.r <= glen,
            glen == old(circuit)@[d as int].gates@.len(),
            d < old(circuit)@.len(),
            comb_ok(*g, cap as int, offset as int),
            shape(circuit@) == shape(old(circuit)@),
            shape(start) == shape(old(circuit)@),
            ptr == pool_total(g.r_neighbor@, i as int),
            forall|t: int|
                0 <= t < i ==> is_comb_gate(
                    circuit@[d as int].gates@[base + t],
                    (#[trigger] g.r_neighbor@[t])@,
                    g.r_weight@[t]@,
                    offset as int,
                    cap - pool_total(g.r_neighbor@, t),
                ),
            same_gates_except(circuit@, old(circuit)@, d as int, base as int, base + i),
            same_pools_except(circuit@, start, -1),
            same_outside(circuit@, start, d as int, d as int),
            same_pools_except(start, old(circuit)@, d as int),
            same_outside(start, old(circuit)@, d as int, d as int),
            circuit@[d as int].src_expander_c_mempool@ == start[d as int].src_expander_c_mempool@,
            circuit@[d as int].weight_expander_c_mempool@ == start[d as int].weight_expander_c_mempool@,
            circuit@[d as int].src_expander_d_mempool@ == start[d as int].src_expander_d_mempool@,
            circuit@[d as int].weight_expander_d_mempool@ == start[d as int].weight_expander_d_mempool@,
        decreases g.r - i,
    {
        proof {
            lemma_pool_total_mono(g.r_neighbor@, i + 1, g.r as int);
            lemma_shape_same(circuit@, old(circuit)@);
        }
        let ghost cur = circuit@;
        let gate = comb_gate(cap, ptr, &g.r_neighbor[i], &g.r_weight[i], offset);
        put_gate(circuit, d, base + i, gate);
        proof {
            lemma_shape_same(circuit@, cur);
            lemma_gates_extend(circuit@, cur, old(circuit)@, d as int, base as int, base + i);
            lemma_pools_trans(circuit@, cur, start, -1, -1);
            lemma_outside_trans(circuit@, cur, start, d as int, d as int, d as int, d as int, d as int, d as int);
            assert forall|t: int|
                0 <= t < i + 1 implies is_comb_gate(
                circuit@[d as int].gates@[base + t],
                (#[trigger] g.r_neighbor@[t])@,
                g.r_weight@[t]@,
                offset as int,
                cap - pool_total(g.r_neighbor@, t),
            ) by {
                if t < i {
                    assert(circuit@[d as int].gates@[base + t] == cur[d as int].gates@[base + t]);
                }
            }
        }
        ptr = ptr + g.r_neighbor[i].len();
        i += 1;
    }
    proof {
        lemma_shape_same(circuit@, start);
        lemma_pools_trans(circuit@, start, old(circuit)@, -1, d as int);
        lemma_outside_trans(circuit@, start, old(circuit)@, d as int, d as int, d as int, d as int, d as int, d as int);
    }
    ptr
}

/// The layer and the number of gates of the output of the encoding layers
/// from level `rd` on, for an input of `input` values after `so_far`
/// outputs whose layer is `id`.
pub open spec fn enc_result(c: Seq<Graph>, d: Seq<Graph>, input: int, so_far: int, rd: int, id: int) -> (int, int)
    decreases c.len() - rd,
{
    if input > DISTANCE_THRESHOLD && 0 <= rd < c.len() && rd < d.len() {
        let r = c[rd].r as int;
        let inner = enc_result(c, d, r, so_far + r, rd + 1, id + 1);
        (inner.0 + 1, inner.1 + d[rd].r)
    } else {
        (id, so_far)
    }
}

/// The encoding layers from level `rd` on fit a circuit of `nl` layers of
/// `glen` gates: the layers exist, the gates of the expanders fit, their
/// pools fit and no count overflows.
pub open spec fn enc_fits(
    glen: spec_fn(int) -> int,
    nl: int,
    c: Seq<Graph>,
    d: Seq<Graph>,
    input: int,
    so_far: int,
    rd: int,
    id: int,
) -> bool
    decreases c.len() - rd,
{
    input <= DISTANCE_THRESHOLD || ({
        &&& 0 <= rd < c.len()
        &&& rd < d.len()
        &&& 0 <= id
        &&& id + 1 < nl
        &&& input <= so_far
        &&& (c[rd].r == 0 || so_far + c[rd].r <= glen(id + 1))
        &&& CN * c[rd].l <= usize::MAX
        &&& comb_ok(c[rd], CN * c[rd].l, so_far - input)
        &&& so_far + c[rd].r <= usize::MAX
        &&& enc_fits(glen, nl, c, d, c[rd].r as int, so_far + c[rd].r, rd + 1, id + 1)
        &&& ({
            let inner = enc_result(c, d, c[rd].r as int, so_far + c[rd].r, rd + 1, id + 1);
            &&& inner.0 + 1 < nl
            &&& (d[rd].r == 0 || inner.1 + d[rd].r <= glen(inner.0 + 1))
            &&& inner.1 + d[rd].r <= usize::MAX
            &&& DN * d[rd].l <= usize::MAX
            &&& comb_ok(d[rd], DN * d[rd].l, so_far)
        })
    })
}

proof fn lemma_enc_result_bounds(c: Seq<Graph>, d: Seq<Graph>, input: int, so_far: int, rd: int, id: int)
    ensures
        enc_result(c, d, input, so_far, rd, id).0 >= id,
        enc_result(c, d, input, so_far, rd, id).1 >= so_far,
    decreases c.len() - rd,
{
    if input > DISTANCE_THRESHOLD && 0 <= rd < c.len() && rd < d.len() {
        let r = c[rd].r as int;
        lemma_enc_result_bounds(c, d, r, so_far + r, rd + 1, id + 1);
    }
}

/// `a` and `b` agree on the layers `lo ..= hi`.
pub open spec fn same_on(a: Seq<Layer>, b: Seq<Layer>, lo: int, hi: int) -> bool {
    forall|j: int|
        0 <= j < a.len() && lo <= j <= hi ==> {
            &&& (#[trigger] a[j]).gates@ == b[j].gates@
            &&& a[j].src_expander_c_mempool@ == b[j].src_expander_c_mempool@
            &&& a[j].weight_expander_c_mempool@ == b[j].weight_expander_c_mempool@
            &&& a[j].src_expander_d_mempool@ == b[j].src_expander_d_mempool@
            &&& a[j].weight_expander_d_mempool@ == b[j].weight_expander_d_mempool@
        }
}

/// The encoding layers from level `rd` on are built: layer `id + 1` relays
/// the `so_far` values and lays out `c[rd]` after them (its pools of the
/// `c` expanders zeroed), the levels below are built, and the layer after
/// their output relays it and lays out `d[rd]` after it (its pools of the
/// `d` expanders zeroed).
pub open spec fn enc_built(circ: Seq<Layer>, c: Seq<Graph>, d: Seq<Graph>, input: int, so_far: int, rd: int, id: int) -> bool
    decreases c.len() - rd,
{
    if input > DISTANCE_THRESHOLD && 0 <= rd < c.len() && rd < d.len() {
        let r = c[rd].r as int;
        let inner = enc_result(c, d, r, so_far + r, rd + 1, id + 1);
        let l1 = circ[id + 1];
        let lf = circ[inner.0 + 1];
        &&& layer_has_relays(l1, so_far)
        &&& layer_has_combs(l1, so_far, c[rd], so_far - input, CN * c[rd].l)
        &&& c_pools_zero(l1, CN * c[rd].l)
        &&& enc_built(circ, c, d, r, so_far + r, rd + 1, id + 1)
        &&& layer_has_relays(lf, inner.1)
        &&& layer_has_combs(lf, inner.1, d[rd], so_far, DN * d[rd].l)
        &&& d_pools_zero(lf, DN * d[rd].l)
    } else {
        true
    }
}

proof fn lemma_enc_built_frame(a: Seq<Layer>, b: Seq<Layer>, c: Seq<Graph>, d: Seq<Graph>, input: int, so_far: int, rd: int, id: int)
    requires
        enc_built(a, c, d, input, so_far, rd, id),
        a.len() == b.len(),
        0 <= id,
        enc_result(c, d, input, so_far, rd, id).0 + 1 < a.len() || !(input > DISTANCE_THRESHOLD && 0 <= rd < c.len() && rd < d.len()),
        same_on(a, b, id + 1, enc_result(c, d, input, so_far, rd, id).0),
    ensures
        enc_built(b, c, d, input, so_far, rd, id),
    decreases c.len() - rd,
{
    if input > DISTANCE_THRESHOLD && 0 <= rd < c.len() && rd < d.len() {
        let r = c[rd].r as int;
        let inner = enc_result(c, d, r, so_far + r, rd + 1, id + 1);
        lemma_enc_result_bounds(c, d, r, so_far + r, rd + 1, id + 1);
        assert(a[id + 1].gates@ == b[id + 1].gates@);
        assert(a[inner.0 + 1].gates@ == b[inner.0 + 1].gates@);
        if r > DISTANCE_THRESHOLD && 0 <= rd + 1 < c.len() && rd + 1 < d.len() {
            let inner2 = enc_result(c, d, c[rd + 1].r as int, so_far + r + c[rd + 1].r, rd + 2, id + 2);
            assert(inner.0 == inner2.0 + 1);
        }
        lemma_enc_built_frame(a, b, c, d, r, so_far + r, rd + 1, id + 1);
    }
}

proof fn lemma_on_from_outside(a: Seq<Layer>, b: Seq<Layer>, l: int, h: int, lo: int, hi: int)
    requires
        same_outside(a, b, l, h),
        hi < l || h < lo,
        a.len() == b.len(),
    ensures
        same_on(b, a, lo, hi),
        same_on(a, b, lo, hi),
{
}

/// Builds the encoding layers from level `rd` on: layer `id + 1` relays
/// the `so_far` values and adds the image under `c[rd]` of the last `input`
/// of them; the levels below follow; the layer after their output relays it
/// and adds the image under `d[rd]` of their codeword. Returns the output
/// layer and its number of values; no layer outside those it builds
/// changes.
fn generate_enc_circuit(
    circuit: &mut Vec<Layer>,
    c: &Vec<Graph>,
    d: &Vec<Graph>,
    input_size: usize,
    output_size_so_far: usize,
    recursion_depth: usize,
    input_depth: usize,
) -> (r: (usize, usize))
    requires
        enc_fits(gate_lens(old(circuit)@), old(circuit)@.len() as int, c@, d@, input_size as int, output_size_so_far as int, recursion_depth as int, input_depth as int),
    ensures
        r.0 == enc_result(c@, d@, input_size as int, output_size_so_far as int, recursion_depth as int, input_depth as int).0,
        r.1 == enc_result(c@, d@, input_size as int, output_size_so_far as int, recursion_depth as int, input_depth as int).1,
        shape(final(circuit)@) == shape(old(circuit)@),
        enc_built(final(circuit)@, c@, d@, input_size as int, output_size_so_far as int, recursion_depth as int, input_depth as int),
        same_outside(final(circuit)@, old(circuit)@, input_depth + 1, r.0 as int),
    decreases c@.len() - recursion_depth,
{
    if input_size <= DISTANCE_THRESHOLD {
        return (input_depth, output_size_so_far);
    }
    let rd = recursion_depth;
    let nl = circuit.len();
    let clen = c.len();
    let ghost s0 = circuit@;
    relay_prefix(circuit, input_depth + 1, output_size_so_far);
    let ghost s1 = circuit@;
    proof {
        lemma_shape_same(circuit@, old(circuit)@);
    }
    let cap_c = CN * c[rd].l;
    comb_layer(circuit, input_depth + 1, output_size_so_far, &c[rd], cap_c, output_size_so_far - input_size, false);
    let ghost s2 = circuit@;
    proof {
        lemma_shape_same(circuit@, old(circuit)@);
        lemma_shape_same(s1, old(circuit)@);
        let l1 = s2[input_depth + 1];
        assert forall|k: int| 0 <= k < output_size_so_far && k < l1.gates@.len() implies is_gate(#[trigger] l1.gates@[k], RELAY, k as usize) by {
            assert(l1.gates@[k] == s1[input_depth + 1].gates@[k]);
        }
    }
    let cr = c[rd].r;
    let ret = generate_enc_circuit(circuit, c, d, cr, output_size_so_far + cr, rd + 1, input_depth + 1);
    let ghost s3 = circuit@;
    proof {
        lemma_shape_same(circuit@, old(circuit)@);
        lemma_enc_result_bounds(c@, d@, cr as int, output_size_so_far + cr, rd + 1, input_depth + 1);
        lemma_on_from_outside(s3, s2, input_depth + 2, ret.0 as int, input_depth + 1, input_depth + 1);
    }
    let d_input_offset = output_size_so_far;
    let final_output_depth = ret.0 + 1;
    let so_far2 = ret.1;
    relay_prefix(circuit, final_output_depth, so_far2);
    let ghost s4 = circuit@;
    proof {
        lemma_shape_same(circuit@, old(circuit)@);
    }
    let cap_d = DN * d[rd].l;
    comb_layer(circuit, final_output_depth, so_far2, &d[rd], cap_d, d_input_offset, true);
    proof {
        lemma_shape_same(circuit@, old(circuit)@);
        lemma_shape_same(s4, old(circuit)@);
        let lf = circuit@[final_output_depth as int];
        assert forall|k: int| 0 <= k < so_far2 && k < lf.gates@.len() implies is_gate(#[trigger] lf.gates@[k], RELAY, k as usize) by {
            assert(lf.gates@[k] == s4[final_output_depth as int].gates@[k]);
        }
        // the layers before the output layer keep what the steps before built
        lemma_outside_trans(circuit@, s4, s3, final_output_depth as int, final_output_depth as int, final_output_depth as int, final_output_depth as int, final_output_depth as int, final_output_depth as int);
        lemma_on_from_outside(circuit@, s3, final_output_depth as int, final_output_depth as int, input_depth + 1, ret.0 as int);
        lemma_enc_built_frame(s3, circuit@, c@, d@, cr as int, output_size_so_far + cr, rd + 1, input_depth + 1);
        assert(circuit@[input_depth + 1].gates@ == s3[input_depth + 1].gates@);
        assert(s3[input_depth + 1].gates@ == s2[input_depth + 1].gates@);
        // nothing outside the layers built changed
        lemma_outside_trans(s2, s1, s0, input_depth + 1, input_depth + 1, input_depth + 1, input_depth + 1, input_depth + 1, final_output_depth as int);
        lemma_outside_trans(s3, s2, s0, input_depth + 2, ret.0 as int, input_depth + 1, final_output_depth as int, input_depth + 1, final_output_depth as int);
        lemma_outside_trans(s4, s3, s0, final_output_depth as int, final_output_depth as int, input_depth + 1, final_output_depth as int, input_depth + 1, final_output_depth as int);
        lemma_outside_trans(circuit@, s4, s0, final_output_depth as int, final_output_depth as int, input_depth + 1, final_output_depth as int, input_depth + 1, final_output_depth as int);
    }
    (final_output_depth, so_far2 + d[rd].r)
}

/// The least `2^i` with `i` from `i0` to `31` that is at least `x` (`0` if
/// there is none).
pub open spec fn pow2_ceil_from(x: int, i: nat) -> int
    decreases 32 - i,
{
    if i >= 32 {
        0
    } else if pow2(i) >= x {
        pow2(i) as int
    } else {
        pow2_ceil_from(x, i + 1)
    }
}

/// The least power of two `2^i`, `i < 32`, that is at least `x`.
pub open spec fn pow2_ceil(x: int) -> int {
    pow2_ceil_from(x, 0)
}

proof fn lemma_pow2_ceil(x: int, i: nat, j: nat)
    requires
        i < 32,
        pow2(i) >= x,
        i == 0 || pow2((i - 1) as nat) < x,
        j <= i,
    ensures
        pow2_ceil_from(x, j) == pow2(i),
    decreases i - j,
{
    if j < i {
        if j < (i - 1) as nat {
            vstd::arithmetic::power2::lemma_pow2_strictly_increases(j, (i - 1) as nat);
        }
        lemma_pow2_ceil(x, i, j + 1);
    }
}

/// The least power of two at least `x`, as `smallest_pow2_larger_or_equal_to`
/// computes it.
fn pow2_ceil_exec(x: usize) -> (r: usize)
    requires
        x <= 0x8000_0000,
    ensures
        r == pow2_ceil(x as int),
        r >= x,
        is_power_of_two(r as nat),
{
    let r = smallest_pow2_larger_or_equal_to(x);
    proof {
        let i = choose|i: nat| i < 32 && r == #[trigger] pow2(i) && (i == 0 || pow2((i - 1) as nat) < x);
        lemma_pow2_ceil(x as int, i, 0);
        lemma_pow2_is_power_of_two(i);
    }
    r
}

/// A layer of `2^bit_length` dummy gates.
fn dummy_layer(bit_length: usize) -> (l: Layer)
    requires
        pow2(bit_length as nat) <= usize::MAX,
    ensures
        l.bit_length == bit_length,
        l.gates@.len() == pow2(bit_length as nat),
{
    let size = two_pow(bit_length);
    let mut gates: Vec<Gate> = Vec::new();
    let mut i: usize = 0;
    while i < size
        invariant
            i <= size,
            gates@.len() == i,
        decreases size - i,
    {
        gates.push(Gate::new());
        i += 1;
    }
    let mut l = Layer::new();
    l.bit_length = bit_length;
    l.gates = gates;
    l
}

/// Exchanges entries `j - 1` and `j`.
fn swap_down(v: &mut Vec<usize>, j: usize)
    requires
        0 < j < old(v)@.len(),
    ensures
        final(v)@ == old(v)@.update(j - 1, old(v)@[j as int]).update(j as int, old(v)@[j - 1]),
        final(v)@.to_multiset() == old(v)@.to_multiset(),
{
    broadcast use vstd::seq_lib::to_multiset_update, vstd::seq_lib::to_multiset_contains, vstd::multiset::group_multiset_axioms, vstd::multiset::group_multiset_properties;

    let a = v[j - 1];
    let b = v[j];
    let ghost s0 = v@;
    v.set(j - 1, b);
    let ghost s1 = v@;
    v.set(j, a);
    proof {
        assert(s1.to_multiset() == s0.to_multiset().insert(b).remove(a));
        assert(v@.to_multiset() == s1.to_multiset().insert(a).remove(b));
        assert(s0.contains(a));
        assert(s0.contains(b));
        let m = s0.to_multiset();
        assert(m.count(a) > 0);
        assert(m.count(b) > 0);
        assert forall|x: usize| #[trigger] v@.to_multiset().count(x) == m.count(x) by {
            if x == a && x == b {
            } else if x == a {
            } else if x == b {
            } else {
            }
        }
        assert(v@.to_multiset() =~= m);
    }
}

/// `v` in increasing order.
pub open spec fn sorted_up(v: Seq<usize>) -> bool {
    forall|a: int, b: int| 0 <= a < b < v.len() ==> v[a] <= v[b]
}

/// Sorts `v` in increasing order (by insertion).
fn sort_up(v: &mut Vec<usize>)
    ensures
        sorted_up(final(v)@),
        final(v)@.to_multiset() == old(v)@.to_multiset(),
        final(v)@.len() == old(v)@.len(),
{
    let len = v.len();
    let mut i: usize = 1;
    if len == 0 {
        return;
    }
    while i < len
        invariant
            1 <= i <= len,
            len == v@.len(),
            v@.to_multiset() == old(v)@.to_multiset(),
            len == old(v)@.len(),
            forall|a: int, b: int| 0 <= a < b < i ==> v@[a] <= v@[b],
        decreases len - i,
    {
        let mut j: usize = i;
        while j > 0 && v[j - 1] > v[j]
            invariant
                0 <= j <= i < len,
                len == v@.len(),
                v@.to_multiset() == old(v)@.to_multiset(),
                len == old(v)@.len(),
                forall|a: int, b: int| 0 <= a < b < j ==> v@[a] <= v@[b],
                forall|a: int, b: int| j < a < b <= i ==> v@[a] <= v@[b],
                forall|a: int, b: int| 0 <= a < j && j < b <= i ==> v@[a] <= v@[b],
                forall|b: int| j < b <= i ==> v@[j as int] <= v@[b],
            decreases j,
        {
            swap_down(v, j);
            j -= 1;
        }
        i += 1;
    }
}

/// The number of gates of each layer of the commitment circuit for rows of
/// `n` symbols, gate counts `g` and `qc` queries: the input layer, then the
/// counts rounded up to powers of two, then the queries rounded up.
pub open spec fn layer_sizes(g: Seq<usize>, qc: int, n: int) -> spec_fn(int) -> int {
    |j: int|
        if j == 0 {
            n
        } else if 1 <= j < g.len() {
            pow2_ceil(g[j - 1] as int)
        } else if j == g.len() {
            pow2_ceil(qc)
        } else {
            0
        }
}

/// `generate_circuit` may run for rows of `n` symbols, `input` and `qc`
/// queries: the counts and the queries fit a machine word as powers of two,
/// the expanders of level 0 can be laid out (the pool of `c[0]` exactly),
/// and the encoding layers and the last layers fit.
pub open spec fn circuit_plan_ok(pc: LinearPC, n: int, qc: int) -> bool {
    let c = pc.lce_ctx.c@;
    let d = pc.lce_ctx.d@;
    let g = gates_plan(pc.gates_count@, c, d, n, qc);
    let sizes = layer_sizes(g, qc, n);
    let e = enc_result(c, d, c[0].r as int, n + c[0].r, 1, 2);
    &&& gates_plan_ok(pc.gates_count@, c, d, n)
    &&& g.len() + 1 <= usize::MAX
    &&& is_power_of_two(n as nat)
    &&& n <= 0x8000_0000
    &&& qc <= 0x8000_0000
    &&& forall|i: int| 0 <= i < g.len() - 1 ==> #[trigger] g[i] <= 0x8000_0000
    &&& CN * c[0].l <= usize::MAX
    &&& comb_ok(c[0], CN * c[0].l, 0)
    &&& pool_total(c[0].r_neighbor@, c[0].r as int) == CN * c[0].l
    &&& enc_fits(sizes, g.len() + 1 as int, c, d, c[0].r as int, n + c[0].r, 1, 2)
    &&& e.0 + 2 < g.len() + 1
    &&& (d[0].r == 0 || e.1 + d[0].r <= sizes(e.0 + 1))
    &&& DN * d[0].l <= usize::MAX
    &&& comb_ok(d[0], DN * d[0].l, n)
    &&& qc <= sizes(e.0 + 2)
}

proof fn lemma_gates_plan_len(m: Seq<usize>, c: Seq<Graph>, d: Seq<Graph>, n: int, qc: int)
    requires
        gates_plan_ok(m, c, d, n),
    ensures
        gates_plan(m, c, d, n, qc).len() >= 5,
{
    let m1 = table_insert(table_insert(m, 0, n as usize), 1, (n + c[0].r) as usize);
    lemma_enc_counts_shape(m1, c, d, c[0].r as int, n, 1);
    lemma_enc_counts_at_least(m1, c, d, c[0].r as int, n, 1);
}

proof fn lemma_enc_counts_keeps(m: Seq<usize>, c: Seq<Graph>, d: Seq<Graph>, input: int, so_far: int, depth: int, j: int)
    requires
        enc_counts_ok(m, c, d, input, so_far, depth),
        0 <= j <= depth,
        j < m.len(),
    ensures
        enc_counts(m, c, d, input, so_far, depth).0[j] == m[j],
    decreases c.len() - depth,
{
    if input > DISTANCE_THRESHOLD && depth < c.len() {
        let out = so_far + input + c[depth].r;
        lemma_enc_counts_keeps(table_insert(m, depth + 1, out as usize), c, d, c[depth].r as int, out, depth + 1, j);
    }
}

proof fn lemma_pow2_ceil_ge(x: int, j: nat)
    requires
        x <= 0x8000_0000,
        j <= 31,
    ensures
        pow2_ceil_from(x, j) >= x,
    decreases 32 - j,
{
    if pow2(j) < x {
        if j == 31 {
            vstd::arithmetic::power2::lemma2_to64();
        } else {
            lemma_pow2_ceil_ge(x, j + 1);
        }
    }
}

/// The first two gate counts are the input and the first expander.
proof fn lemma_gates_plan_head(m: Seq<usize>, c: Seq<Graph>, d: Seq<Graph>, n: int, qc: int)
    requires
        gates_plan_ok(m, c, d, n),
    ensures
        gates_plan(m, c, d, n, qc)[0] == n,
        gates_plan(m, c, d, n, qc)[1] == n + c[0].r,
{
    let m1 = table_insert(table_insert(m, 0, n as usize), 1, (n + c[0].r) as usize);
    assert(m1[0] == n);
    assert(m1[1] == n + c[0].r);
    lemma_enc_counts_keeps(m1, c, d, c[0].r as int, n, 1, 0);
    lemma_enc_counts_keeps(m1, c, d, c[0].r as int, n, 1, 1);
    lemma_enc_counts_shape(m1, c, d, c[0].r as int, n, 1);
    lemma_enc_counts_at_least(m1, c, d, c[0].r as int, n, 1);
}

proof fn lemma_enc_counts_at_least(m: Seq<usize>, c: Seq<Graph>, d: Seq<Graph>, input: int, so_far: int, depth: int)
    requires
        enc_counts_ok(m, c, d, input, so_far, depth),
    ensures
        enc_counts(m, c, d, input, so_far, depth).1 >= depth + 1,
    decreases c.len() - depth,
{
    if input > DISTANCE_THRESHOLD && depth < c.len() {
        let out = so_far + input + c[depth].r;
        lemma_enc_counts_at_least(table_insert(m, depth + 1, out as usize), c, d, c[depth].r as int, out, depth + 1);
    }
}

/// The gates of the commitment circuit: the first `take` gates of layer 0
/// are inputs and those of layer 1 relay them directly; layer 2 relays the
/// `n` values and lays out `c[0]` after them; the encoding layers are built;
/// the output layer relays their output and lays out `d[0]` after it; the
/// last layer relays the codeword at the positions `queries`.
pub open spec fn circuit_built(circ: Seq<Layer>, c: Seq<Graph>, d: Seq<Graph>, n: int, take: int, queries: Seq<usize>) -> bool {
    let e = enc_result(c, d, c[0].r as int, n + c[0].r, 1, 2);
    &&& forall|k: int| 0 <= k < take ==> is_gate(#[trigger] circ[0].gates@[k], INPUT, 0)
    &&& forall|k: int| 0 <= k < take ==> is_gate(#[trigger] circ[1].gates@[k], DIRECT_RELAY, k as usize)
    &&& layer_has_relays(circ[2], n)
    &&& layer_has_combs(circ[2], n, c[0], 0, CN * c[0].l)
    &&& c_pools_zero(circ[2], CN * c[0].l)
    &&& enc_built(circ, c, d, c[0].r as int, n + c[0].r, 1, 2)
    &&& layer_has_relays(circ[e.0 + 1], e.1)
    &&& layer_has_combs(circ[e.0 + 1], e.1, d[0], n, DN * d[0].l)
    &&& d_pools_zero(circ[e.0 + 1], DN * d[0].l)
    &&& forall|q: int| 0 <= q < queries.len() ==> is_gate(#[trigger] circ[e.0 + 2].gates@[q], RELAY, queries[q])
}

impl LinearPC {
    /// Builds the circuit that checks the encoding of a row of `n` symbols:
    /// the input layer holds `input`; layer 1 relays it directly; layer 2
    /// relays it and adds its image under `c[0]`; the encoding layers of the
    /// levels below follow; the next layer adds the image under `d[0]` of
    /// the recursive codeword; the last layer relays the codeword at the
    /// queried positions, which are sorted first. The layers have the sizes
    /// of `layer_sizes` over the counts that `prepare_gates_count`
    /// fills in.
    fn generate_circuit(&mut self, query: &mut Vec<usize>, n: usize, input: &[FieldElement])
        requires
            circuit_plan_ok(*old(self), n as int, old(query)@.len() as int),
        ensures
            sorted_up(final(query)@),
            final(query)@.to_multiset() == old(query)@.to_multiset(),
            final(query)@.len() == old(query)@.len(),
            final(self).gates_count@ == gates_plan(old(self).gates_count@, old(self).lce_ctx.c@, old(self).lce_ctx.d@, n as int, old(query)@.len() as int),
            final(self).verifier.a_c.total_depth == final(self).gates_count@.len() + 1,
            final(self).verifier.a_c.circuit@.len() == final(self).gates_count@.len() + 1,
            gate_lens(final(self).verifier.a_c.circuit@) == layer_sizes(final(self).gates_count@, old(query)@.len() as int, n as int),
            forall|j: int| 0 <= j < final(self).verifier.a_c.circuit@.len() ==> pow2((#[trigger] final(self).verifier.a_c.circuit@[j]).bit_length as nat)
                == final(self).verifier.a_c.circuit@[j].gates@.len(),
            final(self).verifier.a_c.inputs@ == input@.take(if n < input@.len() { n as int } else { input@.len() as int }),
            circuit_built(
                final(self).verifier.a_c.circuit@,
                old(self).lce_ctx.c@,
                old(self).lce_ctx.d@,
                n as int,
                if n < input@.len() { n as int } else { input@.len() as int },
                final(query)@,
            ),
            final(self).lce_ctx == old(self).lce_ctx,
            final(self).encoded_codeword == old(self).encoded_codeword,
            final(self).coef == old(self).coef,
            final(self).codeword_size == old(self).codeword_size,
            final(self).mt == old(self).mt,
            final(self).rates == old(self).rates,
    {
        let query_count = query.len();
        sort_up(query);
        self.prepare_gates_count(n, query_count);
        let ghost g = self.gates_count@;
        let ghost sizes = layer_sizes(g, query_count as int, n as int);
        proof {
            lemma_gates_plan_len(old(self).gates_count@, self.lce_ctx.c@, self.lce_ctx.d@, n as int, query_count as int);
            lemma_gates_plan_head(old(self).gates_count@, self.lce_ctx.c@, self.lce_ctx.d@, n as int, query_count as int);
            lemma_pow2_ceil_ge(n as int, 0);
        }
        let bit_length = my_log(n).unwrap();
        let gl = self.gates_count.len();
        self.verifier.a_c.total_depth = gl + 1;
        let mut circuit: Vec<Layer> = Vec::new();
        proof {
            vstd::arithmetic::power2::lemma2_to64();
        }
        circuit.push(dummy_layer(bit_length));
        let mut i: usize = 0;
        while i < gl - 1
            invariant
                gl == g.len(),
                gl >= 5,
                self.gates_count@ == g,
                0 <= i <= gl - 1,
                circuit@.len() == i + 1,
                forall|j: int| 0 <= j < g.len() - 1 ==> #[trigger] g[j] <= 0x8000_0000,
                n <= 0x8000_0000,
                forall|j: int| 0 <= j <= i ==> (#[trigger] circuit@[j]).gates@.len() == sizes(j),
                forall|j: int| 0 <= j <= i ==> pow2((#[trigger] circuit@[j]).bit_length as nat) == circuit@[j].gates@.len(),
                sizes == layer_sizes(g, query_count as int, n as int),
            decreases gl - 1 - i,
        {
            let p = pow2_ceil_exec(self.gates_count[i]);
            let bl = my_log(p).unwrap();
            circuit.push(dummy_layer(bl));
            i += 1;
        }
        let p = pow2_ceil_exec(query_count);
        let bl = my_log(p).unwrap();
        circuit.push(dummy_layer(bl));
        proof {
            assert(gate_lens(circuit@) =~= sizes);
        }
        let ghost built = circuit@;
        // the input layer, the direct relays and the relays of layer 2
        let mut inputs: Vec<FieldElement> = Vec::new();
        let take = if n < input.len() {
            n
        } else {
            input.len()
        };
        let mut k: usize = 0;
        while k < take
            invariant
                k <= take,
                take <= n,
                take <= input@.len(),
                inputs@ == input@.take(k as int),
                shape(circuit@) == shape(built),
                built.len() == gl + 1,
                gate_lens(built) == sizes,
                sizes == layer_sizes(g, query_count as int, n as int),
                gl >= 5,
                g.len() == gl,
                g[0] == n,
                pow2_ceil(n as int) >= n,
                forall|kk: int| 0 <= kk < k ==> is_gate(#[trigger] circuit@[0].gates@[kk], INPUT, 0),
                forall|kk: int| 0 <= kk < k ==> is_gate(#[trigger] circuit@[1].gates@[kk], DIRECT_RELAY, kk as usize),
                same_outside(circuit@, built, 0, 1),
            decreases take - k,
        {
            proof {
                lemma_shape_same(circuit@, built);
                assert(sizes(0) == n);
            }
            inputs.push(input[k]);
            let ghost c0s = circuit@;
            put_gate(&mut circuit, 0, k, Gate::from_params(INPUT, 0, 0));
            let ghost c1s = circuit@;
            proof {
                lemma_shape_same(circuit@, built);
                assert(sizes(1) == pow2_ceil(n as int));
            }
            put_gate(&mut circuit, 1, k, Gate::from_params(DIRECT_RELAY, k, 0));
            proof {
                lemma_shape_same(circuit@, built);
                lemma_shape_same(c1s, built);
                lemma_shape_same(c0s, built);
                assert forall|kk: int| 0 <= kk < k + 1 implies is_gate(#[trigger] circuit@[0].gates@[kk], INPUT, 0) by {
                    assert(circuit@[0].gates@[kk] == c1s[0].gates@[kk]);
                    if kk < k {
                        assert(c1s[0].gates@[kk] == c0s[0].gates@[kk]);
                    }
                }
                assert forall|kk: int| 0 <= kk < k + 1 implies is_gate(#[trigger] circuit@[1].gates@[kk], DIRECT_RELAY, kk as usize) by {
                    if kk < k {
                        assert(circuit@[1].gates@[kk] == c1s[1].gates@[kk]);
                        assert(c1s[1].gates@[kk] == c0s[1].gates@[kk]);
                    }
                }
                lemma_outside_trans(c1s, c0s, built, 0, 0, 0, 1, 0, 1);
                lemma_outside_trans(circuit@, c1s, built, 1, 1, 0, 1, 0, 1);
            }
            k += 1;
            assert(inputs@ =~= input@.take(k as int));
        }
        let ghost sa = circuit@;
        relay_prefix(&mut circuit, 2, n);
        let ghost sb = circuit@;
        proof {
            lemma_shape_same(circuit@, built);
            lemma_shape_same(sa, built);
        }
        let c0 = &self.lce_ctx.c[0];
        let cap_c = CN * c0.l;
        proof {
            assert(g[1] <= 0x8000_0000);
            lemma_pow2_ceil_ge(g[1] as int, 0);
            assert(sizes(2) == pow2_ceil(g[1] as int));
            assert(gate_lens(built)(2) == built[2].gates@.len());
        }
        let c_ptr = comb_layer(&mut circuit, 2, n, c0, cap_c, 0, false);
        let ghost sc = circuit@;
        proof {
            lemma_shape_same(circuit@, built);
            lemma_shape_same(sb, built);
            let l2 = sc[2];
            assert forall|kk: int| 0 <= kk < n && kk < l2.gates@.len() implies is_gate(#[trigger] l2.gates@[kk], RELAY, kk as usize) by {
                assert(l2.gates@[kk] == sb[2].gates@[kk]);
            }
        }
        let e = generate_enc_circuit(&mut circuit, &self.lce_ctx.c, &self.lce_ctx.d, c0.r, n + c0.r, 1, 2);
        let ghost sd = circuit@;
        proof {
            lemma_shape_same(circuit@, built);
            lemma_enc_result_bounds(self.lce_ctx.c@, self.lce_ctx.d@, c0.r as int, n + c0.r, 1, 2);
        }
        let final_output_depth = e.0 + 1;
        relay_prefix(&mut circuit, final_output_depth, e.1);
        let ghost se = circuit@;
        proof {
            lemma_shape_same(circuit@, built);
        }
        let d0 = &self.lce_ctx.d[0];
        let cap_d = DN * d0.l;
        comb_layer(&mut circuit, final_output_depth, e.1, d0, cap_d, n, true);
        let ghost sf = circuit@;
        proof {
            lemma_shape_same(circuit@, built);
            lemma_shape_same(se, built);
            let lf = sf[final_output_depth as int];
            assert forall|kk: int| 0 <= kk < e.1 && kk < lf.gates@.len() implies is_gate(#[trigger] lf.gates@[kk], RELAY, kk as usize) by {
                assert(lf.gates@[kk] == se[final_output_depth as int].gates@[kk]);
            }
        }
        let mut q: usize = 0;
        while q < query_count
            invariant
                q <= query_count,
                query_count == query@.len(),
                final_output_depth + 1 < built.len(),
                built.len() == gl + 1,
                gl + 1 <= usize::MAX,
                query_count <= built[final_output_depth + 1].gates@.len(),
                shape(circuit@) == shape(built),
                shape(sf) == shape(built),
                forall|qq: int| 0 <= qq < q ==> is_gate(#[trigger] circuit@[final_output_depth + 1].gates@[qq], RELAY, query@[qq]),
                same_outside(circuit@, sf, final_output_depth + 1, final_output_depth + 1),
            decreases query_count - q,
        {
            proof {
                lemma_shape_same(circuit@, built);
            }
            let ghost cur = circuit@;
            put_gate(&mut circuit, final_output_depth + 1, q, Gate::from_params(RELAY, query[q], 0));
            proof {
                lemma_shape_same(circuit@, built);
                lemma_shape_same(cur, built);
                assert forall|qq: int| 0 <= qq < q + 1 implies is_gate(#[trigger] circuit@[final_output_depth + 1].gates@[qq], RELAY, query@[qq]) by {
                    if qq < q {
                        assert(circuit@[final_output_depth + 1].gates@[qq] == cur[final_output_depth + 1].gates@[qq]);
                    }
                }
                lemma_outside_trans(circuit@, cur, sf, final_output_depth + 1, final_output_depth + 1, final_output_depth + 1, final_output_depth + 1, final_output_depth + 1, final_output_depth + 1);
            }
            q += 1;
        }
        assert(c_ptr == cap_c);
        proof {
            lemma_shape_same(circuit@, built);
            lemma_shape_same(sf, built);
            lemma_shape_same(sd, built);
            lemma_shape_same(sc, built);
            let fod = final_output_depth as int;
            // layers 0 and 1 survive every later step
            lemma_outside_trans(sb, sa, built, 2, 2, 0, 1, 0, 2);
            lemma_outside_trans(sc, sb, sa, 2, 2, 2, 2, 2, 2);
            lemma_outside_trans(sd, sc, sa, 3, e.0 as int, 2, 2, 2, e.0 as int);
            lemma_outside_trans(se, sd, sa, fod, fod, 2, e.0 as int, 2, fod);
            lemma_outside_trans(sf, se, sa, fod, fod, 2, fod, 2, fod);
            lemma_outside_trans(circuit@, sf, sa, fod + 1, fod + 1, 2, fod, 2, fod + 1);
            assert(circuit@[0].gates@ == sa[0].gates@);
            assert(circuit@[1].gates@ == sa[1].gates@);
            // layer 2 survives the encoding layers and the last two layers
            lemma_outside_trans(se, sd, sc, fod, fod, 3, e.0 as int, 3, fod);
            lemma_outside_trans(sf, se, sc, fod, fod, 3, fod, 3, fod);
            lemma_outside_trans(circuit@, sf, sc, fod + 1, fod + 1, 3, fod, 3, fod + 1);
            assert(circuit@[2].gates@ == sc[2].gates@);
            assert(circuit@[2].src_expander_c_mempool@ == sc[2].src_expander_c_mempool@);
            // the encoding layers survive the last two layers
            lemma_outside_trans(sf, se, sd, fod, fod, fod, fod, fod, fod);
            lemma_outside_trans(circuit@, sf, sd, fod + 1, fod + 1, fod, fod, fod, fod + 1);
            lemma_on_from_outside(circuit@, sd, fod, fod + 1, 3, e.0 as int);
            lemma_enc_built_frame(sd, circuit@, self.lce_ctx.c@, self.lce_ctx.d@, c0.r as int, n + c0.r, 1, 2);
            // the output layer survives the queries
            assert(circuit@[fod].gates@ == sf[fod].gates@);
            assert(circuit@[fod].src_expander_d_mempool@ == sf[fod].src_expander_d_mempool@);
        }
        self.verifier.a_c.inputs = inputs;
        self.verifier.a_c.circuit = circuit;
    }
}

/// The views of a list of vectors.
pub open spec fn rows_view(v: Seq<Vec<FieldElement>>) -> Seq<Seq<FieldElement>> {
    Seq::new(v.len(), |i: int| v[i]@)
}

/// The sum of `a[i] b[i]` over `i < k`, accumulated from zero.
pub open spec fn dot(a: Seq<FieldElement>, b: Seq<FieldElement>, k: int) -> FieldElement
    decreases k,
{
    if k <= 0 {
        fe_zero()
    } else {
        fe_add(dot(a, b, k - 1), fe_mul(a[k - 1], b[k - 1]))
    }
}

/// Entry `q` of the combination of the first `k` rows with coefficients
/// `r`, accumulated from zero.
pub open spec fn column_comb(rows: Seq<Seq<FieldElement>>, r: Seq<FieldElement>, q: int, k: int) -> FieldElement
    decreases k,
{
    if k <= 0 {
        fe_zero()
    } else {
        fe_add(column_comb(rows, r, q, k - 1), fe_mul(r[k - 1], rows[k - 1][q]))
    }
}

proof fn lemma_lincomb_entry(rows: Seq<Seq<FieldElement>>, r: Seq<FieldElement>, len: nat, q: int, k: int)
    requires
        0 <= q < len,
        forall|i: int| 0 <= i < k ==> (#[trigger] rows[i]).len() >= len,
    ensures
        lincomb(rows, r, len, k)[q] == column_comb(rows, r, q, k),
        lincomb(rows, r, len, k).len() == len,
    decreases k,
{
    if k > 0 {
        lemma_lincomb_entry(rows, r, len, q, k - 1);
    }
}

proof fn lemma_lincomb_congr_rows(a: Seq<Seq<FieldElement>>, b: Seq<Seq<FieldElement>>, r: Seq<FieldElement>, len: nat, k: int)
    requires
        forall|i: int| 0 <= i < k ==> (#[trigger] a[i]).take(len as int) == b[i].take(len as int),
    ensures
        lincomb(a, r, len, k) == lincomb(b, r, len, k),
    decreases k,
{
    if k > 0 {
        lemma_lincomb_congr_rows(a, b, r, len, k - 1);
        assert(a[k - 1].take(len as int) == b[k - 1].take(len as int));
    }
}

/// The combination of the first `COLUMN_SIZE` rows with coefficients `r`
/// on their first `len` entries.
fn combine_rows(rows: &Vec<Vec<FieldElement>>, r: &[FieldElement], len: usize) -> (out: Vec<FieldElement>)
    requires
        rows@.len() >= COLUMN_SIZE,
        r@.len() >= COLUMN_SIZE,
        forall|i: int| 0 <= i < COLUMN_SIZE ==> (#[trigger] rows@[i])@.len() >= len,
    ensures
        out@ == lincomb(rows_view(rows@), r@, len as nat, COLUMN_SIZE as int),
{
    let mut out: Vec<FieldElement> = Vec::new();
    let mut j: usize = 0;
    while j < len
        invariant
            j <= len,
            out@ == Seq::new(j as nat, |k: int| fe_zero()),
        decreases len - j,
    {
        out.push(FieldElement::zero());
        j += 1;
        assert(out@ =~= Seq::new(j as nat, |k: int| fe_zero()));
    }
    assert(out@ =~= lincomb(rows_view(rows@), r@, len as nat, 0));
    let mut i: usize = 0;
    while i < COLUMN_SIZE
        invariant
            i <= COLUMN_SIZE,
            rows@.len() >= COLUMN_SIZE,
            r@.len() >= COLUMN_SIZE,
            forall|k: int| 0 <= k < COLUMN_SIZE ==> (#[trigger] rows@[k])@.len() >= len,
            out@ == lincomb(rows_view(rows@), r@, len as nat, i as int),
            out@.len() == len,
        decreases COLUMN_SIZE - i,
    {
        let ghost prev = out@;
        let ri = r[i];
        let mut j: usize = 0;
        while j < len
            invariant
                j <= len,
                i < COLUMN_SIZE,
                rows@.len() >= COLUMN_SIZE,
                forall|k: int| 0 <= k < COLUMN_SIZE ==> (#[trigger] rows@[k])@.len() >= len,
                ri == r@[i as int],
                prev.len() == len,
                out@.len() == len,
                forall|k: int| 0 <= k < j ==> out@[k] == fe_add(prev[k], fe_mul(ri, rows@[i as int]@[k])),
                forall|k: int| j <= k < len ==> out@[k] == prev[k],
            decreases len - j,
        {
            let cur = out[j];
            let x = rows[i][j];
            out.set(j, cur + ri * x);
            j += 1;
        }
        proof {
            let row = rows_view(rows@)[i as int];
            assert(row == rows@[i as int]@);
            assert(out@ =~= vadd(prev, vscale(r@[i as int], row.take(len as int))));
        }
        i += 1;
    }
    out
}

/// The sum of `a[i] b[i]` over `i < k`.
fn dot_exec(a: &[FieldElement], b: &Vec<FieldElement>, k: usize) -> (s: FieldElement)
    requires
        k <= a@.len(),
        k <= b@.len(),
    ensures
        s == dot(a@, b@, k as int),
{
    let mut s = FieldElement::zero();
    let mut i: usize = 0;
    while i < k
        invariant
            i <= k,
            k <= a@.len(),
            k <= b@.len(),
            s == dot(a@, b@, i as int),
        decreases k - i,
    {
        s = s + a[i] * b[i];
        i += 1;
    }
    s
}

/// Entry `q` of the combination of the first `COLUMN_SIZE` rows.
fn column_sum(rows: &Vec<Vec<FieldElement>>, r: &[FieldElement], q: usize) -> (s: FieldElement)
    requires
        rows@.len() >= COLUMN_SIZE,
        r@.len() >= COLUMN_SIZE,
        forall|i: int| 0 <= i < COLUMN_SIZE ==> q < (#[trigger] rows@[i])@.len(),
    ensures
        s == column_comb(rows_view(rows@), r@, q as int, COLUMN_SIZE as int),
{
    let mut s = FieldElement::zero();
    let mut j: usize = 0;
    while j < COLUMN_SIZE
        invariant
            j <= COLUMN_SIZE,
            rows@.len() >= COLUMN_SIZE,
            r@.len() >= COLUMN_SIZE,
            forall|i: int| 0 <= i < COLUMN_SIZE ==> q < (#[trigger] rows@[i])@.len(),
            s == column_comb(rows_view(rows@), r@, q as int, j as int),
        decreases COLUMN_SIZE - j,
    {
        s = s + r[j] * rows[j][q];
        j += 1;
    }
    s
}

/// The digest of column `q` of the first `COLUMN_SIZE` rows.
fn column_hash(rows: &Vec<Vec<FieldElement>>, q: usize) -> (h: HashDigest)
    requires
        rows@.len() >= COLUMN_SIZE,
        forall|i: int| 0 <= i < COLUMN_SIZE ==> q < (#[trigger] rows@[i])@.len(),
    ensures
        h == column_digest(rows@, q as int, (COLUMN_SIZE / 2) as int),
{
    let mut acc = HashDigest::default();
    let mut j: usize = 0;
    while j < COLUMN_SIZE / 2
        invariant
            j <= COLUMN_SIZE / 2,
            rows@.len() >= COLUMN_SIZE,
            forall|i: int| 0 <= i < COLUMN_SIZE ==> q < (#[trigger] rows@[i])@.len(),
            acc == column_digest(rows@, q as int, j as int),
        decreases COLUMN_SIZE / 2 - j,
    {
        assert(q < rows@[2 * j as int]@.len());
        assert(q < rows@[2 * j + 1]@.len());
        acc = hash_double_field_element_merkle_damgard(rows[2 * j][q], rows[2 * j + 1][q], acc);
        j += 1;
    }
    acc
}

/// The scheme holds the commitment `com` to rows of `seg` symbols: the
/// first `COLUMN_SIZE` rows, their codewords cut or padded to `2 seg`
/// entries, the length of the codeword of row 0, the tree over the columns,
/// and an encoder ready for rows of `seg` symbols.
pub open spec fn committed(pc: LinearPC, seg: int, com: Seq<HashDigest>) -> bool {
    let c = pc.lce_ctx.c@;
    let d = pc.lce_ctx.d@;
    let alpha = pc.rates.alpha@;
    &&& pc.coef@.len() >= COLUMN_SIZE
    &&& pc.encoded_codeword@.len() >= COLUMN_SIZE
    &&& pc.codeword_size@.len() >= 1
    &&& forall|i: int| 0 <= i < COLUMN_SIZE ==> (#[trigger] pc.coef@[i])@.len() == seg
    &&& forall|i: int|
        0 <= i < COLUMN_SIZE ==> (#[trigger] pc.encoded_codeword@[i])@ == fit_len(level_codeword(c, d, alpha, pc.coef@[i]@, 0), (2 * seg) as nat)
    &&& pc.codeword_size@[0] == level_codeword(c, d, alpha, pc.coef@[0]@, 0).len()
    &&& pc.codeword_size@[0] <= 2 * seg
    &&& is_power_of_two((2 * seg) as nat)
    &&& 4 * seg <= usize::MAX
    &&& is_tree_of(com, column_digests(pc.encoded_codeword@, (2 * seg) as nat))
    &&& encode_ready(pc.lce_ctx, alpha, seg)
}

proof fn lemma_dot_prefix(a: Seq<FieldElement>, b1: Seq<FieldElement>, b2: Seq<FieldElement>, k: int)
    requires
        k <= b1.len(),
        k <= b2.len(),
        forall|i: int| 0 <= i < k ==> b1[i] == b2[i],
    ensures
        dot(a, b1, k) == dot(a, b2, k),
    decreases k,
{
    if k > 0 {
        lemma_dot_prefix(a, b1, b2, k - 1);
    }
}

proof fn lemma_path_len_bound(pos: int, k: nat)
    requires
        1 <= pos < pow2(k),
    ensures
        path_len(pos) <= k,
    decreases k,
{
    if pos > 1 {
        if k == 0 {
            vstd::arithmetic::power2::lemma2_to64();
        } else {
            vstd::arithmetic::power2::lemma_pow2_unfold(k);
            lemma_path_len_bound(pos / 2, (k - 1) as nat);
        }
    }
}

fn bools(len: usize) -> (v: Vec<bool>)
    ensures
        v@.len() == len,
{
    let mut v: Vec<bool> = Vec::new();
    let mut j: usize = 0;
    while j < len
        invariant
            j <= len,
            v@.len() == j,
        decreases len - j,
    {
        v.push(false);
        j += 1;
    }
    v
}

fn zero_digests(len: usize) -> (v: Vec<HashDigest>)
    ensures
        v@.len() == len,
{
    let mut v: Vec<HashDigest> = Vec::new();
    let mut j: usize = 0;
    while j < len
        invariant
            j <= len,
            v@.len() == j,
        decreases len - j,
    {
        v.push(HashDigest::default());
        j += 1;
    }
    v
}

/// The leaves of the tree over the combined codeword `cc`, padded to
/// `len` leaves with the digest of zero.
pub open spec fn codeword_leaves(cc: Seq<FieldElement>, len: nat) -> Seq<HashDigest> {
    Seq::new(len, |j: int| if j < cc.len() { hash_of_element(cc[j]) } else { hash_of_element(fe_zero()) })
}

/// The digests of the entries of `cc`, then of zeros up to `len` leaves.
fn codeword_hashes(cc: &Vec<FieldElement>, len: usize) -> (h: Vec<HashDigest>)
    requires
        cc@.len() <= len,
    ensures
        h@ == codeword_leaves(cc@, len as nat),
{
    let mut h: Vec<HashDigest> = Vec::new();
    let mut j: usize = 0;
    while j < cc.len()
        invariant
            j <= cc@.len(),
            cc@.len() <= len,
            h@ == codeword_leaves(cc@, len as nat).take(j as int),
        decreases cc@.len() - j,
    {
        h.push(hash_single_field_element(cc[j]));
        j += 1;
        assert(h@ =~= codeword_leaves(cc@, len as nat).take(j as int));
    }
    let hz = hash_single_field_element(FieldElement::zero());
    while j < len
        invariant
            cc@.len() <= j <= len,
            h@ == codeword_leaves(cc@, len as nat).take(j as int),
            hz == hash_of_element(fe_zero()),
        decreases len - j,
    {
        h.push(hz);
        j += 1;
        assert(h@ =~= codeword_leaves(cc@, len as nat).take(j as int));
    }
    assert(h@ =~= codeword_leaves(cc@, len as nat));
    h
}

/// `head` followed by zeros up to `len` entries.
fn pad_zeros(head: &Vec<FieldElement>, len: usize) -> (v: Vec<FieldElement>)
    requires
        head@.len() <= len,
    ensures
        v@.len() == len,
        v@.take(head@.len() as int) == head@,
        forall|j: int| head@.len() <= j < len ==> v@[j] == fe_zero(),
{
    let mut v: Vec<FieldElement> = Vec::new();
    let mut j: usize = 0;
    while j < len
        invariant
            j <= len,
            head@.len() <= len,
            v@.len() == j,
            forall|k: int| 0 <= k < j && k < head@.len() ==> v@[k] == head@[k],
            forall|k: int| head@.len() <= k < j ==> v@[k] == fe_zero(),
        decreases len - j,
    {
        if j < head.len() {
            v.push(head[j]);
        } else {
            v.push(FieldElement::zero());
        }
        j += 1;
    }
    assert(v@.take(head@.len() as int) =~= head@);
    v
}

/// The verifier's column checks: `query_count` random positions `q` of the
/// combined codeword `cc`; at each the column of the encoded rows hashes
/// into the commitment `com`, the entry of `cc` into `cc_mt`, and the
/// combination of the column is the entry of `cc`. Gives the bytes that the
/// checks read: the `COLUMN_SIZE` elements of 16 bytes of each column, and
/// 32 bytes for each sibling on the two Merkle paths not read before (at
/// most 64 on each path).
fn query_columns(
    encoded: &Vec<Vec<FieldElement>>,
    r0: &[FieldElement],
    cc: &Vec<FieldElement>,
    cc_mt: &Vec<HashDigest>,
    com: &Vec<HashDigest>,
    seg: usize,
    query_count: usize,
) -> (proof_size: usize)
    requires
        encoded@.len() >= COLUMN_SIZE,
        r0@.len() >= COLUMN_SIZE,
        forall|i: int| 0 <= i < COLUMN_SIZE ==> (#[trigger] encoded@[i])@.len() == 2 * seg,
        cc@.len() <= 2 * seg,
        query_count > 0 ==> cc@.len() > 0,
        cc@ == lincomb(rows_view(encoded@), r0@, cc@.len(), COLUMN_SIZE as int),
        is_power_of_two((2 * seg) as nat),
        4 * seg <= usize::MAX,
        is_tree_of(com@, column_digests(encoded@, (2 * seg) as nat)),
        cc_mt@.len() == 4 * seg,
        forall|k: int| 1 <= k < 4 * seg ==> #[trigger] cc_mt@[k] == merkle_node(codeword_leaves(cc@, (2 * seg) as nat), k),
        query_count * 8192 <= usize::MAX,
    ensures
        query_count * 2048 <= proof_size <= query_count * 6144,
{
    let mut visited_com = bools(seg * 4);
    let mut visited_combined_com = bools(seg * 4);
    let mut proof_size: usize = 0;
    let cs0 = cc.len();
    let ghost leaves = column_digests(encoded@, (2 * seg) as nat);
    let ghost leaves2 = codeword_leaves(cc@, (2 * seg) as nat);
    proof {
        vstd::arithmetic::power2::lemma2_to64();
    }
    let mut t: usize = 0;
    while t < query_count
        invariant
            t <= query_count,
            cs0 == cc@.len(),
            encoded@.len() >= COLUMN_SIZE,
            r0@.len() >= COLUMN_SIZE,
            forall|i: int| 0 <= i < COLUMN_SIZE ==> (#[trigger] encoded@[i])@.len() == 2 * seg,
            cc@.len() <= 2 * seg,
            query_count > 0 ==> cc@.len() > 0,
            cc@ == lincomb(rows_view(encoded@), r0@, cc@.len(), COLUMN_SIZE as int),
            is_power_of_two((2 * seg) as nat),
            4 * seg <= usize::MAX,
            is_tree_of(com@, leaves),
            leaves == column_digests(encoded@, (2 * seg) as nat),
            leaves2 == codeword_leaves(cc@, (2 * seg) as nat),
            cc_mt@.len() == 4 * seg,
            forall|k: int| 1 <= k < 4 * seg ==> #[trigger] cc_mt@[k] == merkle_node(leaves2, k),
            query_count * 8192 <= usize::MAX,
            visited_com@.len() == 4 * seg,
            visited_combined_com@.len() == 4 * seg,
            t * 2048 <= proof_size <= t * 6144,
            pow2(64) > usize::MAX,
        decreases query_count - t,
    {
        let q = random_word() % cs0;
        let sum = column_sum(encoded, r0, q);
        proof {
            assert(t * 6144 + 6144 <= query_count * 8192) by (nonlinear_arith)
                requires
                    t < query_count,
            ;
            assert((t + 1) * 2048 == t * 2048 + 2048 && (t + 1) * 6144 == t * 6144 + 6144) by (nonlinear_arith);
            lemma_lincomb_entry(rows_view(encoded@), r0@, cs0 as nat, q as int, COLUMN_SIZE as int);
            assert(sum == cc@[q as int]);
        }
        proof_size = proof_size + 16 * COLUMN_SIZE;
        let ch = column_hash(encoded, q);
        proof {
            assert(ch == leaves[q as int]);
            lemma_verify_claim_complete(leaves, com@, q as int);
            lemma_path_len_bound(q + 2 * seg, 64);
            lemma_visit_path_len(visited_com@, proof_size as int, q + 2 * seg);
        }
        let ghost before1 = proof_size;
        let ok1 = verify_claim(com[1], com.as_slice(), ch, q, seg * 2, visited_com.as_mut_slice(), &mut proof_size);
        assert(ok1);
        assert(before1 <= proof_size <= before1 + 32 * 64);
        let leaf = hash_single_field_element(cc[q]);
        proof {
            assert(leaf == leaves2[q as int]);
            lemma_verify_claim_complete(leaves2, cc_mt@, q as int);
            lemma_visit_path_len(visited_combined_com@, proof_size as int, q + 2 * seg);
        }
        let ghost before2 = proof_size;
        let ok2 = verify_claim(cc_mt[1], cc_mt.as_slice(), leaf, q, seg * 2, visited_combined_com.as_mut_slice(), &mut proof_size);
        assert(ok2);
        assert(before2 <= proof_size <= before2 + 32 * 64);
        assert(sum == cc@[q as int]);
        t += 1;
    }
    proof_size
}

proof fn lemma_pow2_ceil_le(x: int, i: nat)
    ensures
        pow2_ceil_from(x, i) <= pow2(31),
    decreases 32 - i,
{
    if i < 32 {
        if pow2(i) >= x {
            if i < 31 {
                vstd::arithmetic::power2::lemma_pow2_strictly_increases(i, 31);
            }
        } else {
            lemma_pow2_ceil_le(x, i + 1);
        }
    } else {
        vstd::arithmetic::power2::lemma_pow2_pos(31);
    }
}

/// The largest bit length of the layers, which are all at most 31.
fn max_bit_length(circuit: &Vec<Layer>) -> (m: usize)
    requires
        forall|j: int| 0 <= j < circuit@.len() ==> (#[trigger] circuit@[j]).bit_length <= 31,
    ensures
        m <= 31,
        forall|j: int| 0 <= j < circuit@.len() ==> (#[trigger] circuit@[j]).bit_length <= m,
        circuit@.len() > 0 ==> exists|j: int| 0 <= j < circuit@.len() && (#[trigger] circuit@[j]).bit_length == m,
{
    let mut m: usize = 0;
    let mut j: usize = 0;
    while j < circuit.len()
        invariant
            j <= circuit@.len(),
            m <= 31,
            forall|k: int| 0 <= k < circuit@.len() ==> (#[trigger] circuit@[k]).bit_length <= 31,
            forall|k: int| 0 <= k < j ==> (#[trigger] circuit@[k]).bit_length <= m,
            j > 0 ==> exists|k: int| 0 <= k < j && (#[trigger] circuit@[k]).bit_length == m,
        decreases circuit@.len() - j,
    {
        if circuit[j].bit_length > m || j == 0 {
            m = circuit[j].bit_length;
        }
        j += 1;
    }
    m
}

/// What an accepted opening has checked: the verifier's circuit is the one
/// that encodes a row and reads a codeword at the sorted positions `qs`,
/// and on the row combined from `before`'s rows with `r0` it is evaluable and
/// its outputs equal the combined codeword at those positions.
pub open spec fn opening_checked(before: LinearPC, after: LinearPC, r0: Seq<FieldElement>, seg: int, query_count: int) -> bool {
    let row = lincomb(rows_view(before.coef@), r0, seg as nat, COLUMN_SIZE as int);
    let codeword = lincomb(rows_view(before.encoded_codeword@), r0, before.codeword_size@[0] as nat, COLUMN_SIZE as int);
    &&& circuit_evaluable(after.verifier.a_c.circuit@, row, after.verifier.a_c.total_depth as int)
    &&& exists|qs: Seq<usize>|
        qs.len() == query_count && sorted_up(qs) && #[trigger] circuit_built(
            after.verifier.a_c.circuit@,
            before.lce_ctx.c@,
            before.lce_ctx.d@,
            seg,
            seg,
            qs,
        ) && queries_match(circuit_outputs(after.verifier.a_c, row), codeword, qs, query_count)
}

impl LinearPC {
    /// The opening of the commitment `com_mt` at the tensor `r0 ⊗ r1`: the
    /// rows are combined with `r0` into a combined row and a combined
    /// codeword; the combined row must encode to the combined codeword;
    /// `query_count` random columns are checked against the commitments;
    /// the answer is the combined row weighted by `r1`; and the GKR
    /// protocol is run on the circuit that encodes the combined row and
    /// reads the codeword at `query_count` random positions. Returns the
    /// answer and whether the GKR run accepted.
    pub fn tensor_product_protocol(
        &mut self,
        r0: &[FieldElement],
        r1: &[FieldElement],
        n: usize,
        com_mt: Vec<HashDigest>,
        query_count: usize,
    ) -> (r: (FieldElement, bool))
        requires
            r0@.len() * r1@.len() == n,
            r0@.len() >= COLUMN_SIZE,
            r1@.len() >= row_len(n as int),
            committed(*old(self), row_len(n as int), com_mt@),
            query_count > 0 ==> old(self).codeword_size@[0] > 0,
            query_count * 8192 <= usize::MAX,
            circuit_plan_ok(*old(self), row_len(n as int), query_count as int),
        ensures
            r.0 == dot(r1@, lincomb(rows_view(old(self).coef@), r0@, row_len(n as int) as nat, COLUMN_SIZE as int), row_len(n as int)),
            final(self).coef == old(self).coef,
            final(self).encoded_codeword == old(self).encoded_codeword,
            final(self).codeword_size == old(self).codeword_size,
            final(self).mt == old(self).mt,
            final(self).rates == old(self).rates,
            final(self).lce_ctx.c@ == old(self).lce_ctx.c@,
            final(self).lce_ctx.d@ == old(self).lce_ctx.d@,
            encode_ready(final(self).lce_ctx, old(self).rates.alpha@, row_len(n as int)),
            final(self).verifier.a_c.inputs@ == lincomb(rows_view(old(self).coef@), r0@, row_len(n as int) as nat, COLUMN_SIZE as int),
            exists|qs: Seq<usize>|
                qs.len() == query_count && sorted_up(qs) && #[trigger] circuit_built(
                    final(self).verifier.a_c.circuit@,
                    old(self).lce_ctx.c@,
                    old(self).lce_ctx.d@,
                    row_len(n as int),
                    row_len(n as int),
                    qs,
                ),
            r.1 ==> opening_checked(*old(self), *final(self), r0@, row_len(n as int), query_count as int),
    {
        let ghost pc0 = *self;
        let ghost c = self.lce_ctx.c@;
        let ghost d = self.lce_ctx.d@;
        let ghost alpha = self.rates.alpha@;
        let segment = n / COLUMN_SIZE;
        let cs0 = self.codeword_size[0];
        let ghost big = segment + crate::linear_code::code_len(c, d, alpha, alpha[segment as int] as int, 1) + d[0].r;
        proof {
            crate::linear_code::lemma_codeword_len_of(c, d, alpha, self.coef@[0]@);
            assert(cs0 == big);
        }
        // the combined codeword and its tree
        let cc = combine_rows(&self.encoded_codeword, r0, cs0);
        proof {
            crate::linear_code::lemma_lincomb_len(rows_view(self.encoded_codeword@), r0@, cs0 as nat, COLUMN_SIZE as int);
        }
        let cc_hash = codeword_hashes(&cc, 2 * segment);
        let mut cc_mt = zero_digests(segment * 4);
        proof {
            lemma_pow2_is_power_of_two(0);
        }
        create_tree(&mut cc_mt, cc_hash.as_slice(), false);
        // the combined row
        let cm_head = combine_rows(&self.coef, r0, segment);
        proof {
            crate::linear_code::lemma_lincomb_len(rows_view(self.coef@), r0@, segment as nat, COLUMN_SIZE as int);
            assert(segment <= n) by (nonlinear_arith)
                requires
                    segment == n / COLUMN_SIZE,
            ;
        }
        let combined_message = pad_zeros(&cm_head, n);
        let sliced = range_to_vec(combined_message.as_slice(), 0, segment);
        assert(sliced@ =~= cm_head@);
        let test_codeword = self.lce_ctx.encode(sliced.as_slice(), &self.rates);
        proof {
            let xs = Seq::new(COLUMN_SIZE as nat, |i: int| pc0.coef@[i]@);
            lemma_lincomb_congr_rows(rows_view(pc0.coef@), xs, r0@, segment as nat, COLUMN_SIZE as int);
            crate::linear_code::lemma_codeword_lincomb(c, d, alpha, xs, r0@, segment as nat, COLUMN_SIZE as int);
            let cws = Seq::new(xs.len(), |i: int| level_codeword(c, d, alpha, xs[i], 0));
            assert forall|i: int| 0 <= i < COLUMN_SIZE implies (#[trigger] rows_view(pc0.encoded_codeword@)[i]).take(cs0 as int) == cws[i].take(
                cs0 as int,
            ) by {
                crate::linear_code::lemma_codeword_len_of(c, d, alpha, xs[i]);
                assert(rows_view(pc0.encoded_codeword@)[i].take(cs0 as int) =~= cws[i].take(cs0 as int));
            }
            lemma_lincomb_congr_rows(rows_view(pc0.encoded_codeword@), cws, r0@, cs0 as nat, COLUMN_SIZE as int);
            assert(test_codeword@ == cc@);
        }
        // the column checks
        let _proof_size = query_columns(&self.encoded_codeword, r0, &cc, &cc_mt, &com_mt, segment, query_count);
        // the answer
        let answer = dot_exec(r1, &combined_message, segment);
        proof {
            lemma_dot_prefix(r1@, combined_message@, cm_head@, segment as int);
        }
        // the positions the circuit reads
        let mut q: Vec<usize> = Vec::new();
        let mut t: usize = 0;
        while t < query_count
            invariant
                t <= query_count,
                q@.len() == t,
                query_count > 0 ==> cs0 > 0,
            decreases query_count - t,
        {
            q.push(random_word() % cs0);
            t += 1;
        }
        self.generate_circuit(&mut q, segment, combined_message.as_slice());
        let ghost qs = q@;
        proof {
            assert(combined_message@.take(segment as int) == cm_head@);
            let g = self.gates_count@;
            let sizes = layer_sizes(g, query_count as int, segment as int);
            assert forall|j: int| 0 <= j < self.verifier.a_c.circuit@.len() implies (#[trigger] self.verifier.a_c.circuit@[j]).bit_length <= 31 by {
                let len = self.verifier.a_c.circuit@[j].gates@.len();
                assert(gate_lens(self.verifier.a_c.circuit@)(j) == sizes(j));
                vstd::arithmetic::power2::lemma2_to64();
                if j == 0 {
                } else if j < g.len() {
                    lemma_pow2_ceil_le(g[j - 1] as int, 0);
                } else {
                    lemma_pow2_ceil_le(query_count as int, 0);
                }
                let bl = self.verifier.a_c.circuit@[j].bit_length;
                if bl > 31 {
                    vstd::arithmetic::power2::lemma_pow2_strictly_increases(31, bl as nat);
                }
            }
        }
        let max_bl = max_bit_length(&self.verifier.a_c.circuit);
        proof {
            vstd::arithmetic::power2::lemma2_to64();
            if max_bl - max_bl / 2 < 31 {
                vstd::arithmetic::power2::lemma_pow2_strictly_increases((max_bl - max_bl / 2) as nat, 31);
            }
        }
        self.verifier.init_array(max_bl);
        let ghost sl = sliced@;
        let ghost ccv = cc@;
        let verdict = self.verifier.verify(max_bl, sliced, query_count, cc, q);
        proof {
            assert(circuit_built(self.verifier.a_c.circuit@, c, d, segment as int, segment as int, qs));
        }
        let accepted = match verdict {
            Verdict::Accepted { .. } => true,
            _ => false,
        };
        proof {
            if accepted {
                assert(queries_match(circuit_outputs(self.verifier.a_c, sl), ccv, qs, query_count as int));
                assert(opening_checked(pc0, *self, r0@, segment as int, query_count as int));
            }
        }
        (answer, accepted)
    }
}

/// `a^j` built by multiplying by `a` on the right, starting from one.
pub open spec fn pow_seq(a: FieldElement, j: nat) -> FieldElement
    decreases j,
{
    if j == 0 {
        fe_one()
    } else {
        fe_mul(pow_seq(a, (j - 1) as nat), a)
    }
}

/// The first `k` powers of `a`.
pub open spec fn powers(a: FieldElement, k: nat) -> Seq<FieldElement> {
    Seq::new(k, |j: int| pow_seq(a, j as nat))
}

/// The first `k` powers of `a` (at least the first).
fn powers_exec(a: FieldElement, k: usize) -> (v: Vec<FieldElement>)
    ensures
        v@ == powers(a, if k == 0 { 1 } else { k as nat }),
{
    let mut v: Vec<FieldElement> = Vec::new();
    v.push(FieldElement::real_one());
    let mut j: usize = 1;
    while j < k
        invariant
            1 <= j,
            j <= k || k == 0,
            k == 0 ==> j == 1,
            v@ == powers(a, j as nat),
        decreases k - j,
    {
        let last = v[j - 1];
        v.push(last * a);
        j += 1;
        assert(v@ =~= powers(a, j as nat));
    }
    assert(v@ =~= powers(a, if k == 0 { 1 } else { k as nat }));
    v
}

/// Entry `k` of the tensor that `dfs` writes into `len` entries, starting
/// from `val` at coordinate `depth`: the first half takes `1 - r[depth]`,
/// the second half takes `r[depth]`, and both go on one coordinate deeper.
/// For `len = 2^m` this is `val` times the product over `t < m` of
/// `r[depth + t]` or `1 - r[depth + t]` as bit `t` of `k`, counted from the
/// most significant, is one or zero: the tensor product of the pairs
/// `(1 - r[t], r[t])`.
pub open spec fn dfs_val(r: Seq<FieldElement>, len: int, depth: int, val: FieldElement, k: int) -> FieldElement
    decreases len,
{
    if len <= 1 {
        val
    } else if k < len / 2 {
        dfs_val(r, len / 2, depth + 1, fe_mul(val, fe_sub(fe_one(), r[depth])), k)
    } else {
        dfs_val(r, len - len / 2, depth + 1, fe_mul(val, r[depth]), k - len / 2)
    }
}

/// `dfs` over `len` entries reads only coordinates of `r` below `r_len`.
pub open spec fn dfs_reads_ok(r_len: int, len: int, depth: int) -> bool
    decreases len,
{
    len <= 1 || (0 <= depth < r_len && dfs_reads_ok(r_len, len / 2, depth + 1) && dfs_reads_ok(r_len, len - len / 2, depth + 1))
}

/// Writes the tensor of `dfs_val` into entries `start .. start + len` of
/// `dst` (a nonempty range).
fn dfs(dst: &mut Vec<FieldElement>, start: usize, len: usize, r: &[FieldElement], depth: usize, val: FieldElement)
    requires
        1 <= len,
        start + len <= old(dst)@.len(),
        dfs_reads_ok(r@.len() as int, len as int, depth as int),
    ensures
        final(dst)@.len() == old(dst)@.len(),
        forall|k: int| 0 <= k < old(dst)@.len() && !(start <= k < start + len) ==> #[trigger] final(dst)@[k] == old(dst)@[k],
        forall|k: int| start <= k < start + len ==> #[trigger] final(dst)@[k] == dfs_val(r@, len as int, depth as int, val, k - start),
    decreases len,
{
    if len == 1 {
        dst.set(start, val);
    } else {
        let dl = dst.len();
        let half = len / 2;
        let one_minus_r = FieldElement::real_one() - r[depth];
        dfs(dst, start, half, r, depth + 1, val * one_minus_r);
        let ghost mid = dst@;
        dfs(dst, start + half, len - half, r, depth + 1, val * r[depth]);
        proof {
            assert forall|k: int| start <= k < start + len implies #[trigger] dst@[k] == dfs_val(r@, len as int, depth as int, val, k - start) by {
                if k < start + half {
                    assert(dst@[k] == mid[k]);
                }
            }
        }
    }
}

impl LinearPC {
    /// Opens the commitment at `x`: the rows are combined with the powers
    /// of `x^(n / COLUMN_SIZE)` and the combined row is weighted with the
    /// powers of `x` (see `tensor_product_protocol`).
    pub fn open_and_verify(&mut self, x: FieldElement, n: usize, com_mt: Vec<HashDigest>, query_count: usize) -> (r: (FieldElement, bool))
        requires
            n as int % (COLUMN_SIZE as int) == 0,
            n >= COLUMN_SIZE,
            committed(*old(self), row_len(n as int), com_mt@),
            query_count > 0 ==> old(self).codeword_size@[0] > 0,
            query_count * 8192 <= usize::MAX,
            circuit_plan_ok(*old(self), row_len(n as int), query_count as int),
        ensures
            ({
                let seg = row_len(n as int);
                let r0 = powers(fe_pow(x, seg as nat), COLUMN_SIZE as nat);
                &&& r.0 == dot(powers(x, seg as nat), lincomb(rows_view(old(self).coef@), r0, seg as nat, COLUMN_SIZE as int), seg)
                &&& r.1 ==> opening_checked(*old(self), *final(self), r0, seg, query_count as int)
            }),
            final(self).coef == old(self).coef,
            final(self).encoded_codeword == old(self).encoded_codeword,
            final(self).codeword_size == old(self).codeword_size,
            final(self).mt == old(self).mt,
            final(self).rates == old(self).rates,
    {
        let seg = n / COLUMN_SIZE;
        let x_n = x.fast_pow(seg as u128);
        let r0 = powers_exec(x_n, COLUMN_SIZE);
        let r1 = powers_exec(x, seg);
        proof {
            assert(COLUMN_SIZE * seg == n) by (nonlinear_arith)
                requires
                    seg == n / COLUMN_SIZE,
                    n % COLUMN_SIZE == 0,
            ;
            assert(seg >= 1);
        }
        self.tensor_product_protocol(r0.as_slice(), r1.as_slice(), n, com_mt, query_count)
    }

    /// Opens the commitment at the point `r`: the rows are combined with
    /// the tensor that `dfs` builds from `r`, and the combined row is
    /// weighted with the tensor built from `r` past its first seven
    /// coordinates (see `tensor_product_protocol`). By
    /// `lemma_multi_opening_is_extension`, the value is the multilinear
    /// extension at `r` of the committed coefficients.
    pub fn open_and_verify_multi(&mut self, r: &[FieldElement], n: usize, com_mt: Vec<HashDigest>, query_count: usize) -> (res: (
        FieldElement,
        bool,
    ))
        requires
            n as int % (COLUMN_SIZE as int) == 0,
            n >= COLUMN_SIZE,
            r@.len() >= 7,
            dfs_reads_ok(r@.len() as int, COLUMN_SIZE as int, 0),
            dfs_reads_ok(r@.len() - 7, row_len(n as int), 0),
            committed(*old(self), row_len(n as int), com_mt@),
            query_count > 0 ==> old(self).codeword_size@[0] > 0,
            query_count * 8192 <= usize::MAX,
            circuit_plan_ok(*old(self), row_len(n as int), query_count as int),
        ensures
            ({
                let seg = row_len(n as int);
                let r0 = Seq::new(COLUMN_SIZE as nat, |k: int| dfs_val(r@, COLUMN_SIZE as int, 0, fe_one(), k));
                let r1 = Seq::new(seg as nat, |k: int| dfs_val(r@.skip(7), seg, 0, fe_one(), k));
                &&& res.0 == dot(r1, lincomb(rows_view(old(self).coef@), r0, seg as nat, COLUMN_SIZE as int), seg)
                &&& res.1 ==> opening_checked(*old(self), *final(self), r0, seg, query_count as int)
            }),
            final(self).coef == old(self).coef,
            final(self).encoded_codeword == old(self).encoded_codeword,
            final(self).codeword_size == old(self).codeword_size,
            final(self).mt == old(self).mt,
            final(self).rates == old(self).rates,
    {
        let seg = n / COLUMN_SIZE;
        let mut r0 = zero_elements(COLUMN_SIZE);
        let mut r1 = zero_elements(seg);
        let mut log_column_size: usize = 0;
        while two_pow_small(log_column_size) != COLUMN_SIZE
            invariant
                log_column_size <= 7,
            decreases 7 - log_column_size,
        {
            log_column_size += 1;
        }
        proof {
            assert(COLUMN_SIZE * seg == n) by (nonlinear_arith)
                requires
                    seg == n / COLUMN_SIZE,
                    n % COLUMN_SIZE == 0,
            ;
        }
        assert(log_column_size == 7);
        dfs(&mut r0, 0, COLUMN_SIZE, r, 0, FieldElement::real_one());
        let rest = range_to_vec(r, log_column_size, r.len());
        assert(rest@ =~= r@.skip(7));
        dfs(&mut r1, 0, seg, rest.as_slice(), 0, FieldElement::real_one());
        proof {
            assert(r0@ =~= Seq::new(COLUMN_SIZE as nat, |k: int| dfs_val(r@, COLUMN_SIZE as int, 0, fe_one(), k)));
            assert(r1@ =~= Seq::new(seg as nat, |k: int| dfs_val(r@.skip(7), seg as int, 0, fe_one(), k)));
        }
        self.tensor_product_protocol(r0.as_slice(), r1.as_slice(), n, com_mt, query_count)
    }
}

/// `2^k` for `k` up to 7.
fn two_pow_small(k: usize) -> (p: usize)
    requires
        k <= 7,
    ensures
        p == pow2(k as nat),
        p == COLUMN_SIZE <==> k == 7,
{
    proof {
        vstd::arithmetic::power2::lemma2_to64();
    }
    two_pow(k)
}

/// The value at `x` of the polynomial with the first `k` coefficients of
/// `coefs`: the sum of `coefs[i] x^i` over `i < k`, from zero.
pub open spec fn poly_value(coefs: Seq<FieldElement>, x: FieldElement, k: int) -> FieldElement
    decreases k,
{
    if k <= 0 {
        fe_zero()
    } else {
        fe_add(poly_value(coefs, x, k - 1), fe_mul(coefs[k - 1], pow_seq(x, (k - 1) as nat)))
    }
}

/// The sum of `coefs[base + j] x^(base + j)` over `j < t`, from zero.
pub open spec fn poly_block(coefs: Seq<FieldElement>, x: FieldElement, base: int, t: int) -> FieldElement
    decreases t,
{
    if t <= 0 {
        fe_zero()
    } else {
        fe_add(poly_block(coefs, x, base, t - 1), fe_mul(coefs[base + t - 1], pow_seq(x, (base + t - 1) as nat)))
    }
}

proof fn lemma_poly_value_reduced(coefs: Seq<FieldElement>, x: FieldElement, k: int)
    ensures
        poly_value(coefs, x, k).reduced(),
{
    if k > 0 {
        let a = poly_value(coefs, x, k - 1);
        let b = fe_mul(coefs[k - 1], pow_seq(x, (k - 1) as nat));
        lemma_fe_of_reduced(a.real + b.real, a.img + b.img);
    }
}

proof fn lemma_pow_seq_reduced(x: FieldElement, n: nat)
    ensures
        pow_seq(x, n).reduced(),
{
    if n > 0 {
        let a = pow_seq(x, (n - 1) as nat);
        lemma_fe_of_reduced(a.real * x.real - a.img * x.img, a.real * x.img + a.img * x.real);
    }
}

proof fn lemma_poly_split(coefs: Seq<FieldElement>, x: FieldElement, base: int, t: int)
    requires
        0 <= base,
        0 <= t,
    ensures
        poly_value(coefs, x, base + t) == fe_add(poly_value(coefs, x, base), poly_block(coefs, x, base, t)),
    decreases t,
{
    if t == 0 {
        lemma_poly_value_reduced(coefs, x, base);
        lemma_add_zero(poly_value(coefs, x, base));
    } else {
        lemma_poly_split(coefs, x, base, t - 1);
        lemma_add_assoc(
            poly_value(coefs, x, base),
            poly_block(coefs, x, base, t - 1),
            fe_mul(coefs[base + t - 1], pow_seq(x, (base + t - 1) as nat)),
        );
    }
}

proof fn lemma_pow_seq_add(x: FieldElement, a: nat, b: nat)
    ensures
        pow_seq(x, a + b) == fe_mul(pow_seq(x, a), pow_seq(x, b)),
    decreases b,
{
    if b == 0 {
        lemma_pow_seq_reduced(x, a);
        lemma_mul_one(pow_seq(x, a));
    } else {
        lemma_pow_seq_add(x, a, (b - 1) as nat);
        lemma_mul_assoc(pow_seq(x, a), pow_seq(x, (b - 1) as nat), x);
        assert((a + b - 1) as nat == a + (b - 1) as nat);
    }
}

proof fn lemma_pow_seq_mul(x: FieldElement, s: nat, i: nat)
    ensures
        pow_seq(pow_seq(x, s), i) == pow_seq(x, s * i),
    decreases i,
{
    if i == 0 {
        assert(s * i == 0) by (nonlinear_arith)
            requires
                i == 0,
        ;
    } else {
        lemma_pow_seq_mul(x, s, (i - 1) as nat);
        assert(s * i == s * (i - 1) as nat + s) by (nonlinear_arith)
            requires
                i > 0,
        ;
        lemma_pow_seq_add(x, s * (i - 1) as nat, s);
    }
}

proof fn lemma_fe_pow_is_pow_seq(x: FieldElement, n: nat)
    ensures
        fe_pow(x, n) == pow_seq(x, n),
    decreases n,
{
    if n > 0 {
        lemma_fe_pow_is_pow_seq(x, (n - 1) as nat);
        lemma_mul_comm(x, pow_seq(x, (n - 1) as nat));
    }
}

pub(crate) proof fn lemma_dot_vadd(a: Seq<FieldElement>, u: Seq<FieldElement>, v: Seq<FieldElement>, k: int)
    requires
        0 <= k <= u.len(),
        u.len() == v.len(),
    ensures
        dot(a, vadd(u, v), k) == fe_add(dot(a, u, k), dot(a, v, k)),
    decreases k,
{
    if k > 0 {
        lemma_dot_vadd(a, u, v, k - 1);
        lemma_mul_distrib(a[k - 1], u[k - 1], v[k - 1]);
        crate::linear_code::lemma_add_swap4(dot(a, u, k - 1), dot(a, v, k - 1), fe_mul(a[k - 1], u[k - 1]), fe_mul(a[k - 1], v[k - 1]));
    }
}

pub(crate) proof fn lemma_dot_zero(a: Seq<FieldElement>, len: nat, k: int)
    requires
        k <= len,
    ensures
        dot(a, crate::linear_code::zero_vec(len), k) == fe_zero(),
    decreases k,
{
    if k > 0 {
        lemma_dot_zero(a, len, k - 1);
        lemma_mul_zero(a[k - 1]);
    }
}

proof fn lemma_dot_block(
    src: Seq<FieldElement>,
    x: FieldElement,
    s: nat,
    i: nat,
    row: Seq<FieldElement>,
    t: int,
)
    requires
        0 <= t <= s,
        row.len() == s,
        forall|j: int| 0 <= j < s ==> #[trigger] row[j] == src[i * s + j],
    ensures
        dot(powers(x, s), vscale(pow_seq(fe_pow(x, s), i), row), t) == poly_block(src, x, (i * s) as int, t),
    decreases t,
{
    if t > 0 {
        lemma_dot_block(src, x, s, i, row, t - 1);
        let j = t - 1;
        let pj = pow_seq(x, j as nat);
        lemma_fe_pow_is_pow_seq(x, s);
        lemma_pow_seq_mul(x, s, i);
        let rr = pow_seq(x, s * i);
        assert(pow_seq(fe_pow(x, s), i) == rr);
        let v = row[j];
        lemma_mul_assoc(pj, rr, v);
        lemma_mul_comm(fe_mul(pj, rr), v);
        lemma_mul_comm(pj, rr);
        assert(s * i == i * s) by (nonlinear_arith);
        lemma_pow_seq_add(x, s * i, j as nat);
        assert((i * s + j) as nat == s * i + j as nat);
        assert(powers(x, s)[j] == pj);
        assert(vscale(pow_seq(fe_pow(x, s), i), row)[j] == fe_mul(rr, v));
    }
}

/// Opening a commitment gives the evaluation: for rows of `seg` symbols cut
/// from `src` (`COLUMN_SIZE` of them), the rows combined with the powers of
/// `x^seg` and weighted with the powers of `x` give the value at `x` of the
/// polynomial with the coefficients `src`.
pub proof fn lemma_opening_is_evaluation(src: Seq<FieldElement>, rows: Seq<Seq<FieldElement>>, x: FieldElement, seg: nat)
    requires
        src.len() == COLUMN_SIZE * seg,
        rows.len() >= COLUMN_SIZE,
        forall|i: int| 0 <= i < COLUMN_SIZE ==> #[trigger] rows[i] == row_of(src, seg as int, i),
    ensures
        dot(powers(x, seg), lincomb(rows, powers(fe_pow(x, seg), COLUMN_SIZE as nat), seg, COLUMN_SIZE as int), seg as int)
            == poly_value(src, x, src.len() as int),
{
    lemma_opening_rows(src, rows, x, seg, COLUMN_SIZE as int);
    assert(COLUMN_SIZE * seg == src.len());
}

proof fn lemma_opening_rows(src: Seq<FieldElement>, rows: Seq<Seq<FieldElement>>, x: FieldElement, seg: nat, m: int)
    requires
        src.len() == COLUMN_SIZE * seg,
        0 <= m <= COLUMN_SIZE,
        rows.len() >= COLUMN_SIZE,
        forall|i: int| 0 <= i < COLUMN_SIZE ==> #[trigger] rows[i] == row_of(src, seg as int, i),
    ensures
        dot(powers(x, seg), lincomb(rows, powers(fe_pow(x, seg), COLUMN_SIZE as nat), seg, m), seg as int) == poly_value(src, x, m * seg),
    decreases m,
{
    let r0 = powers(fe_pow(x, seg), COLUMN_SIZE as nat);
    let r1 = powers(x, seg);
    if m == 0 {
        lemma_dot_zero(r1, seg, seg as int);
        assert(m * seg == 0) by (nonlinear_arith)
            requires
                m == 0,
        ;
    } else {
        lemma_opening_rows(src, rows, x, seg, m - 1);
        let prev = lincomb(rows, r0, seg, m - 1);
        crate::linear_code::lemma_lincomb_len(rows, r0, seg, m - 1);
        let i = (m - 1) as nat;
        assert((m - 1) * seg + seg <= COLUMN_SIZE * seg) by (nonlinear_arith)
            requires
                m <= COLUMN_SIZE,
        ;
        assert(((m - 1) * seg) as nat == i * seg);
        assert(m * seg == (m - 1) * seg + seg) by (nonlinear_arith);
        assert(0 <= (m - 1) * seg) by (nonlinear_arith)
            requires
                m >= 1,
        ;
        assert(rows[m - 1] == row_of(src, seg as int, m - 1));
        assert(rows[m - 1].len() == seg);
        let row = rows[m - 1].take(seg as int);
        assert(row.len() == seg);
        assert forall|j: int| 0 <= j < seg implies #[trigger] row[j] == src[i * seg + j] by {
            assert(row[j] == rows[m - 1][j]);
        }
        let sc = vscale(r0[m - 1], row);
        lemma_dot_vadd(r1, prev, sc, seg as int);
        assert(r0[m - 1] == pow_seq(fe_pow(x, seg), i));
        lemma_dot_block(src, x, seg, i, row, seg as int);
        lemma_poly_split(src, x, (m - 1) * seg, seg as int);
        assert(m * seg == (m - 1) * seg + seg) by (nonlinear_arith);
    }
}

} // verus!
