//! The linear-time encodable code: a message of `n` symbols is stretched by
//! a chain of sparse random bipartite graphs (expanders). At each level the
//! message is sent through an expander `c` into a shorter message, which is
//! encoded recursively; the result is sent through a second expander `d`;
//! the codeword is the message, the recursive codeword and the output of
//! `d`, one after the other. Messages of at most `DISTANCE_THRESHOLD`
//! symbols are their own codeword.
//!
//! The sizes of the levels come from the rate parameters of the code
//! (`α = 0.238`, `r = 1.72`). They are rational numbers evaluated in floating
//! point; that evaluation is done by the caller, which hands in the sizes as
//! tables (`CodeRates`).
use crate::field::{
    fe_add, fe_mul, fe_zero, lemma_add_assoc, lemma_add_comm, lemma_mul_assoc, lemma_mul_comm, lemma_mul_distrib, lemma_mul_zero,
    FieldElement, RANDOM_BOUND,
};
use vstd::prelude::*;

verus! {

/// Messages of at most this many symbols are not encoded further.
pub const DISTANCE_THRESHOLD: usize = 13;

/// The left degree of the expanders that shrink the message.
pub const CN: usize = 10;

/// The left degree of the expanders that produce the redundancy.
pub const DN: usize = 20;

/// The number of rows of the matrix that the commitment encodes.
pub const COLUMN_SIZE: usize = 128;

/// The number of levels the encoder keeps room for.
pub const MAX_LEVELS: usize = 100;

/// A bipartite graph from `l` left vertices to `r` right vertices, each left
/// vertex with `degree` weighted edges; `r_neighbor` and `r_weight` list,
/// for each right vertex, the left ends and the weights of its edges.
pub struct Graph {
    pub degree: usize,
    pub neighbor: Vec<Vec<usize>>,
    pub r_neighbor: Vec<Vec<usize>>,
    pub weight: Vec<Vec<FieldElement>>,
    pub r_weight: Vec<Vec<FieldElement>>,
    pub l: usize,
    pub r: usize,
}

impl Default for Graph {
    /// The graph with no vertices.
    fn default() -> (g: Graph)
        ensures
            g.degree == 0,
            g.l == 0,
            g.r == 0,
            g.neighbor@.len() == 0,
            g.r_neighbor@.len() == 0,
            g.weight@.len() == 0,
            g.r_weight@.len() == 0,
    {
        Graph {
            degree: 0,
            neighbor: Vec::new(),
            r_neighbor: Vec::new(),
            weight: Vec::new(),
            r_weight: Vec::new(),
            l: 0,
            r: 0,
        }
    }
}

/// The left adjacency of a graph is well formed: `l` rows of `degree` edges,
/// each into a right vertex below `r`, with a weight for each edge.
pub open spec fn graph_wf(g: Graph) -> bool {
    &&& g.neighbor@.len() == g.l
    &&& g.weight@.len() == g.l
    &&& forall|i: int| 0 <= i < g.l ==> (#[trigger] g.neighbor@[i])@.len() == g.degree
    &&& forall|i: int| 0 <= i < g.l ==> (#[trigger] g.weight@[i])@.len() == g.degree
    &&& forall|i: int, k: int| 0 <= i < g.l && 0 <= k < g.degree ==> (#[trigger] g.neighbor@[i]@[k]) < g.r
}

/// The left ends of the first `k` edges of row `i` that end in `t`, in order.
pub open spec fn row_sources(row: Seq<usize>, i: int, t: int, k: int) -> Seq<usize>
    decreases k,
{
    if k <= 0 {
        seq![]
    } else if row[k - 1] == t {
        row_sources(row, i, t, k - 1).push(i as usize)
    } else {
        row_sources(row, i, t, k - 1)
    }
}

/// The weights of the first `k` edges of row `i` that end in `t`, in order.
pub open spec fn row_weights(row: Seq<usize>, w: Seq<FieldElement>, t: int, k: int) -> Seq<FieldElement>
    decreases k,
{
    if k <= 0 {
        seq![]
    } else if row[k - 1] == t {
        row_weights(row, w, t, k - 1).push(w[k - 1])
    } else {
        row_weights(row, w, t, k - 1)
    }
}

/// The left ends of the edges into `t` from the first `rows` left vertices,
/// row by row.
pub open spec fn sources_into(nb: Seq<Vec<usize>>, t: int, rows: int, degree: int) -> Seq<usize>
    decreases rows,
{
    if rows <= 0 {
        seq![]
    } else {
        sources_into(nb, t, rows - 1, degree) + row_sources(nb[rows - 1]@, rows - 1, t, degree)
    }
}

/// The weights of the edges into `t` from the first `rows` left vertices,
/// row by row.
pub open spec fn weights_into(nb: Seq<Vec<usize>>, w: Seq<Vec<FieldElement>>, t: int, rows: int, degree: int) -> Seq<
    FieldElement,
>
    decreases rows,
{
    if rows <= 0 {
        seq![]
    } else {
        weights_into(nb, w, t, rows - 1, degree) + row_weights(nb[rows - 1]@, w[rows - 1]@, t, degree)
    }
}

/// The right adjacency of a graph lists the edges of the left adjacency:
/// for each right vertex, its edges in the order of the left vertices.
pub open spec fn graph_reversed(g: Graph) -> bool {
    &&& g.r_neighbor@.len() == g.r
    &&& g.r_weight@.len() == g.r
    &&& forall|t: int| 0 <= t < g.r ==> (#[trigger] g.r_neighbor@[t])@ == sources_into(g.neighbor@, t, g.l as int, g.degree as int)
    &&& forall|t: int| 0 <= t < g.r ==> (#[trigger] g.r_weight@[t])@ == weights_into(g.neighbor@, g.weight@, t, g.l as int, g.degree as int)
}

/// A draw of `rand::random::<usize>()`: any value of the type.
#[verifier::external_body]
pub(crate) fn random_word() -> (x: usize) {
    rand::random::<usize>()
}

proof fn lemma_row_sources_prefix(a: Seq<usize>, b: Seq<usize>, i: int, t: int, k: int)
    requires
        k <= a.len(),
        k <= b.len(),
        forall|j: int| 0 <= j < k ==> a[j] == b[j],
    ensures
        row_sources(a, i, t, k) == row_sources(b, i, t, k),
    decreases k,
{
    if k > 0 {
        lemma_row_sources_prefix(a, b, i, t, k - 1);
    }
}

proof fn lemma_row_weights_prefix(a: Seq<usize>, wa: Seq<FieldElement>, b: Seq<usize>, wb: Seq<FieldElement>, t: int, k: int)
    requires
        k <= a.len(),
        k <= b.len(),
        k <= wa.len(),
        k <= wb.len(),
        forall|j: int| 0 <= j < k ==> a[j] == b[j] && wa[j] == wb[j],
    ensures
        row_weights(a, wa, t, k) == row_weights(b, wb, t, k),
    decreases k,
{
    if k > 0 {
        lemma_row_weights_prefix(a, wa, b, wb, t, k - 1);
    }
}

proof fn lemma_sources_prefix(a: Seq<Vec<usize>>, b: Seq<Vec<usize>>, t: int, rows: int, degree: int)
    requires
        rows <= a.len(),
        rows <= b.len(),
        forall|j: int| 0 <= j < rows ==> a[j] == b[j],
    ensures
        sources_into(a, t, rows, degree) == sources_into(b, t, rows, degree),
    decreases rows,
{
    if rows > 0 {
        lemma_sources_prefix(a, b, t, rows - 1, degree);
    }
}

proof fn lemma_weights_prefix(
    a: Seq<Vec<usize>>,
    wa: Seq<Vec<FieldElement>>,
    b: Seq<Vec<usize>>,
    wb: Seq<Vec<FieldElement>>,
    t: int,
    rows: int,
    degree: int,
)
    requires
        rows <= a.len(),
        rows <= b.len(),
        rows <= wa.len(),
        rows <= wb.len(),
        forall|j: int| 0 <= j < rows ==> a[j] == b[j] && wa[j] == wb[j],
    ensures
        weights_into(a, wa, t, rows, degree) == weights_into(b, wb, t, rows, degree),
    decreases rows,
{
    if rows > 0 {
        lemma_weights_prefix(a, wa, b, wb, t, rows - 1, degree);
    }
}

/// `r` empty rows.
fn empty_rows<T>(r: usize) -> (v: Vec<Vec<T>>)
    ensures
        v@.len() == r,
        forall|t: int| 0 <= t < r ==> (#[trigger] v@[t])@.len() == 0,
{
    let mut v: Vec<Vec<T>> = Vec::new();
    let mut t: usize = 0;
    while t < r
        invariant
            t <= r,
            v@.len() == t,
            forall|j: int| 0 <= j < t ==> (#[trigger] v@[j])@.len() == 0,
        decreases r - t,
    {
        v.push(Vec::new());
        t += 1;
    }
    v
}

/// A random graph from `l` to `r` vertices: each left vertex gets `degree`
/// edges, each into a right vertex drawn at random and with a random weight
/// (both coordinates below `2^31 - 1`); the right adjacency lists the same
/// edges. The right side must not be empty when there are edges to draw.
pub fn generate_random_expander(l: usize, r: usize, degree: usize) -> (g: Graph)
    requires
        r > 0 || l == 0 || degree == 0,
    ensures
        g.degree == degree,
        g.l == l,
        g.r == r,
        graph_wf(g),
        graph_reversed(g),
        forall|i: int, k: int|
            0 <= i < l && 0 <= k < degree ==> (#[trigger] g.weight@[i]@[k]).real < RANDOM_BOUND
                && g.weight@[i]@[k].img < RANDOM_BOUND,
{
    let mut neighbor: Vec<Vec<usize>> = Vec::new();
    let mut weight: Vec<Vec<FieldElement>> = Vec::new();
    let mut r_neighbor: Vec<Vec<usize>> = empty_rows(r);
    let mut r_weight: Vec<Vec<FieldElement>> = empty_rows(r);
    let mut i: usize = 0;
    while i < l
        invariant
            i <= l,
            r > 0 || l == 0 || degree == 0,
            neighbor@.len() == i,
            weight@.len() == i,
            forall|a: int| 0 <= a < i ==> (#[trigger] neighbor@[a])@.len() == degree,
            forall|a: int| 0 <= a < i ==> (#[trigger] weight@[a])@.len() == degree,
            forall|a: int, k: int| 0 <= a < i && 0 <= k < degree ==> (#[trigger] neighbor@[a]@[k]) < r,
            forall|a: int, k: int|
                0 <= a < i && 0 <= k < degree ==> (#[trigger] weight@[a]@[k]).real < RANDOM_BOUND
                    && weight@[a]@[k].img < RANDOM_BOUND,
            r_neighbor@.len() == r,
            r_weight@.len() == r,
            forall|t: int| 0 <= t < r ==> (#[trigger] r_neighbor@[t])@ == sources_into(neighbor@, t, i as int, degree as int),
            forall|t: int| 0 <= t < r ==> (#[trigger] r_weight@[t])@ == weights_into(neighbor@, weight@, t, i as int, degree as int),
        decreases l - i,
    {
        let mut row: Vec<usize> = Vec::new();
        let mut wrow: Vec<FieldElement> = Vec::new();
        let mut k: usize = 0;
        while k < degree
            invariant
                i < l,
                k <= degree,
                r > 0 || degree == 0,
                neighbor@.len() == i,
                weight@.len() == i,
                row@.len() == k,
                wrow@.len() == k,
                forall|j: int| 0 <= j < k ==> (#[trigger] row@[j]) < r,
                forall|j: int| 0 <= j < k ==> (#[trigger] wrow@[j]).real < RANDOM_BOUND && wrow@[j].img < RANDOM_BOUND,
                r_neighbor@.len() == r,
                r_weight@.len() == r,
                forall|t: int| 0 <= t < r ==> (#[trigger] r_neighbor@[t])@ == sources_into(neighbor@, t, i as int, degree as int)
                    + row_sources(row@, i as int, t, k as int),
                forall|t: int| 0 <= t < r ==> (#[trigger] r_weight@[t])@ == weights_into(neighbor@, weight@, t, i as int, degree as int)
                    + row_weights(row@, wrow@, t, k as int),
            decreases degree - k,
        {
            let target = random_word() % r;
            let w = FieldElement::new_random();
            let ghost old_row = row@;
            let ghost old_wrow = wrow@;
            let ghost old_rn = r_neighbor@;
            let ghost old_rw = r_weight@;
            row.push(target);
            wrow.push(w);
            r_neighbor[target].push(i);
            r_weight[target].push(w);
            proof {
                assert forall|t: int| 0 <= t < r implies (#[trigger] r_neighbor@[t])@ == sources_into(neighbor@, t, i as int, degree as int)
                    + row_sources(row@, i as int, t, k + 1) by {
                    lemma_row_sources_prefix(row@, old_row, i as int, t, k as int);
                    if t == target as int {
                        assert(r_neighbor@[t]@ == old_rn[t]@.push(i));
                    } else {
                        assert(r_neighbor@[t] == old_rn[t]);
                    }
                }
                assert forall|t: int| 0 <= t < r implies (#[trigger] r_weight@[t])@ == weights_into(neighbor@, weight@, t, i as int, degree as int)
                    + row_weights(row@, wrow@, t, k + 1) by {
                    lemma_row_weights_prefix(row@, wrow@, old_row, old_wrow, t, k as int);
                    if t == target as int {
                        assert(r_weight@[t]@ == old_rw[t]@.push(w));
                    } else {
                        assert(r_weight@[t] == old_rw[t]);
                    }
                }
            }
            k += 1;
        }
        let ghost old_nb = neighbor@;
        let ghost old_w = weight@;
        neighbor.push(row);
        weight.push(wrow);
        proof {
            assert forall|t: int| 0 <= t < r implies (#[trigger] r_neighbor@[t])@ == sources_into(neighbor@, t, i + 1, degree as int) by {
                lemma_sources_prefix(neighbor@, old_nb, t, i as int, degree as int);
                assert(neighbor@[i as int] == row);
            }
            assert forall|t: int| 0 <= t < r implies (#[trigger] r_weight@[t])@ == weights_into(neighbor@, weight@, t, i + 1, degree as int) by {
                lemma_weights_prefix(neighbor@, weight@, old_nb, old_w, t, i as int, degree as int);
                assert(neighbor@[i as int] == row);
                assert(weight@[i as int] == wrow);
            }
        }
        i += 1;
    }
    Graph { degree, neighbor, r_neighbor, weight, r_weight, l, r }
}

/// The sizes that the rate parameters give to a level of `n` symbols:
/// `alpha[n]` = ⌊α n⌋ symbols go on to the next level, and the level adds
/// `stretch[n]` = ⌊(r − 1) n⌋ symbols in all to the message.
pub struct CodeRates {
    pub alpha: Vec<usize>,
    pub stretch: Vec<usize>,
}

/// The product of an edge: weight times value, or value times weight.
pub open spec fn edge_term(w: FieldElement, v: FieldElement, weight_first: bool) -> FieldElement {
    if weight_first {
        fe_mul(w, v)
    } else {
        fe_mul(v, w)
    }
}

/// `acc` after the first `k` edges of one left vertex of value `v` have
/// added their products into their right ends (ends outside `acc` are
/// dropped).
pub open spec fn row_add(acc: Seq<FieldElement>, row: Seq<usize>, w: Seq<FieldElement>, v: FieldElement, k: int, weight_first: bool) -> Seq<
    FieldElement,
>
    decreases k,
{
    if k <= 0 {
        acc
    } else {
        let a = row_add(acc, row, w, v, k - 1, weight_first);
        let t = row[k - 1] as int;
        if t < a.len() {
            a.update(t, fe_add(a[t], edge_term(w[k - 1], v, weight_first)))
        } else {
            a
        }
    }
}

/// The values on `len` right vertices after the first `rows` left vertices,
/// of values `x`, have sent their weighted values along their `degree`
/// edges, starting from zeros.
pub open spec fn spread(
    len: nat,
    nb: Seq<Vec<usize>>,
    w: Seq<Vec<FieldElement>>,
    x: Seq<FieldElement>,
    rows: int,
    degree: int,
    weight_first: bool,
) -> Seq<FieldElement>
    decreases rows,
{
    if rows <= 0 {
        Seq::new(len, |j: int| fe_zero())
    } else {
        row_add(spread(len, nb, w, x, rows - 1, degree, weight_first), nb[rows - 1]@, w[rows - 1]@, x[rows - 1], degree, weight_first)
    }
}

/// A message of `x.len()` symbols is encoded further at level `dep`.
pub open spec fn encodes_further(c: Seq<Graph>, d: Seq<Graph>, alpha: Seq<usize>, n: int, dep: int) -> bool {
    &&& n > DISTANCE_THRESHOLD
    &&& 0 <= dep
    &&& dep < c.len()
    &&& dep < d.len()
    &&& n < alpha.len()
}

/// The codeword of `x` at level `dep` of the code given by the expanders
/// `c`, `d` and the sizes `alpha`.
pub open spec fn encoding(c: Seq<Graph>, d: Seq<Graph>, alpha: Seq<usize>, x: Seq<FieldElement>, dep: int) -> Seq<FieldElement>
    decreases c.len() - dep,
{
    if !encodes_further(c, d, alpha, x.len() as int, dep) {
        x
    } else {
        let cg = c[dep];
        let dg = d[dep];
        let y = spread(alpha[x.len() as int] as nat, cg.neighbor@, cg.weight@, x, x.len() as int, cg.degree as int, true);
        let z = encoding(c, d, alpha, y, dep + 1);
        x + z + spread(dg.r as nat, dg.neighbor@, dg.weight@, z, z.len() as int, dg.degree as int, false)
    }
}

/// The codeword of level `dep` taken whatever the length of `x`: the
/// message, the codeword of its image under `c[dep]`, and the image of that
/// under `d[dep]`.
pub open spec fn level_codeword(c: Seq<Graph>, d: Seq<Graph>, alpha: Seq<usize>, x: Seq<FieldElement>, dep: int) -> Seq<FieldElement> {
    let cg = c[dep];
    let dg = d[dep];
    let y = spread(alpha[x.len() as int] as nat, cg.neighbor@, cg.weight@, x, x.len() as int, cg.degree as int, true);
    let z = encoding(c, d, alpha, y, dep + 1);
    x + z + spread(dg.r as nat, dg.neighbor@, dg.weight@, z, z.len() as int, dg.degree as int, false)
}

/// The length of the codeword of a message of `n` symbols at level `dep`.
pub open spec fn code_len(c: Seq<Graph>, d: Seq<Graph>, alpha: Seq<usize>, n: int, dep: int) -> int
    decreases c.len() - dep,
{
    if !encodes_further(c, d, alpha, n, dep) {
        n
    } else {
        n + code_len(c, d, alpha, alpha[n] as int, dep + 1) + d[dep].r
    }
}

/// The expanders of the levels from `dep` on fit a message of `n` symbols:
/// `c[dep]` takes at least `n` left vertices, and `d[dep]` takes exactly
/// the recursive codeword.
pub open spec fn levels_ready(c: Seq<Graph>, d: Seq<Graph>, alpha: Seq<usize>, n: int, dep: int) -> bool
    decreases c.len() - dep,
{
    n <= DISTANCE_THRESHOLD || (encodes_further(c, d, alpha, n, dep) && graph_wf(c[dep]) && (n <= c[dep].l || c[dep].degree
        == 0) && graph_wf(
        d[dep],
    ) && d[dep].l == code_len(c, d, alpha, alpha[n] as int, dep + 1) && levels_ready(c, d, alpha, alpha[n] as int, dep + 1))
}

/// The lengths of a row of work tables, as a function of the level
/// (`0` past the last table).
pub open spec fn lens_of(row: Seq<Vec<FieldElement>>) -> spec_fn(int) -> int {
    |j: int|
        if 0 <= j < row.len() {
            row[j]@.len() as int
        } else {
            0
        }
}

/// Work tables of lengths `len0` (row 0, `rows0` tables) and `len1` (row
/// 1, `rows1` tables) are long enough for a message of `n` symbols at the
/// levels from `dep` on: row 0 holds the level's codeword, row 1 the image
/// under `c[dep]`.
pub open spec fn tables_fit(
    len0: spec_fn(int) -> int,
    rows0: int,
    len1: spec_fn(int) -> int,
    rows1: int,
    c: Seq<Graph>,
    d: Seq<Graph>,
    alpha: Seq<usize>,
    n: int,
    dep: int,
) -> bool
    decreases c.len() - dep,
{
    !encodes_further(c, d, alpha, n, dep) || (dep < rows0 && dep < rows1 && len0(dep) >= code_len(c, d, alpha, n, dep)
        && len1(dep) >= c[dep].r && len1(dep) >= alpha[n] && tables_fit(
        len0,
        rows0,
        len1,
        rows1,
        c,
        d,
        alpha,
        alpha[n] as int,
        dep + 1,
    ))
}

/// `s` with the entries from `at` on replaced by `v`.
pub open spec fn splice<A>(s: Seq<A>, at: int, v: Seq<A>) -> Seq<A> {
    s.take(at) + v + s.skip(at + v.len())
}

/// The work tables have the same shape, and agree except on table `lvl`
/// of row `s`.
pub open spec fn same_but(a: Seq<Vec<Vec<FieldElement>>>, b: Seq<Vec<Vec<FieldElement>>>, s: int, lvl: int) -> bool {
    &&& a.len() == b.len()
    &&& forall|i: int| 0 <= i < a.len() ==> (#[trigger] a[i])@.len() == b[i]@.len()
    &&& forall|i: int, j: int| 0 <= i < a.len() && 0 <= j < a[i]@.len() ==> (#[trigger] a[i]@[j])@.len() == b[i]@[j]@.len()
    &&& forall|i: int, j: int|
        0 <= i < a.len() && 0 <= j < a[i]@.len() && !(i == s && j == lvl) ==> (#[trigger] a[i]@[j])@ == b[i]@[j]@
}

/// Entries `from .. from + len` of table `lvl` of row `s`.
fn load(scratch: &Vec<Vec<Vec<FieldElement>>>, s: usize, lvl: usize, from: usize, len: usize) -> (v: Vec<FieldElement>)
    requires
        s < scratch@.len(),
        lvl < scratch@[s as int]@.len(),
        from + len <= scratch@[s as int]@[lvl as int]@.len(),
    ensures
        v@ == scratch@[s as int]@[lvl as int]@.subrange(from as int, from + len),
{
    let total = scratch[s][lvl].len();
    let mut v: Vec<FieldElement> = Vec::new();
    let mut j: usize = 0;
    while j < len
        invariant
            j <= len,
            total == scratch@[s as int]@[lvl as int]@.len(),
            s < scratch@.len(),
            lvl < scratch@[s as int]@.len(),
            from + len <= scratch@[s as int]@[lvl as int]@.len(),
            v@ == scratch@[s as int]@[lvl as int]@.subrange(from as int, from + j),
        decreases len - j,
    {
        v.push(scratch[s][lvl][from + j]);
        j += 1;
    }
    v
}

/// Writes `src` into table `lvl` of row `s` from entry `at` on.
fn store(scratch: &mut Vec<Vec<Vec<FieldElement>>>, s: usize, lvl: usize, at: usize, src: &Vec<FieldElement>)
    requires
        s < old(scratch)@.len(),
        lvl < old(scratch)@[s as int]@.len(),
        at + src@.len() <= old(scratch)@[s as int]@[lvl as int]@.len(),
    ensures
        same_but(final(scratch)@, old(scratch)@, s as int, lvl as int),
        final(scratch)@[s as int]@[lvl as int]@ == splice(old(scratch)@[s as int]@[lvl as int]@, at as int, src@),
{
    let ghost orig = scratch@;
    let total = scratch[s][lvl].len();
    let mut j: usize = 0;
    while j < src.len()
        invariant
            j <= src@.len(),
            total == orig[s as int]@[lvl as int]@.len(),
            s < orig.len(),
            lvl < orig[s as int]@.len(),
            at + src@.len() <= orig[s as int]@[lvl as int]@.len(),
            same_but(scratch@, orig, s as int, lvl as int),
            scratch@[s as int]@[lvl as int]@ == splice(orig[s as int]@[lvl as int]@, at as int, src@.take(j as int)),
        decreases src@.len() - j,
    {
        let ghost before = scratch@;
        scratch[s][lvl][at + j] = src[j];
        proof {
            assert(scratch@[s as int]@[lvl as int]@ =~= splice(orig[s as int]@[lvl as int]@, at as int, src@.take(j + 1)));
            assert forall|i: int| 0 <= i < scratch@.len() implies (#[trigger] scratch@[i])@.len() == orig[i]@.len() by {
                assert(scratch@[i]@.len() == before[i]@.len());
            }
            assert forall|i: int, k: int| 0 <= i < scratch@.len() && 0 <= k < scratch@[i]@.len() implies (#[trigger] scratch@[i]@[k])@.len() == orig[i]@[k]@.len() by {
                assert(scratch@[i]@[k]@.len() == before[i]@[k]@.len());
            }
            assert forall|i: int, k: int|
                0 <= i < scratch@.len() && 0 <= k < scratch@[i]@.len() && !(i == s && k == lvl) implies (#[trigger] scratch@[i]@[k])@ == orig[i]@[k]@ by {
                assert(scratch@[i]@[k]@ == before[i]@[k]@);
            }
        }
        j += 1;
    }
    assert(src@.take(src@.len() as int) =~= src@);
}

proof fn lemma_row_add_len(acc: Seq<FieldElement>, row: Seq<usize>, w: Seq<FieldElement>, v: FieldElement, k: int, weight_first: bool)
    ensures
        row_add(acc, row, w, v, k, weight_first).len() == acc.len(),
    decreases k,
{
    if k > 0 {
        lemma_row_add_len(acc, row, w, v, k - 1, weight_first);
    }
}

proof fn lemma_spread_len(
    len: nat,
    nb: Seq<Vec<usize>>,
    w: Seq<Vec<FieldElement>>,
    x: Seq<FieldElement>,
    rows: int,
    degree: int,
    weight_first: bool,
)
    ensures
        spread(len, nb, w, x, rows, degree, weight_first).len() == len,
    decreases rows,
{
    if rows > 0 {
        lemma_spread_len(len, nb, w, x, rows - 1, degree, weight_first);
        lemma_row_add_len(spread(len, nb, w, x, rows - 1, degree, weight_first), nb[rows - 1]@, w[rows - 1]@, x[rows - 1], degree, weight_first);
    }
}

proof fn lemma_row_add_take(acc: Seq<FieldElement>, m: int, row: Seq<usize>, w: Seq<FieldElement>, v: FieldElement, k: int, weight_first: bool)
    requires
        0 <= m <= acc.len(),
    ensures
        row_add(acc, row, w, v, k, weight_first).take(m) == row_add(acc.take(m), row, w, v, k, weight_first),
    decreases k,
{
    if k > 0 {
        lemma_row_add_take(acc, m, row, w, v, k - 1, weight_first);
        lemma_row_add_len(acc, row, w, v, k - 1, weight_first);
        lemma_row_add_len(acc.take(m), row, w, v, k - 1, weight_first);
        let a = row_add(acc, row, w, v, k - 1, weight_first);
        let b = row_add(acc.take(m), row, w, v, k - 1, weight_first);
        let t = row[k - 1] as int;
        assert(a.take(m) == b);
        if t < a.len() {
            let a2 = a.update(t, fe_add(a[t], edge_term(w[k - 1], v, weight_first)));
            if t < m {
                assert(a2.take(m) =~= b.update(t, fe_add(b[t], edge_term(w[k - 1], v, weight_first))));
            } else {
                assert(a2.take(m) =~= b);
            }
        }
    }
}

/// Counting only the first `m` right vertices gives the first `m` values.
proof fn lemma_spread_take(
    len: nat,
    m: nat,
    nb: Seq<Vec<usize>>,
    w: Seq<Vec<FieldElement>>,
    x: Seq<FieldElement>,
    rows: int,
    degree: int,
    weight_first: bool,
)
    requires
        m <= len,
    ensures
        spread(len, nb, w, x, rows, degree, weight_first).take(m as int) == spread(m, nb, w, x, rows, degree, weight_first),
    decreases rows,
{
    if rows <= 0 {
        assert(spread(len, nb, w, x, rows, degree, weight_first).take(m as int) =~= spread(m, nb, w, x, rows, degree, weight_first));
    } else {
        lemma_spread_take(len, m, nb, w, x, rows - 1, degree, weight_first);
        lemma_spread_len(len, nb, w, x, rows - 1, degree, weight_first);
        lemma_row_add_take(spread(len, nb, w, x, rows - 1, degree, weight_first), m as int, nb[rows - 1]@, w[rows - 1]@, x[rows - 1], degree, weight_first);
    }
}

/// `len` zeros.
fn zeros(len: usize) -> (v: Vec<FieldElement>)
    ensures
        v@ == Seq::new(len as nat, |j: int| fe_zero()),
{
    let mut v: Vec<FieldElement> = Vec::new();
    let mut j: usize = 0;
    while j < len
        invariant
            j <= len,
            v@ == Seq::new(j as nat, |i: int| fe_zero()),
        decreases len - j,
    {
        v.push(FieldElement::zero());
        j += 1;
        assert(v@ =~= Seq::new(j as nat, |i: int| fe_zero()));
    }
    v
}

/// The values on `len` right vertices when the left vertices of `g`, of
/// values `x`, send their weighted values along their edges.
fn spread_exec(len: usize, g: &Graph, x: &Vec<FieldElement>, weight_first: bool) -> (out: Vec<FieldElement>)
    requires
        graph_wf(*g),
        x@.len() <= g.l || g.degree == 0,
        g.r <= len,
    ensures
        out@ == spread(len as nat, g.neighbor@, g.weight@, x@, x@.len() as int, g.degree as int, weight_first),
{
    let mut out = zeros(len);
    let mut i: usize = 0;
    while i < x.len()
        invariant
            i <= x@.len(),
            x@.len() <= g.l || g.degree == 0,
            graph_wf(*g),
            g.r <= len,
            out@ == spread(len as nat, g.neighbor@, g.weight@, x@, i as int, g.degree as int, weight_first),
        decreases x@.len() - i,
    {
        let v = x[i];
        let mut k: usize = 0;
        proof {
            lemma_spread_len(len as nat, g.neighbor@, g.weight@, x@, i as int, g.degree as int, weight_first);
        }
        while k < g.degree
            invariant
                i < x@.len(),
                x@.len() <= g.l || g.degree == 0,
                graph_wf(*g),
                g.r <= len,
                k <= g.degree,
                v == x@[i as int],
                out@ == row_add(
                    spread(len as nat, g.neighbor@, g.weight@, x@, i as int, g.degree as int, weight_first),
                    g.neighbor@[i as int]@,
                    g.weight@[i as int]@,
                    v,
                    k as int,
                    weight_first,
                ),
                out@.len() == len,
            decreases g.degree - k,
        {
            let t = g.neighbor[i][k];
            let wt = g.weight[i][k];
            let term = if weight_first {
                wt * v
            } else {
                v * wt
            };
            assert(t < g.r);
            let cur = out[t];
            out.set(t, cur + term);
            k += 1;
            proof {
                lemma_row_add_len(
                    spread(len as nat, g.neighbor@, g.weight@, x@, i as int, g.degree as int, weight_first),
                    g.neighbor@[i as int]@,
                    g.weight@[i as int]@,
                    v,
                    k as int,
                    weight_first,
                );
            }
        }
        i += 1;
    }
    out
}

/// Two sets of work tables have the same shape.
pub open spec fn same_shape(a: Seq<Vec<Vec<FieldElement>>>, b: Seq<Vec<Vec<FieldElement>>>) -> bool {
    &&& a.len() == b.len()
    &&& forall|i: int| 0 <= i < a.len() ==> (#[trigger] a[i])@.len() == b[i]@.len()
    &&& forall|i: int, j: int| 0 <= i < a.len() && 0 <= j < a[i]@.len() ==> (#[trigger] a[i]@[j])@.len() == b[i]@[j]@.len()
}

/// Two sets of work tables agree on the tables of the levels below `lvl`.
pub open spec fn same_below(a: Seq<Vec<Vec<FieldElement>>>, b: Seq<Vec<Vec<FieldElement>>>, lvl: int) -> bool {
    forall|i: int, j: int| 0 <= i < a.len() && 0 <= j < a[i]@.len() && j < lvl ==> (#[trigger] a[i]@[j])@ == b[i]@[j]@
}

proof fn lemma_encoding_len(c: Seq<Graph>, d: Seq<Graph>, alpha: Seq<usize>, x: Seq<FieldElement>, dep: int)
    ensures
        encoding(c, d, alpha, x, dep).len() == code_len(c, d, alpha, x.len() as int, dep),
    decreases c.len() - dep,
{
    if encodes_further(c, d, alpha, x.len() as int, dep) {
        let cg = c[dep];
        let dg = d[dep];
        let y = spread(alpha[x.len() as int] as nat, cg.neighbor@, cg.weight@, x, x.len() as int, cg.degree as int, true);
        lemma_spread_len(alpha[x.len() as int] as nat, cg.neighbor@, cg.weight@, x, x.len() as int, cg.degree as int, true);
        lemma_encoding_len(c, d, alpha, y, dep + 1);
        let z = encoding(c, d, alpha, y, dep + 1);
        lemma_spread_len(dg.r as nat, dg.neighbor@, dg.weight@, z, z.len() as int, dg.degree as int, false);
    }
}

proof fn lemma_lens_of_shape(a: Seq<Vec<Vec<FieldElement>>>, b: Seq<Vec<Vec<FieldElement>>>, i: int)
    requires
        same_shape(a, b),
        0 <= i < a.len(),
    ensures
        lens_of(a[i]@) == lens_of(b[i]@),
        a[i]@.len() == b[i]@.len(),
{
    assert(lens_of(a[i]@) =~= lens_of(b[i]@));
}

/// Encodes the first `n` entries of table `dep - 1` of row 1 at level `dep`
/// and writes the codeword into table `dep - 1` of row 0 from entry `pre_n`
/// on; returns its length. The tables of the levels from `dep` on serve as
/// work space.
fn level_encode(
    c: &Vec<Graph>,
    d: &Vec<Graph>,
    alpha: &Vec<usize>,
    scratch: &mut Vec<Vec<Vec<FieldElement>>>,
    n: usize,
    pre_n: usize,
    dep: usize,
) -> (len: usize)
    requires
        1 <= dep,
        old(scratch)@.len() == 2,
        dep - 1 < old(scratch)@[0]@.len(),
        dep - 1 < old(scratch)@[1]@.len(),
        n <= old(scratch)@[1]@[dep - 1]@.len(),
        pre_n + code_len(c@, d@, alpha@, n as int, dep as int) <= old(scratch)@[0]@[dep - 1]@.len(),
        levels_ready(c@, d@, alpha@, n as int, dep as int),
        tables_fit(
            lens_of(old(scratch)@[0]@),
            old(scratch)@[0]@.len() as int,
            lens_of(old(scratch)@[1]@),
            old(scratch)@[1]@.len() as int,
            c@,
            d@,
            alpha@,
            n as int,
            dep as int,
        ),
    ensures
        len == code_len(c@, d@, alpha@, n as int, dep as int),
        same_shape(final(scratch)@, old(scratch)@),
        same_below(final(scratch)@, old(scratch)@, dep - 1),
        final(scratch)@[1]@[dep - 1]@ == old(scratch)@[1]@[dep - 1]@,
        final(scratch)@[0]@[dep - 1]@ == splice(
            old(scratch)@[0]@[dep - 1]@,
            pre_n as int,
            encoding(c@, d@, alpha@, old(scratch)@[1]@[dep - 1]@.take(n as int), dep as int),
        ),
    decreases c@.len() - dep,
{
    let ghost orig = scratch@;
    let x = load(scratch, 1, dep - 1, 0, n);
    assert(x@ =~= orig[1]@[dep - 1]@.take(n as int));
    if n <= DISTANCE_THRESHOLD {
        store(scratch, 0, dep - 1, pre_n, &x);
        return n;
    }
    let clen = c.len();
    assert(dep < clen);
    store(scratch, 0, dep, 0, &x);
    let ghost s1 = scratch@;
    let blen = scratch[1][dep].len();
    let y_full = spread_exec(blen, &c[dep], &x, true);
    proof {
        lemma_spread_len(blen as nat, c@[dep as int].neighbor@, c@[dep as int].weight@, x@, x@.len() as int, c@[dep as int].degree as int, true);
    }
    store(scratch, 1, dep, 0, &y_full);
    let ghost s2 = scratch@;
    assert(s2[1]@[dep as int]@ =~= y_full@);
    let r = alpha[n];
    proof {
        assert(same_shape(s2, orig));
        lemma_lens_of_shape(s2, orig, 0);
        lemma_lens_of_shape(s2, orig, 1);
    }
    let l = level_encode(c, d, alpha, scratch, r, n, dep + 1);
    let ghost s3 = scratch@;
    let ghost y = spread(r as nat, c@[dep as int].neighbor@, c@[dep as int].weight@, x@, x@.len() as int, c@[dep as int].degree as int, true);
    let ghost z = encoding(c@, d@, alpha@, y, dep + 1);
    proof {
        lemma_spread_take(blen as nat, r as nat, c@[dep as int].neighbor@, c@[dep as int].weight@, x@, x@.len() as int, c@[dep as int].degree as int, true);
        assert(s2[1]@[dep as int]@.take(r as int) == y);
        lemma_spread_len(r as nat, c@[dep as int].neighbor@, c@[dep as int].weight@, x@, x@.len() as int, c@[dep as int].degree as int, true);
        lemma_encoding_len(c@, d@, alpha@, y, dep + 1);
        assert(z.len() == l);
    }
    let rr = d[dep].r;
    let total0 = scratch[0][dep].len();
    assert(n + l + rr <= total0);
    let zv = load(scratch, 0, dep, n, l);
    assert(zv@ =~= z);
    let w = spread_exec(rr, &d[dep], &zv, false);
    proof {
        lemma_spread_len(rr as nat, d@[dep as int].neighbor@, d@[dep as int].weight@, zv@, zv@.len() as int, d@[dep as int].degree as int, false);
    }
    store(scratch, 0, dep, n + l, &w);
    let ghost s4 = scratch@;
    let full = load(scratch, 0, dep, 0, n + l + rr);
    proof {
        assert(full@ =~= x@ + z + w@);
        assert(encoding(c@, d@, alpha@, x@, dep as int) == x@ + z + w@);
    }
    store(scratch, 0, dep - 1, pre_n, &full);
    proof {
        assert(same_below(scratch@, orig, dep - 1)) by {
            assert forall|i: int, j: int| 0 <= i < scratch@.len() && 0 <= j < scratch@[i]@.len() && j < dep - 1 implies (#[trigger] scratch@[i]@[j])@ == orig[i]@[j]@ by {
                assert(s1[i]@[j]@ == orig[i]@[j]@);
                assert(s2[i]@[j]@ == s1[i]@[j]@);
                assert(s3[i]@[j]@ == s2[i]@[j]@);
                assert(s4[i]@[j]@ == s3[i]@[j]@);
            }
        }
        assert(s3[1]@[dep - 1]@ == s2[1]@[dep - 1]@);
        assert(s3[0]@[dep - 1]@ == s2[0]@[dep - 1]@);
    }
    n + l + rr
}

/// `n` halved `i` times (rounding down).
pub open spec fn halved(n: int, i: nat) -> int
    decreases i,
{
    if i == 0 {
        n
    } else {
        halved(n, (i - 1) as nat) / 2
    }
}

proof fn lemma_halved_mono(n: int, i: nat, j: nat)
    requires
        0 <= n,
        i <= j,
    ensures
        0 <= halved(n, j) <= halved(n, i),
    decreases j,
{
    if j > i {
        lemma_halved_mono(n, i, (j - 1) as nat);
    } else if j > 0 {
        lemma_halved_mono(n, (j - 1) as nat, (j - 1) as nat);
    }
}

/// The lengths of a row of work tables after the first encoding of a
/// message of `n` symbols: table `j` gets `2n` halved `j` times entries
/// while `n` halved `j` times exceeds one.
pub open spec fn fresh_lens(lens: spec_fn(int) -> int, n: int) -> spec_fn(int) -> int {
    |j: int|
        if j >= 0 && halved(n, j as nat) > 1 {
            halved(2 * n, j as nat)
        } else {
            lens(j)
        }
}

/// The lengths of a row of work tables when `encode` starts its work.
pub open spec fn lens_at_start(row: Seq<Vec<FieldElement>>, initialized: bool, n: int) -> spec_fn(int) -> int {
    if initialized {
        lens_of(row)
    } else {
        fresh_lens(lens_of(row), n)
    }
}

/// The expanders of level 0 and of the levels below it fit a message of
/// `n` symbols (level 0 is applied whatever `n` is).
pub open spec fn top_ready(c: Seq<Graph>, d: Seq<Graph>, alpha: Seq<usize>, n: int) -> bool {
    &&& 0 < c.len()
    &&& 0 < d.len()
    &&& n < alpha.len()
    &&& graph_wf(c[0])
    &&& n <= c[0].l || c[0].degree == 0
    &&& graph_wf(d[0])
    &&& d[0].l == code_len(c, d, alpha, alpha[n] as int, 1)
    &&& levels_ready(c, d, alpha, alpha[n] as int, 1)
}

/// Work tables of lengths `len0` and `len1` are long enough for a message
/// of `n` symbols from level 0 on.
pub open spec fn top_fit(
    len0: spec_fn(int) -> int,
    rows0: int,
    len1: spec_fn(int) -> int,
    rows1: int,
    c: Seq<Graph>,
    d: Seq<Graph>,
    alpha: Seq<usize>,
    n: int,
) -> bool {
    &&& 0 < rows0
    &&& 0 < rows1
    &&& len0(0) >= n + code_len(c, d, alpha, alpha[n] as int, 1) + d[0].r
    &&& len1(0) >= c[0].r
    &&& len1(0) >= alpha[n]
    &&& tables_fit(len0, rows0, len1, rows1, c, d, alpha, alpha[n] as int, 1)
}

/// The encoder: the expanders of each level, and work tables (row 0 for
/// the codewords of the levels, row 1 for the images under `c`).
pub struct LinearCodeEncodeContext {
    pub scratch: Vec<Vec<Vec<FieldElement>>>,
    pub c: Vec<Graph>,
    pub d: Vec<Graph>,
    pub encode_initialized: bool,
}

impl Default for LinearCodeEncodeContext {
    /// An encoder with no levels and no work tables.
    fn default() -> (ctx: LinearCodeEncodeContext)
        ensures
            ctx.scratch@.len() == 0,
            ctx.c@.len() == 0,
            ctx.d@.len() == 0,
            !ctx.encode_initialized,
    {
        LinearCodeEncodeContext { scratch: Vec::new(), c: Vec::new(), d: Vec::new(), encode_initialized: false }
    }
}

/// `count` graphs with no vertices.
fn empty_graphs(count: usize) -> (v: Vec<Graph>)
    ensures
        v@.len() == count,
        forall|j: int| 0 <= j < count ==> (#[trigger] v@[j]).l == 0 && v@[j].r == 0 && v@[j].degree == 0 && graph_wf(v@[j]),
{
    let mut v: Vec<Graph> = Vec::new();
    let mut j: usize = 0;
    while j < count
        invariant
            j <= count,
            v@.len() == j,
            forall|k: int| 0 <= k < j ==> (#[trigger] v@[k]).l == 0 && v@[k].r == 0 && v@[k].degree == 0 && graph_wf(v@[k]),
        decreases count - j,
    {
        v.push(Graph::default());
        j += 1;
    }
    v
}

impl LinearCodeEncodeContext {
    /// An encoder with room for `MAX_LEVELS` levels: empty expanders and two
    /// rows of `MAX_LEVELS` empty work tables.
    pub fn init() -> (ctx: Self)
        ensures
            ctx.scratch@.len() == 2,
            forall|i: int| 0 <= i < 2 ==> (#[trigger] ctx.scratch@[i])@.len() == MAX_LEVELS,
            forall|i: int, j: int| 0 <= i < 2 && 0 <= j < MAX_LEVELS ==> (#[trigger] ctx.scratch@[i]@[j])@.len() == 0,
            ctx.c@.len() == MAX_LEVELS,
            ctx.d@.len() == MAX_LEVELS,
            forall|j: int| 0 <= j < MAX_LEVELS ==> (#[trigger] ctx.c@[j]).l == 0 && ctx.c@[j].r == 0 && ctx.c@[j].degree == 0
                && graph_wf(ctx.c@[j]),
            forall|j: int| 0 <= j < MAX_LEVELS ==> (#[trigger] ctx.d@[j]).l == 0 && ctx.d@[j].r == 0 && ctx.d@[j].degree == 0
                && graph_wf(ctx.d@[j]),
            !ctx.encode_initialized,
    {
        let mut scratch: Vec<Vec<Vec<FieldElement>>> = Vec::new();
        scratch.push(empty_rows(MAX_LEVELS));
        scratch.push(empty_rows(MAX_LEVELS));
        let c = empty_graphs(MAX_LEVELS);
        let d = empty_graphs(MAX_LEVELS);
        LinearCodeEncodeContext { scratch, c, d, encode_initialized: false }
    }

    /// Encodes the first `n` entries of table `dep - 1` of row 1 at level
    /// `dep`, writes the codeword into table `dep - 1` of row 0 from entry
    /// `pre_n` on and returns its length; the tables of the levels from
    /// `dep` on serve as work space.
    pub fn encode_scratch(&mut self, n: usize, pre_n: usize, dep: usize, rates: &CodeRates) -> (len: usize)
        requires
            1 <= dep,
            old(self).scratch@.len() == 2,
            dep - 1 < old(self).scratch@[0]@.len(),
            dep - 1 < old(self).scratch@[1]@.len(),
            n <= old(self).scratch@[1]@[dep - 1]@.len(),
            pre_n + code_len(old(self).c@, old(self).d@, rates.alpha@, n as int, dep as int) <= old(self).scratch@[0]@[dep
                - 1]@.len(),
            levels_ready(old(self).c@, old(self).d@, rates.alpha@, n as int, dep as int),
            tables_fit(
                lens_of(old(self).scratch@[0]@),
                old(self).scratch@[0]@.len() as int,
                lens_of(old(self).scratch@[1]@),
                old(self).scratch@[1]@.len() as int,
                old(self).c@,
                old(self).d@,
                rates.alpha@,
                n as int,
                dep as int,
            ),
        ensures
            len == code_len(old(self).c@, old(self).d@, rates.alpha@, n as int, dep as int),
            final(self).c == old(self).c,
            final(self).d == old(self).d,
            final(self).encode_initialized == old(self).encode_initialized,
            same_shape(final(self).scratch@, old(self).scratch@),
            same_below(final(self).scratch@, old(self).scratch@, dep - 1),
            final(self).scratch@[1]@[dep - 1]@ == old(self).scratch@[1]@[dep - 1]@,
            final(self).scratch@[0]@[dep - 1]@ == splice(
                old(self).scratch@[0]@[dep - 1]@,
                pre_n as int,
                encoding(old(self).c@, old(self).d@, rates.alpha@, old(self).scratch@[1]@[dep - 1]@.take(n as int), dep as int),
            ),
    {
        level_encode(&self.c, &self.d, &rates.alpha, &mut self.scratch, n, pre_n, dep)
    }
}

/// Gives the tables of each row their first lengths for a message of `n`
/// symbols: table `j` gets `2n` halved `j` times zeros while `n` halved `j`
/// times exceeds one.
fn allocate_tables(scratch: &mut Vec<Vec<Vec<FieldElement>>>, n: usize)
    requires
        old(scratch)@.len() == 2,
        2 * n <= usize::MAX,
        forall|j: nat| #[trigger] halved(n as int, j) > 1 ==> j < old(scratch)@[0]@.len() && j < old(scratch)@[1]@.len(),
    ensures
        final(scratch)@.len() == 2,
        final(scratch)@[0]@.len() == old(scratch)@[0]@.len(),
        final(scratch)@[1]@.len() == old(scratch)@[1]@.len(),
        lens_of(final(scratch)@[0]@) == fresh_lens(lens_of(old(scratch)@[0]@), n as int),
        lens_of(final(scratch)@[1]@) == fresh_lens(lens_of(old(scratch)@[1]@), n as int),
{
    let ghost orig = scratch@;
    let rows = scratch[0].len();
    let mut i: usize = 0;
    let mut m: usize = n;
    let mut size: usize = 2 * n;
    while m > 1
        invariant
            scratch@.len() == 2,
            orig.len() == 2,
            rows == orig[0]@.len(),
            scratch@[0]@.len() == orig[0]@.len(),
            scratch@[1]@.len() == orig[1]@.len(),
            m == halved(n as int, i as nat),
            size == halved(2 * n as int, i as nat),
            forall|j: nat| #[trigger] halved(n as int, j) > 1 ==> j < orig[0]@.len() && j < orig[1]@.len(),
            forall|j: int| 0 <= j < i ==> #[trigger] halved(n as int, j as nat) > 1,
            forall|s: int, j: int|
                0 <= s < 2 && 0 <= j < scratch@[s]@.len() ==> (#[trigger] scratch@[s]@[j])@.len() == if j < i {
                    halved(2 * n as int, j as nat)
                } else {
                    orig[s]@[j]@.len() as int
                },
        decreases m,
    {
        assert(halved(n as int, i as nat) > 1);
        assert(i < orig[0]@.len() && i < orig[1]@.len());
        let ghost before = scratch@;
        scratch[0][i] = zeros(size);
        scratch[1][i] = zeros(size);
        proof {
            assert forall|s: int, j: int| 0 <= s < 2 && 0 <= j < scratch@[s]@.len() implies (#[trigger] scratch@[s]@[j])@.len() == if j
                < i + 1 {
                halved(2 * n as int, j as nat)
            } else {
                orig[s]@[j]@.len() as int
            } by {
                if j != i {
                    assert(scratch@[s]@[j] == before[s]@[j]);
                }
            }
        }
        i += 1;
        m = m / 2;
        size = size / 2;
    }
    proof {
        assert forall|j: int| #![trigger halved(n as int, j as nat)] 0 <= j < i implies halved(n as int, j as nat) > 1 by {}
        assert forall|j: int| i <= j implies #[trigger] halved(n as int, j as nat) <= 1 by {
            lemma_halved_mono(n as int, i as nat, j as nat);
        }
        assert(lens_of(scratch@[0]@) =~= fresh_lens(lens_of(orig[0]@), n as int));
        assert(lens_of(scratch@[1]@) =~= fresh_lens(lens_of(orig[1]@), n as int));
    }
}

/// The entries of `src`, in a vector.
fn to_vec(src: &[FieldElement]) -> (v: Vec<FieldElement>)
    ensures
        v@ == src@,
{
    let mut v: Vec<FieldElement> = Vec::new();
    let mut i: usize = 0;
    while i < src.len()
        invariant
            i <= src@.len(),
            v@ == src@.take(i as int),
        decreases src@.len() - i,
    {
        v.push(src[i]);
        i += 1;
        assert(v@ =~= src@.take(i as int));
    }
    assert(src@.take(src@.len() as int) =~= src@);
    v
}

/// `encode` may take a message of `n` symbols: level 0 and the levels below
/// fit it, and so do the work tables (with the lengths that the first
/// encoding gives them).
pub open spec fn encode_ready(ctx: LinearCodeEncodeContext, alpha: Seq<usize>, n: int) -> bool {
    &&& ctx.scratch@.len() == 2
    &&& !ctx.encode_initialized ==> 2 * n <= usize::MAX
    &&& !ctx.encode_initialized ==> forall|j: nat|
        #[trigger] halved(n, j) > 1 ==> j < ctx.scratch@[0]@.len() && j < ctx.scratch@[1]@.len()
    &&& top_ready(ctx.c@, ctx.d@, alpha, n)
    &&& top_fit(
        lens_at_start(ctx.scratch@[0]@, ctx.encode_initialized, n),
        ctx.scratch@[0]@.len() as int,
        lens_at_start(ctx.scratch@[1]@, ctx.encode_initialized, n),
        ctx.scratch@[1]@.len() as int,
        ctx.c@,
        ctx.d@,
        alpha,
        n,
    )
}

impl LinearCodeEncodeContext {
    /// The codeword of `src`: level 0 is applied to it whatever its length,
    /// the image of `src` under `c[0]` (of `alpha[n]` symbols) is encoded
    /// from level 1 on, and the result is sent through `d[0]`. The first
    /// call gives the work tables their lengths for this message length.
    pub fn encode(&mut self, src: &[FieldElement], rates: &CodeRates) -> (out: Vec<FieldElement>)
        requires
            encode_ready(*old(self), rates.alpha@, src@.len() as int),
        ensures
            out@ == level_codeword(old(self).c@, old(self).d@, rates.alpha@, src@, 0),
            final(self).c == old(self).c,
            final(self).d == old(self).d,
            final(self).encode_initialized,
            final(self).scratch@.len() == 2,
            final(self).scratch@[0]@.len() == old(self).scratch@[0]@.len(),
            final(self).scratch@[1]@.len() == old(self).scratch@[1]@.len(),
            lens_of(final(self).scratch@[0]@) == lens_at_start(old(self).scratch@[0]@, old(self).encode_initialized, src@.len() as int),
            lens_of(final(self).scratch@[1]@) == lens_at_start(old(self).scratch@[1]@, old(self).encode_initialized, src@.len() as int),
            encode_ready(*final(self), rates.alpha@, src@.len() as int),
    {
        let n = src.len();
        let ghost start0 = lens_at_start(self.scratch@[0]@, self.encode_initialized, n as int);
        let ghost start1 = lens_at_start(self.scratch@[1]@, self.encode_initialized, n as int);
        if !self.encode_initialized {
            self.encode_initialized = true;
            allocate_tables(&mut self.scratch, n);
        }
        let ghost s0 = self.scratch@;
        assert(lens_of(s0[0]@) == start0);
        assert(lens_of(s0[1]@) == start1);
        let x = to_vec(src);
        store(&mut self.scratch, 0, 0, 0, &x);
        let ghost s1 = self.scratch@;
        let blen = self.scratch[1][0].len();
        let y_full = spread_exec(blen, &self.c[0], &x, true);
        proof {
            lemma_spread_len(blen as nat, self.c@[0].neighbor@, self.c@[0].weight@, x@, x@.len() as int, self.c@[0].degree as int, true);
        }
        store(&mut self.scratch, 1, 0, 0, &y_full);
        let ghost s2 = self.scratch@;
        assert(s2[1]@[0]@ =~= y_full@);
        let r = rates.alpha[n];
        proof {
            assert(same_shape(s2, s0));
            lemma_lens_of_shape(s2, s0, 0);
            lemma_lens_of_shape(s2, s0, 1);
        }
        let l = level_encode(&self.c, &self.d, &rates.alpha, &mut self.scratch, r, n, 1);
        let ghost s3 = self.scratch@;
        let ghost y = spread(r as nat, self.c@[0].neighbor@, self.c@[0].weight@, x@, x@.len() as int, self.c@[0].degree as int, true);
        let ghost z = encoding(self.c@, self.d@, rates.alpha@, y, 1);
        proof {
            lemma_spread_take(blen as nat, r as nat, self.c@[0].neighbor@, self.c@[0].weight@, x@, x@.len() as int, self.c@[0].degree as int, true);
            assert(s2[1]@[0]@.take(r as int) == y);
            lemma_spread_len(r as nat, self.c@[0].neighbor@, self.c@[0].weight@, x@, x@.len() as int, self.c@[0].degree as int, true);
            lemma_encoding_len(self.c@, self.d@, rates.alpha@, y, 1);
            assert(z.len() == l);
        }
        let rr = self.d[0].r;
        let total0 = self.scratch[0][0].len();
        assert(n + l + rr <= total0);
        let zv = load(&self.scratch, 0, 0, n, l);
        assert(zv@ =~= z);
        let w = spread_exec(rr, &self.d[0], &zv, false);
        proof {
            lemma_spread_len(rr as nat, self.d@[0].neighbor@, self.d@[0].weight@, zv@, zv@.len() as int, self.d@[0].degree as int, false);
        }
        store(&mut self.scratch, 0, 0, n + l, &w);
        let out = load(&self.scratch, 0, 0, 0, n + l + rr);
        proof {
            assert(out@ =~= x@ + z + w@);
            assert(same_shape(self.scratch@, s0));
            lemma_lens_of_shape(self.scratch@, s0, 0);
            lemma_lens_of_shape(self.scratch@, s0, 1);
        }
        out
    }
}

/// `a - b`, or `0` when `b` exceeds `a`.
pub open spec fn sat_sub(a: int, b: int) -> int {
    if a >= b {
        a - b
    } else {
        0
    }
}

/// The length of the codeword of a message of `n` symbols that the sizes
/// plan: a level of `n > DISTANCE_THRESHOLD` symbols has the recursive
/// codeword of `alpha[n]` symbols and then redundancy up to `stretch[n]`
/// symbols beyond the message (none if the recursive codeword is longer).
pub open spec fn planned_len(alpha: Seq<usize>, stretch: Seq<usize>, n: int) -> int
    decreases n,
{
    if n <= DISTANCE_THRESHOLD || n >= alpha.len() || n >= stretch.len() || alpha[n] >= n {
        n
    } else {
        let l = planned_len(alpha, stretch, alpha[n] as int);
        n + l + sat_sub(stretch[n] as int, l)
    }
}

/// The sizes are usable from `n` on: each level shrinks the message to a
/// nonempty shorter one, and its redundancy is nonempty.
pub open spec fn rates_ok(alpha: Seq<usize>, stretch: Seq<usize>, n: int) -> bool
    decreases n,
{
    if n <= DISTANCE_THRESHOLD {
        true
    } else if n >= alpha.len() || n >= stretch.len() || alpha[n] >= n {
        false
    } else {
        &&& 0 < alpha[n]
        &&& stretch[n] > planned_len(alpha, stretch, alpha[n] as int)
        &&& rates_ok(alpha, stretch, alpha[n] as int)
    }
}

/// The number of levels that encode a message of `n` symbols further.
pub open spec fn chain_depth(alpha: Seq<usize>, n: int) -> int
    decreases n,
{
    if n <= DISTANCE_THRESHOLD || n >= alpha.len() || alpha[n] >= n {
        0
    } else {
        1 + chain_depth(alpha, alpha[n] as int)
    }
}

/// The expanders of the levels from `dep` on are the random expanders that
/// the sizes plan for a message of `n` symbols: `c` from the `n` symbols to
/// `alpha[n]` with `CN` edges each, `d` from the recursive codeword to the
/// redundancy with `DN` edges each.
pub open spec fn chain_built(c: Seq<Graph>, d: Seq<Graph>, alpha: Seq<usize>, stretch: Seq<usize>, n: int, dep: int) -> bool
    decreases n,
{
    if n <= DISTANCE_THRESHOLD {
        true
    } else if n >= alpha.len() || n >= stretch.len() || alpha[n] >= n {
        false
    } else {
        let l = planned_len(alpha, stretch, alpha[n] as int);
        &&& 0 <= dep
        &&& dep < c.len()
        &&& dep < d.len()
        &&& c[dep].l == n
        &&& c[dep].r == alpha[n]
        &&& c[dep].degree == CN
        &&& graph_wf(c[dep])
        &&& graph_reversed(c[dep])
        &&& d[dep].l == l
        &&& d[dep].r == sat_sub(stretch[n] as int, l)
        &&& d[dep].degree == DN
        &&& graph_wf(d[dep])
        &&& graph_reversed(d[dep])
        &&& chain_built(c, d, alpha, stretch, alpha[n] as int, dep + 1)
    }
}

proof fn lemma_chain_depth_nonneg(alpha: Seq<usize>, n: int)
    ensures
        chain_depth(alpha, n) >= 0,
    decreases n,
{
    if !(n <= DISTANCE_THRESHOLD || n >= alpha.len() || alpha[n] >= n) {
        lemma_chain_depth_nonneg(alpha, alpha[n] as int);
    }
}

proof fn lemma_planned_len_ge(alpha: Seq<usize>, stretch: Seq<usize>, n: int)
    requires
        0 <= n,
    ensures
        planned_len(alpha, stretch, n) >= n,
    decreases n,
{
    if !(n <= DISTANCE_THRESHOLD || n >= alpha.len() || n >= stretch.len() || alpha[n] >= n) {
        lemma_planned_len_ge(alpha, stretch, alpha[n] as int);
    }
}

proof fn lemma_chain_frame(
    c1: Seq<Graph>,
    d1: Seq<Graph>,
    c2: Seq<Graph>,
    d2: Seq<Graph>,
    alpha: Seq<usize>,
    stretch: Seq<usize>,
    n: int,
    dep: int,
)
    requires
        chain_built(c1, d1, alpha, stretch, n, dep),
        c1.len() == c2.len(),
        d1.len() == d2.len(),
        forall|j: int| dep <= j < c1.len() ==> c1[j] == c2[j],
        forall|j: int| dep <= j < d1.len() ==> d1[j] == d2[j],
    ensures
        chain_built(c2, d2, alpha, stretch, n, dep),
    decreases n,
{
    if !(n <= DISTANCE_THRESHOLD) {
        lemma_chain_frame(c1, d1, c2, d2, alpha, stretch, alpha[n] as int, dep + 1);
    }
}

/// Expanders built by `expander_init` for a message of `n` symbols fit it
/// at every level, and the codeword has the planned length.
pub proof fn lemma_built_ready(c: Seq<Graph>, d: Seq<Graph>, alpha: Seq<usize>, stretch: Seq<usize>, n: int, dep: int)
    requires
        0 <= n,
        chain_built(c, d, alpha, stretch, n, dep),
    ensures
        levels_ready(c, d, alpha, n, dep),
        code_len(c, d, alpha, n, dep) == planned_len(alpha, stretch, n),
    decreases n,
{
    if n > DISTANCE_THRESHOLD {
        lemma_built_ready(c, d, alpha, stretch, alpha[n] as int, dep + 1);
    }
}

impl LinearCodeEncodeContext {
    /// Draws the expanders of the levels from `dep` (level 0 if `None`) on
    /// for a message of `n` symbols, as the sizes `rates` plan them, and
    /// returns the length of the codeword; a message of at most
    /// `DISTANCE_THRESHOLD` symbols needs none. The expanders of the other
    /// levels and the work tables stay as they were.
    pub fn expander_init(&mut self, n: usize, dep: Option<usize>, rates: &CodeRates) -> (len: usize)
        requires
            rates_ok(rates.alpha@, rates.stretch@, n as int),
            dep.unwrap_or(0) + chain_depth(rates.alpha@, n as int) <= old(self).c@.len(),
            dep.unwrap_or(0) + chain_depth(rates.alpha@, n as int) <= old(self).d@.len(),
            planned_len(rates.alpha@, rates.stretch@, n as int) <= usize::MAX,
        ensures
            len == planned_len(rates.alpha@, rates.stretch@, n as int),
            final(self).scratch == old(self).scratch,
            final(self).encode_initialized == old(self).encode_initialized,
            final(self).c@.len() == old(self).c@.len(),
            final(self).d@.len() == old(self).d@.len(),
            forall|j: int|
                0 <= j < old(self).c@.len() && !(dep.unwrap_or(0) <= j < dep.unwrap_or(0) + chain_depth(rates.alpha@, n as int))
                    ==> final(self).c@[j] == old(self).c@[j],
            forall|j: int|
                0 <= j < old(self).d@.len() && !(dep.unwrap_or(0) <= j < dep.unwrap_or(0) + chain_depth(rates.alpha@, n as int))
                    ==> final(self).d@[j] == old(self).d@[j],
            chain_built(final(self).c@, final(self).d@, rates.alpha@, rates.stretch@, n as int, dep.unwrap_or(0) as int),
        decreases n,
    {
        if n <= DISTANCE_THRESHOLD {
            return n;
        }
        let dep0 = match dep {
            Some(k) => k,
            None => 0,
        };
        let alpha_n = rates.alpha[n];
        let clen = self.c.len();
        proof {
            lemma_planned_len_ge(rates.alpha@, rates.stretch@, alpha_n as int);
            assert(chain_depth(rates.alpha@, n as int) == 1 + chain_depth(rates.alpha@, alpha_n as int));
            lemma_chain_depth_nonneg(rates.alpha@, alpha_n as int);
            assert(dep0 == dep.unwrap_or(0));
        }
        let ghost c0 = self.c@;
        let ghost d0 = self.d@;
        let l = self.expander_init(alpha_n, Some(dep0 + 1), rates);
        let stretch_n = rates.stretch[n];
        let expander_size = if stretch_n >= l {
            stretch_n - l
        } else {
            0
        };
        let ghost c1 = self.c@;
        let ghost d1 = self.d@;
        self.c.set(dep0, generate_random_expander(n, alpha_n, CN));
        self.d.set(dep0, generate_random_expander(l, expander_size, DN));
        proof {
            lemma_chain_frame(c1, d1, self.c@, self.d@, rates.alpha@, rates.stretch@, alpha_n as int, dep0 + 1);
            assert forall|j: int|
                0 <= j < c0.len() && !(dep0 <= j < dep0 + chain_depth(rates.alpha@, n as int)) implies self.c@[j] == c0[j] by {
                assert(c1[j] == c0[j]);
            }
            assert forall|j: int|
                0 <= j < d0.len() && !(dep0 <= j < dep0 + chain_depth(rates.alpha@, n as int)) implies self.d@[j] == d0[j] by {
                assert(d1[j] == d0[j]);
            }
        }
        n + l + expander_size
    }
}

/// The sum of two vectors, entry by entry.
pub open spec fn vadd(a: Seq<FieldElement>, b: Seq<FieldElement>) -> Seq<FieldElement> {
    Seq::new(a.len(), |i: int| fe_add(a[i], b[i]))
}

proof fn lemma_edge_term_linear(w: FieldElement, vx: FieldElement, vy: FieldElement, weight_first: bool)
    ensures
        edge_term(w, fe_add(vx, vy), weight_first) == fe_add(edge_term(w, vx, weight_first), edge_term(w, vy, weight_first)),
{
    if weight_first {
        lemma_mul_distrib(w, vx, vy);
    } else {
        lemma_mul_comm(fe_add(vx, vy), w);
        lemma_mul_comm(vx, w);
        lemma_mul_comm(vy, w);
        lemma_mul_distrib(w, vx, vy);
    }
}

/// `(a + b) + (c + d) == (a + c) + (b + d)`.
pub proof fn lemma_add_swap4(a: FieldElement, b: FieldElement, c: FieldElement, e: FieldElement)
    ensures
        fe_add(fe_add(a, b), fe_add(c, e)) == fe_add(fe_add(a, c), fe_add(b, e)),
{
    lemma_add_assoc(a, b, fe_add(c, e));
    lemma_add_assoc(b, c, e);
    lemma_add_comm(b, c);
    lemma_add_assoc(c, b, e);
    lemma_add_assoc(a, c, fe_add(b, e));
}

proof fn lemma_row_add_linear(
    ax: Seq<FieldElement>,
    ay: Seq<FieldElement>,
    row: Seq<usize>,
    w: Seq<FieldElement>,
    vx: FieldElement,
    vy: FieldElement,
    k: int,
    weight_first: bool,
)
    requires
        ax.len() == ay.len(),
    ensures
        row_add(vadd(ax, ay), row, w, fe_add(vx, vy), k, weight_first) == vadd(
            row_add(ax, row, w, vx, k, weight_first),
            row_add(ay, row, w, vy, k, weight_first),
        ),
    decreases k,
{
    if k > 0 {
        lemma_row_add_linear(ax, ay, row, w, vx, vy, k - 1, weight_first);
        lemma_row_add_len(ax, row, w, vx, k - 1, weight_first);
        lemma_row_add_len(ay, row, w, vy, k - 1, weight_first);
        let a = row_add(ax, row, w, vx, k - 1, weight_first);
        let b = row_add(ay, row, w, vy, k - 1, weight_first);
        let t = row[k - 1] as int;
        if t < a.len() {
            let tx = edge_term(w[k - 1], vx, weight_first);
            let ty = edge_term(w[k - 1], vy, weight_first);
            lemma_edge_term_linear(w[k - 1], vx, vy, weight_first);
            lemma_add_swap4(a[t], b[t], tx, ty);
            assert(vadd(a, b).update(t, fe_add(vadd(a, b)[t], edge_term(w[k - 1], fe_add(vx, vy), weight_first))) =~= vadd(
                a.update(t, fe_add(a[t], tx)),
                b.update(t, fe_add(b[t], ty)),
            ));
        }
    }
}

proof fn lemma_spread_linear(
    len: nat,
    nb: Seq<Vec<usize>>,
    w: Seq<Vec<FieldElement>>,
    x: Seq<FieldElement>,
    y: Seq<FieldElement>,
    rows: int,
    degree: int,
    weight_first: bool,
)
    requires
        x.len() == y.len(),
        rows <= x.len(),
    ensures
        spread(len, nb, w, vadd(x, y), rows, degree, weight_first) == vadd(
            spread(len, nb, w, x, rows, degree, weight_first),
            spread(len, nb, w, y, rows, degree, weight_first),
        ),
    decreases rows,
{
    if rows <= 0 {
        assert(Seq::new(len, |j: int| fe_zero()) =~= vadd(Seq::new(len, |j: int| fe_zero()), Seq::new(len, |j: int| fe_zero())));
    } else {
        lemma_spread_linear(len, nb, w, x, y, rows - 1, degree, weight_first);
        lemma_spread_len(len, nb, w, x, rows - 1, degree, weight_first);
        lemma_spread_len(len, nb, w, y, rows - 1, degree, weight_first);
        lemma_row_add_linear(
            spread(len, nb, w, x, rows - 1, degree, weight_first),
            spread(len, nb, w, y, rows - 1, degree, weight_first),
            nb[rows - 1]@,
            w[rows - 1]@,
            x[rows - 1],
            y[rows - 1],
            degree,
            weight_first,
        );
        assert(vadd(x, y)[rows - 1] == fe_add(x[rows - 1], y[rows - 1]));
    }
}

/// The code is linear: the codeword of a sum is the sum of the codewords.
pub proof fn lemma_encoding_linear(c: Seq<Graph>, d: Seq<Graph>, alpha: Seq<usize>, x: Seq<FieldElement>, y: Seq<FieldElement>, dep: int)
    requires
        x.len() == y.len(),
    ensures
        encoding(c, d, alpha, vadd(x, y), dep) == vadd(encoding(c, d, alpha, x, dep), encoding(c, d, alpha, y, dep)),
    decreases c.len() - dep,
{
    let n = x.len() as int;
    if encodes_further(c, d, alpha, n, dep) {
        let cg = c[dep];
        let dg = d[dep];
        let m = alpha[n] as nat;
        let yx = spread(m, cg.neighbor@, cg.weight@, x, n, cg.degree as int, true);
        let yy = spread(m, cg.neighbor@, cg.weight@, y, n, cg.degree as int, true);
        lemma_spread_linear(m, cg.neighbor@, cg.weight@, x, y, n, cg.degree as int, true);
        lemma_spread_len(m, cg.neighbor@, cg.weight@, x, n, cg.degree as int, true);
        lemma_spread_len(m, cg.neighbor@, cg.weight@, y, n, cg.degree as int, true);
        lemma_encoding_linear(c, d, alpha, yx, yy, dep + 1);
        let zx = encoding(c, d, alpha, yx, dep + 1);
        let zy = encoding(c, d, alpha, yy, dep + 1);
        lemma_encoding_len(c, d, alpha, yx, dep + 1);
        lemma_encoding_len(c, d, alpha, yy, dep + 1);
        lemma_spread_linear(dg.r as nat, dg.neighbor@, dg.weight@, zx, zy, zx.len() as int, dg.degree as int, false);
        let wx = spread(dg.r as nat, dg.neighbor@, dg.weight@, zx, zx.len() as int, dg.degree as int, false);
        let wy = spread(dg.r as nat, dg.neighbor@, dg.weight@, zy, zy.len() as int, dg.degree as int, false);
        lemma_spread_len(dg.r as nat, dg.neighbor@, dg.weight@, zx, zx.len() as int, dg.degree as int, false);
        lemma_spread_len(dg.r as nat, dg.neighbor@, dg.weight@, zy, zy.len() as int, dg.degree as int, false);
        assert(vadd(x, y).len() == n);
        assert(vadd(x + zx + wx, y + zy + wy) =~= vadd(x, y) + vadd(zx, zy) + vadd(wx, wy));
    } else {
        assert(vadd(x, y).len() == n);
    }
}

/// The codeword of level 0 is linear in the message as well.
pub proof fn lemma_codeword_linear(c: Seq<Graph>, d: Seq<Graph>, alpha: Seq<usize>, x: Seq<FieldElement>, y: Seq<FieldElement>)
    requires
        x.len() == y.len(),
    ensures
        level_codeword(c, d, alpha, vadd(x, y), 0) == vadd(level_codeword(c, d, alpha, x, 0), level_codeword(c, d, alpha, y, 0)),
{
    let n = x.len() as int;
    let cg = c[0];
    let dg = d[0];
    let m = alpha[n] as nat;
    let yx = spread(m, cg.neighbor@, cg.weight@, x, n, cg.degree as int, true);
    let yy = spread(m, cg.neighbor@, cg.weight@, y, n, cg.degree as int, true);
    assert(vadd(x, y).len() == n);
    lemma_spread_linear(m, cg.neighbor@, cg.weight@, x, y, n, cg.degree as int, true);
    lemma_spread_len(m, cg.neighbor@, cg.weight@, x, n, cg.degree as int, true);
    lemma_spread_len(m, cg.neighbor@, cg.weight@, y, n, cg.degree as int, true);
    lemma_encoding_linear(c, d, alpha, yx, yy, 1);
    let zx = encoding(c, d, alpha, yx, 1);
    let zy = encoding(c, d, alpha, yy, 1);
    lemma_encoding_len(c, d, alpha, yx, 1);
    lemma_encoding_len(c, d, alpha, yy, 1);
    lemma_spread_linear(dg.r as nat, dg.neighbor@, dg.weight@, zx, zy, zx.len() as int, dg.degree as int, false);
    let wx = spread(dg.r as nat, dg.neighbor@, dg.weight@, zx, zx.len() as int, dg.degree as int, false);
    let wy = spread(dg.r as nat, dg.neighbor@, dg.weight@, zy, zy.len() as int, dg.degree as int, false);
    lemma_spread_len(dg.r as nat, dg.neighbor@, dg.weight@, zx, zx.len() as int, dg.degree as int, false);
    lemma_spread_len(dg.r as nat, dg.neighbor@, dg.weight@, zy, zy.len() as int, dg.degree as int, false);
    assert(vadd(x + zx + wx, y + zy + wy) =~= vadd(x, y) + vadd(zx, zy) + vadd(wx, wy));
}

/// After `expander_init` has drawn the expanders for messages of `n`
/// symbols (`n` above `DISTANCE_THRESHOLD`), `encode` may take such a
/// message as far as the expanders go, and its codeword has the length that
/// `expander_init` returned.
pub proof fn lemma_codeword_len(c: Seq<Graph>, d: Seq<Graph>, alpha: Seq<usize>, stretch: Seq<usize>, x: Seq<FieldElement>)
    requires
        x.len() > DISTANCE_THRESHOLD,
        chain_built(c, d, alpha, stretch, x.len() as int, 0),
    ensures
        top_ready(c, d, alpha, x.len() as int),
        level_codeword(c, d, alpha, x, 0).len() == planned_len(alpha, stretch, x.len() as int),
{
    let n = x.len() as int;
    lemma_built_ready(c, d, alpha, stretch, n, 0);
    lemma_built_ready(c, d, alpha, stretch, alpha[n] as int, 1);
    let cg = c[0];
    let dg = d[0];
    let y = spread(alpha[n] as nat, cg.neighbor@, cg.weight@, x, n, cg.degree as int, true);
    lemma_spread_len(alpha[n] as nat, cg.neighbor@, cg.weight@, x, n, cg.degree as int, true);
    lemma_encoding_len(c, d, alpha, y, 1);
    let z = encoding(c, d, alpha, y, 1);
    lemma_spread_len(dg.r as nat, dg.neighbor@, dg.weight@, z, z.len() as int, dg.degree as int, false);
}

/// Every entry of `x` multiplied by `a`.
pub open spec fn vscale(a: FieldElement, x: Seq<FieldElement>) -> Seq<FieldElement> {
    Seq::new(x.len(), |i: int| fe_mul(a, x[i]))
}

proof fn lemma_edge_term_scale(w: FieldElement, a: FieldElement, v: FieldElement, weight_first: bool)
    ensures
        edge_term(w, fe_mul(a, v), weight_first) == fe_mul(a, edge_term(w, v, weight_first)),
{
    if weight_first {
        lemma_mul_assoc(w, a, v);
        lemma_mul_comm(w, a);
        lemma_mul_assoc(a, w, v);
    } else {
        lemma_mul_assoc(a, v, w);
    }
}

proof fn lemma_row_add_scale(
    acc: Seq<FieldElement>,
    a: FieldElement,
    row: Seq<usize>,
    w: Seq<FieldElement>,
    v: FieldElement,
    k: int,
    weight_first: bool,
)
    ensures
        row_add(vscale(a, acc), row, w, fe_mul(a, v), k, weight_first) == vscale(a, row_add(acc, row, w, v, k, weight_first)),
    decreases k,
{
    if k > 0 {
        lemma_row_add_scale(acc, a, row, w, v, k - 1, weight_first);
        lemma_row_add_len(acc, row, w, v, k - 1, weight_first);
        let b = row_add(acc, row, w, v, k - 1, weight_first);
        let t = row[k - 1] as int;
        if t < b.len() {
            let tv = edge_term(w[k - 1], v, weight_first);
            lemma_edge_term_scale(w[k - 1], a, v, weight_first);
            lemma_mul_distrib(a, b[t], tv);
            assert(vscale(a, b).update(t, fe_add(vscale(a, b)[t], edge_term(w[k - 1], fe_mul(a, v), weight_first))) =~= vscale(
                a,
                b.update(t, fe_add(b[t], tv)),
            ));
        }
    }
}

proof fn lemma_spread_scale(
    len: nat,
    nb: Seq<Vec<usize>>,
    w: Seq<Vec<FieldElement>>,
    a: FieldElement,
    x: Seq<FieldElement>,
    rows: int,
    degree: int,
    weight_first: bool,
)
    requires
        rows <= x.len(),
    ensures
        spread(len, nb, w, vscale(a, x), rows, degree, weight_first) == vscale(a, spread(len, nb, w, x, rows, degree, weight_first)),
    decreases rows,
{
    if rows <= 0 {
        lemma_mul_zero(a);
        assert(Seq::new(len, |j: int| fe_zero()) =~= vscale(a, Seq::new(len, |j: int| fe_zero())));
    } else {
        lemma_spread_scale(len, nb, w, a, x, rows - 1, degree, weight_first);
        lemma_row_add_scale(spread(len, nb, w, x, rows - 1, degree, weight_first), a, nb[rows - 1]@, w[rows - 1]@, x[rows - 1], degree, weight_first);
    }
}

/// The code is homogeneous: the codeword of a multiple is the multiple of
/// the codeword.
pub proof fn lemma_encoding_scale(c: Seq<Graph>, d: Seq<Graph>, alpha: Seq<usize>, a: FieldElement, x: Seq<FieldElement>, dep: int)
    ensures
        encoding(c, d, alpha, vscale(a, x), dep) == vscale(a, encoding(c, d, alpha, x, dep)),
    decreases c.len() - dep,
{
    let n = x.len() as int;
    assert(vscale(a, x).len() == n);
    if encodes_further(c, d, alpha, n, dep) {
        let cg = c[dep];
        let dg = d[dep];
        let m = alpha[n] as nat;
        let y = spread(m, cg.neighbor@, cg.weight@, x, n, cg.degree as int, true);
        lemma_spread_scale(m, cg.neighbor@, cg.weight@, a, x, n, cg.degree as int, true);
        lemma_encoding_scale(c, d, alpha, a, y, dep + 1);
        let z = encoding(c, d, alpha, y, dep + 1);
        lemma_spread_scale(dg.r as nat, dg.neighbor@, dg.weight@, a, z, z.len() as int, dg.degree as int, false);
        let w2 = spread(dg.r as nat, dg.neighbor@, dg.weight@, z, z.len() as int, dg.degree as int, false);
        assert(vscale(a, x + z + w2) =~= vscale(a, x) + vscale(a, z) + vscale(a, w2));
    }
}

/// The codeword of level 0 is homogeneous as well.
pub proof fn lemma_codeword_scale(c: Seq<Graph>, d: Seq<Graph>, alpha: Seq<usize>, a: FieldElement, x: Seq<FieldElement>)
    ensures
        level_codeword(c, d, alpha, vscale(a, x), 0) == vscale(a, level_codeword(c, d, alpha, x, 0)),
{
    let n = x.len() as int;
    assert(vscale(a, x).len() == n);
    let cg = c[0];
    let dg = d[0];
    let m = alpha[n] as nat;
    let y = spread(m, cg.neighbor@, cg.weight@, x, n, cg.degree as int, true);
    lemma_spread_scale(m, cg.neighbor@, cg.weight@, a, x, n, cg.degree as int, true);
    lemma_encoding_scale(c, d, alpha, a, y, 1);
    let z = encoding(c, d, alpha, y, 1);
    lemma_spread_scale(dg.r as nat, dg.neighbor@, dg.weight@, a, z, z.len() as int, dg.degree as int, false);
    let w2 = spread(dg.r as nat, dg.neighbor@, dg.weight@, z, z.len() as int, dg.degree as int, false);
    assert(vscale(a, x + z + w2) =~= vscale(a, x) + vscale(a, z) + vscale(a, w2));
}

/// `len` zeros.
pub open spec fn zero_vec(len: nat) -> Seq<FieldElement> {
    Seq::new(len, |i: int| fe_zero())
}

/// The combination of the first `k` rows with the coefficients `r`, each
/// row taken on its first `len` entries, accumulated from zeros.
pub open spec fn lincomb(rows: Seq<Seq<FieldElement>>, r: Seq<FieldElement>, len: nat, k: int) -> Seq<FieldElement>
    decreases k,
{
    if k <= 0 {
        zero_vec(len)
    } else {
        vadd(lincomb(rows, r, len, k - 1), vscale(r[k - 1], rows[k - 1].take(len as int)))
    }
}

pub proof fn lemma_lincomb_len(rows: Seq<Seq<FieldElement>>, r: Seq<FieldElement>, len: nat, k: int)
    ensures
        lincomb(rows, r, len, k).len() == len,
    decreases k,
{
    if k > 0 {
        lemma_lincomb_len(rows, r, len, k - 1);
    }
}

/// The length of the codeword of level 0 depends on the length of the
/// message only.
pub proof fn lemma_codeword_len_of(c: Seq<Graph>, d: Seq<Graph>, alpha: Seq<usize>, x: Seq<FieldElement>)
    ensures
        level_codeword(c, d, alpha, x, 0).len() == x.len() + code_len(c, d, alpha, alpha[x.len() as int] as int, 1) + d[0].r,
{
    let n = x.len() as int;
    let cg = c[0];
    let dg = d[0];
    let y = spread(alpha[n] as nat, cg.neighbor@, cg.weight@, x, n, cg.degree as int, true);
    lemma_spread_len(alpha[n] as nat, cg.neighbor@, cg.weight@, x, n, cg.degree as int, true);
    lemma_encoding_len(c, d, alpha, y, 1);
    let z = encoding(c, d, alpha, y, 1);
    lemma_spread_len(dg.r as nat, dg.neighbor@, dg.weight@, z, z.len() as int, dg.degree as int, false);
}

/// Encoding commutes with linear combinations: the codeword of a
/// combination of messages of `n` symbols is the same combination of their
/// codewords.
pub proof fn lemma_codeword_lincomb(
    c: Seq<Graph>,
    d: Seq<Graph>,
    alpha: Seq<usize>,
    xs: Seq<Seq<FieldElement>>,
    r: Seq<FieldElement>,
    n: nat,
    k: int,
)
    requires
        0 <= k <= xs.len(),
        forall|i: int| 0 <= i < xs.len() ==> (#[trigger] xs[i]).len() == n,
    ensures
        level_codeword(c, d, alpha, lincomb(xs, r, n, k), 0) == lincomb(
            Seq::new(xs.len(), |i: int| level_codeword(c, d, alpha, xs[i], 0)),
            r,
            (n + code_len(c, d, alpha, alpha[n as int] as int, 1) + d[0].r) as nat,
            k,
        ),
    decreases k,
{
    let big = (n + code_len(c, d, alpha, alpha[n as int] as int, 1) + d[0].r) as nat;
    let cws = Seq::new(xs.len(), |i: int| level_codeword(c, d, alpha, xs[i], 0));
    if k <= 0 {
        lemma_mul_zero(fe_zero());
        assert(zero_vec(n) =~= vscale(fe_zero(), zero_vec(n)));
        lemma_codeword_scale(c, d, alpha, fe_zero(), zero_vec(n));
        lemma_codeword_len_of(c, d, alpha, zero_vec(n));
        let cz = level_codeword(c, d, alpha, zero_vec(n), 0);
        assert forall|i: int| 0 <= i < cz.len() implies fe_mul(fe_zero(), #[trigger] cz[i]) == fe_zero() by {
            lemma_mul_zero(cz[i]);
        }
        assert(vscale(fe_zero(), cz) =~= zero_vec(big));
    } else {
        lemma_codeword_lincomb(c, d, alpha, xs, r, n, k - 1);
        let a = lincomb(xs, r, n, k - 1);
        let x = xs[k - 1];
        lemma_lincomb_len(xs, r, n, k - 1);
        assert(x.take(n as int) =~= x);
        lemma_codeword_linear(c, d, alpha, a, vscale(r[k - 1], x));
        lemma_codeword_scale(c, d, alpha, r[k - 1], x);
        lemma_codeword_len_of(c, d, alpha, x);
        let cx = level_codeword(c, d, alpha, x, 0);
        assert(cws[k - 1] == cx);
        assert(cx.take(big as int) =~= cx);
    }
}

} // verus!
