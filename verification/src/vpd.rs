//! The verifier's check of a Merkle path in the low-degree test: the path
//! climbs from its last entry, the hash of the queried values, to the root.
use crate::constants::SLICE_NUMBER;
use crate::field::FieldElement;
use crate::hash::{digest_of_elements, digest_zero, hash_pair, my_hash, HashDigest};
use crate::merkle::{merkle_node, merkle_root, sibling};
use vstd::arithmetic::power2::pow2;
use vstd::prelude::*;

verus! {

/// One position mapping per slice of the witness.
#[derive(Debug, Clone)]
pub struct Mapping64(pub Vec<Vec<usize>>);

/// One codeword per slice of the witness.
#[derive(Debug, Clone)]
pub struct FieldElement64(pub Vec<Vec<FieldElement>>);

/// `SLICE_NUMBER` empty vectors.
fn empty_slices<T>() -> (r: Vec<Vec<T>>)
    ensures
        r@.len() == SLICE_NUMBER,
        forall|i: int| 0 <= i < SLICE_NUMBER ==> (#[trigger] r@[i])@.len() == 0,
{
    let mut r: Vec<Vec<T>> = Vec::new();
    let mut i: usize = 0;
    while i < SLICE_NUMBER
        invariant
            i <= SLICE_NUMBER,
            r@.len() == i,
            forall|k: int| 0 <= k < i ==> (#[trigger] r@[k])@.len() == 0,
        decreases SLICE_NUMBER - i,
    {
        r.push(Vec::new());
        i += 1;
    }
    r
}

impl Default for Mapping64 {
    /// A mapping for each slice, all empty.
    fn default() -> (r: Mapping64)
        ensures
            r.0@.len() == SLICE_NUMBER,
            forall|i: int| 0 <= i < SLICE_NUMBER ==> (#[trigger] r.0@[i])@.len() == 0,
    {
        Mapping64(empty_slices())
    }
}

impl Default for FieldElement64 {
    /// A codeword for each slice, all empty.
    fn default() -> (r: FieldElement64)
        ensures
            r.0@.len() == SLICE_NUMBER,
            forall|i: int| 0 <= i < SLICE_NUMBER ==> (#[trigger] r.0@[i])@.len() == 0,
    {
        FieldElement64(empty_slices())
    }
}

/// The hash reached from `cur` after the steps `t .. n` of `path`: at each
/// step the sibling `path[t]` goes to the left when the low bit of `pow` is
/// set, to the right otherwise, and `pow` loses that bit.
pub open spec fn merkle_climb(path: Seq<HashDigest>, cur: HashDigest, pow: u128, t: int, n: int) -> HashDigest
    decreases n - t,
{
    if t >= n {
        cur
    } else {
        let data = if pow % 2 == 1 {
            [path[t], cur]
        } else {
            [cur, path[t]]
        };
        merkle_climb(path, hash_pair(data), pow / 2, t + 1, n)
    }
}

/// Climbing a path of siblings reaches the root: for a tree over `2^k`
/// leaves, start at leaf `pos` and let `path[t]` be the sibling of the node
/// `t` levels above it (node `(pos + 2^k) / 2^t` of the heap layout); taking
/// at step `t` bit `t` of `pos` to decide the side of the sibling, the
/// climb of `k` steps ends at the root of the tree.
pub proof fn lemma_climb_reaches_root(leaves: Seq<HashDigest>, k: nat, pos: u128, path: Seq<HashDigest>)
    requires
        leaves.len() == pow2(k),
        pos < pow2(k),
        path.len() >= k,
        forall|t: int|
            0 <= t < k ==> #[trigger] path[t] == merkle_node(leaves, sibling((pos + pow2(k)) as int / pow2(t as nat) as int)),
    ensures
        merkle_climb(path, leaves[pos as int], pos, 0, k as int) == merkle_root(leaves),
{
    let n = pow2(k) as int;
    vstd::arithmetic::power2::lemma2_to64();
    assert(merkle_node(leaves, pos + n) == leaves[pos as int]);
    lemma_climb_from(leaves, k, pos, path, 0, pos);
}

/// The climb from level `t`, at node `(pos + 2^k) / 2^t` with `p` the bits
/// of `pos` from `t` on, reaches the root.
proof fn lemma_climb_from(leaves: Seq<HashDigest>, k: nat, pos: u128, path: Seq<HashDigest>, t: nat, p: u128)
    requires
        leaves.len() == pow2(k),
        pos < pow2(k),
        t <= k,
        path.len() >= k,
        p == pos as int / pow2(t) as int,
        forall|s: int|
            0 <= s < k ==> #[trigger] path[s] == merkle_node(leaves, sibling((pos + pow2(k)) as int / pow2(s as nat) as int)),
    ensures
        merkle_climb(path, merkle_node(leaves, (pos + pow2(k)) as int / pow2(t) as int), p, t as int, k as int) == merkle_root(
            leaves,
        ),
    decreases k - t,
{
    let n = pow2(k) as int;
    let m = pow2((k - t) as nat) as int;
    vstd::arithmetic::power2::lemma_pow2_pos(t);
    vstd::arithmetic::power2::lemma_pow2_pos((k - t) as nat);
    vstd::arithmetic::power2::lemma_pow2_adds(t, (k - t) as nat);
    assert(t + (k - t) as nat == k);
    let d = pow2(t) as int;
    assert(n == d * m);
    // the node at level t is the node of `p`, shifted by 2^(k - t)
    vstd::arithmetic::div_mod::lemma_hoist_over_denominator(pos as int, m, d as nat);
    assert(pos as int + m * d == pos + n) by (nonlinear_arith)
        requires
            n == d * m,
    ;
    let idx = (pos + n) / d;
    assert(idx == p + m);
    if t == k {
        assert(m == 1) by {
            assert((k - t) as nat == 0);
            vstd::arithmetic::power2::lemma2_to64();
        }
        vstd::arithmetic::div_mod::lemma_div_pos_is_pos(pos as int, d);
        assert(p == 0) by {
            vstd::arithmetic::div_mod::lemma_basic_div(pos as int, d);
        }
        assert(idx == 1);
    } else {
        vstd::arithmetic::power2::lemma_pow2_unfold((k - t) as nat);
        let h = pow2((k - t - 1) as nat) as int;
        assert((k - t - 1) as nat == ((k - t) as nat - 1) as nat);
        assert(m == 2 * h);
        vstd::arithmetic::power2::lemma_pow2_pos((k - t - 1) as nat);
        // p < m: the bits of pos above level t
        assert(p < m) by {
            vstd::arithmetic::div_mod::lemma_div_by_multiple_is_strongly_ordered(pos as int, n, m, d);
            vstd::arithmetic::div_mod::lemma_div_by_multiple(m, d);
            assert(n / d == m) by {
                vstd::arithmetic::div_mod::lemma_div_by_multiple(m, d);
            }
        }
        let parent = idx / 2;
        assert(parent == p / 2 + h);
        assert(1 <= parent < n) by {
            assert(h >= 1);
            assert(m <= n) by (nonlinear_arith)
                requires
                    n == d * m,
                    d >= 1,
                    m >= 1,
            ;
        }
        // the next level
        vstd::arithmetic::power2::lemma_pow2_unfold(t + 1);
        let d1 = pow2(t + 1) as int;
        assert(d1 == 2 * d);
        vstd::arithmetic::div_mod::lemma_div_denominator(pos as int, d, 2);
        vstd::arithmetic::div_mod::lemma_div_denominator((pos + n) as int, d, 2);
        assert(d * 2 == d1);
        assert((pos as int / d1) == p / 2);
        assert((pos + n) as int / d1 == parent);
        let p1 = (p / 2) as u128;
        lemma_climb_from(leaves, k, pos, path, t + 1, p1);
        // one step: the node and its sibling hash to the parent
        let sib = path[t as int];
        assert(sib == merkle_node(leaves, sibling(idx)));
        assert(idx % 2 == p % 2);
        assert(merkle_node(leaves, parent) == hash_pair([merkle_node(leaves, 2 * parent), merkle_node(leaves, 2 * parent + 1)]));
        if p % 2 == 1 {
            assert(idx == 2 * parent + 1);
            assert(sibling(idx) == 2 * parent);
        } else {
            assert(idx == 2 * parent);
            assert(sibling(idx) == 2 * parent + 1);
        }
    }
}

/// The hash chain of the queried pairs: starting from the zero digest, each
/// pair, packed into one digest, is hashed with the chain so far.
pub open spec fn value_chain(values: Seq<(FieldElement, FieldElement)>) -> HashDigest
    decreases values.len(),
{
    if values.len() == 0 {
        digest_zero()
    } else {
        let v = values.last();
        hash_pair([digest_of_elements(v.0, v.1), value_chain(values.drop_last())])
    }
}

/// Checks a Merkle path: climbing `len - 1` steps from the last entry of
/// `merkle_path` along `pow` must reach `hash_digest`, and the last entry
/// must be the hash chain of `values`.
pub fn verify_merkle(
    hash_digest: HashDigest,
    merkle_path: &Vec<HashDigest>,
    len: usize,
    pow: u128,
    values: &Vec<(FieldElement, FieldElement)>,
) -> (r: bool)
    requires
        1 <= len <= merkle_path@.len(),
    ensures
        r == (hash_digest == merkle_climb(merkle_path@, merkle_path@.last(), pow, 0, len - 1)
            && value_chain(values@) == merkle_path@.last()),
{
    let last = merkle_path[merkle_path.len() - 1];
    let mut current_hash = last;
    let mut p = pow;
    let mut t: usize = 0;
    while t < len - 1
        invariant
            t <= len - 1,
            len <= merkle_path@.len(),
            merkle_climb(merkle_path@, current_hash, p, t as int, len - 1) == merkle_climb(
                merkle_path@,
                merkle_path@.last(),
                pow,
                0,
                len - 1,
            ),
        decreases len - 1 - t,
    {
        let item = merkle_path[t];
        let data = if p % 2 == 1 {
            [item, current_hash]
        } else {
            [current_hash, item]
        };
        p = p / 2;
        current_hash = my_hash(data);
        t += 1;
    }
    let mut value_hash = HashDigest { h0: 0, h1: 0 };
    let mut k: usize = 0;
    while k < values.len()
        invariant
            k <= values@.len(),
            value_hash == value_chain(values@.subrange(0, k as int)),
        decreases values@.len() - k,
    {
        let v = values[k];
        let d = HashDigest::memcpy_from_field_elements([v.0, v.1]);
        proof {
            let pre = values@.subrange(0, k as int + 1);
            assert(pre.drop_last() =~= values@.subrange(0, k as int));
            assert(pre.last() == v);
        }
        value_hash = my_hash([d, value_hash]);
        k += 1;
    }
    assert(values@.subrange(0, values@.len() as int) =~= values@);
    hash_digest == current_hash && value_hash == last
}

} // verus!
