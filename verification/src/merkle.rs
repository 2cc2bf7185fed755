//! Merkle trees over digests, laid out as a binary heap: node `k` has the
//! children `2k` and `2k + 1`, the leaves of a tree with `n` leaves are the
//! nodes `n .. 2n` and the root is node `1`.
use crate::field::FieldElement;
use crate::hash::{
    digest_of_element, digest_of_elements, digest_zero, hash_pair, my_hash, HashDigest,
};
use crate::utility::is_power_of_two;
use vstd::arithmetic::power2::pow2;
use vstd::prelude::*;

verus! {

/// Node `k` of the tree over `leaves` (for `1 <= k < 2 * leaves.len()`).
pub open spec fn merkle_node(leaves: Seq<HashDigest>, k: int) -> HashDigest
    decreases 2 * leaves.len() - k,
{
    if k <= 0 || k >= 2 * leaves.len() {
        digest_zero()
    } else if k >= leaves.len() {
        leaves[k - leaves.len()]
    } else {
        hash_pair([merkle_node(leaves, 2 * k), merkle_node(leaves, 2 * k + 1)])
    }
}

/// The root of the tree over `leaves`.
pub open spec fn merkle_root(leaves: Seq<HashDigest>) -> HashDigest {
    merkle_node(leaves, 1)
}

/// The digest obtained by hashing `h`, sitting at node `pos`, up to the root,
/// taking each sibling from `tree`.
pub open spec fn path_hash(tree: Seq<HashDigest>, h: HashDigest, pos: int) -> HashDigest
    decreases pos,
{
    if pos <= 1 {
        h
    } else {
        let up = if pos % 2 == 0 {
            hash_pair([h, tree[pos + 1]])
        } else {
            hash_pair([tree[pos - 1], h])
        };
        path_hash(tree, up, pos / 2)
    }
}

/// The sibling of `pos`: `pos ^ 1`.
pub open spec fn sibling(pos: int) -> int {
    if pos % 2 == 0 {
        pos + 1
    } else {
        pos - 1
    }
}

/// The bookkeeping of a path check: each sibling on the path from `pos` to the
/// root that was not visited yet is marked and adds the size of a digest (32
/// bytes) to the proof size.
pub open spec fn visit_path(visited: Seq<bool>, size: int, pos: int) -> (Seq<bool>, int)
    decreases pos,
{
    if pos <= 1 {
        (visited, size)
    } else {
        let s = sibling(pos);
        if visited[s] {
            visit_path(visited, size, pos / 2)
        } else {
            visit_path(visited.update(s, true), size + 32, pos / 2)
        }
    }
}

/// The number of levels between node `pos` and the root.
pub open spec fn path_len(pos: int) -> nat
    decreases pos,
{
    if pos <= 1 {
        0
    } else {
        1 + path_len(pos / 2)
    }
}

pub proof fn lemma_visit_path_len(visited: Seq<bool>, size: int, pos: int)
    requires
        pos >= 1,
        sibling(pos) < visited.len(),
    ensures
        visit_path(visited, size, pos).0.len() == visited.len(),
        size <= visit_path(visited, size, pos).1 <= size + 32 * path_len(pos),
    decreases pos,
{
    if pos > 1 {
        let s = sibling(pos);
        if visited[s] {
            lemma_visit_path_len(visited, size, pos / 2);
        } else {
            lemma_visit_path_len(visited.update(s, true), size + 32, pos / 2);
        }
    }
}

/// Node `k` is a sibling of a node on the path from `pos` up to the root
/// (the root excluded).
pub open spec fn on_path(pos: int, k: int) -> bool
    decreases pos,
{
    pos > 1 && (k == sibling(pos) || on_path(pos / 2, k))
}

/// The number of siblings on the path from `pos` to the root that `visited`
/// does not mark.
pub open spec fn unmarked_on_path(visited: Seq<bool>, pos: int) -> nat
    decreases pos,
{
    if pos <= 1 {
        0
    } else {
        (if visited[sibling(pos)] { 0nat } else { 1nat }) + unmarked_on_path(visited, pos / 2)
    }
}

/// The siblings on a path lie between 1 and the sibling of its start.
proof fn lemma_on_path_bound(pos: int, k: int)
    requires
        on_path(pos, k),
    ensures
        1 <= k <= sibling(pos),
    decreases pos,
{
    if k != sibling(pos) {
        lemma_on_path_bound(pos / 2, k);
    }
}

/// Marking a node off the path does not change the count of unmarked
/// siblings on the path.
proof fn lemma_unmarked_off_path(visited: Seq<bool>, pos: int, k: int)
    requires
        !on_path(pos, k),
        0 <= k < visited.len(),
        pos <= 1 || sibling(pos) < visited.len(),
    ensures
        unmarked_on_path(visited.update(k, true), pos) == unmarked_on_path(visited, pos),
    decreases pos,
{
    if pos > 1 {
        assert(k != sibling(pos));
        if pos / 2 > 1 {
            assert(sibling(pos / 2) < visited.len());
        }
        lemma_unmarked_off_path(visited, pos / 2, k);
    }
}

/// The bookkeeping of a path check in closed form: afterwards exactly the
/// nodes marked before and the siblings on the path are marked, and the
/// proof size has grown by 32 bytes for each sibling on the path that was
/// not marked before.
pub proof fn lemma_visit_path_closed_form(visited: Seq<bool>, size: int, pos: int)
    requires
        pos >= 1,
        sibling(pos) < visited.len(),
    ensures
        visit_path(visited, size, pos).0.len() == visited.len(),
        forall|k: int| 0 <= k < visited.len() ==> #[trigger] visit_path(visited, size, pos).0[k] == (visited[k] || on_path(pos, k)),
        visit_path(visited, size, pos).1 == size + 32 * unmarked_on_path(visited, pos),
    decreases pos,
{
    if pos > 1 {
        let s = sibling(pos);
        let w = if visited[s] { visited } else { visited.update(s, true) };
        let sz = if visited[s] { size } else { size + 32 };
        assert(sibling(pos / 2) < visited.len());
        lemma_visit_path_closed_form(w, sz, pos / 2);
        assert(visit_path(visited, size, pos) == visit_path(w, sz, pos / 2));
        if on_path(pos / 2, s) {
            lemma_on_path_bound(pos / 2, s);
            assert(false);
        }
        if !visited[s] {
            lemma_unmarked_off_path(visited, pos / 2, s);
        }
        assert forall|k: int| 0 <= k < visited.len() implies #[trigger] visit_path(visited, size, pos).0[k] == (visited[k] || on_path(pos, k)) by {
            assert(visit_path(w, sz, pos / 2).0[k] == (w[k] || on_path(pos / 2, k)));
        }
    }
}

/// When every sibling on the path is marked, none is counted.
proof fn lemma_marked_path_unmarked(visited: Seq<bool>, pos: int)
    requires
        pos <= 1 || sibling(pos) < visited.len(),
        forall|k: int| 0 <= k < visited.len() && on_path(pos, k) ==> #[trigger] visited[k],
    ensures
        unmarked_on_path(visited, pos) == 0,
    decreases pos,
{
    if pos > 1 {
        assert(on_path(pos, sibling(pos)));
        assert(visited[sibling(pos)]);
        assert forall|k: int| 0 <= k < visited.len() && on_path(pos / 2, k) implies #[trigger] visited[k] by {
            assert(on_path(pos, k));
        }
        if pos / 2 > 1 {
            assert(sibling(pos / 2) < visited.len());
        }
        lemma_marked_path_unmarked(visited, pos / 2);
    }
}

/// Checking the same path twice: the second check marks nothing new and
/// adds nothing to the proof size.
pub proof fn lemma_visit_path_repeat(visited: Seq<bool>, size: int, pos: int, size2: int)
    requires
        pos >= 1,
        sibling(pos) < visited.len(),
    ensures
        visit_path(visit_path(visited, size, pos).0, size2, pos) == (visit_path(visited, size, pos).0, size2),
{
    lemma_visit_path_closed_form(visited, size, pos);
    let w = visit_path(visited, size, pos).0;
    assert forall|k: int| 0 <= k < w.len() && on_path(pos, k) implies #[trigger] w[k] by {
        assert(w[k] == (visited[k] || on_path(pos, k)));
    }
    lemma_marked_path_unmarked(w, pos);
    lemma_visit_path_closed_form(w, size2, pos);
    assert(visit_path(w, size2, pos).0 =~= w);
}

/// The sibling of a node is the node with its lowest bit flipped.
proof fn lemma_sibling_xor(x: usize)
    ensures
        sibling(x as int) == (x ^ 1) as int,
{
    if x % 2 == 0 {
        assert(x % 2 == 0 ==> x ^ 1 == x + 1) by (bit_vector);
    } else {
        assert(x % 2 == 1 ==> x ^ 1 == x - 1) by (bit_vector);
    }
}

/// Shifting right by `j + 1` is halving, then shifting by `j`.
proof fn lemma_shift_step(p: usize, j: usize)
    requires
        j < 64,
    ensures
        p >> ((j + 1) as usize) == (p / 2) >> j,
{
    assert(j < 64 ==> p >> ((j + 1) as usize) == (p >> 1usize) >> j) by (bit_vector);
    assert(p >> 1usize == p / 2) by (bit_vector);
}

/// The siblings on the path from `p` are the nodes `(p >> j) ^ 1` for the
/// `path_len(p)` levels `j` below the root.
pub proof fn lemma_on_path_shift_xor(p: usize, k: int)
    requires
        p >= 1,
    ensures
        on_path(p as int, k) <==> exists|j: usize| j < path_len(p as int) && k == ((p >> j) ^ 1) as int,
    decreases p,
{
    lemma_path_len_small(p as int);
    if p > 1 {
        let h = (p / 2) as usize;
        lemma_on_path_shift_xor(h, k);
        lemma_sibling_xor(p);
        if on_path(p as int, k) {
            if k == sibling(p as int) {
                assert(p >> 0usize == p) by (bit_vector);
                assert(0 < path_len(p as int) && k == ((p >> 0usize) ^ 1) as int);
            } else {
                let j = choose|j: usize| j < path_len(h as int) && k == ((h >> j) ^ 1) as int;
                lemma_shift_step(p, j);
                assert(((j + 1) as usize) < path_len(p as int) && k == ((p >> ((j + 1) as usize)) ^ 1) as int);
            }
        } else {
            assert forall|j: usize| j < path_len(p as int) implies k != ((p >> j) ^ 1) as int by {
                if j == 0 {
                    assert(p >> 0usize == p) by (bit_vector);
                } else {
                    lemma_shift_step(p, (j - 1) as usize);
                    assert(!(((j - 1) as usize) < path_len(h as int) && k == ((h >> ((j - 1) as usize)) ^ 1) as int));
                }
            }
        }
    }
}

/// `2^path_len(p) <= p`.
proof fn lemma_path_len_pow(p: int)
    requires
        p >= 1,
    ensures
        pow2(path_len(p)) <= p,
    decreases p,
{
    if p > 1 {
        lemma_path_len_pow(p / 2);
        vstd::arithmetic::power2::lemma_pow2_unfold(path_len(p));
    } else {
        vstd::arithmetic::power2::lemma2_to64();
    }
}

/// A path from a node that fits in a `usize` has fewer than 64 levels.
proof fn lemma_path_len_small(p: int)
    requires
        1 <= p <= usize::MAX,
    ensures
        path_len(p) < 64,
{
    lemma_path_len_pow(p);
    vstd::arithmetic::power2::lemma2_to64_rest();
    if path_len(p) > 64 {
        vstd::arithmetic::power2::lemma_pow2_strictly_increases(64, path_len(p));
    }
    assert(pow2(64) == 0x10000000000000000);
}

/// The digest of a single element: the pair of its digest and zero.
pub open spec fn hash_of_element(x: FieldElement) -> HashDigest {
    hash_pair([digest_of_element(x), digest_zero()])
}

/// Hashes one field element.
pub fn hash_single_field_element(x: FieldElement) -> (r: HashDigest)
    ensures
        r == hash_of_element(x),
{
    let mut data = [HashDigest::default(), HashDigest::default()];
    data[0].h0 = HashDigest::memcpy_from_field_element(x).h0;
    assert(data =~= [digest_of_element(x), digest_zero()]);
    my_hash(data)
}

/// Extends a hash chain by two elements: the previous digest paired with the
/// digest of the two elements.
pub fn hash_double_field_element_merkle_damgard(
    x: FieldElement,
    y: FieldElement,
    prev_hash: HashDigest,
) -> (r: HashDigest)
    ensures
        r == hash_pair([prev_hash, digest_of_elements(x, y)]),
{
    let mut data = [prev_hash, HashDigest::default()];
    let element = [x, y];
    data[1] = HashDigest::memcpy_from_field_elements(element);
    assert(data =~= [prev_hash, digest_of_elements(x, y)]);
    my_hash(data)
}

/// Builds the Merkle tree over `src_data` into `dst`, whose nodes `1 .. 2n`
/// receive the tree; with `alloc_required` the vector is first replaced by
/// `2n` zero digests.
pub fn create_tree(dst: &mut Vec<HashDigest>, src_data: &[HashDigest], alloc_required: bool)
    requires
        is_power_of_two(src_data@.len()),
        alloc_required ==> 2 * src_data@.len() <= usize::MAX,
        !alloc_required ==> 2 * src_data@.len() <= old(dst)@.len(),
    ensures
        final(dst)@.len() == if alloc_required {
            2 * src_data@.len()
        } else {
            old(dst)@.len()
        },
        forall|k: int|
            1 <= k < 2 * src_data@.len() ==> #[trigger] final(dst)@[k] == merkle_node(
                src_data@,
                k,
            ),
        forall|k: int|
            0 <= k < final(dst)@.len() && !(1 <= k < 2 * src_data@.len())
                ==> #[trigger] final(dst)@[k] == if alloc_required {
                digest_zero()
            } else {
                old(dst)@[k]
            },
{
    let element_num = src_data.len();
    let ghost n = element_num as int;
    let ghost leaves = src_data@;
    let size_after_padding = element_num;
    if alloc_required {
        dst.clear();
        let mut j: usize = 0;
        while j < 2 * size_after_padding
            invariant
                j <= 2 * size_after_padding,
                2 * size_after_padding <= usize::MAX,
                dst@ == Seq::new(j as nat, |i: int| digest_zero()),
            decreases 2 * size_after_padding - j,
        {
            dst.push(HashDigest::default());
            j += 1;
        }
    }
    let ghost base = dst@;
    let dlen = dst.len();
    // leaves
    let mut i: usize = 0;
    while i < element_num
        invariant
            element_num == n,
            n == leaves.len(),
            leaves == src_data@,
            2 * n <= dst@.len(),
            dst@.len() == base.len(),
            dst@.len() == dlen,
            i <= element_num,
            forall|k: int| n <= k < n + i ==> #[trigger] dst@[k] == leaves[k - n],
            forall|k: int|
                0 <= k < dst@.len() && !(n <= k < n + i) ==> #[trigger] dst@[k] == base[k],
        decreases element_num - i,
    {
        dst.set(element_num + i, src_data[i]);
        i += 1;
    }
    let mut current_lvl_size = size_after_padding / 2;
    let mut start_idx = size_after_padding - current_lvl_size;
    proof {
        if n >= 2 {
            assert(n % 2 == 0);
        }
    }
    while current_lvl_size >= 1
        invariant
            element_num == n,
            n == leaves.len(),
            leaves == src_data@,
            n >= 1,
            2 * n <= dst@.len(),
            dst@.len() == base.len(),
            dst@.len() == dlen,
            2 * current_lvl_size <= n,
            current_lvl_size >= 1 ==> start_idx == current_lvl_size,
            current_lvl_size >= 1 ==> is_power_of_two(current_lvl_size as nat),
            current_lvl_size == 0 ==> start_idx >= 1,
            forall|k: int|
                #![trigger dst@[k]]
                2 * current_lvl_size <= k < 2 * n && k >= 1 ==> dst@[k] == merkle_node(leaves, k),
            forall|k: int|
                #![trigger dst@[k]]
                0 <= k < dst@.len() && !(1 <= k < 2 * n) ==> dst@[k] == base[k],
        decreases current_lvl_size,
    {
        let chunk_start = start_idx + current_lvl_size;
        let mut i: usize = 0;
        while i < current_lvl_size
            invariant
                n == leaves.len(),
                2 * n <= dst@.len(),
                dst@.len() == base.len(),
                dst@.len() == dlen,
                current_lvl_size >= 1,
                start_idx == current_lvl_size,
                chunk_start == 2 * current_lvl_size,
                2 * current_lvl_size <= n,
                i <= current_lvl_size,
                forall|k: int|
                    #![trigger dst@[k]]
                    2 * current_lvl_size <= k < 2 * n ==> dst@[k] == merkle_node(leaves, k),
                forall|k: int|
                    #![trigger dst@[k]]
                    current_lvl_size <= k < current_lvl_size + i ==> dst@[k] == merkle_node(
                        leaves,
                        k,
                    ),
                forall|k: int|
                    #![trigger dst@[k]]
                    0 <= k < dst@.len() && !(1 <= k < 2 * n) ==> dst@[k] == base[k],
            decreases current_lvl_size - i,
        {
            let data = [dst[chunk_start + i * 2], dst[chunk_start + i * 2 + 1]];
            let h = my_hash(data);
            proof {
                let k = start_idx + i;
                assert(merkle_node(leaves, k as int) == hash_pair(
                    [merkle_node(leaves, 2 * k), merkle_node(leaves, 2 * k + 1)],
                ));
                assert(data =~= [merkle_node(leaves, 2 * k), merkle_node(leaves, 2 * k + 1)]);
            }
            dst.set(start_idx + i, h);
            i += 1;
        }
        proof {
            if current_lvl_size >= 2 {
                assert(current_lvl_size % 2 == 0);
            }
        }
        current_lvl_size = current_lvl_size / 2;
        start_idx = start_idx - current_lvl_size;
    }
}

/// Checks that `leaf_hash`, placed at leaf `pos_element_arr` of a tree with
/// `n` leaves, hashes up to `root_hash` with the siblings stored in `tree`.
/// Each sibling read for the first time is marked in `visited` and counted
/// in `proof_size`.
pub fn verify_claim(
    root_hash: HashDigest,
    tree: &[HashDigest],
    leaf_hash: HashDigest,
    pos_element_arr: usize,
    n: usize,
    visited: &mut [bool],
    proof_size: &mut usize,
) -> (r: bool)
    requires
        n == 0 || is_power_of_two(n as nat),
        1 <= pos_element_arr + n <= usize::MAX,
        sibling(pos_element_arr + n) < tree@.len(),
        sibling(pos_element_arr + n) < old(visited)@.len(),
        *old(proof_size) + 32 * path_len(pos_element_arr + n) <= usize::MAX,
    ensures
        r == (root_hash == path_hash(tree@, leaf_hash, pos_element_arr + n)),
        (final(visited)@, *final(proof_size) as int) == visit_path(
            old(visited)@,
            *old(proof_size) as int,
            pos_element_arr + n,
        ),
        forall|k: int| 0 <= k < old(visited)@.len() ==> #[trigger] final(visited)@[k] == (old(visited)@[k] || on_path(pos_element_arr + n, k)),
        *final(proof_size) == *old(proof_size) + 32 * unmarked_on_path(old(visited)@, pos_element_arr + n),
{
    proof {
        lemma_visit_path_closed_form(old(visited)@, *old(proof_size) as int, pos_element_arr + n);
    }
    let mut pos_element = pos_element_arr + n;
    let mut leaf = leaf_hash;
    let ghost start = pos_element as int;
    proof {
        lemma_visit_path_len(old(visited)@, *old(proof_size) as int, start);
    }
    while pos_element != 1
        invariant
            1 <= pos_element <= start,
            sibling(pos_element as int) < tree@.len(),
            sibling(pos_element as int) < visited@.len(),
            visited@.len() == old(visited)@.len(),
            *proof_size + 32 * path_len(pos_element as int) <= usize::MAX,
            path_hash(tree@, leaf, pos_element as int) == path_hash(tree@, leaf_hash, start),
            visit_path(visited@, *proof_size as int, pos_element as int) == visit_path(
                old(visited)@,
                *old(proof_size) as int,
                start,
            ),
        decreases pos_element,
    {
        let ghost pos = pos_element as int;
        let bit = pos_element % 2;
        let sib = if bit == 0 {
            pos_element + 1
        } else {
            pos_element - 1
        };
        let mut data = [HashDigest::default(), HashDigest::default()];
        if bit == 0 {
            data[0] = leaf;
            data[1] = tree[sib];
        } else {
            data[1] = leaf;
            data[0] = tree[sib];
        }
        if !visited[sib] {
            visited[sib] = true;
            *proof_size = *proof_size + 32;
        }
        proof {
            if bit == 0 {
                assert(data =~= [leaf, tree@[pos + 1]]);
            } else {
                assert(data =~= [tree@[pos - 1], leaf]);
            }
        }
        leaf = my_hash(data);
        pos_element = pos_element / 2;
        proof {
            assert(sibling(pos_element as int) <= pos);
        }
    }
    root_hash == leaf
}

/// Every leaf of a tree built by `create_tree` hashes up to its root.
pub proof fn lemma_path_hash_of_tree(leaves: Seq<HashDigest>, tree: Seq<HashDigest>, pos: int)
    requires
        1 <= pos < 2 * leaves.len(),
        2 * leaves.len() <= tree.len(),
        forall|k: int| 1 <= k < 2 * leaves.len() ==> #[trigger] tree[k] == merkle_node(leaves, k),
        is_power_of_two(leaves.len()),
    ensures
        path_hash(tree, merkle_node(leaves, pos), pos) == merkle_root(leaves),
    decreases pos,
{
    if pos > 1 {
        let parent = pos / 2;
        assert(1 <= parent < leaves.len());
        assert(merkle_node(leaves, parent) == hash_pair(
            [merkle_node(leaves, 2 * parent), merkle_node(leaves, 2 * parent + 1)],
        ));
        if pos % 2 == 0 {
            assert(tree[pos + 1] == merkle_node(leaves, pos + 1));
        } else {
            assert(tree[pos - 1] == merkle_node(leaves, pos - 1));
        }
        lemma_path_hash_of_tree(leaves, tree, parent);
    }
}

/// Completeness of membership proofs: in a tree built by `create_tree`, the
/// claim for every leaf `i` with its own digest verifies against the root
/// stored at node 1.
pub proof fn lemma_verify_claim_complete(leaves: Seq<HashDigest>, tree: Seq<HashDigest>, i: int)
    requires
        is_power_of_two(leaves.len()),
        0 <= i < leaves.len(),
        2 * leaves.len() <= tree.len(),
        forall|k: int| 1 <= k < 2 * leaves.len() ==> #[trigger] tree[k] == merkle_node(leaves, k),
    ensures
        path_hash(tree, leaves[i], i + leaves.len()) == tree[1],
{
    assert(merkle_node(leaves, i + leaves.len()) == leaves[i]);
    lemma_path_hash_of_tree(leaves, tree, i + leaves.len());
}

} // verus!
