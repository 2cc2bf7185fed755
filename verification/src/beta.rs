//! Tables of the multilinear equality polynomial: entry `x` of the table for
//! the point `r` is `init * prod_i (bit i of x ? r[i] : (1 - r)[i])`.
use crate::field::{fe_mul, FieldElement};
use vstd::arithmetic::power2::pow2;
use vstd::prelude::*;

verus! {

/// Bit `i` of `x`.
pub open spec fn bit(x: int, i: nat) -> bool {
    (x / pow2(i) as int) % 2 == 1
}

/// `init * f(0) * ... * f(k - 1)` with `f(i) = bit i of x ? r[off + i] : om[off + i]`,
/// multiplied from the left.
pub open spec fn beta_entry(
    init: FieldElement,
    r: Seq<FieldElement>,
    om: Seq<FieldElement>,
    off: int,
    x: int,
    k: nat,
) -> FieldElement
    decreases k,
{
    if k == 0 {
        init
    } else {
        let prev = beta_entry(init, r, om, off, x, (k - 1) as nat);
        if bit(x, (k - 1) as nat) {
            fe_mul(prev, r[off + k - 1])
        } else {
            fe_mul(prev, om[off + k - 1])
        }
    }
}

/// `t` is `old` with its first `2^len` entries replaced by the table of the
/// point `r[off .. off + len]`, scaled by `init`.
pub open spec fn is_beta_table(
    t: Seq<FieldElement>,
    old: Seq<FieldElement>,
    init: FieldElement,
    r: Seq<FieldElement>,
    om: Seq<FieldElement>,
    off: int,
    len: nat,
) -> bool {
    &&& t.len() == old.len()
    &&& forall|x: int| 0 <= x < pow2(len) ==> #[trigger] t[x] == beta_entry(init, r, om, off, x, len)
    &&& forall|x: int| pow2(len) <= x < old.len() ==> #[trigger] t[x] == old[x]
}

/// Adding `2^i` to `x < 2^i` leaves the bits below `i` unchanged and sets bit `i`.
pub proof fn lemma_bits_of_sum(x: int, i: nat, m: nat)
    requires
        0 <= x < pow2(i),
        m <= i,
    ensures
        m < i ==> (bit(x + pow2(i), m) == bit(x, m)),
        m == i ==> bit(x + pow2(i), m) && !bit(x, m),
{
    vstd::arithmetic::power2::lemma_pow2_pos(m);
    vstd::arithmetic::power2::lemma_pow2_pos(i);
    if m < i {
        vstd::arithmetic::power2::lemma_pow2_adds(m, (i - m) as nat);
        let q = pow2((i - m) as nat) as int;
        let d = pow2(m) as int;
        assert(pow2(i) as int == d * q);
        vstd::arithmetic::div_mod::lemma_hoist_over_denominator(x, q, d as nat);
        assert(x + q * d == x + pow2(i));
        vstd::arithmetic::power2::lemma_pow2_unfold((i - m) as nat);
        vstd::arithmetic::div_mod::lemma_mod_multiples_vanish(pow2((i - m - 1) as nat) as int, x / d, 2);
    } else {
        vstd::arithmetic::div_mod::lemma_div_plus_one(x, pow2(i) as int);
        vstd::arithmetic::div_mod::lemma_basic_div(x, pow2(i) as int);
    }
}

/// Entries of indices that agree on the bits below `k` agree.
proof fn lemma_beta_entry_high(
    init: FieldElement,
    r: Seq<FieldElement>,
    om: Seq<FieldElement>,
    off: int,
    x: int,
    i: nat,
    k: nat,
)
    requires
        0 <= x < pow2(i),
        k <= i,
    ensures
        beta_entry(init, r, om, off, x + pow2(i), k) == beta_entry(init, r, om, off, x, k),
    decreases k,
{
    if k > 0 {
        lemma_beta_entry_high(init, r, om, off, x, i, (k - 1) as nat);
        lemma_bits_of_sum(x, i, (k - 1) as nat);
    }
}

/// Fills `t[0 .. 2^len]` with the table of the point `r[off .. off + len]`
/// (and `om`, the coordinates `1 - r`), scaled by `init`.
pub fn fill_beta_table(
    t: &mut Vec<FieldElement>,
    init: FieldElement,
    r: &[FieldElement],
    om: &[FieldElement],
    off: usize,
    len: usize,
)
    requires
        pow2(len as nat) <= old(t)@.len(),
        off + len <= r@.len(),
        off + len <= om@.len(),
    ensures
        final(t)@.len() == old(t)@.len(),
        forall|x: int|
            0 <= x < pow2(len as nat) ==> #[trigger] final(t)@[x] == beta_entry(
                init,
                r@,
                om@,
                off as int,
                x,
                len as nat,
            ),
        forall|x: int| pow2(len as nat) <= x < old(t)@.len() ==> #[trigger] final(t)@[x] == old(t)@[x],
{
    let ghost r0 = r@;
    let ghost om0 = om@;
    let ghost old_t = t@;
    let tlen = t.len();
    proof {
        vstd::arithmetic::power2::lemma2_to64();
        vstd::arithmetic::power2::lemma_pow2_pos(len as nat);
    }
    t.set(0, init);
    let mut i: usize = 0;
    let mut step: usize = 1;
    while i < len
        invariant
            i <= len,
            step == pow2(i as nat),
            pow2(len as nat) <= t@.len(),
            t@.len() == tlen,
            tlen == old_t.len(),
            off + len <= r.len(),
            off + len <= om.len(),
            r@ == r0,
            om@ == om0,
            forall|x: int| 0 <= x < step ==> #[trigger] t@[x] == beta_entry(init, r0, om0, off as int, x, i as nat),
            forall|x: int| pow2(len as nat) <= x < tlen ==> #[trigger] t@[x] == old_t[x],
        decreases len - i,
    {
        let ri = r[off + i];
        let oi = om[off + i];
        proof {
            vstd::arithmetic::power2::lemma_pow2_unfold((i + 1) as nat);
            if i + 1 < len {
                vstd::arithmetic::power2::lemma_pow2_strictly_increases((i + 1) as nat, len as nat);
            }
        }
        let ghost before = t@;
        let mut j: usize = 0;
        while j < step
            invariant
                j <= step,
                step == pow2(i as nat),
                2 * step <= pow2(len as nat),
                pow2(len as nat) <= t@.len(),
                t@.len() == tlen,
                before.len() == tlen,
                i < len,
                off + len <= r0.len(),
                off + len <= om0.len(),
                ri == r0[off + i],
                oi == om0[off + i],
                forall|x: int| 0 <= x < step ==> #[trigger] before[x] == beta_entry(init, r0, om0, off as int, x, i as nat),
                forall|x: int| 0 <= x < j ==> #[trigger] t@[x] == beta_entry(init, r0, om0, off as int, x, (i + 1) as nat),
                forall|x: int| 0 <= x < j ==> #[trigger] t@[x + step] == beta_entry(init, r0, om0, off as int, x + step, (i + 1) as nat),
                forall|x: int| j <= x < step ==> #[trigger] t@[x] == before[x],
                forall|x: int| 2 * step <= x < tlen ==> #[trigger] t@[x] == before[x],
            decreases step - j,
        {
            let cur = t[j];
            proof {
                lemma_bits_of_sum(j as int, i as nat, i as nat);
                lemma_beta_entry_high(init, r0, om0, off as int, j as int, i as nat, i as nat);
                assert(beta_entry(init, r0, om0, off as int, j + step, (i + 1) as nat) == fe_mul(
                    cur,
                    ri,
                ));
                assert(beta_entry(init, r0, om0, off as int, j as int, (i + 1) as nat) == fe_mul(
                    cur,
                    oi,
                ));
            }
            t.set(j + step, cur * ri);
            t.set(j, cur * oi);
            j += 1;
        }
        proof {
            assert forall|x: int| 0 <= x < 2 * step implies #[trigger] t@[x] == beta_entry(
                init,
                r0,
                om0,
                off as int,
                x,
                (i + 1) as nat,
            ) by {
                if x >= step {
                    assert(t@[(x - step) + step] == t@[x]);
                }
            }
        }
        i += 1;
        step = step * 2;
    }
}

} // verus!
