//! Radix-2 transforms between the coefficients of a polynomial and its
//! values on a multiplicative subgroup of order `2^k`.
//!
//! The forward transform writes the coefficients, repeated, into a table of
//! `order` entries and combines them stage by stage from the widest stride
//! down: at stage `dep`, entry `k 2^dep + j` and entry `(k + order / 2^(dep
//! + 1)) 2^dep + j` become `l + w r` and `l - w r`, where `l` and `r` are the
//! entries `2k 2^dep + j` and `(2k + 1) 2^dep + j` of the previous stage and
//! `w` is twiddle factor `k gap 2^dep`.
use crate::constants::MAX_ORDER_FFT;
use crate::field::{fe_add, fe_mul, fe_nat, fe_one, fe_pow, fe_root_base, fe_square_times, fe_sub, fe_zero, prime, FieldElement, MAX_ORDER};
use crate::utility::{is_power_of_two, my_log, two_pow};
use vstd::arithmetic::power2::pow2;
use vstd::prelude::*;

verus! {

/// Scratch space of the transforms and the powers of a root of unity.
pub struct ScratchPad {
    pub dst: Vec<Vec<FieldElement>>,
    pub twiddle_factor: Vec<FieldElement>,
    pub inv_twiddle_factor: Vec<FieldElement>,
    pub twiddle_factor_size: usize,
}

/// The first table of the forward transform: the coefficients repeated
/// over `order` entries.
pub open spec fn fft_leaves(coefs: Seq<FieldElement>, order: nat) -> Seq<FieldElement> {
    Seq::new(order, |x: int| coefs[x % (coefs.len() as int)])
}

/// The table after the stages `log_c - 1` down to `dep` of the forward
/// transform of `coefs` (`2^log_c` of them) onto `2^log_order` points, with
/// twiddle factors `tw` read at stride `gap_unit 2^dep`.
pub open spec fn fft_stage(
    coefs: Seq<FieldElement>,
    tw: Seq<FieldElement>,
    gap_unit: int,
    log_order: nat,
    log_c: nat,
    dep: nat,
) -> Seq<FieldElement>
    decreases log_c - dep,
{
    let order = pow2(log_order);
    if dep >= log_c {
        fft_leaves(coefs, order)
    } else {
        let pre = fft_stage(coefs, tw, gap_unit, log_order, log_c, dep + 1);
        let s = pow2(dep) as int;
        let half = (pow2((log_order - dep) as nat) / 2) as int;
        Seq::new(
            order,
            |x: int|
                {
                    let j = x % s;
                    let kk = x / s;
                    let k = if kk < half {
                        kk
                    } else {
                        kk - half
                    };
                    let l = pre[k * (2 * s) + j];
                    let r = fe_mul(tw[k * (gap_unit * s)], pre[k * (2 * s) + s + j]);
                    if kk < half {
                        fe_add(l, r)
                    } else {
                        fe_sub(l, r)
                    }
                },
        )
    }
}

/// The forward transform of `coefs` onto `2^log_order` points.
pub open spec fn fft_spec(coefs: Seq<FieldElement>, tw: Seq<FieldElement>, gap_unit: int, log_order: nat, log_c: nat) -> Seq<
    FieldElement,
> {
    fft_stage(coefs, tw, gap_unit, log_order, log_c, 0)
}

/// `k 2 s + s + j < 2^n` and `k 2 s + j < 2^n` for the entries of a stage.
proof fn lemma_stage_index(x: int, s: int, half: int, order: int)
    requires
        s >= 1,
        half >= 1,
        order == 2 * half * s,
        0 <= x < order,
    ensures
        ({
            let j = x % s;
            let kk = x / s;
            let k = if kk < half {
                kk
            } else {
                kk - half
            };
            &&& 0 <= j < s
            &&& 0 <= kk < 2 * half
            &&& 0 <= k < half
            &&& 0 <= k * (2 * s) + j
            &&& k * (2 * s) + s + j < order
        }),
{
    let j = x % s;
    let kk = x / s;
    vstd::arithmetic::div_mod::lemma_fundamental_div_mod(x, s);
    vstd::arithmetic::div_mod::lemma_mod_bound(x, s);
    assert(kk < 2 * half) by (nonlinear_arith)
        requires
            x == s * kk + j,
            0 <= j,
            x < 2 * half * s,
            s >= 1,
    ;
    assert(kk >= 0) by (nonlinear_arith)
        requires
            x == s * kk + j,
            j < s,
            x >= 0,
            s >= 1,
    ;
    let k = if kk < half {
        kk
    } else {
        kk - half
    };
    assert(k * (2 * s) + s + j < order) by (nonlinear_arith)
        requires
            0 <= k < half,
            0 <= j < s,
            order == 2 * half * s,
    ;
    assert(k * (2 * s) >= 0) by (nonlinear_arith)
        requires
            0 <= k,
            s >= 1,
    ;
}

/// One stage of the forward transform, from the table `pre`.
fn fft_one_stage(
    pre: &Vec<FieldElement>,
    tw: &Vec<FieldElement>,
    gap_unit: usize,
    log_order: usize,
    dep: usize,
    spec_pre: Ghost<Seq<FieldElement>>,
) -> (cur: Vec<FieldElement>)
    requires
        dep < log_order,
        pow2(log_order as nat) <= usize::MAX,
        pre@ == spec_pre@,
        pre@.len() == pow2(log_order as nat),
        gap_unit * (pow2(log_order as nat) / 2) < tw@.len(),
    ensures
        cur@ == ({
            let order = pow2(log_order as nat);
            let s = pow2(dep as nat) as int;
            let half = (pow2((log_order - dep) as nat) / 2) as int;
            Seq::new(
                order,
                |x: int|
                    {
                        let j = x % s;
                        let kk = x / s;
                        let k = if kk < half {
                            kk
                        } else {
                            kk - half
                        };
                        let l = spec_pre@[k * (2 * s) + j];
                        let r = fe_mul(tw@[k * (gap_unit * s)], spec_pre@[k * (2 * s) + s + j]);
                        if kk < half {
                            fe_add(l, r)
                        } else {
                            fe_sub(l, r)
                        }
                    },
            )
        }),
{
    let ghost order = pow2(log_order as nat);
    let ghost target = {
        let s = pow2(dep as nat) as int;
        let half = (pow2((log_order - dep) as nat) / 2) as int;
        Seq::new(
            order,
            |x: int|
                {
                    let j = x % s;
                    let kk = x / s;
                    let k = if kk < half {
                        kk
                    } else {
                        kk - half
                    };
                    let l = spec_pre@[k * (2 * s) + j];
                    let r = fe_mul(tw@[k * (gap_unit * s)], spec_pre@[k * (2 * s) + s + j]);
                    if kk < half {
                        fe_add(l, r)
                    } else {
                        fe_sub(l, r)
                    }
                },
        )
    };
    proof {
        vstd::arithmetic::power2::lemma_pow2_pos(dep as nat);
        vstd::arithmetic::power2::lemma_pow2_adds(dep as nat, (log_order - dep) as nat);
        vstd::arithmetic::power2::lemma_pow2_unfold((log_order - dep) as nat);
        vstd::arithmetic::power2::lemma_pow2_pos((log_order - dep - 1) as nat);
        vstd::arithmetic::power2::lemma_pow2_strictly_increases(dep as nat, log_order as nat);
        if dep > 0 {
            vstd::arithmetic::power2::lemma_pow2_strictly_increases((log_order - dep) as nat, log_order as nat);
        }
    }
    let n = pre.len();
    let twl = tw.len();
    let s = two_pow(dep);
    let width = two_pow(log_order - dep);
    let half = width / 2;
    proof {
        assert(n == 2 * half * s) by (nonlinear_arith)
            requires
                n == pow2(dep as nat) * pow2((log_order - dep) as nat),
                s == pow2(dep as nat),
                width == pow2((log_order - dep) as nat),
                width == 2 * pow2((log_order - dep - 1) as nat),
                half == width / 2,
        ;
        assert(gap_unit * s == gap_unit * pow2(dep as nat));
    }
    let mut cur: Vec<FieldElement> = Vec::new();
    let mut x: usize = 0;
    while x < n
        invariant
            x <= n,
            n == pre@.len(),
            n == order,
            n == 2 * half * s,
            s == pow2(dep as nat),
            s >= 1,
            half >= 1,
            half == (pow2((log_order - dep) as nat) / 2) as int,
            pre@ == spec_pre@,
            target.len() == n,
            gap_unit * (n / 2) < tw@.len(),
            twl == tw@.len(),
            target == ({
                let s = pow2(dep as nat) as int;
                let half = (pow2((log_order - dep) as nat) / 2) as int;
                Seq::new(
                    order,
                    |x: int|
                        {
                            let j = x % s;
                            let kk = x / s;
                            let k = if kk < half {
                                kk
                            } else {
                                kk - half
                            };
                            let l = spec_pre@[k * (2 * s) + j];
                            let r = fe_mul(tw@[k * (gap_unit * s)], spec_pre@[k * (2 * s) + s + j]);
                            if kk < half {
                                fe_add(l, r)
                            } else {
                                fe_sub(l, r)
                            }
                        },
                )
            }),
            cur@ == target.subrange(0, x as int),
        decreases n - x,
    {
        proof {
            lemma_stage_index(x as int, s as int, half as int, n as int);
        }
        let j = x % s;
        let kk = x / s;
        let k = if kk < half {
            kk
        } else {
            kk - half
        };
        proof {
            assert(k * (gap_unit * s) < tw@.len() && gap_unit * s <= gap_unit * (n / 2) && k * (2 * s) <= n && 2 * s <= n) by (nonlinear_arith)
                requires
                    0 <= k < half,
                    n == 2 * half * s,
                    gap_unit * (n / 2) < tw@.len(),
                    s >= 1,
                    half >= 1,
            ;
        }
        let l = pre[k * (2 * s) + j];
        let r = tw[k * (gap_unit * s)] * pre[k * (2 * s) + s + j];
        let v = if kk < half {
            l + r
        } else {
            l - r
        };
        cur.push(v);
        proof {
            assert(cur@ =~= target.subrange(0, x + 1));
        }
        x += 1;
    }
    assert(cur@ =~= target);
    cur
}

/// The exponent `k` with `2^k == n`, for a power of two `n`.
pub open spec fn log_of(n: int) -> nat {
    choose|k: nat| pow2(k) == n
}

/// `2^a == 2^b` only for `a == b`.
proof fn lemma_pow2_injective(a: nat, b: nat)
    requires
        pow2(a) == pow2(b),
    ensures
        a == b,
{
    if a < b {
        vstd::arithmetic::power2::lemma_pow2_strictly_increases(a, b);
    } else if b < a {
        vstd::arithmetic::power2::lemma_pow2_strictly_increases(b, a);
    }
}

/// `log_of(2^k) == k`.
pub proof fn lemma_log_of(k: nat)
    ensures
        log_of(pow2(k) as int) == k,
{
    let n = pow2(k) as int;
    assert(exists|j: nat| pow2(j) == n);
    let j = log_of(n);
    lemma_pow2_injective(j, k);
}

/// `base` with its first `n` entries taken from `top`.
pub open spec fn with_prefix(base: Seq<FieldElement>, top: Seq<FieldElement>, n: int) -> Seq<FieldElement> {
    Seq::new(base.len(), |x: int| if x < n { top[x] } else { base[x] })
}

/// The scratch tables after a forward transform: the first `order` entries
/// of table `0` hold the last stage and, when there was a stage, those of
/// table `1` the stage before it (or the repeated coefficients); table `2`
/// and the twiddle factors are kept.
pub open spec fn scratch_after(
    sp: ScratchPad,
    after: ScratchPad,
    coefs: Seq<FieldElement>,
    tw: Seq<FieldElement>,
    order: usize,
    coefficient_len: usize,
) -> bool {
    let gap_unit = (sp.twiddle_factor_size / order) as int;
    let lo = log_of(order as int);
    let lc = log_of(coefficient_len as int);
    &&& after.twiddle_factor == sp.twiddle_factor
    &&& after.inv_twiddle_factor == sp.inv_twiddle_factor
    &&& after.twiddle_factor_size == sp.twiddle_factor_size
    &&& after.dst@.len() == 3
    &&& after.dst@[0]@ == with_prefix(sp.dst@[0]@, fft_spec(coefs, tw, gap_unit, lo, lc), order as int)
    &&& after.dst@[1]@ == (if lc >= 1 {
        with_prefix(sp.dst@[1]@, fft_stage(coefs, tw, gap_unit, lo, lc, 1), order as int)
    } else {
        sp.dst@[1]@
    })
    &&& after.dst@[2]@ == sp.dst@[2]@
}

/// The twiddle factors that a transform uses: the given ones, or the scratch
/// pad's.
pub open spec fn chosen_twiddles(tw: Option<Vec<FieldElement>>, sp: ScratchPad) -> Seq<FieldElement> {
    match tw {
        Some(t) => t@,
        None => sp.twiddle_factor@,
    }
}

/// The forward transform can run: `order` is `2^k` with `1 <= k <
/// MAX_ORDER_FFT` and `root_of_unity^(2^k) == 1`, the number of coefficients
/// is a power of two up to `order`, the scratch tables hold `order` entries,
/// and, unless there is a single coefficient, the twiddle factors cover half
/// the order at their stride.
pub open spec fn fft_ready(
    coefficients: Seq<FieldElement>,
    coefficient_len: usize,
    order: usize,
    root_of_unity: FieldElement,
    result_len: int,
    sp: ScratchPad,
    tw: Seq<FieldElement>,
) -> bool {
    &&& coefficient_len == coefficients.len()
    &&& exists|k: nat|
        1 <= k < MAX_ORDER_FFT && pow2(k) == order && #[trigger] fe_square_times(root_of_unity, k) == fe_one()
    &&& is_power_of_two(coefficient_len as nat)
    &&& coefficient_len <= order
    &&& sp.dst@.len() == 3
    &&& forall|i: int| 0 <= i < 3 ==> (#[trigger] sp.dst@[i])@.len() >= order
    &&& order <= result_len
    &&& coefficient_len >= 2 ==> {
        &&& sp.twiddle_factor_size % order == 0
        &&& (sp.twiddle_factor_size / order) * (order / 2) < tw.len()
    }
}

/// `coefficients` evaluated, through the stages of the forward transform,
/// onto `order` points, written to `result[0 .. order]`.
pub fn fast_fourier_transform(
    coefficients: &[FieldElement],
    coefficient_len: usize,
    order: usize,
    root_of_unity: FieldElement,
    result: &mut [FieldElement],
    scratch_pad: &mut ScratchPad,
    twiddle_fac: Option<Vec<FieldElement>>,
)
    requires
        fft_ready(
            coefficients@,
            coefficient_len,
            order,
            root_of_unity,
            old(result)@.len() as int,
            *old(scratch_pad),
            chosen_twiddles(twiddle_fac, *old(scratch_pad)),
        ),
    ensures
        final(result)@.len() == old(result)@.len(),
        forall|x: int|
            0 <= x < old(result)@.len() ==> #[trigger] final(result)@[x] == (if x < order {
                fft_spec(
                    coefficients@,
                    chosen_twiddles(twiddle_fac, *old(scratch_pad)),
                    (old(scratch_pad).twiddle_factor_size / order) as int,
                    log_of(order as int),
                    log_of(coefficient_len as int),
                )[x]
            } else {
                old(result)@[x]
            }),
        scratch_after(
            *old(scratch_pad),
            *final(scratch_pad),
            coefficients@,
            chosen_twiddles(twiddle_fac, *old(scratch_pad)),
            order,
            coefficient_len,
        ),
{
    let ghost tws = chosen_twiddles(twiddle_fac, *scratch_pad);
    let tw: Vec<FieldElement> = match twiddle_fac {
        Some(t) => t,
        None => copy_elements(&scratch_pad.twiddle_factor),
    };
    let log_order = match my_log(order) {
        Ok(k) => k,
        Err(_) => {
            proof {
                crate::utility::lemma_pow2_is_power_of_two(log_of(order as int));
                let k = choose|k: nat| 1 <= k < MAX_ORDER_FFT && pow2(k) == order && #[trigger] fe_square_times(root_of_unity, k) == fe_one();
                crate::utility::lemma_pow2_is_power_of_two(k);
            }
            return;
        },
    };
    let log_c = match my_log(coefficient_len) {
        Ok(k) => k,
        Err(_) => {
            return;
        },
    };
    proof {
        lemma_log_of(log_order as nat);
        lemma_log_of(log_c as nat);
        if log_c > log_order {
            vstd::arithmetic::power2::lemma_pow2_strictly_increases(log_order as nat, log_c as nat);
        }
        let k = choose|k: nat| 1 <= k < MAX_ORDER_FFT && pow2(k) == order && #[trigger] fe_square_times(root_of_unity, k) == fe_one();
        lemma_pow2_injective(k, log_order as nat);
        if log_c >= 1 {
            vstd::arithmetic::power2::lemma_pow2_unfold(log_c as nat);
            vstd::arithmetic::power2::lemma_pow2_pos((log_c - 1) as nat);
        }
    }
    let ts = scratch_pad.twiddle_factor_size;
    let gap_unit = ts / order;
    let mut table = repeat_coefficients(coefficients, order);
    let mut dep = log_c;
    let mut prev: Vec<FieldElement> = Vec::new();
    while dep > 0
        invariant
            dep <= log_c <= log_order,
            dep < log_c ==> prev@ == fft_stage(coefficients@, tws, gap_unit as int, log_order as nat, log_c as nat, (dep + 1) as nat),
            log_order >= 1,
            pow2(log_order as nat) == order,
            pow2(log_c as nat) == coefficient_len,
            coefficient_len == coefficients@.len(),
            tw@ == tws,
            gap_unit == ts / order,
            log_c >= 1 ==> gap_unit * (order / 2) < tw@.len(),
            table@ == fft_stage(coefficients@, tws, gap_unit as int, log_order as nat, log_c as nat, dep as nat),
        decreases dep,
    {
        let ghost pre = table@;
        let next = fft_one_stage(&table, &tw, gap_unit, log_order, dep - 1, Ghost(pre));
        proof {
            assert(next@ =~= fft_stage(coefficients@, tws, gap_unit as int, log_order as nat, log_c as nat, (dep - 1) as nat));
        }
        prev = table;
        table = next;
        dep -= 1;
    }
    proof {
        lemma_fft_stage_len(coefficients@, tws, gap_unit as int, log_order as nat, log_c as nat, 1);
    }
    let d0 = with_prefix_exec(&scratch_pad.dst[0], &table, order);
    let d1 = if log_c >= 1 {
        with_prefix_exec(&scratch_pad.dst[1], &prev, order)
    } else {
        copy_elements(&scratch_pad.dst[1])
    };
    let d2 = copy_elements(&scratch_pad.dst[2]);
    scratch_pad.dst = vec![d0, d1, d2];
    let ghost r0 = result@;
    let mut x: usize = 0;
    while x < order
        invariant
            x <= order,
            order <= result@.len(),
            result@.len() == r0.len(),
            table@.len() == order,
            forall|i: int| 0 <= i < r0.len() ==> #[trigger] result@[i] == (if i < x { table@[i] } else { r0[i] }),
        decreases order - x,
    {
        result[x] = table[x];
        x += 1;
    }
}

/// Every stage has `2^log_order` entries.
pub proof fn lemma_fft_stage_len(coefs: Seq<FieldElement>, tw: Seq<FieldElement>, gap_unit: int, log_order: nat, log_c: nat, dep: nat)
    ensures
        fft_stage(coefs, tw, gap_unit, log_order, log_c, dep).len() == pow2(log_order),
{
}

/// `base` with its first `n` entries taken from `top`.
fn with_prefix_exec(base: &Vec<FieldElement>, top: &Vec<FieldElement>, n: usize) -> (r: Vec<FieldElement>)
    requires
        n <= top@.len(),
        n <= base@.len(),
    ensures
        r@ == with_prefix(base@, top@, n as int),
{
    let mut r: Vec<FieldElement> = Vec::new();
    let mut x: usize = 0;
    while x < base.len()
        invariant
            x <= base@.len(),
            n <= top@.len(),
            r@ == with_prefix(base@, top@, n as int).subrange(0, x as int),
        decreases base@.len() - x,
    {
        if x < n {
            r.push(top[x]);
        } else {
            r.push(base[x]);
        }
        proof {
            assert(r@ =~= with_prefix(base@, top@, n as int).subrange(0, x + 1));
        }
        x += 1;
    }
    assert(r@ =~= with_prefix(base@, top@, n as int));
    r
}

/// The coefficients repeated over `order` entries.
fn repeat_coefficients(coefficients: &[FieldElement], order: usize) -> (t: Vec<FieldElement>)
    requires
        coefficients@.len() > 0,
    ensures
        t@ == fft_leaves(coefficients@, order as nat),
{
    let n = coefficients.len();
    let mut t: Vec<FieldElement> = Vec::new();
    let mut x: usize = 0;
    while x < order
        invariant
            x <= order,
            n == coefficients@.len(),
            n > 0,
            t@ == fft_leaves(coefficients@, order as nat).subrange(0, x as int),
        decreases order - x,
    {
        t.push(coefficients[x % n]);
        proof {
            assert(t@ =~= fft_leaves(coefficients@, order as nat).subrange(0, x + 1));
        }
        x += 1;
    }
    assert(t@ =~= fft_leaves(coefficients@, order as nat));
    t
}

fn copy_elements(v: &Vec<FieldElement>) -> (c: Vec<FieldElement>)
    ensures
        c@ == v@,
{
    let mut c: Vec<FieldElement> = Vec::new();
    let mut k: usize = 0;
    while k < v.len()
        invariant
            k <= v@.len(),
            c@ == v@.subrange(0, k as int),
        decreases v@.len() - k,
    {
        c.push(v[k]);
        k += 1;
    }
    assert(c@ =~= v@);
    c
}

/// `x^n`, multiplied from the left: `((1 x) x) ... x`.
pub open spec fn pow_right(x: FieldElement, n: nat) -> FieldElement
    decreases n,
{
    if n == 0 {
        fe_one()
    } else {
        fe_mul(pow_right(x, (n - 1) as nat), x)
    }
}

/// `x^(2^k - 1)` as the product `x x^2 x^4 ... x^(2^(k - 1))`.
pub open spec fn square_chain(x: FieldElement, k: nat) -> FieldElement
    decreases k,
{
    if k == 0 {
        fe_one()
    } else {
        fe_mul(square_chain(x, (k - 1) as nat), fe_square_times(x, (k - 1) as nat))
    }
}

/// `p^2 - 2`, the exponent of the inverse.
pub open spec fn inverse_exponent() -> nat {
    (prime() * prime() - 2) as nat
}

/// The number of coefficients that the inverse transform makes: at most
/// `order`.
pub open spec fn ifft_count(coefficient_len: usize, order: usize) -> int {
    if coefficient_len > order {
        order as int
    } else {
        coefficient_len as int
    }
}

/// The values that the inverse transform reads: every `order / count`-th
/// value, or all of them when `count == order`.
pub open spec fn ifft_samples(evaluations: Seq<FieldElement>, count: int, order: int) -> Seq<FieldElement> {
    if count != order {
        Seq::new(count as nat, |i: int| evaluations[i * (order / count)])
    } else {
        evaluations
    }
}

/// The root of unity of the inverse transform: `root^(order / count)`
/// inverted through `x^(2^k - 1)`, `2^k == count`.
pub open spec fn ifft_root(root: FieldElement, count: int, order: int) -> FieldElement {
    square_chain(pow_right(root, (order / count) as nat), log_of(count))
}

/// `1 / count` as the inverse transform computes it.
pub open spec fn ifft_scale(count: int) -> FieldElement {
    fe_pow(fe_nat(count), inverse_exponent())
}

/// The inverse transform can run: the count is a power of two below
/// `2^MAX_ORDER_FFT`, the samples are there, the computed inverse root and
/// scale are inverses (as the transform checks), and the forward transform
/// of the samples with the scratch pad's inverse twiddle factors can run.
pub open spec fn ifft_ready(
    sp: ScratchPad,
    evaluations: Seq<FieldElement>,
    coefficient_len: usize,
    order: usize,
    root: FieldElement,
    dst_len: int,
) -> bool {
    let c = ifft_count(coefficient_len, order);
    let samples = ifft_samples(evaluations, c, order as int);
    &&& c >= 1
    &&& is_power_of_two(c as nat)
    &&& log_of(c) < MAX_ORDER_FFT
    &&& c != order ==> (c - 1) * ((order as int) / c) < evaluations.len()
    &&& fe_mul(ifft_root(root, c, order as int), pow_right(root, ((order as int) / c) as nat)) == fe_one()
    &&& fe_mul(ifft_scale(c), fe_nat(c)) == fe_nat(1)
    &&& fft_ready(samples, c as usize, c as usize, ifft_root(root, c, order as int), dst_len, sp, sp.inv_twiddle_factor@)
}

/// The coefficients of the polynomial of degree below `count` that takes the
/// values `evaluations` (sampled down to `count` points), written to
/// `dst[0 .. count]`: the forward transform with the inverse root, scaled
/// by `1 / count`.
pub fn inverse_fast_fourier_transform(
    scratch_pad: &mut ScratchPad,
    evaluations: &[FieldElement],
    coefficient_len: usize,
    order: usize,
    root_of_unity: FieldElement,
    dst: &mut [FieldElement],
)
    requires
        ifft_ready(*old(scratch_pad), evaluations@, coefficient_len, order, root_of_unity, old(dst)@.len() as int),
    ensures
        final(dst)@.len() == old(dst)@.len(),
        ({
            let c = ifft_count(coefficient_len, order);
            let samples = ifft_samples(evaluations@, c, order as int);
            forall|x: int|
                0 <= x < old(dst)@.len() ==> #[trigger] final(dst)@[x] == (if x < c {
                    fe_mul(
                        fft_spec(
                            samples,
                            old(scratch_pad).inv_twiddle_factor@,
                            (old(scratch_pad).twiddle_factor_size / (c as usize)) as int,
                            log_of(c),
                            log_of(c),
                        )[x],
                        ifft_scale(c),
                    )
                } else {
                    old(dst)@[x]
                })
        }),
        ({
            let c = ifft_count(coefficient_len, order);
            scratch_after(
                *old(scratch_pad),
                *final(scratch_pad),
                ifft_samples(evaluations@, c, order as int),
                old(scratch_pad).inv_twiddle_factor@,
                c as usize,
                c as usize,
            )
        }),
{
    let ghost c_spec = ifft_count(coefficient_len, order);
    let c = if coefficient_len > order { order } else { coefficient_len };
    let stride = order / c;
    let mut samples: Vec<FieldElement> = Vec::new();
    if c != order {
        let el = evaluations.len();
        let mut i: usize = 0;
        while i < c
            invariant
                i <= c,
                el == evaluations@.len(),
                c >= 1,
                c == c_spec,
                stride == order / c,
                (c - 1) * stride < evaluations@.len(),
                samples@ == Seq::new(c as nat, |k: int| evaluations@[k * (order / c)]).subrange(0, i as int),
            decreases c - i,
        {
            assert(i * stride <= (c - 1) * stride) by (nonlinear_arith)
                requires i < c;
            samples.push(evaluations[i * stride]);
            proof {
                assert(samples@ =~= Seq::new(c as nat, |k: int| evaluations@[k * (order / c)]).subrange(0, i + 1));
            }
            i += 1;
        }
        assert(samples@ =~= Seq::new(c as nat, |k: int| evaluations@[k * (order / c)]));
    } else {
        let mut i: usize = 0;
        while i < evaluations.len()
            invariant
                i <= evaluations@.len(),
                samples@ == evaluations@.subrange(0, i as int),
            decreases evaluations@.len() - i,
        {
            samples.push(evaluations[i]);
            i += 1;
        }
        assert(samples@ =~= evaluations@);
    }
    let mut new_rou = FieldElement::real_one();
    let mut t: usize = 0;
    while t < stride
        invariant
            t <= stride,
            new_rou == pow_right(root_of_unity, t as nat),
        decreases stride - t,
    {
        new_rou = new_rou * root_of_unity;
        t += 1;
    }
    let log_c = match my_log(c) {
        Ok(k) => k,
        Err(_) => {
            return;
        },
    };
    proof {
        lemma_log_of(log_c as nat);
    }
    let mut inv_rou = FieldElement::real_one();
    let mut tmp = new_rou;
    let mut k: usize = 0;
    while k < log_c
        invariant
            k <= log_c,
            inv_rou == square_chain(new_rou, k as nat),
            tmp == fe_square_times(new_rou, k as nat),
        decreases log_c - k,
    {
        inv_rou = inv_rou * tmp;
        tmp = tmp * tmp;
        k += 1;
    }
    let inv_tw = copy_elements(&scratch_pad.inv_twiddle_factor);
    fast_fourier_transform(samples.as_slice(), c, c, inv_rou, dst, scratch_pad, Some(inv_tw));
    let inv_n = FieldElement::from_real(c as u64).inverse();
    let ghost d1 = dst@;
    let mut i: usize = 0;
    while i < c
        invariant
            i <= c,
            c <= d1.len(),
            dst@.len() == d1.len(),
            forall|x: int| 0 <= x < d1.len() ==> #[trigger] dst@[x] == (if x < i { fe_mul(d1[x], inv_n) } else { d1[x] }),
        decreases c - i,
    {
        let v = dst[i];
        dst[i] = v * inv_n;
        i += 1;
    }
}

impl ScratchPad {
    /// Scratch tables of `order` zeros and the powers `0 .. order` of the
    /// root of unity of order `order` and of its inverse.
    pub fn from_order(order: usize) -> (r: ScratchPad)
        requires
            is_power_of_two(order as nat),
            log_of(order as int) < MAX_ORDER,
        ensures
            r.dst@.len() == 3,
            forall|i: int| 0 <= i < 3 ==> (#[trigger] r.dst@[i])@ == Seq::new(order as nat, |k: int| fe_zero()),
            r.twiddle_factor_size == order,
            ({
                let rou = fe_square_times(fe_root_base(), (MAX_ORDER - log_of(order as int)) as nat);
                let inv_rou = fe_pow(rou, inverse_exponent());
                &&& r.twiddle_factor@ == Seq::new(order as nat, |k: int| fe_pow(rou, k as nat))
                &&& r.inv_twiddle_factor@ == Seq::new(order as nat, |k: int| fe_pow(inv_rou, k as nat))
            }),
    {
        let mut dst: Vec<Vec<FieldElement>> = Vec::new();
        let mut d: usize = 0;
        while d < 3
            invariant
                d <= 3,
                dst@.len() == d,
                forall|i: int| 0 <= i < d ==> (#[trigger] dst@[i])@ == Seq::new(order as nat, |k: int| fe_zero()),
            decreases 3 - d,
        {
            let mut z: Vec<FieldElement> = Vec::new();
            let mut k: usize = 0;
            while k < order
                invariant
                    k <= order,
                    z@ == Seq::new(k as nat, |t: int| fe_zero()),
                decreases order - k,
            {
                z.push(FieldElement::zero());
                k += 1;
            }
            dst.push(z);
            d += 1;
        }
        let log_order = match my_log(order) {
            Ok(k) => k,
            Err(_) => {
                return ScratchPad { dst, twiddle_factor: Vec::new(), inv_twiddle_factor: Vec::new(), twiddle_factor_size: order };
            },
        };
        proof {
            lemma_log_of(log_order as nat);
        }
        let rou = match FieldElement::get_root_of_unity(log_order) {
            Ok(x) => x,
            Err(_) => {
                return ScratchPad { dst, twiddle_factor: Vec::new(), inv_twiddle_factor: Vec::new(), twiddle_factor_size: order };
            },
        };
        let inv_rou = rou.inverse();
        let twiddle_factor = powers(rou, order);
        let inv_twiddle_factor = powers(inv_rou, order);
        ScratchPad { dst, twiddle_factor, inv_twiddle_factor, twiddle_factor_size: order }
    }
}

/// `x^0, x^1, ..., x^(n - 1)`.
fn powers(x: FieldElement, n: usize) -> (r: Vec<FieldElement>)
    ensures
        r@ == Seq::new(n as nat, |k: int| fe_pow(x, k as nat)),
{
    let mut r: Vec<FieldElement> = Vec::new();
    let mut cur = FieldElement::real_one();
    let mut k: usize = 0;
    while k < n
        invariant
            k <= n,
            cur == fe_pow(x, k as nat),
            r@ == Seq::new(k as nat, |t: int| fe_pow(x, t as nat)),
        decreases n - k,
    {
        r.push(cur);
        proof {
            assert(r@ =~= Seq::new((k + 1) as nat, |t: int| fe_pow(x, t as nat)));
        }
        cur = x * cur;
        k += 1;
    }
    r
}

/// `x` squared `k` times.
fn square_times(x: FieldElement, k: usize) -> (r: FieldElement)
    ensures
        r == fe_square_times(x, k as nat),
{
    let mut y = x;
    let mut i: usize = 0;
    while i < k
        invariant
            i <= k,
            y == fe_square_times(x, i as nat),
        decreases k - i,
    {
        y = y * y;
        i += 1;
    }
    y
}

/// Whether the forward transform can run on these arguments.
pub fn fft_ready_check(
    coefficients: &[FieldElement],
    coefficient_len: usize,
    order: usize,
    root_of_unity: FieldElement,
    result_len: usize,
    sp: &ScratchPad,
    tw: &Vec<FieldElement>,
) -> (r: bool)
    ensures
        r == fft_ready(coefficients@, coefficient_len, order, root_of_unity, result_len as int, *sp, tw@),
{
    if coefficient_len != coefficients.len() {
        return false;
    }
    let k = match my_log(order) {
        Ok(k) => k,
        Err(_) => {
            proof {
                if exists|k: nat| 1 <= k < MAX_ORDER_FFT && pow2(k) == order && #[trigger] fe_square_times(root_of_unity, k) == fe_one() {
                    let k = choose|k: nat| 1 <= k < MAX_ORDER_FFT && pow2(k) == order && #[trigger] fe_square_times(root_of_unity, k) == fe_one();
                    crate::utility::lemma_pow2_is_power_of_two(k);
                }
            }
            return false;
        },
    };
    let rooted = 1 <= k && k < MAX_ORDER_FFT && square_times(root_of_unity, k) == FieldElement::real_one();
    proof {
        if exists|j: nat| 1 <= j < MAX_ORDER_FFT && pow2(j) == order && #[trigger] fe_square_times(root_of_unity, j) == fe_one() {
            let j = choose|j: nat| 1 <= j < MAX_ORDER_FFT && pow2(j) == order && #[trigger] fe_square_times(root_of_unity, j) == fe_one();
            lemma_pow2_injective(j, k as nat);
        }
        if rooted {
            assert(fe_square_times(root_of_unity, k as nat) == fe_one());
        }
    }
    if !rooted {
        return false;
    }
    proof {
        assert(1 <= k < MAX_ORDER_FFT && pow2(k as nat) == order && fe_square_times(root_of_unity, k as nat) == fe_one());
    }
    match my_log(coefficient_len) {
        Ok(_) => {},
        Err(_) => {
            return false;
        },
    }
    if coefficient_len > order {
        return false;
    }
    if sp.dst.len() != 3 {
        return false;
    }
    let mut d: usize = 0;
    while d < 3
        invariant
            d <= 3,
            sp.dst@.len() == 3,
            forall|i: int| 0 <= i < d ==> (#[trigger] sp.dst@[i])@.len() >= order,
        decreases 3 - d,
    {
        if sp.dst[d].len() < order {
            return false;
        }
        d += 1;
    }
    if order > result_len {
        return false;
    }
    proof {
        assert(exists|k: nat|
            1 <= k < MAX_ORDER_FFT && pow2(k) == order && #[trigger] fe_square_times(root_of_unity, k) == fe_one());
        assert(sp.dst@.len() == 3);
        assert(forall|i: int| 0 <= i < 3 ==> (#[trigger] sp.dst@[i])@.len() >= order);
    }
    if coefficient_len >= 2 {
        let ts = sp.twiddle_factor_size;
        if ts % order != 0 {
            return false;
        }
        let tl = tw.len();
        match (ts / order).checked_mul(order / 2) {
            Some(m) => m < tl,
            None => false,
        }
    } else {
        true
    }
}

/// Whether the inverse transform can run on these arguments: the checks
/// that it makes itself (the count, the inverse root and the scale) and
/// those of the forward transform it calls.
pub fn ifft_ready_check(
    sp: &ScratchPad,
    evaluations: &[FieldElement],
    coefficient_len: usize,
    order: usize,
    root_of_unity: FieldElement,
    dst_len: usize,
) -> (r: bool)
    ensures
        r == ifft_ready(*sp, evaluations@, coefficient_len, order, root_of_unity, dst_len as int),
{
    let ghost c_spec = ifft_count(coefficient_len, order);
    let c = if coefficient_len > order {
        order
    } else {
        coefficient_len
    };
    if c < 1 {
        return false;
    }
    let log_c = match my_log(c) {
        Ok(k) => k,
        Err(_) => {
            return false;
        },
    };
    proof {
        lemma_log_of(log_c as nat);
    }
    if log_c >= MAX_ORDER_FFT {
        return false;
    }
    let stride = order / c;
    let mut samples: Vec<FieldElement> = Vec::new();
    if c != order {
        let el = evaluations.len();
        let last = match (c - 1).checked_mul(stride) {
            Some(m) => m,
            None => {
                proof {
                    assert(c_spec == c);
                    assert((c - 1) * ((order as int) / (c as int)) > usize::MAX);
                }
                return false;
            },
        };
        if last >= evaluations.len() {
            proof {
                assert(c_spec == c);
                assert((c - 1) * ((order as int) / (c as int)) == last);
            }
            return false;
        }
        let mut i: usize = 0;
        while i < c
            invariant
                i <= c,
                el == evaluations@.len(),
                c >= 1,
                c == c_spec,
                c != order,
                stride == order / c,
                (c - 1) * stride < evaluations@.len(),
                samples@ == Seq::new(c as nat, |k: int| evaluations@[k * (order / c)]).subrange(0, i as int),
            decreases c - i,
        {
            assert(i * stride <= (c - 1) * stride) by (nonlinear_arith)
                requires
                    i < c,
            ;
            samples.push(evaluations[i * stride]);
            proof {
                assert(samples@ =~= Seq::new(c as nat, |k: int| evaluations@[k * (order / c)]).subrange(0, i + 1));
            }
            i += 1;
        }
        assert(samples@ =~= Seq::new(c as nat, |k: int| evaluations@[k * (order / c)]));
    } else {
        let mut i: usize = 0;
        while i < evaluations.len()
            invariant
                i <= evaluations@.len(),
                samples@ == evaluations@.subrange(0, i as int),
            decreases evaluations@.len() - i,
        {
            samples.push(evaluations[i]);
            i += 1;
        }
        assert(samples@ =~= evaluations@);
    }
    let mut new_rou = FieldElement::real_one();
    let mut t: usize = 0;
    while t < stride
        invariant
            t <= stride,
            new_rou == pow_right(root_of_unity, t as nat),
        decreases stride - t,
    {
        new_rou = new_rou * root_of_unity;
        t += 1;
    }
    let mut inv_rou = FieldElement::real_one();
    let mut tmp = new_rou;
    let mut k: usize = 0;
    while k < log_c
        invariant
            k <= log_c,
            inv_rou == square_chain(new_rou, k as nat),
            tmp == fe_square_times(new_rou, k as nat),
        decreases log_c - k,
    {
        inv_rou = inv_rou * tmp;
        tmp = tmp * tmp;
        k += 1;
    }
    if inv_rou * new_rou != FieldElement::real_one() {
        return false;
    }
    let n = FieldElement::from_real(c as u64);
    if n.inverse() * n != FieldElement::from_real(1) {
        return false;
    }
    fft_ready_check(samples.as_slice(), c, c, inv_rou, dst_len, sp, &sp.inv_twiddle_factor)
}

} // verus!
