//! Small arithmetic helpers: base-2 logarithm of a power of two, minimum,
//! maximum and the next power of two.
use vstd::arithmetic::power2::{lemma2_to64, pow2};
use vstd::prelude::*;
use vstd::std_specs::cmp::PartialOrdSpec;

verus! {

/// `x` is `2^k` for some `k`.
pub open spec fn is_power_of_two(x: nat) -> bool
    decreases x,
{
    if x == 1 {
        true
    } else if x == 0 || x % 2 == 1 {
        false
    } else {
        is_power_of_two(x / 2)
    }
}

/// Every power of two is recognised.
pub proof fn lemma_pow2_is_power_of_two(k: nat)
    ensures
        is_power_of_two(pow2(k)),
    decreases k,
{
    vstd::arithmetic::power2::lemma_pow2_pos(k);
    if k == 0 {
        lemma2_to64();
    } else {
        vstd::arithmetic::power2::lemma_pow2_unfold(k);
        lemma_pow2_is_power_of_two((k - 1) as nat);
        assert(pow2(k) / 2 == pow2((k - 1) as nat));
        assert(pow2(k) % 2 == 0);
    }
}

#[derive(Debug, PartialEq, Eq, Structural, Clone, Copy)]
pub enum Log2Error {
    NotPowerOfTwo,
}

/// The exponent `k` with `x == 2^k`; an error when `x` is not a power of two.
pub fn my_log(x: usize) -> (r: Result<usize, Log2Error>)
    ensures
        r is Ok <==> is_power_of_two(x as nat),
        r matches Ok(k) ==> pow2(k as nat) == x,
        r matches Err(e) ==> e == Log2Error::NotPowerOfTwo,
{
    if x == 0 {
        return Err(Log2Error::NotPowerOfTwo);
    }
    let mut y = x;
    let mut k: usize = 0;
    proof {
        lemma2_to64();
    }
    while y % 2 == 0
        invariant
            0 < y <= x,
            k < 64,
            x as nat == y as nat * pow2(k as nat),
            is_power_of_two(x as nat) == is_power_of_two(y as nat),
        decreases y,
    {
        proof {
            vstd::arithmetic::power2::lemma_pow2_unfold((k + 1) as nat);
            assert(x as nat == (y / 2) as nat * pow2((k + 1) as nat)) by (nonlinear_arith)
                requires
                    x as nat == y as nat * pow2(k as nat),
                    pow2((k + 1) as nat) == 2 * pow2(k as nat),
                    y % 2 == 0,
            ;
            assert(y / 2 >= 1);
            vstd::arithmetic::power2::lemma_pow2_pos((k + 1) as nat);
            assert(pow2((k + 1) as nat) <= x) by (nonlinear_arith)
                requires
                    x as nat == (y / 2) as nat * pow2((k + 1) as nat),
                    y / 2 >= 1,
                    pow2((k + 1) as nat) > 0,
            ;
            if k + 1 > 64 {
                vstd::arithmetic::power2::lemma_pow2_strictly_increases(64, (k + 1) as nat);
            }
            lemma2_to64();
            assert(k + 1 < 64);
        }
        y = y / 2;
        k = k + 1;
    }
    if y == 1 {
        Ok(k)
    } else {
        Err(Log2Error::NotPowerOfTwo)
    }
}

/// The smaller of two values: `y` when `x > y`, else `x`.
pub fn min<T: PartialOrd>(x: T, y: T) -> (r: T)
    ensures
        r == x || r == y,
        T::obeys_partial_cmp_spec() ==> r == (if x.partial_cmp_spec(&y) == Some(
            core::cmp::Ordering::Greater,
        ) {
            y
        } else {
            x
        }),
{
    if x > y {
        y
    } else {
        x
    }
}

/// The larger of two values: `x` when `x > y`, else `y`.
pub fn max<T: PartialOrd>(x: T, y: T) -> (r: T)
    ensures
        r == x || r == y,
        T::obeys_partial_cmp_spec() ==> r == (if x.partial_cmp_spec(&y) == Some(
            core::cmp::Ordering::Greater,
        ) {
            x
        } else {
            y
        }),
{
    if x > y {
        x
    } else {
        y
    }
}

/// The least power of two `2^i`, `i < 32`, that is at least `x`.
pub fn smallest_pow2_larger_or_equal_to(x: usize) -> (r: usize)
    requires
        x <= 0x8000_0000,
    ensures
        exists|i: nat| i < 32 && r == #[trigger] pow2(i) && (i == 0 || pow2((i - 1) as nat) < x),
        r >= x,
{
    proof {
        lemma2_to64();
    }
    let mut i: usize = 0;
    let mut p: usize = 1;
    while i < 32
        invariant
            i <= 32,
            p == pow2(i as nat),
            x <= 0x8000_0000,
            forall|j: nat| j < i ==> pow2(j) < x,
        decreases 32 - i,
    {
        if p >= x {
            proof {
                if i > 0 {
                    assert(pow2((i - 1) as nat) < x);
                }
            }
            return p;
        }
        proof {
            vstd::arithmetic::power2::lemma_pow2_unfold((i + 1) as nat);
            if i >= 31 {
                if i > 31 {
                    vstd::arithmetic::power2::lemma_pow2_strictly_increases(31, i as nat);
                }
                lemma2_to64();
            }
            assert(i < 31);
            if i + 1 < 31 {
                vstd::arithmetic::power2::lemma_pow2_strictly_increases((i + 1) as nat, 31);
            }
            lemma2_to64();
        }
        p = p * 2;
        i += 1;
    }
    proof {
        assert(pow2(31) < x);
    }
    0
}

/// `2^k` as a machine word.
pub fn two_pow(k: usize) -> (r: usize)
    requires
        pow2(k as nat) <= usize::MAX,
    ensures
        r == pow2(k as nat),
{
    let mut r: usize = 1;
    let mut i: usize = 0;
    proof {
        lemma2_to64();
    }
    while i < k
        invariant
            i <= k,
            r == pow2(i as nat),
            pow2(k as nat) <= usize::MAX,
        decreases k - i,
    {
        proof {
            vstd::arithmetic::power2::lemma_pow2_unfold((i + 1) as nat);
            if i + 1 < k {
                vstd::arithmetic::power2::lemma_pow2_strictly_increases((i + 1) as nat, k as nat);
            }
        }
        r = r * 2;
        i += 1;
    }
    r
}

/// Whether `2^k <= bound`.
pub fn pow2_at_most(k: usize, bound: usize) -> (r: bool)
    ensures
        r == (pow2(k as nat) <= bound),
{
    if k >= usize::BITS as usize {
        proof {
            lemma2_to64();
            vstd::arithmetic::power2::lemma2_to64_rest();
            if k > usize::BITS {
                vstd::arithmetic::power2::lemma_pow2_strictly_increases(usize::BITS as nat, k as nat);
            }
        }
        return false;
    }
    proof {
        vstd::bits::lemma_usize_pow2_no_overflow(k as nat);
    }
    two_pow(k) <= bound
}

} // verus!
