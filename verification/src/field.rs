//! The field of the proof system: the quadratic extension `F_p[i] / (i^2 + 1)`
//! of the Mersenne prime field `F_p`, `p = 2^61 - 1`.  An element is
//! `real + img * i`; every operation returns the canonical representative
//! (both coordinates below `p`).
use vstd::arithmetic::div_mod::{
    lemma_add_mod_noop, lemma_fundamental_div_mod, lemma_mod_bound, lemma_mod_twice,
    lemma_mul_mod_noop, lemma_small_mod, lemma_sub_mod_noop,
};
use rand::Rng;
use vstd::prelude::*;

verus! {

/// The prime `2^61 - 1`.
pub const MOD: u64 = 2305843009213693951;

/// The same prime under its second name.
pub const PRIME: u64 = 2305843009213693951;

/// `2^61`, the weight of the high part in the Mersenne reduction.
pub const TWO_POW_61: u64 = 2305843009213693952;

/// Bound on the base-2 logarithm of the order of a root of unity.
pub const MAX_ORDER: usize = 62;

/// The prime as a mathematical integer.
pub open spec fn prime() -> int {
    2305843009213693951
}

#[derive(Clone, Copy, Debug, PartialEq, Eq, Structural)]
pub struct FieldElement {
    pub real: u64,
    pub img: u64,
}

/// The canonical element with coordinates `re mod p` and `im mod p`.
pub open spec fn fe_of(re: int, im: int) -> FieldElement {
    FieldElement { real: (re % prime()) as u64, img: (im % prime()) as u64 }
}

pub open spec fn fe_add(a: FieldElement, b: FieldElement) -> FieldElement {
    fe_of(a.real + b.real, a.img + b.img)
}

pub open spec fn fe_sub(a: FieldElement, b: FieldElement) -> FieldElement {
    fe_of(a.real - b.real, a.img - b.img)
}

/// `(a + b i)(c + d i) = (ac - bd) + (ad + bc) i`.
pub open spec fn fe_mul(a: FieldElement, b: FieldElement) -> FieldElement {
    fe_of(a.real * b.real - a.img * b.img, a.real * b.img + a.img * b.real)
}

/// The canonical representative of an element.
pub open spec fn fe_reduce(a: FieldElement) -> FieldElement {
    fe_of(a.real as int, a.img as int)
}

pub open spec fn fe_zero() -> FieldElement {
    FieldElement { real: 0, img: 0 }
}

pub open spec fn fe_one() -> FieldElement {
    FieldElement { real: 1, img: 0 }
}

/// The element of the base field with value `n mod p`.
pub open spec fn fe_nat(n: int) -> FieldElement {
    fe_of(n, 0)
}

/// `x^n`, by repeated multiplication.
pub open spec fn fe_pow(x: FieldElement, n: nat) -> FieldElement
    decreases n,
{
    if n == 0 {
        fe_one()
    } else {
        fe_mul(x, fe_pow(x, (n - 1) as nat))
    }
}

/// `x` squared `k` times, that is `x^(2^k)` computed by squaring.
pub open spec fn fe_square_times(x: FieldElement, k: nat) -> FieldElement
    decreases k,
{
    if k == 0 {
        x
    } else {
        let y = fe_square_times(x, (k - 1) as nat);
        fe_mul(y, y)
    }
}

impl FieldElement {
    /// Both coordinates are below `p`.
    pub open spec fn reduced(self) -> bool {
        self.real < MOD && self.img < MOD
    }
}

// ---------------------------------------------------------------------------
// Modular helpers
// ---------------------------------------------------------------------------
pub proof fn lemma_fe_of_reduced(re: int, im: int)
    ensures
        fe_of(re, im).reduced(),
        fe_of(re, im).real as int == re % prime(),
        fe_of(re, im).img as int == im % prime(),
{
    lemma_mod_bound(re, prime());
    lemma_mod_bound(im, prime());
}

/// Equal residues give equal canonical elements.
pub proof fn lemma_fe_of_congruent(re1: int, im1: int, re2: int, im2: int)
    requires
        re1 % prime() == re2 % prime(),
        im1 % prime() == im2 % prime(),
    ensures
        fe_of(re1, im1) == fe_of(re2, im2),
{
}

proof fn lemma_congr_mul(x1: int, x2: int, y1: int, y2: int)
    requires
        x1 % prime() == x2 % prime(),
        y1 % prime() == y2 % prime(),
    ensures
        (x1 * y1) % prime() == (x2 * y2) % prime(),
{
    lemma_mul_mod_noop(x1, y1, prime());
    lemma_mul_mod_noop(x2, y2, prime());
}

proof fn lemma_congr_add(x1: int, x2: int, y1: int, y2: int)
    requires
        x1 % prime() == x2 % prime(),
        y1 % prime() == y2 % prime(),
    ensures
        (x1 + y1) % prime() == (x2 + y2) % prime(),
{
    lemma_add_mod_noop(x1, y1, prime());
    lemma_add_mod_noop(x2, y2, prime());
}

proof fn lemma_congr_sub(x1: int, x2: int, y1: int, y2: int)
    requires
        x1 % prime() == x2 % prime(),
        y1 % prime() == y2 % prime(),
    ensures
        (x1 - y1) % prime() == (x2 - y2) % prime(),
{
    lemma_sub_mod_noop(x1, y1, prime());
    lemma_sub_mod_noop(x2, y2, prime());
}

proof fn lemma_mod_mod(x: int)
    ensures
        (x % prime()) % prime() == x % prime(),
{
    lemma_mod_twice(x, prime());
}

// ---------------------------------------------------------------------------
// Laws of the field operations
// ---------------------------------------------------------------------------
/// Addition is commutative.
pub proof fn lemma_add_comm(a: FieldElement, b: FieldElement)
    ensures
        fe_add(a, b) == fe_add(b, a),
{
    assert(a.real + b.real == b.real + a.real);
    assert(a.img + b.img == b.img + a.img);
}

/// Addition is associative.
pub proof fn lemma_add_assoc(a: FieldElement, b: FieldElement, c: FieldElement)
    ensures
        fe_add(fe_add(a, b), c) == fe_add(a, fe_add(b, c)),
{
    let p = prime();
    lemma_fe_of_reduced(a.real + b.real, a.img + b.img);
    lemma_fe_of_reduced(b.real + c.real, b.img + c.img);
    lemma_mod_mod(a.real + b.real);
    lemma_mod_mod(a.img + b.img);
    lemma_mod_mod(b.real + c.real);
    lemma_mod_mod(b.img + c.img);
    lemma_mod_mod(c.real as int);
    lemma_mod_mod(c.img as int);
    lemma_mod_mod(a.real as int);
    lemma_mod_mod(a.img as int);
    lemma_congr_add((a.real + b.real) % p, a.real + b.real, c.real as int, c.real as int);
    lemma_congr_add((a.img + b.img) % p, a.img + b.img, c.img as int, c.img as int);
    lemma_congr_add(a.real as int, a.real as int, (b.real + c.real) % p, b.real + c.real);
    lemma_congr_add(a.img as int, a.img as int, (b.img + c.img) % p, b.img + c.img);
    assert((a.real + b.real) + c.real == a.real + (b.real + c.real));
    assert((a.img + b.img) + c.img == a.img + (b.img + c.img));
}

/// Zero is the neutral element of addition on canonical elements.
pub proof fn lemma_add_zero(a: FieldElement)
    requires
        a.reduced(),
    ensures
        fe_add(a, fe_zero()) == a,
        fe_add(fe_zero(), a) == a,
{
    lemma_small_mod(a.real as nat, prime() as nat);
    lemma_small_mod(a.img as nat, prime() as nat);
}

/// Multiplication is commutative.
pub proof fn lemma_mul_comm(a: FieldElement, b: FieldElement)
    ensures
        fe_mul(a, b) == fe_mul(b, a),
{
    assert(a.real * b.real - a.img * b.img == b.real * a.real - b.img * a.img) by (nonlinear_arith);
    assert(a.real * b.img + a.img * b.real == b.real * a.img + b.img * a.real) by (nonlinear_arith);
}

/// One is the neutral element of multiplication on canonical elements.
pub proof fn lemma_mul_one(a: FieldElement)
    requires
        a.reduced(),
    ensures
        fe_mul(a, fe_one()) == a,
        fe_mul(fe_one(), a) == a,
{
    lemma_small_mod(a.real as nat, prime() as nat);
    lemma_small_mod(a.img as nat, prime() as nat);
    assert(a.real * 1 - a.img * 0 == a.real as int) by (nonlinear_arith);
    assert(a.real * 0 + a.img * 1 == a.img as int) by (nonlinear_arith);
    assert(1 * a.real - 0 * a.img == a.real as int) by (nonlinear_arith);
    assert(1 * a.img + 0 * a.real == a.img as int) by (nonlinear_arith);
}

/// Multiplying by one yields the canonical representative.
pub proof fn lemma_mul_one_any(a: FieldElement)
    ensures
        fe_mul(a, fe_one()) == fe_reduce(a),
{
    assert(a.real * 1 - a.img * 0 == a.real as int) by (nonlinear_arith);
    assert(a.real * 0 + a.img * 1 == a.img as int) by (nonlinear_arith);
}

/// Zero absorbs multiplication.
pub proof fn lemma_mul_zero(a: FieldElement)
    ensures
        fe_mul(a, fe_zero()) == fe_zero(),
        fe_mul(fe_zero(), a) == fe_zero(),
{
    assert(a.real * 0 - a.img * 0 == 0) by (nonlinear_arith);
    assert(a.real * 0 + a.img * 0 == 0) by (nonlinear_arith);
    assert(0 * a.real - 0 * a.img == 0) by (nonlinear_arith);
    assert(0 * a.img + 0 * a.real == 0) by (nonlinear_arith);
}

/// Multiplication is that of the Gaussian integers modulo `p`: the
/// imaginary unit squares to `-1`, so multiplying by it turns `a + b i`
/// into `-b + a i`; and on the base field, sums, differences and products
/// of integers are taken modulo `p`.
pub proof fn lemma_mul_gaussian(a: FieldElement, m: int, n: int)
    ensures
        fe_mul(a, fe_of(0, 1)) == fe_of(0 - a.img, a.real as int),
        fe_mul(fe_of(0, 1), fe_of(0, 1)) == fe_of(-1, 0),
        fe_mul(fe_nat(m), fe_nat(n)) == fe_nat(m * n),
        fe_add(fe_nat(m), fe_nat(n)) == fe_nat(m + n),
        fe_sub(fe_nat(m), fe_nat(n)) == fe_nat(m - n),
{
    let i = fe_of(0, 1);
    assert(i == FieldElement { real: 0, img: 1 });
    assert(a.real * 0 - a.img * 1 == 0 - a.img) by (nonlinear_arith);
    assert(a.real * 1 + a.img * 0 == a.real as int) by (nonlinear_arith);
    assert(0 * 0 - 1 * 1 == -1 && 0 * 1 + 1 * 0 == 0) by (nonlinear_arith);
    lemma_hom_mul(m, 0, n, 0);
    lemma_hom_add(m, 0, n, 0);
    lemma_hom_sub(m, 0, n, 0);
    assert(m * n - 0 * 0 == m * n && m * 0 + 0 * n == 0) by (nonlinear_arith);
}

/// Multiplication is associative.
pub proof fn lemma_mul_assoc(a: FieldElement, b: FieldElement, c: FieldElement)
    ensures
        fe_mul(fe_mul(a, b), c) == fe_mul(a, fe_mul(b, c)),
{
    let p = prime();
    let (ar, ai, br, bi, cr, ci) = (
        a.real as int,
        a.img as int,
        b.real as int,
        b.img as int,
        c.real as int,
        c.img as int,
    );
    let abr = ar * br - ai * bi;
    let abi = ar * bi + ai * br;
    let bcr = br * cr - bi * ci;
    let bci = br * ci + bi * cr;
    lemma_fe_of_reduced(abr, abi);
    lemma_fe_of_reduced(bcr, bci);
    lemma_mod_mod(abr);
    lemma_mod_mod(abi);
    lemma_mod_mod(bcr);
    lemma_mod_mod(bci);
    lemma_mod_mod(ar);
    lemma_mod_mod(ai);
    lemma_mod_mod(cr);
    lemma_mod_mod(ci);
    // left side
    lemma_congr_mul(abr % p, abr, cr, cr);
    lemma_congr_mul(abi % p, abi, ci, ci);
    lemma_congr_sub((abr % p) * cr, abr * cr, (abi % p) * ci, abi * ci);
    lemma_congr_mul(abr % p, abr, ci, ci);
    lemma_congr_mul(abi % p, abi, cr, cr);
    lemma_congr_add((abr % p) * ci, abr * ci, (abi % p) * cr, abi * cr);
    // right side
    lemma_congr_mul(ar, ar, bcr % p, bcr);
    lemma_congr_mul(ai, ai, bci % p, bci);
    lemma_congr_sub(ar * (bcr % p), ar * bcr, ai * (bci % p), ai * bci);
    lemma_congr_mul(ar, ar, bci % p, bci);
    lemma_congr_mul(ai, ai, bcr % p, bcr);
    lemma_congr_add(ar * (bci % p), ar * bci, ai * (bcr % p), ai * bcr);
    assert((ar * br - ai * bi) * cr == ar * (br * cr) - ai * (bi * cr)) by (nonlinear_arith);
    assert((ar * bi + ai * br) * ci == ar * (bi * ci) + ai * (br * ci)) by (nonlinear_arith);
    assert(ar * (br * cr - bi * ci) == ar * (br * cr) - ar * (bi * ci)) by (nonlinear_arith);
    assert(ai * (br * ci + bi * cr) == ai * (br * ci) + ai * (bi * cr)) by (nonlinear_arith);
    assert((ar * br - ai * bi) * ci == ar * (br * ci) - ai * (bi * ci)) by (nonlinear_arith);
    assert((ar * bi + ai * br) * cr == ar * (bi * cr) + ai * (br * cr)) by (nonlinear_arith);
    assert(ar * (br * ci + bi * cr) == ar * (br * ci) + ar * (bi * cr)) by (nonlinear_arith);
    assert(ai * (br * cr - bi * ci) == ai * (br * cr) - ai * (bi * ci)) by (nonlinear_arith);
    assert(abr * cr - abi * ci == ar * bcr - ai * bci);
    assert(abr * ci + abi * cr == ar * bci + ai * bcr);
}

/// Multiplication distributes over addition.
pub proof fn lemma_mul_distrib(a: FieldElement, b: FieldElement, c: FieldElement)
    ensures
        fe_mul(a, fe_add(b, c)) == fe_add(fe_mul(a, b), fe_mul(a, c)),
{
    let p = prime();
    let (ar, ai, br, bi, cr, ci) = (
        a.real as int,
        a.img as int,
        b.real as int,
        b.img as int,
        c.real as int,
        c.img as int,
    );
    let sr = br + cr;
    let si = bi + ci;
    let abr = ar * br - ai * bi;
    let abi = ar * bi + ai * br;
    let acr = ar * cr - ai * ci;
    let aci = ar * ci + ai * cr;
    lemma_fe_of_reduced(sr, si);
    lemma_fe_of_reduced(abr, abi);
    lemma_fe_of_reduced(acr, aci);
    lemma_mod_mod(sr);
    lemma_mod_mod(si);
    lemma_mod_mod(abr);
    lemma_mod_mod(abi);
    lemma_mod_mod(acr);
    lemma_mod_mod(aci);
    lemma_mod_mod(ar);
    lemma_mod_mod(ai);
    lemma_congr_mul(ar, ar, sr % p, sr);
    lemma_congr_mul(ai, ai, si % p, si);
    lemma_congr_sub(ar * (sr % p), ar * sr, ai * (si % p), ai * si);
    lemma_congr_mul(ar, ar, si % p, si);
    lemma_congr_mul(ai, ai, sr % p, sr);
    lemma_congr_add(ar * (si % p), ar * si, ai * (sr % p), ai * sr);
    lemma_congr_add(abr % p, abr, acr % p, acr);
    lemma_congr_add(abi % p, abi, aci % p, aci);
    assert(ar * sr - ai * si == abr + acr) by (nonlinear_arith)
        requires
            sr == br + cr,
            si == bi + ci,
            abr == ar * br - ai * bi,
            acr == ar * cr - ai * ci,
    ;
    assert(ar * si + ai * sr == abi + aci) by (nonlinear_arith)
        requires
            sr == br + cr,
            si == bi + ci,
            abi == ar * bi + ai * br,
            aci == ar * ci + ai * cr,
    ;
}

/// Subtraction undoes addition.
pub proof fn lemma_sub_add(a: FieldElement, b: FieldElement)
    ensures
        fe_add(fe_sub(a, b), b) == fe_reduce(a),
        fe_sub(fe_add(a, b), b) == fe_reduce(a),
{
    let p = prime();
    let (ar, ai, br, bi) = (a.real as int, a.img as int, b.real as int, b.img as int);
    lemma_fe_of_reduced(ar - br, ai - bi);
    lemma_fe_of_reduced(ar + br, ai + bi);
    lemma_mod_mod(ar - br);
    lemma_mod_mod(ai - bi);
    lemma_mod_mod(ar + br);
    lemma_mod_mod(ai + bi);
    lemma_mod_mod(br);
    lemma_mod_mod(bi);
    lemma_congr_add((ar - br) % p, ar - br, br, br);
    lemma_congr_add((ai - bi) % p, ai - bi, bi, bi);
    lemma_congr_sub((ar + br) % p, ar + br, br, br);
    lemma_congr_sub((ai + bi) % p, ai + bi, bi, bi);
    assert((ar - br) + br == ar);
    assert((ai - bi) + bi == ai);
    assert((ar + br) - br == ar);
    assert((ai + bi) - bi == ai);
}

/// The canonical representative of a canonical element is itself.
pub proof fn lemma_reduce_reduced(a: FieldElement)
    requires
        a.reduced(),
    ensures
        fe_reduce(a) == a,
{
    lemma_small_mod(a.real as nat, prime() as nat);
    lemma_small_mod(a.img as nat, prime() as nat);
}

/// Every operation depends on its arguments only through their residues.
pub proof fn lemma_ops_reduce(a: FieldElement, b: FieldElement)
    ensures
        fe_add(fe_reduce(a), b) == fe_add(a, b),
        fe_mul(fe_reduce(a), b) == fe_mul(a, b),
        fe_sub(fe_reduce(a), b) == fe_sub(a, b),
{
    let p = prime();
    let (ar, ai, br, bi) = (a.real as int, a.img as int, b.real as int, b.img as int);
    lemma_fe_of_reduced(ar, ai);
    lemma_mod_mod(ar);
    lemma_mod_mod(ai);
    lemma_congr_add(ar % p, ar, br, br);
    lemma_congr_add(ai % p, ai, bi, bi);
    lemma_congr_sub(ar % p, ar, br, br);
    lemma_congr_sub(ai % p, ai, bi, bi);
    lemma_congr_mul(ar % p, ar, br, br);
    lemma_congr_mul(ai % p, ai, bi, bi);
    lemma_congr_mul(ar % p, ar, bi, bi);
    lemma_congr_mul(ai % p, ai, br, br);
    lemma_congr_sub((ar % p) * br, ar * br, (ai % p) * bi, ai * bi);
    lemma_congr_add((ar % p) * bi, ar * bi, (ai % p) * br, ai * br);
}

/// Powers add: `x^(m + n) = x^m * x^n`.
pub proof fn lemma_pow_add(x: FieldElement, m: nat, n: nat)
    ensures
        fe_pow(x, m + n) == fe_mul(fe_pow(x, m), fe_pow(x, n)),
    decreases m,
{
    if m == 0 {
        lemma_pow_reduced(x, n);
        lemma_mul_one(fe_pow(x, n));
    } else {
        lemma_pow_add(x, (m - 1) as nat, n);
        assert((m + n - 1) as nat == ((m - 1) as nat + n) as nat);
        lemma_mul_assoc(x, fe_pow(x, (m - 1) as nat), fe_pow(x, n));
    }
}

/// Every power is canonical.
pub proof fn lemma_pow_reduced(x: FieldElement, n: nat)
    ensures
        fe_pow(x, n).reduced(),
{
    if n > 0 {
        lemma_fe_of_reduced(
            x.real * fe_pow(x, (n - 1) as nat).real - x.img * fe_pow(x, (n - 1) as nat).img,
            x.real * fe_pow(x, (n - 1) as nat).img + x.img * fe_pow(x, (n - 1) as nat).real,
        );
    }
}

/// Powers multiply: `(x^m)^n = x^(m n)`; stated for the square.
pub proof fn lemma_pow_square(x: FieldElement, n: nat)
    ensures
        fe_pow(fe_mul(x, x), n) == fe_pow(x, 2 * n),
    decreases n,
{
    if n > 0 {
        lemma_pow_square(x, (n - 1) as nat);
        // x^(2n) = x * x^(2n - 1) = x * (x * x^(2n-2))
        assert((2 * n - 1) as nat == (2 * (n - 1) + 1) as nat);
        assert(fe_pow(x, (2 * (n - 1) + 1) as nat) == fe_mul(x, fe_pow(x, (2 * (n - 1)) as nat)));
        lemma_mul_assoc(x, x, fe_pow(x, (2 * (n - 1)) as nat));
    }
}

/// Squaring `k` times is raising to `2^k`.
pub proof fn lemma_square_times_pow(x: FieldElement, k: nat)
    ensures
        fe_square_times(x, k + 1) == fe_pow(x, vstd::arithmetic::power2::pow2(k + 1)),
    decreases k,
{
    vstd::arithmetic::power2::lemma2_to64();
    if k == 0 {
        lemma_mul_one_any(x);
        assert(fe_pow(x, 0) == fe_one());
        assert(fe_pow(x, 1) == fe_mul(x, fe_one()));
        assert(fe_pow(x, 2) == fe_mul(x, fe_pow(x, 1)));
        lemma_mul_comm(x, fe_reduce(x));
        lemma_ops_reduce(x, x);
        assert(fe_square_times(x, 0) == x);
        assert(fe_square_times(x, 1) == fe_mul(x, x));
        assert(vstd::arithmetic::power2::pow2(1) == 2);
    } else {
        lemma_square_times_pow(x, (k - 1) as nat);
        let y = fe_square_times(x, k);
        let e = vstd::arithmetic::power2::pow2(k);
        assert(((k - 1) as nat + 1) as nat == k);
        assert(y == fe_pow(x, e));
        assert(fe_square_times(x, k + 1) == fe_mul(y, y));
        vstd::arithmetic::power2::lemma_pow2_unfold(k + 1);
        lemma_pow_add(x, e, e);
        assert(e + e == vstd::arithmetic::power2::pow2(k + 1));
    }
}


/// `fe_of` carries addition of Gaussian integers to field addition.
pub proof fn lemma_hom_add(x1: int, y1: int, x2: int, y2: int)
    ensures
        fe_add(fe_of(x1, y1), fe_of(x2, y2)) == fe_of(x1 + x2, y1 + y2),
{
    let p = prime();
    lemma_fe_of_reduced(x1, y1);
    lemma_fe_of_reduced(x2, y2);
    lemma_mod_mod(x1);
    lemma_mod_mod(y1);
    lemma_mod_mod(x2);
    lemma_mod_mod(y2);
    lemma_congr_add(x1 % p, x1, x2 % p, x2);
    lemma_congr_add(y1 % p, y1, y2 % p, y2);
}

/// `fe_of` carries subtraction of Gaussian integers to field subtraction.
pub proof fn lemma_hom_sub(x1: int, y1: int, x2: int, y2: int)
    ensures
        fe_sub(fe_of(x1, y1), fe_of(x2, y2)) == fe_of(x1 - x2, y1 - y2),
{
    let p = prime();
    lemma_fe_of_reduced(x1, y1);
    lemma_fe_of_reduced(x2, y2);
    lemma_mod_mod(x1);
    lemma_mod_mod(y1);
    lemma_mod_mod(x2);
    lemma_mod_mod(y2);
    lemma_congr_sub(x1 % p, x1, x2 % p, x2);
    lemma_congr_sub(y1 % p, y1, y2 % p, y2);
}

/// `fe_of` carries multiplication of Gaussian integers to field multiplication.
pub proof fn lemma_hom_mul(x1: int, y1: int, x2: int, y2: int)
    ensures
        fe_mul(fe_of(x1, y1), fe_of(x2, y2)) == fe_of(x1 * x2 - y1 * y2, x1 * y2 + y1 * x2),
{
    let p = prime();
    lemma_fe_of_reduced(x1, y1);
    lemma_fe_of_reduced(x2, y2);
    lemma_mod_mod(x1);
    lemma_mod_mod(y1);
    lemma_mod_mod(x2);
    lemma_mod_mod(y2);
    lemma_congr_mul(x1 % p, x1, x2 % p, x2);
    lemma_congr_mul(y1 % p, y1, y2 % p, y2);
    lemma_congr_mul(x1 % p, x1, y2 % p, y2);
    lemma_congr_mul(y1 % p, y1, x2 % p, x2);
    lemma_congr_sub((x1 % p) * (x2 % p), x1 * x2, (y1 % p) * (y2 % p), y1 * y2);
    lemma_congr_add((x1 % p) * (y2 % p), x1 * y2, (y1 % p) * (x2 % p), y1 * x2);
}

/// Every element acts in the operations like the Gaussian integer of its
/// coordinates.
pub proof fn lemma_lift(a: FieldElement)
    ensures
        fe_reduce(a) == fe_of(a.real as int, a.img as int),
        forall|b: FieldElement| #[trigger] fe_add(a, b) == fe_add(fe_reduce(a), b),
        forall|b: FieldElement| #[trigger] fe_mul(a, b) == fe_mul(fe_reduce(a), b),
        forall|b: FieldElement| #[trigger] fe_sub(a, b) == fe_sub(fe_reduce(a), b),
        forall|b: FieldElement| #[trigger] fe_add(b, a) == fe_add(b, fe_reduce(a)),
        forall|b: FieldElement| #[trigger] fe_mul(b, a) == fe_mul(b, fe_reduce(a)),
{
    assert forall|b: FieldElement| #[trigger] fe_add(a, b) == fe_add(fe_reduce(a), b) by {
        lemma_ops_reduce(a, b);
    }
    assert forall|b: FieldElement| #[trigger] fe_mul(a, b) == fe_mul(fe_reduce(a), b) by {
        lemma_ops_reduce(a, b);
    }
    assert forall|b: FieldElement| #[trigger] fe_sub(a, b) == fe_sub(fe_reduce(a), b) by {
        lemma_ops_reduce(a, b);
    }
    assert forall|b: FieldElement| #[trigger] fe_add(b, a) == fe_add(b, fe_reduce(a)) by {
        lemma_ops_reduce(a, b);
        lemma_add_comm(a, b);
        lemma_add_comm(fe_reduce(a), b);
    }
    assert forall|b: FieldElement| #[trigger] fe_mul(b, a) == fe_mul(b, fe_reduce(a)) by {
        lemma_ops_reduce(a, b);
        lemma_mul_comm(a, b);
        lemma_mul_comm(fe_reduce(a), b);
    }
}

// ---------------------------------------------------------------------------
// Reduction helpers of the Mersenne prime
// ---------------------------------------------------------------------------
/// `v = q 2^61 + r` is congruent to `q + r` modulo `2^61 - 1`.
pub proof fn lemma_mersenne_fold(v: int)
    requires
        v >= 0,
    ensures
        (v / (TWO_POW_61 as int) + v % (TWO_POW_61 as int)) % prime() == v % prime(),
{
    let t = TWO_POW_61 as int;
    let q = v / t;
    let r = v % t;
    lemma_fundamental_div_mod(v, t);
    assert(v == t * q + r);
    assert(t * q == prime() * q + q) by (nonlinear_arith)
        requires
            t == prime() + 1,
    ;
    vstd::arithmetic::div_mod::lemma_mod_multiples_vanish(q, q + r, prime());
    assert(v == prime() * q + (q + r));
}

/// One folding step of the Mersenne reduction: `(x >> 61) + (x & MOD)`.
pub fn my_mod(x: u64) -> (r: u64)
    ensures
        r as int == x as int / (TWO_POW_61 as int) + x as int % (TWO_POW_61 as int),
        r as int % prime() == x as int % prime(),
        r <= MOD + 7,
{
    assert((x >> 61u64) == x / 0x2000000000000000u64) by (bit_vector);
    assert((x & 0x1fffffffffffffffu64) == x % 0x2000000000000000u64) by (bit_vector);
    assert(x / 0x2000000000000000u64 <= 7) by (bit_vector);
    proof {
        lemma_mersenne_fold(x as int);
    }
    (x >> 61) + (x & MOD)
}

/// The product of two words folded once modulo `2^61 - 1`:
/// `(x y >> 61) + (x y mod 2^61)`, which is congruent to `x y`.
pub fn my_mult(x: u64, y: u64) -> (r: u64)
    requires
        (x as int * y as int) / (TWO_POW_61 as int) + (x as int * y as int) % (TWO_POW_61 as int)
            <= u64::MAX,
    ensures
        r as int == (x as int * y as int) / (TWO_POW_61 as int) + (x as int * y as int) % (
        TWO_POW_61 as int),
        r as int % prime() == (x as int * y as int) % prime(),
{
    assert(x as int * y as int <= u128::MAX) by (nonlinear_arith)
        requires
            x <= u64::MAX,
            y <= u64::MAX,
    ;
    let prod: u128 = (x as u128) * (y as u128);
    let lo: u64 = prod as u64;
    let hi: u64 = (prod >> 64u128) as u64;
    assert(prod / 0x2000000000000000u128 <= 0xffff_ffff_ffff_ffffu128);
    assert(prod < 0x2000_0000_0000_0000_0000_0000_0000_0000u128) by (bit_vector)
        requires
            prod / 0x2000000000000000u128 <= 0xffff_ffff_ffff_ffffu128,
    ;
    assert(((((prod >> 64u128) as u64) << 3u64) | ((prod as u64) >> 61u64)) as u128 == prod
        / 0x2000000000000000u128) by (bit_vector)
        requires
            prod < 0x2000_0000_0000_0000_0000_0000_0000_0000u128,
    ;
    assert(((prod as u64) & 0x1fffffffffffffffu64) as u128 == prod % 0x2000000000000000u128)
        by (bit_vector);
    proof {
        lemma_mersenne_fold(x as int * y as int);
    }
    ((hi << 3) | (lo >> 61)) + (lo & PRIME)
}

/// Subtracts the prime once when the value is not below it.
pub fn verify_lt_mod_once(a: u64) -> (r: u64)
    ensures
        r == if a >= MOD { (a - MOD) as u64 } else { a },
{
    let mut a = a;
    if a >= MOD {
        a -= MOD;
    }
    a
}

/// Subtracts the prime until the value is below it.
pub fn verify_lt_mod_many(a: u64) -> (r: u64)
    ensures
        r as int == a as int % prime(),
{
    let mut a = a;
    let ghost a0 = a;
    while a >= MOD
        invariant
            a as int % prime() == a0 as int % prime(),
        decreases a,
    {
        proof {
            vstd::arithmetic::div_mod::lemma_mod_sub_multiples_vanish(a as int, prime());
        }
        a -= MOD;
    }
    proof {
        lemma_small_mod(a as nat, prime() as nat);
    }
    a
}

// ---------------------------------------------------------------------------
// Executable field arithmetic
// ---------------------------------------------------------------------------
/// `x mod p` for a value below `2^128`.
fn reduce_u128(x: u128) -> (r: u64)
    ensures
        r as int == x as int % prime(),
        r < MOD,
{
    (x % (MOD as u128)) as u64
}

/// `x y mod p`.
fn mul_mod(x: u64, y: u64) -> (r: u64)
    ensures
        r as int == (x as int * y as int) % prime(),
        r < MOD,
{
    assert(x as int * y as int <= u128::MAX) by (nonlinear_arith)
        requires
            x <= u64::MAX,
            y <= u64::MAX,
    ;
    let prod: u128 = (x as u128) * (y as u128);
    reduce_u128(prod)
}

impl core::ops::Add for FieldElement {
    type Output = FieldElement;

    fn add(self, rhs: FieldElement) -> (r: FieldElement) {
        let re = reduce_u128(self.real as u128 + rhs.real as u128);
        let im = reduce_u128(self.img as u128 + rhs.img as u128);
        FieldElement { real: re, img: im }
    }
}

impl vstd::std_specs::ops::AddSpecImpl for FieldElement {
    open spec fn obeys_add_spec() -> bool {
        true
    }

    open spec fn add_req(self, rhs: FieldElement) -> bool {
        true
    }

    open spec fn add_spec(self, rhs: FieldElement) -> FieldElement {
        fe_add(self, rhs)
    }
}

impl core::ops::Sub for FieldElement {
    type Output = FieldElement;

    fn sub(self, rhs: FieldElement) -> (r: FieldElement) {
        let a = reduce_u128(self.real as u128);
        let b = reduce_u128(rhs.real as u128);
        let c = reduce_u128(self.img as u128);
        let d = reduce_u128(rhs.img as u128);
        let re = reduce_u128(a as u128 + MOD as u128 - b as u128);
        let im = reduce_u128(c as u128 + MOD as u128 - d as u128);
        proof {
            let p = prime();
            lemma_mod_mod(self.real as int);
            lemma_mod_mod(rhs.real as int);
            lemma_mod_mod(self.img as int);
            lemma_mod_mod(rhs.img as int);
            lemma_congr_sub(a as int, self.real as int, b as int, rhs.real as int);
            lemma_congr_sub(c as int, self.img as int, d as int, rhs.img as int);
            vstd::arithmetic::div_mod::lemma_mod_add_multiples_vanish(a - b, p);
            vstd::arithmetic::div_mod::lemma_mod_add_multiples_vanish(c - d, p);
            assert(a as int + MOD as int - b as int == p + (a - b));
            assert(c as int + MOD as int - d as int == p + (c - d));
        }
        FieldElement { real: re, img: im }
    }
}

impl vstd::std_specs::ops::SubSpecImpl for FieldElement {
    open spec fn obeys_sub_spec() -> bool {
        true
    }

    open spec fn sub_req(self, rhs: FieldElement) -> bool {
        true
    }

    open spec fn sub_spec(self, rhs: FieldElement) -> FieldElement {
        fe_sub(self, rhs)
    }
}

impl core::ops::Mul for FieldElement {
    type Output = FieldElement;

    fn mul(self, rhs: FieldElement) -> (r: FieldElement) {
        let ac = mul_mod(self.real, rhs.real);
        let bd = mul_mod(self.img, rhs.img);
        let ad = mul_mod(self.real, rhs.img);
        let bc = mul_mod(self.img, rhs.real);
        let re = reduce_u128(ac as u128 + MOD as u128 - bd as u128);
        let im = reduce_u128(ad as u128 + bc as u128);
        proof {
            let p = prime();
            let (ar, ai, br, bi) = (self.real as int, self.img as int, rhs.real as int, rhs.img as int);
            lemma_mod_mod(ar * br);
            lemma_mod_mod(ai * bi);
            lemma_mod_mod(ar * bi);
            lemma_mod_mod(ai * br);
            lemma_congr_sub(ac as int, ar * br, bd as int, ai * bi);
            lemma_congr_add(ad as int, ar * bi, bc as int, ai * br);
            vstd::arithmetic::div_mod::lemma_mod_add_multiples_vanish(ac - bd, p);
            assert(ac as int + MOD as int - bd as int == p + (ac - bd));
        }
        FieldElement { real: re, img: im }
    }
}

impl vstd::std_specs::ops::MulSpecImpl for FieldElement {
    open spec fn obeys_mul_spec() -> bool {
        true
    }

    open spec fn mul_req(self, rhs: FieldElement) -> bool {
        true
    }

    open spec fn mul_spec(self, rhs: FieldElement) -> FieldElement {
        fe_mul(self, rhs)
    }
}

impl Default for FieldElement {
    fn default() -> (r: FieldElement)
        ensures
            r == fe_zero(),
    {
        FieldElement { real: 0, img: 0 }
    }
}

/// Failure of `get_root_of_unity`.
#[derive(Debug, PartialEq, Eq, Structural, Clone, Copy)]
pub enum RootOfUnityError {
    LogOrderTooHigh,
}

/// Failure of `bit_stream`.
#[derive(Debug, PartialEq, Eq, Structural, Clone, Copy)]
pub enum PrimeFieldError {
    Serialize,
}

/// The 8 bytes of a word, least significant first.
pub open spec fn u64_le_bytes(x: u64) -> Seq<u8> {
    Seq::new(8, |i: int| ((x >> ((8 * i) as u64)) & 0xff) as u8)
}

/// `bincode::serialize` (bincode 1) of the pair `(a, b)`. Its default options
/// write integers at fixed width, little-endian, with no size limit, and a
/// tuple as its fields in order; writing into a `Vec` cannot fail. So the
/// result is the 8 little-endian bytes of `a` followed by those of `b`.
#[verifier::external_body]
fn bincode_words(a: u64, b: u64) -> (r: Vec<u8>)
    ensures
        r@ == u64_le_bytes(a) + u64_le_bytes(b),
{
    match bincode::serialize(&(a, b)) {
        Ok(v) => v,
        Err(_) => Vec::new(),
    }
}

/// The element of which every root of unity handed out is a repeated square:
/// a primitive root of unity of order `2^MAX_ORDER`.
pub open spec fn fe_root_base() -> FieldElement {
    FieldElement { real: 2147483648, img: 1033321771269002680 }
}

/// `2^31 - 1`: random coordinates are drawn below this bound.
pub const RANDOM_BOUND: u64 = 2147483647;

/// A draw from `rand`'s thread-local generator: `rand::Rng::gen_range(0..bound)`.
/// The contract claims only what `gen_range` documents: the value lies in the
/// half-open range, which must not be empty.
#[verifier::external_body]
fn random_below(bound: u64) -> (r: u64)
    requires
        bound > 0,
    ensures
        r < bound,
{
    rand::thread_rng().gen_range(0..bound)
}

impl FieldElement {
    /// The serialized form of the element: its two coordinates as bincode
    /// writes them, `real` then `img`, each in 8 little-endian bytes.
    pub fn bit_stream(&self) -> (r: Result<Vec<u8>, PrimeFieldError>)
        ensures
            r matches Ok(v) && v@ == u64_le_bytes(self.real) + u64_le_bytes(self.img),
    {
        Ok(bincode_words(self.real, self.img))
    }

    pub fn new(re: u64, im: u64) -> (r: FieldElement)
        ensures
            r.real == re,
            r.img == im,
    {
        FieldElement { real: re, img: im }
    }

    pub fn zero() -> (r: FieldElement)
        ensures
            r == fe_zero(),
    {
        FieldElement { real: 0, img: 0 }
    }

    pub fn real_one() -> (r: FieldElement)
        ensures
            r == fe_one(),
    {
        FieldElement { real: 1, img: 0 }
    }

    /// The base-field element `real mod p`.
    pub fn from_real(re: u64) -> (r: FieldElement)
        ensures
            r == fe_nat(re as int),
            r.reduced(),
    {
        proof {
            lemma_fe_of_reduced(re as int, 0);
        }
        FieldElement { real: re % MOD, img: 0 }
    }

    /// The purely imaginary element `(img mod p) i`.
    pub fn from_img(img: u64) -> (r: FieldElement)
        ensures
            r == fe_of(0, img as int),
            r.reduced(),
    {
        proof {
            lemma_fe_of_reduced(0, img as int);
        }
        FieldElement { real: 0, img: img % MOD }
    }

    /// The number of bytes that an element takes in memory.
    pub fn size(&self) -> (r: usize)
        ensures
            r as nat == vstd::layout::size_of::<FieldElement>(),
    {
        core::mem::size_of::<FieldElement>()
    }

    /// The sum of the two coordinates as words.
    pub fn sum_parts(&self) -> (r: u64)
        requires
            self.real + self.img <= u64::MAX,
        ensures
            r == self.real + self.img,
    {
        self.real + self.img
    }

    /// `self^p` by square and multiply.
    pub fn fast_pow(self, p: u128) -> (r: FieldElement)
        ensures
            r == fe_pow(self, p as nat),
    {
        let mut ret = FieldElement::real_one();
        let mut tmp = self;
        let mut e = p;
        proof {
            lemma_pow_reduced(self, p as nat);
            lemma_mul_one(fe_pow(self, p as nat));
        }
        while e != 0
            invariant
                ret.reduced(),
                fe_mul(ret, fe_pow(tmp, e as nat)) == fe_pow(self, p as nat),
            decreases e,
        {
            let ghost old_ret = ret;
            let ghost old_tmp = tmp;
            let ghost old_e = e;
            let half = e / 2;
            proof {
                lemma_pow_square(old_tmp, half as nat);
            }
            if e % 2 == 1 {
                ret = ret * tmp;
                proof {
                    // tmp^e = tmp * tmp^(2 half)
                    assert(e as nat == (2 * half + 1) as nat);
                    assert(fe_pow(old_tmp, e as nat) == fe_mul(
                        old_tmp,
                        fe_pow(old_tmp, (2 * half) as nat),
                    ));
                    lemma_mul_assoc(old_ret, old_tmp, fe_pow(old_tmp, (2 * half) as nat));
                    lemma_fe_of_reduced(
                        old_ret.real * old_tmp.real - old_ret.img * old_tmp.img,
                        old_ret.real * old_tmp.img + old_ret.img * old_tmp.real,
                    );
                }
            } else {
                assert(e as nat == (2 * half) as nat);
            }
            tmp = tmp * tmp;
            e = half;
        }
        proof {
            lemma_mul_one(ret);
        }
        ret
    }

    /// `self^(p^2 - 2)`, the multiplicative inverse of a non-zero element
    /// (the multiplicative group of the field has order `p^2 - 1`).
    pub fn inverse(self) -> (r: FieldElement)
        ensures
            r == fe_pow(self, (prime() * prime() - 2) as nat),
    {
        let p: u128 = 2305843009213693951;
        assert(p * p - 2 == prime() * prime() - 2);
        self.fast_pow(p * p - 2)
    }

    /// A root of unity of order `2^log_order`: the base root squared
    /// `MAX_ORDER - log_order` times.
    pub fn get_root_of_unity(log_order: usize) -> (r: Result<FieldElement, RootOfUnityError>)
        ensures
            log_order >= MAX_ORDER ==> r == Err::<FieldElement, RootOfUnityError>(
                RootOfUnityError::LogOrderTooHigh,
            ),
            log_order < MAX_ORDER ==> r == Ok::<FieldElement, RootOfUnityError>(
                fe_square_times(fe_root_base(), (MAX_ORDER - log_order) as nat),
            ),
    {
        if log_order >= MAX_ORDER {
            return Err(RootOfUnityError::LogOrderTooHigh);
        }
        let mut rou = FieldElement::new(2147483648, 1033321771269002680);
        let dif = MAX_ORDER - log_order;
        let mut i: usize = 0;
        while i < dif
            invariant
                i <= dif,
                rou == fe_square_times(fe_root_base(), i as nat),
            decreases dif - i,
        {
            rou = rou * rou;
            i += 1;
        }
        Ok(rou)
    }

    /// A random element with both coordinates below `2^31 - 1`.
    pub fn new_random() -> (r: FieldElement)
        ensures
            r.real < RANDOM_BOUND,
            r.img < RANDOM_BOUND,
    {
        let re = random_below(RANDOM_BOUND) % MOD;
        let im = random_below(RANDOM_BOUND) % MOD;
        FieldElement::new(re, im)
    }

    /// A random element of the base field below `2^31 - 1`.
    pub fn new_random_real_only() -> (r: FieldElement)
        ensures
            r.real < RANDOM_BOUND,
            r.img == 0,
    {
        let re = random_below(RANDOM_BOUND) % MOD;
        FieldElement::new(re, 0)
    }
}

/// A vector of field elements.
pub struct VecFieldElement {
    pub vec: Vec<FieldElement>,
}

impl VecFieldElement {
    /// `k` zeros.
    pub fn new_parallel(k: usize) -> (r: VecFieldElement)
        ensures
            r.vec@ == Seq::new(k as nat, |i: int| fe_zero()),
    {
        let mut vec: Vec<FieldElement> = Vec::new();
        let mut i: usize = 0;
        while i < k
            invariant
                i <= k,
                vec@ == Seq::new(i as nat, |j: int| fe_zero()),
            decreases k - i,
        {
            vec.push(FieldElement::zero());
            i += 1;
        }
        VecFieldElement { vec }
    }
}

} // verus!
