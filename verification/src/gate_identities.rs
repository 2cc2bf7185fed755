//! Integer identities behind the field laws of the gates: the coordinates
//! of the products of Gaussian integers.
use vstd::prelude::*;

verus! {

proof fn split3(a: int, b: int, c: int, d: int)
    by (nonlinear_arith)
    ensures
        (a - b) * c == a * c - b * c,
        (a + b) * c == a * c + b * c,
        c * (a - b) == c * a - c * b,
        c * (a + b) == c * a + c * b,
{
}

proof fn assoc3(a: int, b: int, c: int)
    by (nonlinear_arith)
    ensures
        (a * b) * c == a * (b * c),
        a * b == b * a,
        (a * b) * c == (a * c) * b,
        (a * b) * c == (b * c) * a,
{
}

pub proof fn id_gate8(wr: int, wi: int, xr: int, xi: int, yr: int, yi: int)
    ensures
        ({
            let (pr, pi) = (wr * yr - wi * yi, wr * yi + wi * yr);
            let (mr, mi) = (wr - pr - pr, wi - pi - pi);
            let (qr, qi) = ((2 * xr - 0 * xi) * yr - (2 * xi + 0 * xr) * yi, (2 * xr - 0 * xi) * yi + (2 * xi + 0 * xr) * yr);
            &&& mr * xr - mi * xi + pr == wr * (xr + yr - qr) - wi * (xi + yi - qi)
            &&& mr * xi + mi * xr + pi == wr * (xi + yi - qi) + wi * (xr + yr - qr)
        }),
{
    let (pr, pi) = (wr * yr - wi * yi, wr * yi + wi * yr);
    let (qr, qi) = ((2 * xr - 0 * xi) * yr - (2 * xi + 0 * xr) * yi, (2 * xr - 0 * xi) * yi + (2 * xi + 0 * xr) * yr);
    assert(qr == 2 * (xr * yr) - 2 * (xi * yi)) by (nonlinear_arith)
        requires
            qr == (2 * xr - 0 * xi) * yr - (2 * xi + 0 * xr) * yi,
    ;
    assert(qi == 2 * (xr * yi) + 2 * (xi * yr)) by (nonlinear_arith)
        requires
            qi == (2 * xr - 0 * xi) * yi + (2 * xi + 0 * xr) * yr,
    ;
    // monomials of degree three
    let a = wr * (xr * yr);
    let b = wr * (xi * yi);
    let c = wi * (xr * yi);
    let d = wi * (xi * yr);
    let e = wr * (xr * yi);
    let f = wr * (xi * yr);
    let g = wi * (xr * yr);
    let h = wi * (xi * yi);
    assert(pr * xr == a - wi * (yi * xr)) by (nonlinear_arith)
        requires
            pr == wr * yr - wi * yi,
            a == wr * (xr * yr),
    ;
    assert(wi * (yi * xr) == c) by (nonlinear_arith)
        requires
            c == wi * (xr * yi),
    ;
    assert(pi * xi == wr * (yi * xi) + wi * (yr * xi)) by (nonlinear_arith)
        requires
            pi == wr * yi + wi * yr,
    ;
    assert(wr * (yi * xi) == b && wi * (yr * xi) == d) by (nonlinear_arith)
        requires
            b == wr * (xi * yi),
            d == wi * (xi * yr),
    ;
    assert(pr * xi == wr * (yr * xi) - wi * (yi * xi)) by (nonlinear_arith)
        requires
            pr == wr * yr - wi * yi,
    ;
    assert(wr * (yr * xi) == f && wi * (yi * xi) == h) by (nonlinear_arith)
        requires
            f == wr * (xi * yr),
            h == wi * (xi * yi),
    ;
    assert(pi * xr == wr * (yi * xr) + wi * (yr * xr)) by (nonlinear_arith)
        requires
            pi == wr * yi + wi * yr,
    ;
    assert(wr * (yi * xr) == e && wi * (yr * xr) == g) by (nonlinear_arith)
        requires
            e == wr * (xr * yi),
            g == wi * (xr * yr),
    ;
    assert(wr * qr == 2 * a - 2 * b) by (nonlinear_arith)
        requires
            qr == 2 * (xr * yr) - 2 * (xi * yi),
            a == wr * (xr * yr),
            b == wr * (xi * yi),
    ;
    assert(wi * qi == 2 * c + 2 * d) by (nonlinear_arith)
        requires
            qi == 2 * (xr * yi) + 2 * (xi * yr),
            c == wi * (xr * yi),
            d == wi * (xi * yr),
    ;
    assert(wr * qi == 2 * e + 2 * f) by (nonlinear_arith)
        requires
            qi == 2 * (xr * yi) + 2 * (xi * yr),
            e == wr * (xr * yi),
            f == wr * (xi * yr),
    ;
    assert(wi * qr == 2 * g - 2 * h) by (nonlinear_arith)
        requires
            qr == 2 * (xr * yr) - 2 * (xi * yi),
            g == wi * (xr * yr),
            h == wi * (xi * yi),
    ;
    let (mr, mi) = (wr - pr - pr, wi - pi - pi);
    assert(mr * xr == wr * xr - 2 * (pr * xr)) by (nonlinear_arith)
        requires
            mr == wr - pr - pr,
    ;
    assert(mi * xi == wi * xi - 2 * (pi * xi)) by (nonlinear_arith)
        requires
            mi == wi - pi - pi,
    ;
    assert(mr * xi == wr * xi - 2 * (pr * xi)) by (nonlinear_arith)
        requires
            mr == wr - pr - pr,
    ;
    assert(mi * xr == wi * xr - 2 * (pi * xr)) by (nonlinear_arith)
        requires
            mi == wi - pi - pi,
    ;
    assert(wr * (xr + yr - qr) == wr * xr + wr * yr - wr * qr) by (nonlinear_arith)
        requires
            qr == (2 * xr - 0 * xi) * yr - (2 * xi + 0 * xr) * yi,
    ;
    assert(wi * (xi + yi - qi) == wi * xi + wi * yi - wi * qi) by (nonlinear_arith)
        requires
            qi == (2 * xr - 0 * xi) * yi + (2 * xi + 0 * xr) * yr,
    ;
    assert(wr * (xi + yi - qi) == wr * xi + wr * yi - wr * qi) by (nonlinear_arith)
        requires
            qi == (2 * xr - 0 * xi) * yi + (2 * xi + 0 * xr) * yr,
    ;
    assert(wi * (xr + yr - qr) == wi * xr + wi * yr - wi * qr) by (nonlinear_arith)
        requires
            qr == (2 * xr - 0 * xi) * yr - (2 * xi + 0 * xr) * yi,
    ;
}

/// `(u - v) t` and `(u + v) t` distribute, and the product of three factors
/// does not depend on their order or grouping.
proof fn lemma_ring3(u: int, v: int, t: int)
    by (nonlinear_arith)
    ensures
        (u - v) * t == u * t - v * t,
        (u + v) * t == u * t + v * t,
        t * (u - v) == t * u - t * v,
        t * (u + v) == t * u + t * v,
{
}

proof fn lemma_mono(a: int, b: int, c: int)
    by (nonlinear_arith)
    ensures
        (a * b) * c == a * (b * c),
        (b * a) * c == a * (b * c),
        (a * b) * c == a * (c * b),
        (b * a) * c == a * (c * b),
        a * (b * c) == a * (c * b),
{
}

pub proof fn id_gate1(wr: int, wi: int, xr: int, xi: int, yr: int, yi: int)
    ensures
        (yr * wr - yi * wi) * xr - (yr * wi + yi * wr) * xi + 0 == wr * (xr * yr - xi * yi) - wi * (xr * yi + xi * yr),
        (yr * wr - yi * wi) * xi + (yr * wi + yi * wr) * xr + 0 == wr * (xr * yi + xi * yr) + wi * (xr * yr - xi * yi),
{
    lemma_ring3(yr * wr, yi * wi, xr);
    lemma_ring3(yr * wi, yi * wr, xi);
    lemma_ring3(yr * wr, yi * wi, xi);
    lemma_ring3(yr * wi, yi * wr, xr);
    lemma_ring3(xr * yr, xi * yi, wr);
    lemma_ring3(xr * yi, xi * yr, wi);
    lemma_ring3(xr * yi, xi * yr, wr);
    lemma_ring3(xr * yr, xi * yi, wi);
    lemma_mono(wr, yr, xr);
    lemma_mono(wi, yi, xr);
    lemma_mono(wi, yr, xi);
    lemma_mono(wr, yi, xi);
    lemma_mono(wr, yr, xi);
    lemma_mono(wi, yi, xi);
    lemma_mono(wi, yr, xr);
    lemma_mono(wr, yi, xr);
    lemma_mono(wr, xr, yr);
    lemma_mono(wr, xi, yi);
    lemma_mono(wi, xr, yi);
    lemma_mono(wi, xi, yr);
    lemma_mono(wr, xr, yi);
    lemma_mono(wr, xi, yr);
    lemma_mono(wi, xr, yr);
    lemma_mono(wi, xi, yi);
}

pub proof fn id_gate9(wr: int, wi: int, xr: int, xi: int, yr: int, yi: int)
    ensures
        ({
            let (pr, pi) = (wr * yr - wi * yi, wr * yi + wi * yr);
            &&& (0 - pr) * xr - (0 - pi) * xi + pr == wr * (yr - (xr * yr - xi * yi)) - wi * (yi - (xr * yi + xi * yr))
            &&& (0 - pr) * xi + (0 - pi) * xr + pi == wr * (yi - (xr * yi + xi * yr)) + wi * (yr - (xr * yr - xi * yi))
        }),
{
    let (pr, pi) = (wr * yr - wi * yi, wr * yi + wi * yr);
    lemma_ring3(0, pr, xr);
    lemma_ring3(0, pi, xi);
    lemma_ring3(0, pr, xi);
    lemma_ring3(0, pi, xr);
    lemma_ring3(wr * yr, wi * yi, xr);
    lemma_ring3(wr * yi, wi * yr, xi);
    lemma_ring3(wr * yr, wi * yi, xi);
    lemma_ring3(wr * yi, wi * yr, xr);
    lemma_ring3(yr, xr * yr - xi * yi, wr);
    lemma_ring3(yi, xr * yi + xi * yr, wi);
    lemma_ring3(yi, xr * yi + xi * yr, wr);
    lemma_ring3(yr, xr * yr - xi * yi, wi);
    lemma_ring3(xr * yr, xi * yi, wr);
    lemma_ring3(xr * yi, xi * yr, wi);
    lemma_ring3(xr * yi, xi * yr, wr);
    lemma_ring3(xr * yr, xi * yi, wi);
    lemma_mono(wr, yr, xr);
    lemma_mono(wi, yi, xr);
    lemma_mono(wi, yr, xi);
    lemma_mono(wr, yi, xi);
    lemma_mono(wr, yr, xi);
    lemma_mono(wi, yi, xi);
    lemma_mono(wi, yr, xr);
    lemma_mono(wr, yi, xr);
    lemma_mono(wr, xr, yr);
    lemma_mono(wr, xi, yi);
    lemma_mono(wi, xr, yi);
    lemma_mono(wi, xi, yr);
    lemma_mono(wr, xr, yi);
    lemma_mono(wr, xi, yr);
    lemma_mono(wi, xr, yr);
    lemma_mono(wi, xi, yi);
    assert(0 * xr == 0 && 0 * xi == 0) by (nonlinear_arith);
    assert(wr * yr == yr * wr && wi * yi == yi * wi && wr * yi == yi * wr && wi * yr == yr * wi) by (nonlinear_arith);
}

pub proof fn id_gate13(wr: int, wi: int, xr: int, xi: int, yr: int, yi: int)
    ensures
        ({
            let (pr, pi) = (wr * yr - wi * yi, wr * yi + wi * yr);
            let (mr, mi) = (0 - pr + wr, 0 - pi + wi);
            let (gr, gi) = (xr * (1 - yr) - xi * (0 - yi), xr * (0 - yi) + xi * (1 - yr));
            &&& mr * xr - mi * xi + 0 == wr * gr - wi * gi
            &&& mr * xi + mi * xr + 0 == wr * gi + wi * gr
        }),
{
    let (pr, pi) = (wr * yr - wi * yi, wr * yi + wi * yr);
    let (mr, mi) = (0 - pr + wr, 0 - pi + wi);
    assert(mr == wr - pr && mi == wi - pi);
    lemma_ring3(wr, pr, xr);
    lemma_ring3(wi, pi, xi);
    lemma_ring3(wr, pr, xi);
    lemma_ring3(wi, pi, xr);
    lemma_ring3(wr * yr, wi * yi, xr);
    lemma_ring3(wr * yi, wi * yr, xi);
    lemma_ring3(wr * yr, wi * yi, xi);
    lemma_ring3(wr * yi, wi * yr, xr);
    let (gr, gi) = (xr * (1 - yr) - xi * (0 - yi), xr * (0 - yi) + xi * (1 - yr));
    lemma_ring3(1, yr, xr);
    lemma_ring3(0, yi, xi);
    lemma_ring3(0, yi, xr);
    lemma_ring3(1, yr, xi);
    assert(gr == xr - xr * yr + xi * yi && gi == 0 - xr * yi + xi - xi * yr) by (nonlinear_arith)
        requires
            gr == xr * (1 - yr) - xi * (0 - yi),
            gi == xr * (0 - yi) + xi * (1 - yr),
    ;
    lemma_ring3(xr - xr * yr, xi * yi, wr);
    lemma_ring3(xr, xr * yr, wr);
    lemma_ring3(0 - xr * yi + xi, xi * yr, wi);
    lemma_ring3(0 - xr * yi, xi, wi);
    lemma_ring3(0 - xr * yi + xi, xi * yr, wr);
    lemma_ring3(0 - xr * yi, xi, wr);
    lemma_ring3(xr - xr * yr, xi * yi, wi);
    lemma_ring3(xr, xr * yr, wi);
    lemma_ring3(0, xr * yi, wr);
    lemma_ring3(0, xr * yi, wi);
    lemma_mono(wr, yr, xr);
    lemma_mono(wi, yi, xr);
    lemma_mono(wi, yr, xi);
    lemma_mono(wr, yi, xi);
    lemma_mono(wr, yr, xi);
    lemma_mono(wi, yi, xi);
    lemma_mono(wi, yr, xr);
    lemma_mono(wr, yi, xr);
    lemma_mono(wr, xr, yr);
    lemma_mono(wr, xi, yi);
    lemma_mono(wi, xr, yi);
    lemma_mono(wi, xi, yr);
    lemma_mono(wr, xr, yi);
    lemma_mono(wr, xi, yr);
    lemma_mono(wi, xr, yr);
    lemma_mono(wi, xi, yi);
    assert(0 * wr == 0 && 0 * wi == 0 && 0 * xr == 0 && 0 * xi == 0) by (nonlinear_arith);
    assert(wr * xr == xr * wr && wi * xi == xi * wi && wr * xi == xi * wr && wi * xr == xr * wi) by (nonlinear_arith);
}

} // verus!
