//! What the forward transform computes: with twiddle factors that are the
//! powers of `w`, where `w^(order / 2) == -1`, entry `x` of the result is
//! the polynomial of the coefficients evaluated at `w^x`.
use crate::fft::{fft_leaves, fft_spec, fft_stage, ifft_count, ifft_samples, lemma_log_of, log_of};
use crate::field::{
    fe_add, fe_mul, fe_of, fe_root_base, fe_square_times, MAX_ORDER, fe_one, fe_pow, fe_sub, fe_zero, lemma_add_assoc, lemma_add_comm, lemma_add_zero,
    lemma_fe_of_reduced, lemma_hom_add, lemma_hom_mul, lemma_hom_sub, lemma_mul_assoc, lemma_mul_comm,
    lemma_mul_distrib, lemma_mul_one, lemma_pow_add, lemma_pow_reduced, lemma_pow_square, lemma_reduce_reduced,
    FieldElement,
};
use crate::polynomial::lemma_add_swap;
use vstd::arithmetic::power2::pow2;
use vstd::prelude::*;

verus! {

/// `coefs[j] + coefs[j + s] y + ... + coefs[j + (m - 1) s] y^(m - 1)`.
pub open spec fn sub_eval(coefs: Seq<FieldElement>, j: int, s: int, m: nat, y: FieldElement) -> FieldElement
    decreases m,
{
    if m == 0 {
        fe_zero()
    } else {
        fe_add(
            sub_eval(coefs, j, s, (m - 1) as nat, y),
            fe_mul(coefs[j + (m - 1) * s], fe_pow(y, (m - 1) as nat)),
        )
    }
}

/// The polynomial with coefficients `coefs` at `y`.
pub open spec fn poly_at(coefs: Seq<FieldElement>, y: FieldElement) -> FieldElement {
    sub_eval(coefs, 0, 1, coefs.len(), y)
}

/// `y (c p) == c (y p)`.
proof fn lemma_mul_swap_left(y: FieldElement, c: FieldElement, p: FieldElement)
    ensures
        fe_mul(y, fe_mul(c, p)) == fe_mul(c, fe_mul(y, p)),
{
    lemma_mul_assoc(y, c, p);
    lemma_mul_comm(y, c);
    lemma_mul_assoc(c, y, p);
}

/// The even and odd coefficients: `P(y) = E(y^2) + y O(y^2)`.
proof fn lemma_sub_eval_split(coefs: Seq<FieldElement>, j: int, s: int, m: nat, y: FieldElement)
    ensures
        sub_eval(coefs, j, s, 2 * m, y) == fe_add(
            sub_eval(coefs, j, 2 * s, m, fe_mul(y, y)),
            fe_mul(y, sub_eval(coefs, j + s, 2 * s, m, fe_mul(y, y))),
        ),
    decreases m,
{
    let y2 = fe_mul(y, y);
    if m == 0 {
        crate::field::lemma_mul_zero(y);
        crate::field::lemma_add_zero(fe_zero());
    } else {
        let m1 = (m - 1) as nat;
        lemma_sub_eval_split(coefs, j, s, m1, y);
        let e = sub_eval(coefs, j, 2 * s, m1, y2);
        let o = sub_eval(coefs, j + s, 2 * s, m1, y2);
        let ce = coefs[j + m1 * (2 * s)];
        let co = coefs[j + s + m1 * (2 * s)];
        assert(j + (2 * m1) * s == j + m1 * (2 * s)) by (nonlinear_arith);
        assert(j + (2 * m1 + 1) * s == j + s + m1 * (2 * s)) by (nonlinear_arith);
        assert((2 * m - 1) as nat == 2 * m1 + 1);
        assert((2 * m - 2) as nat == 2 * m1);
        let p = fe_pow(y, 2 * m1);
        lemma_pow_square(y, m1);
        assert(fe_pow(y, (2 * m1 + 1) as nat) == fe_mul(y, p));
        let a2 = sub_eval(coefs, j, s, 2 * m1, y);
        assert(a2 == fe_add(e, fe_mul(y, o)));
        assert(sub_eval(coefs, j, s, (2 * m1 + 1) as nat, y) == fe_add(a2, fe_mul(ce, p)));
        assert(sub_eval(coefs, j, s, 2 * m, y) == fe_add(fe_add(a2, fe_mul(ce, p)), fe_mul(co, fe_mul(y, p))));
        assert(sub_eval(coefs, j, 2 * s, m, y2) == fe_add(e, fe_mul(ce, p)));
        assert(sub_eval(coefs, j + s, 2 * s, m, y2) == fe_add(o, fe_mul(co, p)));
        // LHS = (A + ce p) + co (y p); RHS = (e + ce p) + y (o + co p)
        lemma_mul_distrib(y, o, fe_mul(co, p));
        lemma_mul_swap_left(y, co, p);
        lemma_add_swap(e, fe_mul(y, o), fe_mul(ce, p), fe_mul(co, fe_mul(y, p)));
        lemma_add_assoc(fe_add(e, fe_mul(y, o)), fe_mul(ce, p), fe_mul(co, fe_mul(y, p)));
        lemma_add_assoc(e, fe_mul(ce, p), fe_add(fe_mul(y, o), fe_mul(co, fe_mul(y, p))));
    }
}

/// `-1`.
pub open spec fn fe_minus_one() -> FieldElement {
    fe_sub(fe_zero(), fe_one())
}

/// At the point `-t`: `(-t)^2 == t^2` and `l + (-t) o == l - t o`.
proof fn lemma_negated_point(t: FieldElement, o: FieldElement, l: FieldElement)
    requires
        t.reduced(),
        o.reduced(),
        l.reduced(),
    ensures
        fe_mul(fe_mul(t, fe_minus_one()), fe_mul(t, fe_minus_one())) == fe_mul(t, t),
        fe_add(l, fe_mul(fe_mul(t, fe_minus_one()), o)) == fe_sub(l, fe_mul(t, o)),
{
    let (tr, ti) = (t.real as int, t.img as int);
    let (or_, oi) = (o.real as int, o.img as int);
    let (lr, li) = (l.real as int, l.img as int);
    lemma_reduce_reduced(t);
    lemma_reduce_reduced(o);
    lemma_reduce_reduced(l);
    assert(fe_minus_one() == fe_of(-1, 0));
    lemma_hom_mul(tr, ti, -1, 0);
    assert(tr * (-1) - ti * 0 == -tr && tr * 0 + ti * (-1) == -ti) by (nonlinear_arith);
    let y = fe_mul(t, fe_minus_one());
    assert(y == fe_of(-tr, -ti));
    lemma_hom_mul(-tr, -ti, -tr, -ti);
    lemma_hom_mul(tr, ti, tr, ti);
    assert((-tr) * (-tr) - (-ti) * (-ti) == tr * tr - ti * ti && (-tr) * (-ti) + (-ti) * (-tr) == tr * ti + ti
        * tr) by (nonlinear_arith);
    lemma_hom_mul(-tr, -ti, or_, oi);
    lemma_hom_mul(tr, ti, or_, oi);
    let ur = tr * or_ - ti * oi;
    let ui = tr * oi + ti * or_;
    assert((-tr) * or_ - (-ti) * oi == -ur && (-tr) * oi + (-ti) * or_ == -ui) by (nonlinear_arith)
        requires
            ur == tr * or_ - ti * oi,
            ui == tr * oi + ti * or_,
    ;
    lemma_hom_add(lr, li, -ur, -ui);
    lemma_hom_sub(lr, li, ur, ui);
}

/// A non-empty sum is canonical.
proof fn lemma_sub_eval_reduced(coefs: Seq<FieldElement>, j: int, s: int, m: nat, y: FieldElement)
    requires
        m >= 1,
    ensures
        sub_eval(coefs, j, s, m, y).reduced(),
{
    let a = sub_eval(coefs, j, s, (m - 1) as nat, y);
    let b = fe_mul(coefs[j + (m - 1) * s], fe_pow(y, (m - 1) as nat));
    lemma_fe_of_reduced(a.real + b.real, a.img + b.img);
}

/// The twiddle factors read at stride `gap_unit` are the powers of `w`.
pub open spec fn twiddles_are_powers(tw: Seq<FieldElement>, gap_unit: int, w: FieldElement, order: int) -> bool {
    forall|i: int| 0 <= i < order / 2 ==> #[trigger] tw[i * gap_unit] == fe_pow(w, i as nat)
}

/// Entry `kk 2^dep + j` of stage `dep` is the sub-polynomial of the
/// coefficients `j, j + 2^dep, ...` at `w^(2^dep kk)`.
proof fn lemma_stage_eval(
    coefs: Seq<FieldElement>,
    tw: Seq<FieldElement>,
    gap_unit: int,
    log_order: nat,
    log_c: nat,
    dep: nat,
    w: FieldElement,
    kk: int,
    j: int,
)
    requires
        dep <= log_c <= log_order,
        coefs.len() == pow2(log_c),
        forall|t: int| 0 <= t < coefs.len() ==> (#[trigger] coefs[t]).reduced(),
        log_order >= 1 ==> fe_pow(w, (pow2(log_order) / 2) as nat) == fe_minus_one(),
        twiddles_are_powers(tw, gap_unit, w, pow2(log_order) as int),
        0 <= kk < pow2((log_order - dep) as nat),
        0 <= j < pow2(dep),
    ensures
        fft_stage(coefs, tw, gap_unit, log_order, log_c, dep)[kk * pow2(dep) + j] == sub_eval(
            coefs,
            j,
            pow2(dep) as int,
            pow2((log_c - dep) as nat),
            fe_pow(w, (pow2(dep) * kk) as nat),
        ),
    decreases log_c - dep,
{
    let s = pow2(dep) as int;
    let x = kk * s + j;
    vstd::arithmetic::power2::lemma_pow2_pos(dep);
    vstd::arithmetic::power2::lemma_pow2_adds(dep, (log_order - dep) as nat);
    assert(0 <= x < pow2(log_order)) by (nonlinear_arith)
        requires
            x == kk * s + j,
            0 <= kk < pow2((log_order - dep) as nat),
            0 <= j < s,
            pow2(log_order) == s * pow2((log_order - dep) as nat),
    ;
    if dep == log_c {
        // the leaves: the coefficients repeated
        vstd::arithmetic::div_mod::lemma_fundamental_div_mod_converse(x, s, kk, j);
        assert(x % s == j);
        assert(fft_leaves(coefs, pow2(log_order))[x] == coefs[j]);
        vstd::arithmetic::power2::lemma2_to64();
        assert((log_c - dep) as nat == 0);
        assert(fe_pow(fe_pow(w, (s * kk) as nat), 0) == fe_one());
        lemma_mul_one(coefs[j]);
        lemma_add_zero(coefs[j]);
        lemma_fe_of_reduced(coefs[j].real as int, coefs[j].img as int);
        let y0 = fe_pow(w, (s * kk) as nat);
        assert(sub_eval(coefs, j, s, 0, y0) == fe_zero());
        assert(j + (1 - 1) * s == j);
        assert(fe_pow(y0, 0) == fe_one());
        assert(sub_eval(coefs, j, s, 1, y0) == fe_add(fe_zero(), fe_mul(coefs[j], fe_one())));
    } else {
        let half = (pow2((log_order - dep) as nat) / 2) as int;
        vstd::arithmetic::power2::lemma_pow2_unfold((log_order - dep) as nat);
        assert(half == pow2((log_order - dep - 1) as nat));
        vstd::arithmetic::div_mod::lemma_fundamental_div_mod_converse(x, s, kk, j);
        let k = if kk < half {
            kk
        } else {
            kk - half
        };
        let m = pow2((log_c - dep - 1) as nat);
        vstd::arithmetic::power2::lemma_pow2_unfold((log_c - dep) as nat);
        assert(pow2((log_c - dep) as nat) == 2 * m);
        vstd::arithmetic::power2::lemma_pow2_unfold(dep + 1);
        assert(pow2(dep + 1) == 2 * s);
        assert((log_order - (dep + 1)) as nat == (log_order - dep - 1) as nat);
        assert((log_c - (dep + 1)) as nat == (log_c - dep - 1) as nat);
        lemma_stage_eval(coefs, tw, gap_unit, log_order, log_c, dep + 1, w, k, j);
        lemma_stage_eval(coefs, tw, gap_unit, log_order, log_c, dep + 1, w, k, j + s);
        let pt = fe_pow(w, (2 * s * k) as nat);
        assert(k * pow2(dep + 1) + j == k * (2 * s) + j) by (nonlinear_arith)
            requires
                pow2(dep + 1) == 2 * s,
        ;
        assert(k * pow2(dep + 1) + (j + s) == k * (2 * s) + s + j) by (nonlinear_arith)
            requires
                pow2(dep + 1) == 2 * s,
        ;
        assert(pow2(dep + 1) * k == 2 * s * k) by (nonlinear_arith)
            requires
                pow2(dep + 1) == 2 * s,
        ;
        let pre = fft_stage(coefs, tw, gap_unit, log_order, log_c, dep + 1);
        let l = pre[k * (2 * s) + j];
        let o = pre[k * (2 * s) + s + j];
        assert(l == sub_eval(coefs, j, 2 * s, m, pt));
        assert(o == sub_eval(coefs, j + s, 2 * s, m, pt));
        // the twiddle factor
        vstd::arithmetic::power2::lemma_pow2_adds(dep, (log_order - dep - 1) as nat);
        assert(pow2(log_order) / 2 == s * half) by {
            assert((dep + (log_order - dep - 1) as nat) as nat == (log_order - 1) as nat);
            vstd::arithmetic::power2::lemma_pow2_unfold(log_order);
        }
        assert(0 <= k * s < pow2(log_order) / 2) by (nonlinear_arith)
            requires
                0 <= k < half,
                s >= 1,
                pow2(log_order) / 2 == s * half,
        ;
        assert(k * (gap_unit * s) == (k * s) * gap_unit) by (nonlinear_arith);
        let t = fe_pow(w, (k * s) as nat);
        assert(tw[(k * s) * gap_unit] == t);
        assert(s * k == k * s) by (nonlinear_arith);
        // the split at y = w^(s kk)
        let y = fe_pow(w, (s * kk) as nat);
        lemma_sub_eval_split(coefs, j, s, m, y);
        lemma_pow_add(w, (k * s) as nat, (k * s) as nat);
        assert(((k * s) as nat + (k * s) as nat) as nat == (2 * s * k) as nat) by (nonlinear_arith)
            requires
                0 <= k,
                s >= 1,
        ;
        vstd::arithmetic::power2::lemma_pow2_pos((log_c - dep - 1) as nat);
        lemma_sub_eval_reduced(coefs, j, 2 * s, m, pt);
        lemma_sub_eval_reduced(coefs, j + s, 2 * s, m, pt);
        lemma_pow_reduced(w, (k * s) as nat);
        if kk < half {
            assert(y == t);
        } else {
            assert(s * kk == k * s + s * half) by (nonlinear_arith)
                requires
                    kk == k + half,
            ;
            lemma_pow_add(w, (k * s) as nat, (s * half) as nat);
            assert(y == fe_mul(t, fe_minus_one()));
            lemma_negated_point(t, o, l);
        }
    }
}

/// One squaring of the chain, with the quotients by `p` given.
proof fn lemma_square_step(x: FieldElement, k: nat, ar: u64, ai: u64, br: u64, bi: u64, q1: int, q2: int)
    requires
        fe_square_times(x, k) == (FieldElement { real: ar, img: ai }),
        br < 2305843009213693951,
        bi < 2305843009213693951,
        ar * ar - ai * ai == q1 * 2305843009213693951 + br,
        ar * ai + ai * ar == q2 * 2305843009213693951 + bi,
    ensures
        fe_square_times(x, k + 1) == (FieldElement { real: br, img: bi }),
{
    vstd::arithmetic::div_mod::lemma_fundamental_div_mod_converse(
        ar * ar - ai * ai,
        2305843009213693951,
        q1,
        br as int,
    );
    vstd::arithmetic::div_mod::lemma_fundamental_div_mod_converse(
        ar * ai + ai * ar,
        2305843009213693951,
        q2,
        bi as int,
    );
    assert(fe_square_times(x, k + 1) == fe_mul(fe_square_times(x, k), fe_square_times(x, k)));
}

/// The base root squared `61` times is `-1`: it has order `2^62`.
proof fn lemma_root_base_half_turn()
    ensures
        fe_square_times(fe_root_base(), 61) == fe_minus_one(),
{
    assert(fe_square_times(fe_root_base(), 0) == fe_root_base());
    lemma_square_step(fe_root_base(), 0, 2147483648, 1033321771269002680, 5, 1957541607477134696, -463064431842053051, 1924711784);
    lemma_square_step(fe_root_base(), 1, 5, 1957541607477134696, 49, 1128672001061795352, -1661851708764374440, 8);
    lemma_square_step(fe_root_base(), 2, 49, 1128672001061795352, 4801, 2235234671012328799, -552466269772305504, 47);
    lemma_square_step(fe_root_base(), 3, 4801, 2235234671012328799, 46099201, 2242424308531526041, -2166788465013215551, 9307);
    lemma_square_step(fe_root_base(), 4, 46099201, 2242424308531526041, 4250272665676801, 808562682008305107, -2180749842639039631, 89662625);
    lemma_square_step(fe_root_base(), 5, 4250272665676801, 808562682008305107, 298667577285977760, 1555265744475652912, -283521273263814008, 2980785640734602);
    lemma_square_step(fe_root_base(), 6, 298667577285977760, 1555265744475652912, 981027961452405245, 1428654220189635178, -1010324295673518339, 402895990821869162);
    lemma_square_step(fe_root_base(), 7, 981027961452405245, 1428654220189635178, 2044342140422629675, 1149167724666909345, -467784240038967034, 1215650615980964125);
    lemma_square_step(fe_root_base(), 8, 2044342140422629675, 1149167724666909345, 1145785528240796099, 1121922673106585686, 1239784458989039051, 2037685997323187264);
    lemma_square_step(fe_root_base(), 9, 1145785528240796099, 1121922673106585686, 127673747150544569, 190811999700161778, 23468203203420436, 1114978563166893550);
    lemma_square_step(fe_root_base(), 10, 127673747150544569, 190811999700161778, 233884707527343258, 18854973891412486, -8720729658421331, 21130391709811778);
    lemma_square_step(fe_root_base(), 11, 233884707527343258, 18854973891412486, 2157027185465453147, 443448002450304166, 23569057458615771, 3824969901600110);
    lemma_square_step(fe_root_base(), 12, 2157027185465453147, 443448002450304166, 2176405693420701965, 1519598336195810641, 1932534058109798488, 829656999894228813);
    lemma_square_step(fe_root_base(), 13, 2176405693420701965, 1519598336195810641, 2108385126724697221, 1310724012521208455, 1052787474812859773, 2868592924491406925);
    lemma_square_step(fe_root_base(), 14, 2108385126724697221, 1310724012521208455, 2072426017731382138, 2191059141416411298, 1182773673097650578, 2396963715394488412);
    lemma_square_step(fe_root_base(), 15, 2072426017731382138, 2191059141416411298, 1269080372986838410, 2162855516156555049, -219351690550235670, 3938523093649811649);
    lemma_square_step(fe_root_base(), 16, 1269080372986838410, 2162855516156555049, 779461586022059850, 1836831412501965780, -1330263586207640201, 2380767011624618400);
    lemma_square_step(fe_root_base(), 17, 779461586022059850, 1836831412501965780, 1258097191868493986, 1142424307650361942, -1199730104268155186, 1241836083656149958);
    lemma_square_step(fe_root_base(), 18, 1258097191868493986, 1142424307650361942, 1561720520405271370, 1654383269449401703, 120422441756635562, 1246642384268259471);
    lemma_square_step(fe_root_base(), 19, 1561720520405271370, 1654383269449401703, 2047768286801579070, 603225505478142128, -129242544782267829, 2240988905307430692);
    lemma_square_step(fe_root_base(), 20, 2047768286801579070, 603225505478142128, 1815315585433471841, 931369741778139762, 1660769588679320925, 1071422516599883058);
    lemma_square_step(fe_root_base(), 21, 1815315585433471841, 931369741778139762, 211125430388711922, 582932454929055273, 1052942923311038965, 1466474518252267461);
    lemma_square_step(fe_root_base(), 22, 211125430388711922, 582932454929055273, 1375477479693542069, 1096885302991344288, -128038334992057214, 106747827100695324);
    lemma_square_step(fe_root_base(), 23, 1375477479693542069, 1096885302991344288, 903525503626061739, 27104306980516443, 298711111933228978, 1308624243751885851);
    lemma_square_step(fe_root_base(), 24, 903525503626061739, 27104306980516443, 1283910259611844355, 265817830718335422, 353720391625432867, 21241196835301932);
    lemma_square_step(fe_root_base(), 25, 1283910259611844355, 265817830718335422, 151602767334192101, 546670636730182217, 684247118864687840, 296018626318724053);
    lemma_square_step(fe_root_base(), 26, 151602767334192101, 546670636730182217, 177969285982644532, 329135570933285183, -119637540325726420, 71884149109441701);
    lemma_square_step(fe_root_base(), 27, 177969285982644532, 329135570933285183, 870440071785122836, 521281049807086699, -33244742592665851, 50806600723838163);
    lemma_square_step(fe_root_base(), 28, 870440071785122836, 521281049807086699, 2240613713718996008, 1285826239321843438, 210739405822349137, 393560110208052790);
    lemma_square_step(fe_root_base(), 29, 2240613713718996008, 1285826239321843438, 1822491602738317906, 1771014527098212267, 1460203787908893014, 2498903779461289291);
    lemma_square_step(fe_root_base(), 30, 1822491602738317906, 1771014527098212267, 2189771346815573502, 1481446793959769672, 80223669226231795, 2799548010048364732);
    lemma_square_step(fe_root_base(), 31, 2189771346815573502, 1481446793959769672, 1271279323708198528, 2145696849303692492, 1127749780713634492, 2813747274452245996);
    lemma_square_step(fe_root_base(), 32, 1271279323708198528, 2145696849303692492, 257174691547234593, 1344010737614617405, -1295779391001427023, 2365972035880967997);
    lemma_square_step(fe_root_base(), 33, 257174691547234593, 1344010737614617405, 1880511834100884989, 1495009306620578932, -754702741642589115, 299799722271706298);
    lemma_square_step(fe_root_base(), 34, 1880511834100884989, 1495009306620578932, 249638158412668528, 1552659201303804136, 564336741968860919, 2438485778916627360);
    lemma_square_step(fe_root_base(), 35, 249638158412668528, 1552659201303804136, 634108736350871478, 1331252151773229482, -1018469763931815690, 336191997553329834);
    lemma_square_step(fe_root_base(), 36, 634108736350871478, 1331252151773229482, 2240219762315661198, 2056815281073322380, -594202812858269938, 732190887542829012);
    lemma_square_step(fe_root_base(), 37, 2240219762315661198, 2056815281073322380, 1942532780955627238, 1347376318620327957, 341781933923442866, 3996558500888191173);
    lemma_square_step(fe_root_base(), 38, 1942532780955627238, 1347376318620327957, 2072965014761787807, 1195518990475008737, 849151765009374388, 2270165537501899045);
    lemma_square_step(fe_root_base(), 39, 2072965014761787807, 1195518990475008737, 1662087499102352953, 1029856169172585086, 1243761298744241977, 2149555743244748032);
    lemma_square_step(fe_root_base(), 40, 1662087499102352953, 1029856169172585086, 1955212993688118119, 906252907902714129, 738094969470558394, 1484672683973307637);
    lemma_square_step(fe_root_base(), 41, 1955212993688118119, 906252907902714129, 7099537347279728, 1990457656910204164, 1301720674656111392, 1536893408630852438);
    lemma_square_step(fe_root_base(), 42, 7099537347279728, 1990457656910204164, 2301577106826624115, 238184417550037413, -1718187779779914877, 12256973624784421);
    lemma_square_step(fe_root_base(), 43, 2301577106826624115, 238184417550037413, 1973234539278172120, 1061641905435853980, 2272715592937011336, 475487533579260510);
    lemma_square_step(fe_root_base(), 44, 1973234539278172120, 1061641905435853980, 2277286914618426325, 1904600371449162096, 1199808920454773925, 1817008762331552304);
    lemma_square_step(fe_root_base(), 45, 2277286914618426325, 1904600371449162096, 1510466207055935382, 2185800464363962598, 675905996349462877, 3762026717471648902);
    lemma_square_step(fe_root_base(), 46, 1510466207055935382, 2185800464363962598, 2224273544844914465, 1950612376712646868, -1082560910426852895, 2863662203885072204);
    lemma_square_step(fe_root_base(), 47, 2224273544844914465, 1950612376712646868, 14314185882030745, 1487307137816155431, 495482196119674856, 3763218474486277759);
    lemma_square_step(fe_root_base(), 48, 14314185882030745, 1487307137816155431, 1477709895268633344, 735131848334169131, -959249011074558080, 18465776507162509);
    lemma_square_step(fe_root_base(), 49, 1477709895268633344, 735131848334169131, 866591109185045633, 423480635834405859, 712627743334515642, 942225123106677219);
    lemma_square_step(fe_root_base(), 50, 866591109185045633, 423480635834405859, 138973123619611617, 881097152920875057, 247911197469939241, 318308360508263787);
    lemma_square_step(fe_root_base(), 51, 138973123619611617, 881097152920875057, 1311084444718765561, 829995604607609521, -328304511960173671, 106207424412225167);
    lemma_square_step(fe_root_base(), 52, 1311084444718765561, 829995604607609521, 223242169330631354, 373026037405259268, 446712856599381226, 943858122203266994);
    lemma_square_step(fe_root_base(), 53, 223242169330631354, 373026037405259268, 668775414326009008, 2134756501858014627, -38732627528393316, 72229671729088467);
    lemma_square_step(fe_root_base(), 54, 668775414326009008, 2134756501858014627, 1007278913389194978, 700327491968288078, -1782395744634692693, 1238308643138788654);
    lemma_square_step(fe_root_base(), 55, 1007278913389194978, 700327491968288078, 1605717535313600273, 1828763294522021819, 227314787371696977, 611858753876701699);
    lemma_square_step(fe_root_base(), 56, 1605717535313600273, 1828763294522021819, 83304533336094567, 697323983679957246, -332219661579945249, 2546988045776140328);
    lemma_square_step(fe_root_base(), 57, 83304533336094567, 697323983679957246, 612525257975972978, 2283815672160731785, -207872388113877755, 50385259371438629);
    lemma_square_step(fe_root_base(), 58, 612525257975972978, 2283815672160731785, 1073741824, 2305843008139952127, -2099287251302995315, 1213347810904831483);
    lemma_square_step(fe_root_base(), 59, 1073741824, 2305843008139952127, 0, 2305843009213693950, -2305843007066210303, 2147483646);
    lemma_square_step(fe_root_base(), 60, 0, 2305843009213693950, 2305843009213693950, 0, -2305843009213693950, 0);
}

/// Squaring `a` times and then `b` times is squaring `a + b` times.
proof fn lemma_square_times_add(x: FieldElement, a: nat, b: nat)
    ensures
        fe_square_times(fe_square_times(x, a), b) == fe_square_times(x, a + b),
    decreases b,
{
    if b > 0 {
        lemma_square_times_add(x, a, (b - 1) as nat);
        assert((a + b - 1) as nat == (a + (b - 1) as nat) as nat);
    }
}

/// The forward transform evaluates: when the twiddle factors read at stride
/// `gap_unit` are the powers of `w` and `w^(order / 2) == -1`, entry `x` of
/// the transform of `2^log_c` canonical coefficients onto `order =
/// 2^log_order` points is the polynomial of the coefficients at `w^x`.
pub proof fn lemma_fft_evaluates(
    coefs: Seq<FieldElement>,
    tw: Seq<FieldElement>,
    gap_unit: int,
    log_order: nat,
    log_c: nat,
    w: FieldElement,
    x: int,
)
    requires
        log_c <= log_order,
        coefs.len() == pow2(log_c),
        forall|t: int| 0 <= t < coefs.len() ==> (#[trigger] coefs[t]).reduced(),
        log_order >= 1 ==> fe_pow(w, (pow2(log_order) / 2) as nat) == fe_minus_one(),
        twiddles_are_powers(tw, gap_unit, w, pow2(log_order) as int),
        0 <= x < pow2(log_order),
    ensures
        fft_spec(coefs, tw, gap_unit, log_order, log_c)[x] == poly_at(coefs, fe_pow(w, x as nat)),
{
    vstd::arithmetic::power2::lemma2_to64();
    assert((log_order - 0) as nat == log_order);
    assert((log_c - 0) as nat == log_c);
    lemma_stage_eval(coefs, tw, gap_unit, log_order, log_c, 0, w, x, 0);
    assert(x * pow2(0) + 0 == x);
    assert((pow2(0) * x) as nat == x as nat);
}

/// With the root of unity of order `2^k` that `get_root_of_unity` gives
/// and its powers as twiddle factors (as `ScratchPad::from_order` makes
/// them), entry `x` of the forward transform is the polynomial of the
/// coefficients at the `x`-th power of the root.
pub proof fn lemma_fft_at_root_powers(coefs: Seq<FieldElement>, k: nat, log_c: nat, x: int)
    requires
        1 <= k < MAX_ORDER,
        log_c <= k,
        coefs.len() == pow2(log_c),
        forall|t: int| 0 <= t < coefs.len() ==> (#[trigger] coefs[t]).reduced(),
        0 <= x < pow2(k),
    ensures
        ({
            let w = fe_square_times(fe_root_base(), (MAX_ORDER - k) as nat);
            let tw = Seq::new(pow2(k), |i: int| fe_pow(w, i as nat));
            fft_spec(coefs, tw, 1, k, log_c)[x] == poly_at(coefs, fe_pow(w, x as nat))
        }),
{
    let w = fe_square_times(fe_root_base(), (MAX_ORDER - k) as nat);
    let tw = Seq::new(pow2(k), |i: int| fe_pow(w, i as nat));
    lemma_root_half_turn(k);
    assert forall|i: int| 0 <= i < pow2(k) as int / 2 implies #[trigger] tw[i * 1] == fe_pow(w, i as nat) by {
        assert(i * 1 == i);
    }
    assert(twiddles_are_powers(tw, 1, w, pow2(k) as int));
    lemma_fft_evaluates(coefs, tw, 1, k, log_c, w, x);
}

/// Squaring at least once gives a canonical element.
proof fn lemma_square_times_reduced(x: FieldElement, k: nat)
    requires
        k >= 1,
    ensures
        fe_square_times(x, k).reduced(),
{
    let y = fe_square_times(x, (k - 1) as nat);
    lemma_fe_of_reduced(y.real * y.real - y.img * y.img, y.real * y.img + y.img * y.real);
}

/// Powers multiply: `x^(a b) == (x^a)^b`.
proof fn lemma_pow_mul(x: FieldElement, a: nat, b: nat)
    ensures
        fe_pow(x, a * b) == fe_pow(fe_pow(x, a), b),
    decreases b,
{
    if b == 0 {
        assert(a * b == 0) by (nonlinear_arith)
            requires
                b == 0,
        ;
    } else {
        let b1 = (b - 1) as nat;
        lemma_pow_mul(x, a, b1);
        assert(a * b == a + a * b1) by (nonlinear_arith)
            requires
                b == b1 + 1,
        ;
        lemma_pow_add(x, a, a * b1);
        assert(fe_pow(x, a * b) == fe_mul(fe_pow(x, a), fe_pow(fe_pow(x, a), b1)));
    }
}

/// `(-1)^d` is `1` for even `d` and `-1` for odd `d`.
proof fn lemma_minus_one_pow(d: nat)
    ensures
        fe_pow(fe_minus_one(), d) == (if d % 2 == 0 {
            fe_one()
        } else {
            fe_minus_one()
        }),
    decreases d,
{
    if d > 0 {
        lemma_minus_one_pow((d - 1) as nat);
        assert(fe_minus_one() == fe_of(-1, 0));
        lemma_fe_of_reduced(-1, 0);
        lemma_mul_one(fe_minus_one());
        lemma_hom_mul(-1, 0, -1, 0);
        assert(fe_of(1, 0) == fe_one()) by {
            lemma_fe_of_reduced(1, 0);
            vstd::arithmetic::div_mod::lemma_small_mod(1, 2305843009213693951);
            vstd::arithmetic::div_mod::lemma_small_mod(0, 2305843009213693951);
        }
    }
}

/// `1 + y + ... + y^(n - 1)`.
pub open spec fn geo(y: FieldElement, n: nat) -> FieldElement
    decreases n,
{
    if n == 0 {
        fe_zero()
    } else {
        fe_add(geo(y, (n - 1) as nat), fe_pow(y, (n - 1) as nat))
    }
}

proof fn lemma_geo_reduced(y: FieldElement, n: nat)
    ensures
        geo(y, n).reduced(),
{
    if n > 0 {
        let a = geo(y, (n - 1) as nat);
        let b = fe_pow(y, (n - 1) as nat);
        lemma_fe_of_reduced(a.real + b.real, a.img + b.img);
    }
}

/// `geo(y, m + k) == geo(y, m) + y^m geo(y, k)`.
proof fn lemma_geo_split(y: FieldElement, m: nat, k: nat)
    ensures
        geo(y, m + k) == fe_add(geo(y, m), fe_mul(fe_pow(y, m), geo(y, k))),
    decreases k,
{
    lemma_geo_reduced(y, m);
    if k == 0 {
        crate::field::lemma_mul_zero(fe_pow(y, m));
        lemma_add_zero(geo(y, m));
    } else {
        let k1 = (k - 1) as nat;
        lemma_geo_split(y, m, k1);
        assert((m + k - 1) as nat == m + k1);
        lemma_pow_add(y, m, k1);
        let g = geo(y, m);
        let ym = fe_pow(y, m);
        lemma_mul_distrib(ym, geo(y, k1), fe_pow(y, k1));
        lemma_add_assoc(g, fe_mul(ym, geo(y, k1)), fe_mul(ym, fe_pow(y, k1)));
    }
}

/// Sums of the powers of a root: when `w^(2^(L-1)) == -1`,
/// `sum_{x < 2^L} w^(d x)` is `2^L` if `2^L` divides `d`, else `0`.
proof fn lemma_geo_roots(w: FieldElement, big_l: nat, d: nat)
    requires
        big_l >= 1,
        fe_pow(w, pow2((big_l - 1) as nat)) == fe_minus_one(),
    ensures
        geo(fe_pow(w, d), pow2(big_l)) == (if d % pow2(big_l) == 0 {
            crate::field::fe_nat(pow2(big_l) as int)
        } else {
            fe_zero()
        }),
    decreases big_l,
{
    let m = pow2((big_l - 1) as nat);
    vstd::arithmetic::power2::lemma_pow2_unfold(big_l);
    vstd::arithmetic::power2::lemma_pow2_pos((big_l - 1) as nat);
    let y = fe_pow(w, d);
    lemma_geo_split(y, m, m);
    let g = geo(y, m);
    lemma_geo_reduced(y, m);
    // y^m == (w^m)^d == (-1)^d
    lemma_pow_mul(w, d, m);
    lemma_pow_mul(w, m, d);
    assert(d * m == m * d) by (nonlinear_arith);
    lemma_minus_one_pow(d);
    if d % 2 == 1 {
        assert(fe_pow(y, m) == fe_minus_one());
        lemma_reduce_reduced(g);
        let (gr, gi) = (g.real as int, g.img as int);
        assert(fe_minus_one() == fe_of(-1, 0));
        lemma_hom_mul(-1, 0, gr, gi);
        assert((-1) * gr - 0 * gi == -gr && (-1) * gi + 0 * gr == -gi) by (nonlinear_arith);
        lemma_hom_add(gr, gi, -gr, -gi);
        assert(fe_of(0, 0) == fe_zero());
        lemma_odd_not_multiple(d, m);
    } else {
        assert(fe_pow(y, m) == fe_one());
        lemma_mul_one(g);
        crate::field::lemma_mul_comm(fe_one(), g);
        if big_l == 1 {
            vstd::arithmetic::power2::lemma2_to64();
            assert(m == 1);
            assert(geo(y, 0) == fe_zero());
            assert(fe_pow(y, 0) == fe_one());
            assert(g == fe_add(fe_zero(), fe_one()));
            lemma_add_zero(fe_one());
            lemma_hom_add(1, 0, 1, 0);
            assert(fe_one() == fe_of(1, 0)) by {
                lemma_fe_of_reduced(1, 0);
                vstd::arithmetic::div_mod::lemma_small_mod(1, 2305843009213693951);
                vstd::arithmetic::div_mod::lemma_small_mod(0, 2305843009213693951);
            }
            assert(d % 2 == 0);
        } else {
            let e = d / 2;
            assert(d == 2 * e);
            let w2 = fe_pow(w, 2);
            let m2 = pow2((big_l - 2) as nat);
            vstd::arithmetic::power2::lemma_pow2_unfold((big_l - 1) as nat);
            assert(m == 2 * m2);
            lemma_pow_mul(w, 2, m2);
            assert(fe_pow(w2, pow2((big_l - 1 - 1) as nat)) == fe_minus_one());
            lemma_pow_mul(w, 2, e);
            assert(y == fe_pow(w2, e));
            lemma_geo_roots(w2, (big_l - 1) as nat, e);
            assert(pow2((big_l - 1) as nat) == m);
            lemma_even_mod(e, m);
            assert(pow2(big_l) == 2 * m);
            if e % m == 0 {
                lemma_hom_add(m as int, 0, m as int, 0);
            } else {
                lemma_add_zero(fe_zero());
            }
        }
    }
}

/// `f(0) + ... + f(n - 1)`.
pub open spec fn fsum(f: spec_fn(int) -> FieldElement, n: nat) -> FieldElement
    decreases n,
{
    if n == 0 {
        fe_zero()
    } else {
        fe_add(fsum(f, (n - 1) as nat), f(n - 1))
    }
}

proof fn lemma_fsum_reduced(f: spec_fn(int) -> FieldElement, n: nat)
    ensures
        fsum(f, n).reduced(),
{
    if n > 0 {
        let a = fsum(f, (n - 1) as nat);
        let b = f(n - 1);
        lemma_fe_of_reduced(a.real + b.real, a.img + b.img);
    }
}

/// Sums of pointwise equal terms are equal.
proof fn lemma_fsum_ext(f: spec_fn(int) -> FieldElement, g: spec_fn(int) -> FieldElement, n: nat)
    requires
        forall|k: int| 0 <= k < n ==> #[trigger] f(k) == g(k),
    ensures
        fsum(f, n) == fsum(g, n),
    decreases n,
{
    if n > 0 {
        lemma_fsum_ext(f, g, (n - 1) as nat);
    }
}

/// The terms `f(k) y`.
pub open spec fn scale_fn(f: spec_fn(int) -> FieldElement, y: FieldElement) -> spec_fn(int) -> FieldElement {
    |k: int| fe_mul(f(k), y)
}

/// The terms `f(k) + g(k)`.
pub open spec fn add_fn(f: spec_fn(int) -> FieldElement, g: spec_fn(int) -> FieldElement) -> spec_fn(int) -> FieldElement {
    |k: int| fe_add(f(k), g(k))
}

/// The zero terms.
pub open spec fn zero_fn() -> spec_fn(int) -> FieldElement {
    |k: int| fe_zero()
}

/// Row `x` of a double sum: the terms `f(x, s)`.
pub open spec fn row_fn(f: spec_fn(int, int) -> FieldElement, x: int) -> spec_fn(int) -> FieldElement {
    |s: int| f(x, s)
}

/// Column `s` of a double sum: the terms `f(x, s)`.
pub open spec fn col_fn(f: spec_fn(int, int) -> FieldElement, s: int) -> spec_fn(int) -> FieldElement {
    |x: int| f(x, s)
}

/// The sums of the rows, each over `m` columns.
pub open spec fn row_sums(f: spec_fn(int, int) -> FieldElement, m: nat) -> spec_fn(int) -> FieldElement {
    |x: int| fsum(row_fn(f, x), m)
}

/// The sums of the columns, each over `n` rows.
pub open spec fn col_sums(f: spec_fn(int, int) -> FieldElement, n: nat) -> spec_fn(int) -> FieldElement {
    |s: int| fsum(col_fn(f, s), n)
}

/// `(f(0) + ... + f(n - 1)) y == f(0) y + ... + f(n - 1) y`.
proof fn lemma_fsum_scale(f: spec_fn(int) -> FieldElement, y: FieldElement, n: nat)
    ensures
        fe_mul(fsum(f, n), y) == fsum(scale_fn(f, y), n),
    decreases n,
{
    if n == 0 {
        crate::field::lemma_mul_zero(y);
    } else {
        lemma_fsum_scale(f, y, (n - 1) as nat);
        lemma_mul_comm(fe_add(fsum(f, (n - 1) as nat), f(n - 1)), y);
        lemma_mul_distrib(y, fsum(f, (n - 1) as nat), f(n - 1));
        lemma_mul_comm(y, fsum(f, (n - 1) as nat));
        lemma_mul_comm(y, f(n - 1));
    }
}

/// The sum of two sums, term by term.
proof fn lemma_fsum_add(f: spec_fn(int) -> FieldElement, g: spec_fn(int) -> FieldElement, n: nat)
    ensures
        fe_add(fsum(f, n), fsum(g, n)) == fsum(add_fn(f, g), n),
    decreases n,
{
    if n == 0 {
        lemma_add_zero(fe_zero());
    } else {
        lemma_fsum_add(f, g, (n - 1) as nat);
        lemma_add_swap(fsum(f, (n - 1) as nat), f(n - 1), fsum(g, (n - 1) as nat), g(n - 1));
    }
}

/// A sum of zeros.
proof fn lemma_fsum_zero(m: nat)
    ensures
        fsum(zero_fn(), m) == fe_zero(),
    decreases m,
{
    if m > 0 {
        lemma_fsum_zero((m - 1) as nat);
        lemma_add_zero(fe_zero());
    }
}

/// A double sum in either order.
proof fn lemma_fsum_swap(f: spec_fn(int, int) -> FieldElement, n: nat, m: nat)
    ensures
        fsum(row_sums(f, m), n) == fsum(col_sums(f, n), m),
    decreases n,
{
    if n == 0 {
        lemma_fsum_ext(col_sums(f, 0), zero_fn(), m);
        lemma_fsum_zero(m);
    } else {
        let n1 = (n - 1) as nat;
        lemma_fsum_swap(f, n1, m);
        lemma_fsum_add(col_sums(f, n1), row_fn(f, n1 as int), m);
        lemma_fsum_ext(add_fn(col_sums(f, n1), row_fn(f, n1 as int)), col_sums(f, n), m);
    }
}

/// A sum whose terms vanish but at `t` is its term at `t`.
proof fn lemma_fsum_single(f: spec_fn(int) -> FieldElement, n: nat, t: int)
    requires
        0 <= t < n,
        f(t).reduced(),
        forall|k: int| 0 <= k < n && k != t ==> #[trigger] f(k) == fe_zero(),
    ensures
        fsum(f, n) == f(t),
    decreases n,
{
    if n - 1 == t {
        lemma_fsum_ext(f, zero_fn(), (n - 1) as nat);
        lemma_fsum_zero((n - 1) as nat);
        lemma_add_zero(f(t));
    } else {
        lemma_fsum_single(f, (n - 1) as nat, t);
        lemma_add_zero(f(t));
    }
}

/// The terms `a[x] y^x` of a polynomial at `y`.
pub open spec fn poly_terms(a: Seq<FieldElement>, y: FieldElement) -> spec_fn(int) -> FieldElement {
    |x: int| fe_mul(a[x], fe_pow(y, x as nat))
}

/// The powers `y^x`.
pub open spec fn pow_terms(y: FieldElement) -> spec_fn(int) -> FieldElement {
    |x: int| fe_pow(y, x as nat)
}

proof fn lemma_poly_at_fsum(a: Seq<FieldElement>, y: FieldElement, k: nat)
    ensures
        sub_eval(a, 0, 1, k, y) == fsum(poly_terms(a, y), k),
    decreases k,
{
    if k > 0 {
        lemma_poly_at_fsum(a, y, (k - 1) as nat);
        assert(0 + (k - 1) * 1 == k - 1);
    }
}

proof fn lemma_geo_fsum(y: FieldElement, n: nat)
    ensures
        geo(y, n) == fsum(pow_terms(y), n),
    decreases n,
{
    if n > 0 {
        lemma_geo_fsum(y, (n - 1) as nat);
    }
}

/// With `w^(n / 2) == -1` and `w2 w == 1`: `w^n == 1` and `w^(n - 1) == w2`.
proof fn lemma_inverse_root_power(w: FieldElement, w2: FieldElement, big_l: nat)
    requires
        big_l >= 1,
        w.reduced(),
        w2.reduced(),
        fe_pow(w, pow2((big_l - 1) as nat)) == fe_minus_one(),
        fe_mul(w2, w) == fe_one(),
    ensures
        fe_pow(w, pow2(big_l)) == fe_one(),
        fe_pow(w, (pow2(big_l) - 1) as nat) == w2,
{
    let h = pow2((big_l - 1) as nat);
    vstd::arithmetic::power2::lemma_pow2_unfold(big_l);
    vstd::arithmetic::power2::lemma_pow2_pos(big_l);
    lemma_pow_mul(w, h, 2);
    assert(h * 2 == pow2(big_l));
    lemma_minus_one_pow(2);
    let n1 = (pow2(big_l) - 1) as nat;
    let a = fe_pow(w, n1);
    lemma_pow_add(w, n1, 1);
    assert(n1 + 1 == pow2(big_l));
    assert(fe_pow(w, 0) == fe_one());
    assert(fe_pow(w, 1) == fe_mul(w, fe_pow(w, 0)));
    lemma_mul_one(w);
    // a == a (w2 w) == (a w) w2 == w2
    crate::field::lemma_pow_reduced(w, n1);
    lemma_mul_one(a);
    lemma_mul_assoc(a, w, w2);
    lemma_mul_comm(w, w2);
    lemma_mul_comm(fe_one(), w2);
    lemma_mul_one(w2);
}

/// `(w^x)^s (w2^t)^x == (w^(s + (n - 1) t))^x` when `w2 == w^(n - 1)`.
proof fn lemma_term_exponent(w: FieldElement, w2: FieldElement, n: nat, x: nat, s: nat, t: nat)
    requires
        n >= 1,
        w2 == fe_pow(w, (n - 1) as nat),
    ensures
        fe_mul(fe_pow(fe_pow(w, x), s), fe_pow(fe_pow(w2, t), x)) == fe_pow(fe_pow(w, s + (n - 1) as nat * t), x),
{
    let n1 = (n - 1) as nat;
    lemma_pow_mul(w, x, s);
    lemma_pow_mul(w2, t, x);
    lemma_pow_mul(w, n1, t * x);
    lemma_pow_add(w, x * s, n1 * (t * x));
    lemma_pow_mul(w, s + n1 * t, x);
    assert(x * s + n1 * (t * x) == (s + n1 * t) * x) by (nonlinear_arith);
}

/// `s + (n - 1) t` is a multiple of `n` exactly when `s == t`, for `s, t < n`.
proof fn lemma_exponent_mod(s: nat, t: nat, n: nat)
    requires
        s < n,
        t < n,
    ensures
        ((s + (n - 1) as nat * t) % n == 0) == (s == t),
{
    let d = s + (n - 1) as nat * t;
    if s == t {
        assert(d == n * t) by (nonlinear_arith)
            requires
                d == s + (n - 1) as nat * t,
                s == t,
                n >= 1,
        ;
        vstd::arithmetic::div_mod::lemma_fundamental_div_mod_converse(d as int, n as int, t as int, 0);
    } else if s > t {
        assert(d == n * t + (s - t)) by (nonlinear_arith)
            requires
                d == s + (n - 1) as nat * t,
                n >= 1,
        ;
        vstd::arithmetic::div_mod::lemma_fundamental_div_mod_converse(d as int, n as int, t as int, s - t);
    } else {
        assert(d == n * (t - 1) + (n + s - t)) by (nonlinear_arith)
            requires
                d == s + (n - 1) as nat * t,
                n >= 1,
                t >= 1,
        ;
        vstd::arithmetic::div_mod::lemma_fundamental_div_mod_converse(d as int, n as int, t - 1, n + s - t);
    }
}

/// `(a b)^k == a^k b^k`.
proof fn lemma_pow_of_product(a: FieldElement, b: FieldElement, k: nat)
    ensures
        fe_pow(fe_mul(a, b), k) == fe_mul(fe_pow(a, k), fe_pow(b, k)),
    decreases k,
{
    if k == 0 {
        lemma_mul_one(fe_one());
        assert(fe_one() == fe_of(1, 0)) by {
            lemma_fe_of_reduced(1, 0);
            vstd::arithmetic::div_mod::lemma_small_mod(1, 2305843009213693951);
            vstd::arithmetic::div_mod::lemma_small_mod(0, 2305843009213693951);
        }
    } else {
        let k1 = (k - 1) as nat;
        lemma_pow_of_product(a, b, k1);
        let (pa, pb) = (fe_pow(a, k1), fe_pow(b, k1));
        // (a b)(pa pb) == (a pa)(b pb)
        lemma_mul_assoc(a, b, fe_mul(pa, pb));
        lemma_mul_assoc(b, pa, pb);
        lemma_mul_comm(b, pa);
        lemma_mul_assoc(pa, b, pb);
        lemma_mul_assoc(a, pa, fe_mul(b, pb));
    }
}

/// The inverse of a root with `w^(n / 2) == -1` has the same half turn.
proof fn lemma_half_turn_inverse(w: FieldElement, w2: FieldElement, big_l: nat)
    requires
        big_l >= 1,
        w2.reduced(),
        fe_pow(w, pow2((big_l - 1) as nat)) == fe_minus_one(),
        fe_mul(w2, w) == fe_one(),
    ensures
        fe_pow(w2, pow2((big_l - 1) as nat)) == fe_minus_one(),
{
    let h = pow2((big_l - 1) as nat);
    lemma_pow_of_product(w2, w, h);
    lemma_pow_one(h);
    let a = fe_pow(w2, h);
    crate::field::lemma_pow_reduced(w2, h);
    // a (-1) == 1, so a == a ((-1)(-1)) == -1
    lemma_minus_one_pow(2);
    lemma_fe_of_reduced(-1, 0);
    assert(fe_pow(fe_minus_one(), 2) == fe_mul(fe_minus_one(), fe_pow(fe_minus_one(), 1)));
    assert(fe_pow(fe_minus_one(), 1) == fe_mul(fe_minus_one(), fe_pow(fe_minus_one(), 0)));
    lemma_mul_one(fe_minus_one());
    lemma_mul_assoc(a, fe_minus_one(), fe_minus_one());
    lemma_mul_one(a);
    lemma_mul_comm(fe_one(), fe_minus_one());
}

/// `1^k == 1`.
proof fn lemma_pow_one(k: nat)
    ensures
        fe_pow(fe_one(), k) == fe_one(),
    decreases k,
{
    if k > 0 {
        lemma_pow_one((k - 1) as nat);
        assert(fe_one() == fe_of(1, 0)) by {
            lemma_fe_of_reduced(1, 0);
            vstd::arithmetic::div_mod::lemma_small_mod(1, 2305843009213693951);
            vstd::arithmetic::div_mod::lemma_small_mod(0, 2305843009213693951);
        }
        lemma_mul_one(fe_one());
    }
}

/// The terms of the inverse transform of the transform at `t`, row `x`
/// (point) and column `s` (coefficient): `c[s] (w^x)^s (w2^t)^x`.
pub open spec fn inverse_terms(c: Seq<FieldElement>, w: FieldElement, w2: FieldElement, t: int) -> spec_fn(int, int) -> FieldElement {
    |x: int, s: int| fe_mul(fe_mul(c[s], fe_pow(fe_pow(w, x as nat), s as nat)), fe_pow(fe_pow(w2, t as nat), x as nat))
}

/// Column `s` of the double sum: `n c[t]` at `s == t`, else `0`.
proof fn lemma_inverse_column(c: Seq<FieldElement>, w: FieldElement, w2: FieldElement, big_l: nat, t: int, s: int)
    requires
        big_l >= 1,
        c.len() == pow2(big_l),
        0 <= s < pow2(big_l),
        0 <= t < pow2(big_l),
        fe_pow(w, pow2((big_l - 1) as nat)) == fe_minus_one(),
        w2 == fe_pow(w, (pow2(big_l) - 1) as nat),
    ensures
        col_sums(inverse_terms(c, w, w2, t), pow2(big_l))(s) == (if s == t {
            fe_mul(crate::field::fe_nat(pow2(big_l) as int), c[t])
        } else {
            fe_zero()
        }),
{
    let n = pow2(big_l);
    let f = inverse_terms(c, w, w2, t);
    let d = s as nat + (n - 1) as nat * t as nat;
    let yd = fe_pow(w, d);
    assert forall|x: int| 0 <= x < n implies #[trigger] col_fn(f, s)(x) == scale_fn(pow_terms(yd), c[s])(x) by {
        lemma_term_exponent(w, w2, n, x as nat, s as nat, t as nat);
        lemma_mul_assoc(c[s], fe_pow(fe_pow(w, x as nat), s as nat), fe_pow(fe_pow(w2, t as nat), x as nat));
        lemma_mul_comm(c[s], fe_pow(yd, x as nat));
    }
    lemma_fsum_ext(col_fn(f, s), scale_fn(pow_terms(yd), c[s]), n);
    lemma_fsum_scale(pow_terms(yd), c[s], n);
    lemma_geo_fsum(yd, n);
    lemma_geo_roots(w, big_l, d);
    lemma_exponent_mod(s as nat, t as nat, n);
    if s != t {
        crate::field::lemma_mul_zero(c[s]);
    }
}

/// The inverse transform undoes the forward one: for `2^L` canonical
/// coefficients, a root `w` with `w^(2^(L-1)) == -1` and twiddle factors
/// its powers, then the inverse root `w2` (`w2 w == 1`) with twiddle factors
/// its powers and the scale `1 / 2^L`, the transform of the transform,
/// scaled, gives back the coefficients.
pub proof fn lemma_fft_inverse(
    c: Seq<FieldElement>,
    tw: Seq<FieldElement>,
    gap: int,
    tw2: Seq<FieldElement>,
    gap2: int,
    big_l: nat,
    w: FieldElement,
    w2: FieldElement,
    scale: FieldElement,
    t: int,
)
    requires
        big_l >= 1,
        c.len() == pow2(big_l),
        forall|k: int| 0 <= k < c.len() ==> (#[trigger] c[k]).reduced(),
        w.reduced(),
        w2.reduced(),
        fe_pow(w, (pow2(big_l) / 2) as nat) == fe_minus_one(),
        fe_mul(w2, w) == fe_one(),
        twiddles_are_powers(tw, gap, w, pow2(big_l) as int),
        twiddles_are_powers(tw2, gap2, w2, pow2(big_l) as int),
        fe_mul(scale, crate::field::fe_nat(pow2(big_l) as int)) == crate::field::fe_nat(1),
        0 <= t < pow2(big_l),
    ensures
        fe_mul(fft_spec(fft_spec(c, tw, gap, big_l, big_l), tw2, gap2, big_l, big_l)[t], scale) == c[t],
{
    let n = pow2(big_l);
    vstd::arithmetic::power2::lemma_pow2_unfold(big_l);
    assert(n / 2 == pow2((big_l - 1) as nat));
    lemma_inverse_root_power(w, w2, big_l);
    lemma_half_turn_inverse(w, w2, big_l);
    let v = fft_spec(c, tw, gap, big_l, big_l);
    crate::fft::lemma_fft_stage_len(c, tw, gap, big_l, big_l, 0);
    assert forall|x: int| 0 <= x < n implies #[trigger] v[x] == poly_at(c, fe_pow(w, x as nat)) && v[x].reduced() by {
        lemma_fft_evaluates(c, tw, gap, big_l, big_l, w, x);
        lemma_sub_eval_reduced(c, 0, 1, n, fe_pow(w, x as nat));
    }
    lemma_fft_evaluates(v, tw2, gap2, big_l, big_l, w2, t);
    let y = fe_pow(w2, t as nat);
    lemma_poly_at_fsum(v, y, n);
    let f = inverse_terms(c, w, w2, t);
    assert forall|x: int| 0 <= x < n implies #[trigger] poly_terms(v, y)(x) == row_sums(f, n)(x) by {
        let wx = fe_pow(w, x as nat);
        lemma_poly_at_fsum(c, wx, n);
        lemma_fsum_scale(poly_terms(c, wx), fe_pow(y, x as nat), n);
        lemma_fsum_ext(scale_fn(poly_terms(c, wx), fe_pow(y, x as nat)), row_fn(f, x), n);
    }
    lemma_fsum_ext(poly_terms(v, y), row_sums(f, n), n);
    lemma_fsum_swap(f, n, n);
    assert forall|s: int| 0 <= s < n && s != t implies #[trigger] col_sums(f, n)(s) == fe_zero() by {
        lemma_inverse_column(c, w, w2, big_l, t, s);
    }
    lemma_inverse_column(c, w, w2, big_l, t, t);
    let nt = fe_mul(crate::field::fe_nat(n as int), c[t]);
    lemma_fe_of_reduced(
        crate::field::fe_nat(n as int).real * c[t].real - crate::field::fe_nat(n as int).img * c[t].img,
        crate::field::fe_nat(n as int).real * c[t].img + crate::field::fe_nat(n as int).img * c[t].real,
    );
    lemma_fsum_single(col_sums(f, n), n, t);
    // (n c) scale == c (n scale) == c
    lemma_mul_comm(crate::field::fe_nat(n as int), c[t]);
    lemma_mul_assoc(c[t], crate::field::fe_nat(n as int), scale);
    lemma_mul_comm(crate::field::fe_nat(n as int), scale);
    assert(crate::field::fe_nat(1) == fe_one()) by {
        lemma_fe_of_reduced(1, 0);
        vstd::arithmetic::div_mod::lemma_small_mod(1, 2305843009213693951);
        vstd::arithmetic::div_mod::lemma_small_mod(0, 2305843009213693951);
    }
    lemma_mul_one(c[t]);
}

/// The root of unity of order `2^k` turns half way at `2^(k-1)`.
pub proof fn lemma_root_half_turn(k: nat)
    requires
        1 <= k < MAX_ORDER,
    ensures
        ({
            let w = fe_square_times(fe_root_base(), (MAX_ORDER - k) as nat);
            &&& w.reduced()
            &&& fe_pow(w, (pow2(k) / 2) as nat) == fe_minus_one()
        }),
{
    let w = fe_square_times(fe_root_base(), (MAX_ORDER - k) as nat);
    vstd::arithmetic::power2::lemma_pow2_unfold(k);
    let h = pow2((k - 1) as nat);
    assert(pow2(k) / 2 == h);
    lemma_root_base_half_turn();
    lemma_square_times_add(fe_root_base(), (MAX_ORDER - k) as nat, (k - 1) as nat);
    assert(((MAX_ORDER - k) as nat + (k - 1) as nat) as nat == 61);
    lemma_square_times_reduced(fe_root_base(), (MAX_ORDER - k) as nat);
    if k >= 2 {
        crate::field::lemma_square_times_pow(w, (k - 2) as nat);
        assert(((k - 2) as nat + 1) as nat == (k - 1) as nat);
    } else {
        vstd::arithmetic::power2::lemma2_to64();
        assert(fe_pow(w, 0) == fe_one());
        assert(fe_pow(w, 1) == fe_mul(w, fe_one()));
        lemma_mul_one(w);
    }
}

/// `x^e == x^r` when `x^(2^k) == 1` and `e == q 2^k + r`.
proof fn lemma_pow_mod_order(x: FieldElement, k: nat, e: nat, q: nat, r: nat)
    requires
        fe_pow(x, pow2(k)) == fe_one(),
        e == q * pow2(k) + r,
        x.reduced(),
    ensures
        fe_pow(x, e) == fe_pow(x, r),
{
    lemma_pow_add(x, q * pow2(k), r);
    lemma_pow_mul(x, pow2(k), q);
    assert(pow2(k) * q == q * pow2(k)) by (nonlinear_arith);
    lemma_pow_one(q);
    crate::field::lemma_pow_reduced(x, r);
    lemma_mul_one(fe_pow(x, r));
    lemma_mul_comm(fe_one(), fe_pow(x, r));
}

/// `p^2 - 2 == q 2^k + (2^k - 1)` for `k <= 62`.
proof fn lemma_inverse_exponent_split(k: nat) -> (q: nat)
    requires
        k <= 62,
    ensures
        crate::fft::inverse_exponent() == q * pow2(k) + (pow2(k) - 1) as nat,
{
    vstd::arithmetic::power2::lemma2_to64();
    vstd::arithmetic::power2::lemma_pow2_adds(61, 61);
    vstd::arithmetic::power2::lemma_pow2_adds(k, (122 - k) as nat);
    vstd::arithmetic::power2::lemma_pow2_adds(k, (62 - k) as nat);
    assert((k + (122 - k) as nat) as nat == 122);
    assert((k + (62 - k) as nat) as nat == 62);
    let a = pow2((122 - k) as nat);
    let b = pow2((62 - k) as nat);
    vstd::arithmetic::power2::lemma_pow2_pos((62 - k) as nat);
    if k < 62 {
        vstd::arithmetic::power2::lemma_pow2_strictly_increases((62 - k) as nat, (122 - k) as nat);
    } else {
        vstd::arithmetic::power2::lemma_pow2_strictly_increases(0, 60);
    }
    vstd::arithmetic::power2::lemma2_to64_rest();
    assert(pow2(61) == 2305843009213693952);
    assert(pow2(62) == 4611686018427387904);
    assert(pow2(122) == 5316911983139663491615228241121378304);
    assert(crate::field::prime() * crate::field::prime() - 2 == 5316911983139663487003542222693990399);
    assert(crate::fft::inverse_exponent() == pow2(122) - pow2(62) - 1);
    let q = (a - b - 1) as nat;
    assert(a >= b + 1);
    assert(crate::fft::inverse_exponent() == q * pow2(k) + (pow2(k) - 1) as nat) by (nonlinear_arith)
        requires
            crate::fft::inverse_exponent() == pow2(122) - pow2(62) - 1,
            pow2(122) == pow2(k) * a,
            pow2(62) == pow2(k) * b,
            q == a - b - 1,
            pow2(k) >= 1,
    ;
    q
}

/// `2^j` in the field is the `j`-th power of `2`.
proof fn lemma_two_pow(j: nat)
    ensures
        fe_pow(crate::field::fe_nat(2), j) == crate::field::fe_nat(pow2(j) as int),
    decreases j,
{
    if j == 0 {
        vstd::arithmetic::power2::lemma2_to64();
        assert(fe_one() == fe_of(1, 0)) by {
            lemma_fe_of_reduced(1, 0);
            vstd::arithmetic::div_mod::lemma_small_mod(1, 2305843009213693951);
            vstd::arithmetic::div_mod::lemma_small_mod(0, 2305843009213693951);
        }
    } else {
        lemma_two_pow((j - 1) as nat);
        lemma_hom_mul(2, 0, pow2((j - 1) as nat) as int, 0);
        vstd::arithmetic::power2::lemma_pow2_unfold(j);
        assert(2 * pow2((j - 1) as nat) - 0 * 0 == pow2(j) && 2 * 0 + 0 * pow2((j - 1) as nat) == 0) by (nonlinear_arith)
            requires
                pow2(j) == 2 * pow2((j - 1) as nat),
        ;
    }
}

/// The scale of the inverse transform of `2^k` values is the inverse of
/// `2^k`.
pub proof fn lemma_inverse_scale(k: nat)
    ensures
        fe_mul(crate::fft::ifft_scale(pow2(k) as int), crate::field::fe_nat(pow2(k) as int)) == crate::field::fe_nat(1),
{
    let two = crate::field::fe_nat(2);
    let x = crate::field::fe_nat(pow2(k) as int);
    lemma_two_pow(k);
    lemma_two_pow(61);
    vstd::arithmetic::power2::lemma2_to64();
    vstd::arithmetic::power2::lemma2_to64_rest();
    assert(pow2(61) == 2305843009213693952);
    assert(crate::field::fe_nat(pow2(61) as int) == fe_one()) by {
        vstd::arithmetic::div_mod::lemma_fundamental_div_mod_converse(
            2305843009213693952,
            2305843009213693951,
            1,
            1,
        );
        vstd::arithmetic::div_mod::lemma_small_mod(0, 2305843009213693951);
    }
    let e = crate::fft::inverse_exponent();
    // x^e x == x^(e + 1) == 2^(k (e + 1)) == (2^61)^(k m) == 1
    lemma_pow_add(x, e, 1);
    assert(fe_pow(x, 0) == fe_one());
    assert(fe_pow(x, 1) == fe_mul(x, fe_one()));
    lemma_fe_of_reduced(pow2(k) as int, 0);
    lemma_mul_one(x);
    lemma_pow_mul(two, k, e + 1);
    let m: nat = 87162491526879729295140036437606400;
    assert(e + 1 == 61 * m);
    assert(k * (e + 1) == 61 * (k * m)) by (nonlinear_arith)
        requires
            e + 1 == 61 * m,
    ;
    lemma_pow_mul(two, 61, k * m);
    lemma_pow_one(k * m);
    assert(crate::field::fe_nat(1) == fe_one()) by {
        lemma_fe_of_reduced(1, 0);
        vstd::arithmetic::div_mod::lemma_small_mod(1, 2305843009213693951);
        vstd::arithmetic::div_mod::lemma_small_mod(0, 2305843009213693951);
    }
}

/// The inverse transform undoes the forward one with the tables of
/// `ScratchPad::from_order(2^k)`: the forward transform of `2^k` canonical
/// coefficients with the powers of the root of order `2^k`, transformed
/// again with the powers of its inverse and scaled by `1 / 2^k` (as
/// `inverse_fast_fourier_transform` does), gives back the coefficients.
pub proof fn lemma_ifft_undoes_fft(tw: Seq<FieldElement>, inv_tw: Seq<FieldElement>, coefs: Seq<FieldElement>, k: nat, t: int)
    requires
        1 <= k < MAX_ORDER,
        ({
            let rou = fe_square_times(fe_root_base(), (MAX_ORDER - k) as nat);
            let inv_rou = fe_pow(rou, crate::fft::inverse_exponent());
            &&& tw == Seq::new(pow2(k), |i: int| fe_pow(rou, i as nat))
            &&& inv_tw == Seq::new(pow2(k), |i: int| fe_pow(inv_rou, i as nat))
        }),
        coefs.len() == pow2(k),
        forall|i: int| 0 <= i < coefs.len() ==> (#[trigger] coefs[i]).reduced(),
        0 <= t < pow2(k),
    ensures
        fe_mul(fft_spec(fft_spec(coefs, tw, 1, k, k), inv_tw, 1, k, k)[t], crate::fft::ifft_scale(pow2(k) as int))
            == coefs[t],
{
    let n = pow2(k);
    let w = fe_square_times(fe_root_base(), (MAX_ORDER - k) as nat);
    let inv = fe_pow(w, crate::fft::inverse_exponent());
    lemma_root_half_turn(k);
    vstd::arithmetic::power2::lemma_pow2_unfold(k);
    vstd::arithmetic::power2::lemma_pow2_pos(k);
    let h = pow2((k - 1) as nat);
    assert(n / 2 == h);
    // w^n == 1
    lemma_pow_mul(w, h, 2);
    assert(h * 2 == n);
    lemma_minus_one_pow(2);
    // the inverse root is w^(n - 1)
    let q = lemma_inverse_exponent_split(k);
    lemma_pow_mod_order(w, k, crate::fft::inverse_exponent(), q, (n - 1) as nat);
    lemma_pow_add(w, (n - 1) as nat, 1);
    assert(fe_pow(w, 0) == fe_one());
    assert(fe_pow(w, 1) == fe_mul(w, fe_pow(w, 0)));
    lemma_mul_one(w);
    assert((n - 1) as nat + 1 == n);
    crate::field::lemma_pow_reduced(w, (n - 1) as nat);
    assert(fe_mul(inv, w) == fe_one());
    assert forall|i: int| 0 <= i < n as int / 2 implies #[trigger] tw[i * 1] == fe_pow(w, i as nat) by {
        assert(i * 1 == i);
    }
    assert forall|i: int| 0 <= i < n as int / 2 implies #[trigger] inv_tw[i * 1] == fe_pow(inv, i as nat) by {
        assert(i * 1 == i);
    }
    lemma_inverse_scale(k);
    lemma_fft_inverse(coefs, tw, 1, inv_tw, 1, k, w, inv, crate::fft::ifft_scale(n as int), t);
}

/// Interpolation undoes evaluation, stated over what the two transforms
/// promise: with the tables of `ScratchPad::from_order(2^k)`, the values
/// that `fast_fourier_transform` gives for `2^k` canonical coefficients at
/// order `2^k`, handed to `inverse_fast_fourier_transform` with count and
/// order `2^k`, give back the coefficients.
pub proof fn lemma_interpolation_undoes_evaluation(pad: crate::fft::ScratchPad, coefs: Seq<FieldElement>, k: nat, t: int)
    requires
        1 <= k < MAX_ORDER,
        pad.twiddle_factor_size == pow2(k),
        ({
            let rou = fe_square_times(fe_root_base(), (MAX_ORDER - k) as nat);
            let inv_rou = fe_pow(rou, crate::fft::inverse_exponent());
            &&& pad.twiddle_factor@ == Seq::new(pow2(k), |i: int| fe_pow(rou, i as nat))
            &&& pad.inv_twiddle_factor@ == Seq::new(pow2(k), |i: int| fe_pow(inv_rou, i as nat))
        }),
        coefs.len() == pow2(k),
        forall|i: int| 0 <= i < coefs.len() ==> (#[trigger] coefs[i]).reduced(),
        0 <= t < pow2(k),
    ensures
        ({
            let n = pad.twiddle_factor_size;
            let values = fft_spec(coefs, pad.twiddle_factor@, (pad.twiddle_factor_size / n) as int, log_of(n as int), log_of(n as int));
            let c = ifft_count(n, n);
            fe_mul(
                fft_spec(ifft_samples(values, c, n as int), pad.inv_twiddle_factor@, (pad.twiddle_factor_size / (c as usize)) as int, log_of(c), log_of(c))[t],
                crate::fft::ifft_scale(c),
            ) == coefs[t]
        }),
{
    let n = pad.twiddle_factor_size;
    vstd::arithmetic::power2::lemma_pow2_pos(k);
    lemma_log_of(k);
    assert(n / n == 1) by (nonlinear_arith)
        requires
            n > 0,
    ;
    lemma_ifft_undoes_fft(pad.twiddle_factor@, pad.inv_twiddle_factor@, coefs, k, t);
}

/// `2 e` is a multiple of `2 m` exactly when `e` is a multiple of `m`.
proof fn lemma_even_mod(e: nat, m: nat)
    requires
        m > 0,
    ensures
        ((2 * e) % (2 * m) == 0) == (e % m == 0),
{
    let q = e / m;
    let r = e % m;
    vstd::arithmetic::div_mod::lemma_fundamental_div_mod(e as int, m as int);
    vstd::arithmetic::div_mod::lemma_mod_bound(e as int, m as int);
    assert(2 * e == (2 * m) * q + 2 * r) by (nonlinear_arith)
        requires
            e == m * q + r,
    ;
    vstd::arithmetic::div_mod::lemma_fundamental_div_mod_converse((2 * e) as int, (2 * m) as int, q as int, (2 * r) as int);
}

/// An odd number is no multiple of an even one.
proof fn lemma_odd_not_multiple(d: nat, m: nat)
    requires
        m > 0,
        d % 2 == 1,
    ensures
        d % (2 * m) != 0,
{
    if d % (2 * m) == 0 {
        vstd::arithmetic::div_mod::lemma_fundamental_div_mod(d as int, (2 * m) as int);
        let q = d / (2 * m);
        assert(d == 2 * (m * q)) by (nonlinear_arith)
            requires
                d == (2 * m) * q + 0,
        ;
        vstd::arithmetic::div_mod::lemma_fundamental_div_mod_converse(d as int, 2, (m * q) as int, 0);
    }
}

} // verus!
