use foaks::fe_text::read_vec_fe_file;
use foaks::fft::{fast_fourier_transform, inverse_fast_fourier_transform, ScratchPad};
use foaks::field::FieldElement;
use foaks::hash::{my_hash, HashDigest};
use foaks::merkle::hash_single_field_element;
use foaks::polynomial::QuadraticPoly;
use foaks::vpd::verify_merkle;

const P: u64 = 2305843009213693951;

#[test]
fn test_eval() {
    let a = FieldElement::new(1, 2);
    let b = FieldElement::new(2, 2);
    let c = FieldElement::new(3, 2);

    let x = FieldElement::new(2, 2);

    // (1 + 2i)(2 + 2i) = -2 + 6i
    assert_eq!(a * b, FieldElement::new(P - 2, 6));

    let q_poly = QuadraticPoly::new(a, b, c);
    // a x^2 + b x + c with x^2 = 8i: (-16 + 8i) + 8i + (3 + 2i)
    assert_eq!(q_poly.eval(&x), FieldElement::new(P - 13, 18));
}

#[test]
fn test_hash() {
    let fields = [
        FieldElement { real: 1804289383, img: 846930886 },
        FieldElement { real: 1957747793, img: 424238335 },
    ];
    let h = hash_single_field_element(fields[0]);
    let mut data = [HashDigest::default(), HashDigest::default()];
    data[0] = HashDigest::memcpy_from_field_element(fields[0]);
    assert_eq!(h, my_hash(data));
    assert_ne!(h, hash_single_field_element(fields[1]));
    assert_eq!(HashDigest::memcpy_from_field_element(fields[0]).h0, (1804289383u128 << 64) | 846930886u128);
}

#[test]
fn field_elements_from_text() {
    let v = read_vec_fe_file("1 2\n3 4 extra\r\n  +5\t6\n").unwrap();
    assert_eq!(v, vec![FieldElement::new(1, 2), FieldElement::new(3, 4), FieldElement::new(5, 6)]);
    assert_eq!(read_vec_fe_file("").unwrap(), vec![]);
    // coordinates are kept as written, not reduced
    assert_eq!(
        read_vec_fe_file("18446744073709551615 0").unwrap(),
        vec![FieldElement::new(u64::MAX, 0)]
    );
}

#[test]
fn field_elements_from_bad_text() {
    assert_eq!(read_vec_fe_file("1\n"), None);
    assert_eq!(read_vec_fe_file("1 2\n\n3 4\n"), None);
    assert_eq!(read_vec_fe_file("1 x\n"), None);
    assert_eq!(read_vec_fe_file("-1 2\n"), None);
    assert_eq!(read_vec_fe_file("18446744073709551616 0\n"), None);
}

#[test]
fn merkle_path_check() {
    let x = FieldElement::new(11, 12);
    let y = FieldElement::new(13, 14);
    let values = vec![(x, y)];
    let leaf = my_hash([HashDigest::memcpy_from_field_elements([x, y]), HashDigest::default()]);
    let sibling = HashDigest { h0: 99, h1: 100 };
    let path = vec![sibling, leaf];
    // the low bit of `pow` puts the sibling on the left
    assert!(verify_merkle(my_hash([leaf, sibling]), &path, 2, 0, &values));
    assert!(verify_merkle(my_hash([sibling, leaf]), &path, 2, 1, &values));
    assert!(!verify_merkle(my_hash([leaf, sibling]), &path, 2, 1, &values));
    // the values must hash to the last entry
    assert!(!verify_merkle(my_hash([leaf, sibling]), &path, 2, 0, &vec![(y, x)]));
    // with a single step nothing is climbed
    assert!(verify_merkle(leaf, &vec![leaf], 1, 0, &values));
}

#[test]
fn fft_then_inverse_gives_back_the_coefficients() {
    let order = 8usize;
    let root = FieldElement::get_root_of_unity(3).unwrap();
    let mut pad = ScratchPad::from_order(order);
    let coefficients: Vec<FieldElement> = (0..8u64).map(|k| FieldElement::new(k * k + 1, 3 * k)).collect();
    let mut values = vec![FieldElement::zero(); order];
    fast_fourier_transform(&coefficients, order, order, root, &mut values, &mut pad, None);
    // the last stage stays in the first scratch table
    assert_eq!(pad.dst[0], values);
    assert_eq!(pad.dst[2], vec![FieldElement::zero(); order]);
    // the value at 1 is the sum of the coefficients
    let mut sum = FieldElement::zero();
    for c in &coefficients {
        sum = sum + *c;
    }
    assert_eq!(values[0], sum);
    // the value at the root is the polynomial at the root
    let mut at_root = FieldElement::zero();
    for c in coefficients.iter().rev() {
        at_root = at_root * root + *c;
    }
    assert_eq!(values[1], at_root);
    let mut back = vec![FieldElement::zero(); order];
    inverse_fast_fourier_transform(&mut pad, &values, order, order, root, &mut back);
    assert_eq!(back, coefficients);
}

use foaks::gkr_verifier::ZkVerifier;
use foaks::prover::{SumcheckInitArgs, ZkProver};

const SAMPLE_CIRCUIT: &str = "2\n2 3 0 5 0 3 1 7 0\n2 0 0 0 1 1 1 0 1\n";
const SAMPLE_META: &str = "0 0 0 0 0\n0 0 0 0 0\n";

fn complement_of(r: &[FieldElement]) -> Vec<FieldElement> {
    r.iter().map(|x| FieldElement::real_one() - *x).collect()
}

#[test]
fn consecutive_rounds_agree() {
    let mut v = ZkVerifier::new();
    let bits = v.read_circuit(SAMPLE_CIRCUIT, SAMPLE_META).unwrap();
    let mut prover = ZkProver::new();
    prover.init_array(bits, v.a_c.copy());
    let mut inputs = vec![FieldElement::zero(); 1 << 15];
    inputs[0] = FieldElement::from_real(5);
    inputs[1] = FieldElement::from_real(7);
    inputs[2] = FieldElement::new(3, 4);
    prover.get_witness(inputs);
    let result = prover.evaluate();
    assert_eq!(result.len(), 2);
    let r_0 = vec![FieldElement::new(17, 3)];
    let r_1 = vec![FieldElement::new(29, 8)];
    let layer = 2;
    let length_v = v.a_c.circuit[layer - 1].bit_length;
    prover.sumcheck_init(SumcheckInitArgs {
        sumcheck_layer_id: layer,
        length_g: v.a_c.circuit[layer].bit_length,
        length_v,
        alpha: FieldElement::real_one(),
        beta: FieldElement::zero(),
        r_0: r_0.clone(),
        r_1: r_1.clone(),
        one_minus_r_0: complement_of(&r_0),
        one_minus_r_1: complement_of(&r_1),
    });
    assert!(prover.phase1_ready_check());
    prover.sumcheck_phase1_init();
    // the first round's values at 0 and 1 add up to the layer's claim
    let claim = prover.v_res(&complement_of(&r_0), &r_0, result.clone());
    let mut previous = FieldElement::zero();
    let mut expected = claim;
    for j in 0..length_v {
        assert!(prover.round_ready_check());
        let poly = prover.sumcheck_phase1_update(previous, j);
        assert_eq!(poly.eval(&FieldElement::zero()) + poly.eval(&FieldElement::real_one()), expected);
        let r = FieldElement::new(1000 + j as u64, 7 * j as u64);
        expected = poly.eval(&r);
        previous = r;
    }
}

use foaks::vpd::{FieldElement64, Mapping64};

#[test]
fn slice_containers_start_empty() {
    let m = Mapping64::default();
    assert_eq!(m.0.len(), 64);
    assert!(m.0.iter().all(|v| v.is_empty()));
    let f = FieldElement64::default();
    assert_eq!(f.0.len(), 64);
    assert!(f.0.iter().all(|v| v.is_empty()));
}

fn public_point() -> (Vec<FieldElement>, Vec<FieldElement>) {
    let r: Vec<FieldElement> = (0..8u64).map(|k| FieldElement::new(3 + 5 * k, 2 * k + 1)).collect();
    let om = complement_of(&r);
    (r, om)
}

#[test]
fn public_array_coefficients() {
    let (r, om) = public_point();
    let mut v = ZkVerifier::new();
    v.ctx.q_eval_real = vec![FieldElement::zero(); 256];
    v.dfs_for_public_eval(0, FieldElement::real_one(), &r, &om, 8, 0);
    let mut pad = ScratchPad::from_order(4);
    let before = (pad.twiddle_factor.clone(), pad.inv_twiddle_factor.clone());
    let arr = v.public_array_prepare(&r, om.clone(), 8, &mut pad).unwrap();
    assert_eq!(arr.len(), 256);
    assert_eq!((pad.twiddle_factor.clone(), pad.inv_twiddle_factor.clone()), before);
    assert_eq!(v.ctx.q_ratio.len(), 64);
    assert_eq!(v.ctx.q_eval_verifier.len(), 4);
    // the low table is the table of r[0], r[1]: entry 1 has bit 0 set
    assert_eq!(v.ctx.q_eval_verifier[1], r[0] * om[1]);
    // the high table: entry 1 has bit 0 of the high part set
    assert_eq!(v.ctx.q_ratio[1], r[2] * om[3] * om[4] * om[5] * om[6] * om[7]);
    // slice 0 holds the coefficients times ratio 0; their transform gives the low table back
    let inv = v.ctx.q_ratio[0].inverse();
    let coefs: Vec<FieldElement> = (0..4).map(|j| arr[j] * inv).collect();
    let mut values = vec![FieldElement::zero(); 4];
    let root = FieldElement::get_root_of_unity(2).unwrap();
    fast_fourier_transform(&coefs, 4, 4, root, &mut values, &mut pad, None);
    assert_eq!(values, v.ctx.q_eval_verifier);
    for i in 0..64 {
        for j in 0..4 {
            assert_eq!(arr[i * 4 + j], arr[j] * inv * v.ctx.q_ratio[i]);
        }
    }
}

#[test]
fn public_array_rejects_a_wrong_table() {
    let (r, om) = public_point();
    let mut v = ZkVerifier::new();
    v.ctx.q_eval_real = vec![FieldElement::zero(); 256];
    v.dfs_for_public_eval(0, FieldElement::real_one(), &r, &om, 8, 0);
    v.ctx.q_eval_real[77] = v.ctx.q_eval_real[77] + FieldElement::real_one();
    let mut pad = ScratchPad::from_order(4);
    assert_eq!(v.public_array_prepare(&r, om, 8, &mut pad), None);
}

#[test]
fn unicode_whitespace_separates_words() {
    let v = read_vec_fe_file("1\u{a0}2\n3\u{3000}4\u{2003}x\n5\u{85}\u{205f}6\n").unwrap();
    assert_eq!(v, vec![FieldElement::new(1, 2), FieldElement::new(3, 4), FieldElement::new(5, 6)]);
    // a middle dot is no whitespace
    assert_eq!(read_vec_fe_file("1\u{b7}2 3\n"), None);
    // a lone carriage return at the end stays in the last line
    assert_eq!(read_vec_fe_file("1 2\r"), Some(vec![FieldElement::new(1, 2)]));
}
