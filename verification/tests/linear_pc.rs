use foaks::field::FieldElement;
use foaks::hash::HashDigest;
use foaks::linear_code::{CodeRates, COLUMN_SIZE};
use foaks::linear_pc::LinearPC;

const ALPHA: f64 = 0.238;
const R: f64 = 1.72;
const TARGET_DISTANCE: f32 = 0.07;

fn rates_up_to(n: usize) -> CodeRates {
    let mut alpha = Vec::new();
    let mut stretch = Vec::new();
    for m in 0..=n {
        alpha.push((ALPHA * (m as f64)) as usize);
        stretch.push(((m as f64) * (R - 1.0)) as usize);
    }
    CodeRates { alpha, stretch }
}

fn query_count() -> usize {
    (-128f32 / (1f32 - TARGET_DISTANCE).log2()) as usize
}

fn coefficients(n: usize) -> Vec<FieldElement> {
    (0..n as u64).map(|i| FieldElement::new(3 * i + 1, i % 7)).collect()
}

fn evaluate(coefs: &[FieldElement], x: FieldElement) -> FieldElement {
    let mut acc = FieldElement::zero();
    for c in coefs.iter().rev() {
        acc = acc * x + *c;
    }
    acc
}

fn committed_scheme(n: usize) -> (LinearPC, Vec<FieldElement>, Vec<HashDigest>) {
    let mut pc = LinearPC::init(n, rates_up_to(n / COLUMN_SIZE));
    let coefs = coefficients(n);
    let mt = pc.commit(&coefs);
    (pc, coefs, mt)
}

#[test]
fn query_count_of_the_target_distance() {
    assert_eq!(query_count(), 1222);
}

#[test]
fn commitment_is_a_tree_over_the_columns() {
    let n = 128 * 64;
    let (pc, coefs, mt) = committed_scheme(n);
    assert_eq!(mt.len(), 4 * 64);
    assert_eq!(mt, pc.mt);
    assert_eq!(pc.coef.len(), COLUMN_SIZE);
    assert_eq!(pc.encoded_codeword.len(), COLUMN_SIZE);
    assert_eq!(&pc.coef[3][..], &coefs[3 * 64..4 * 64]);
    for row in pc.encoded_codeword.iter() {
        assert_eq!(row.len(), 128);
    }
    assert!(pc.codeword_size.iter().all(|s| *s == pc.codeword_size[0]));
    assert!(pc.codeword_size[0] > 64 && pc.codeword_size[0] <= 128);
    // the codeword starts with the row itself
    assert_eq!(&pc.encoded_codeword[5][..64], &pc.coef[5][..]);
}

#[test]
fn opening_gives_the_evaluation() {
    let n = 128 * 64;
    let (mut pc, coefs, mt) = committed_scheme(n);
    let x = FieldElement::new(12345, 678);
    let (answer, _) = pc.open_and_verify(x, n, mt, 16);
    assert_eq!(answer, evaluate(&coefs, x));
}

#[test]
fn honest_opening_is_accepted() {
    let n = 128 * 128;
    let (mut pc, coefs, mt) = committed_scheme(n);
    let x = FieldElement::new(987654321, 5);
    let (answer, ok) = pc.open_and_verify(x, n, mt, query_count());
    assert_eq!(answer, evaluate(&coefs, x));
    assert!(ok);
}

fn tensor(r: &[FieldElement], len: usize, depth: usize, val: FieldElement, out: &mut Vec<FieldElement>) {
    if len == 1 {
        out.push(val);
    } else {
        let one_minus = FieldElement::real_one() - r[depth];
        tensor(r, len / 2, depth + 1, val * one_minus, out);
        tensor(r, len - len / 2, depth + 1, val * r[depth], out);
    }
}

#[test]
fn multilinear_opening_combines_with_the_tensor() {
    let n = 128 * 64;
    let (mut pc, coefs, mt) = committed_scheme(n);
    let r: Vec<FieldElement> = (0..13u64).map(|i| FieldElement::new(i * i + 2, i)).collect();
    let mut r0 = Vec::new();
    tensor(&r, 128, 0, FieldElement::real_one(), &mut r0);
    let mut r1 = Vec::new();
    tensor(&r[7..], 64, 0, FieldElement::real_one(), &mut r1);
    let mut expected = FieldElement::zero();
    let mut row = vec![FieldElement::zero(); 64];
    for i in 0..128 {
        for j in 0..64 {
            row[j] = row[j] + r0[i] * coefs[i * 64 + j];
        }
    }
    for j in 0..64 {
        expected = expected + r1[j] * row[j];
    }
    let (answer, _) = pc.open_and_verify_multi(&r, n, mt, 16);
    assert_eq!(answer, expected);
}

#[test]
fn multilinear_opening_gives_the_multilinear_extension() {
    let n = 128 * 64;
    let (mut pc, coefs, mt) = committed_scheme(n);
    let r: Vec<FieldElement> = (0..13u64).map(|i| FieldElement::new(5 * i + 1, i * 3)).collect();
    let mut expected = FieldElement::zero();
    for (k, c) in coefs.iter().enumerate() {
        let mut w = FieldElement::real_one();
        for t in 0..13 {
            let bit = (k >> (12 - t)) & 1;
            w = w * if bit == 1 { r[t] } else { FieldElement::real_one() - r[t] };
        }
        expected = expected + *c * w;
    }
    let (answer, _) = pc.open_and_verify_multi(&r, n, mt, 16);
    assert_eq!(answer, expected);
}


#[test]
fn honest_multilinear_opening_is_accepted() {
    let n = 128 * 128;
    let (mut pc, coefs, mt) = committed_scheme(n);
    let r: Vec<FieldElement> = (0..14u64).map(|i| FieldElement::new(7 * i + 3, i + 1)).collect();
    let mut expected = FieldElement::zero();
    for (k, c) in coefs.iter().enumerate() {
        let mut w = FieldElement::real_one();
        for t in 0..14 {
            let bit = (k >> (13 - t)) & 1;
            w = w * if bit == 1 { r[t] } else { FieldElement::real_one() - r[t] };
        }
        expected = expected + *c * w;
    }
    let (answer, ok) = pc.open_and_verify_multi(&r, n, mt, query_count());
    assert_eq!(answer, expected);
    assert!(ok);
}
