use foaks::field::{my_mod, my_mult, verify_lt_mod_many, verify_lt_mod_once, FieldElement, RootOfUnityError, VecFieldElement};
use foaks::hash::{my_hash, HashDigest};
use foaks::merkle::{create_tree, hash_double_field_element_merkle_damgard, hash_single_field_element, verify_claim};
use foaks::polynomial::{CubicPoly, LinearPoly, QuadraticPoly};
use foaks::utility::{max, min, my_log, smallest_pow2_larger_or_equal_to, Log2Error};
use foaks::utils::{parse_number, MainError};

const P: u64 = 2305843009213693951;

#[test]
fn field_arithmetic_examples() {
    let a = FieldElement::new(3, 4);
    let b = FieldElement::new(5, 6);
    assert_eq!(a + b, FieldElement::new(8, 10));
    // (3 + 4i)(5 + 6i) = 15 - 24 + (18 + 20)i
    assert_eq!(a * b, FieldElement::new(P - 9, 38));
    assert_eq!(a - b, FieldElement::new(P - 2, P - 2));
    assert_eq!(FieldElement::from_real(P + 3), FieldElement::new(3, 0));
    assert_eq!(FieldElement::from_img(P + 1), FieldElement::new(0, 1));
    assert_eq!(FieldElement::new(2, 3).sum_parts(), 5);
}

#[test]
fn field_ring_laws_on_values() {
    let a = FieldElement::new(123456789, 987654321);
    let b = FieldElement::new(P - 1, 42);
    let c = FieldElement::new(7, P - 7);
    assert_eq!(a + b, b + a);
    assert_eq!(a * b, b * a);
    assert_eq!((a + b) + c, a + (b + c));
    assert_eq!((a * b) * c, a * (b * c));
    assert_eq!(a * (b + c), a * b + a * c);
    assert_eq!(a + FieldElement::zero(), a);
    assert_eq!(a * FieldElement::real_one(), a);
    assert_eq!((a - b) + b, a);
}

#[test]
fn field_inverse_and_powers() {
    let a = FieldElement::new(3, 4);
    assert_eq!(a * a.inverse(), FieldElement::real_one());
    assert_eq!(a.fast_pow(0), FieldElement::real_one());
    assert_eq!(a.fast_pow(3), a * a * a);
    assert_eq!(FieldElement::from_real(2).inverse() * FieldElement::from_real(2), FieldElement::real_one());
}

#[test]
fn roots_of_unity() {
    let r = FieldElement::get_root_of_unity(3).unwrap();
    assert_eq!(r.fast_pow(8), FieldElement::real_one());
    assert_ne!(r.fast_pow(4), FieldElement::real_one());
    assert_eq!(FieldElement::get_root_of_unity(62), Err(RootOfUnityError::LogOrderTooHigh));
}

#[test]
fn reductions() {
    assert_eq!(my_mod(P), P);
    assert_eq!(my_mod(u64::MAX), 7 + P);
    assert_eq!(my_mod(P + 5), 5);
    assert_eq!(my_mult(P - 1, 2), ((P as u128 - 1) * 2 % P as u128) as u64);
    assert_eq!(verify_lt_mod_once(P + 1), 1);
    assert_eq!(verify_lt_mod_once(3), 3);
    assert_eq!(verify_lt_mod_many(u64::MAX), u64::MAX % P);
}

#[test]
fn random_elements_are_small() {
    for _ in 0..100 {
        let x = FieldElement::new_random();
        assert!(x.real < 2147483647 && x.img < 2147483647);
        let y = FieldElement::new_random_real_only();
        assert!(y.real < 2147483647 && y.img == 0);
    }
    let v = VecFieldElement::new_parallel(4);
    assert_eq!(v.vec, vec![FieldElement::zero(); 4]);
}

#[test]
fn logarithms_and_bounds() {
    assert_eq!(my_log(1), Ok(0));
    assert_eq!(my_log(1024), Ok(10));
    assert_eq!(my_log(0), Err(Log2Error::NotPowerOfTwo));
    assert_eq!(my_log(12), Err(Log2Error::NotPowerOfTwo));
    assert_eq!(min(3, 8), 3);
    assert_eq!(max(3, 8), 8);
    assert_eq!(smallest_pow2_larger_or_equal_to(5), 8);
    assert_eq!(smallest_pow2_larger_or_equal_to(8), 8);
    assert_eq!(smallest_pow2_larger_or_equal_to(1), 1);
}

#[test]
fn size_parameter() {
    assert_eq!(parse_number("20"), Ok(20));
    assert_eq!(parse_number("+14"), Ok(14));
    assert_eq!(parse_number("13"), Err(MainError::BelowThreshold));
    assert_eq!(parse_number("x1"), Err(MainError::ParseParamsError));
    assert_eq!(parse_number(""), Err(MainError::ParseParamsError));
    assert_eq!(parse_number("99999999999999999999999"), Err(MainError::ParseParamsError));
}

#[test]
fn digests() {
    let d = HashDigest::new_from_c(1, 2, 3, 4);
    assert_eq!(d.h0, (2u128 << 64) | 1);
    assert_eq!(d.h1, (4u128 << 64) | 3);
    let e = HashDigest::memcpy_from_field_element(FieldElement::new(5, 6));
    assert_eq!(e.h0, (5u128 << 64) | 6);
    assert_eq!(e.h1, 0);
    assert_eq!(HashDigest::format_h((0xabu128 << 64) | 0x1f), "0x00000000000000ab 0x000000000000001f");
    let z = HashDigest::default();
    let h = my_hash([z, z]);
    assert_ne!(h, z);
    assert_eq!(h, my_hash([z, z]));
    assert_ne!(my_hash([d, z]), my_hash([z, d]));
}

#[test]
fn merkle_tree_roundtrip() {
    let leaves: Vec<HashDigest> = (0..8u64).map(|i| hash_single_field_element(FieldElement::from_real(i))).collect();
    let mut tree = Vec::new();
    create_tree(&mut tree, &leaves, true);
    assert_eq!(tree.len(), 16);
    assert_eq!(tree[8], leaves[0]);
    assert_eq!(tree[4], my_hash([tree[8], tree[9]]));
    let root = tree[1];
    for pos in 0..8 {
        let mut visited = vec![false; 16];
        let mut proof_size = 0;
        assert!(verify_claim(root, &tree, leaves[pos], pos, 8, &mut visited, &mut proof_size));
        assert_eq!(proof_size, 32 * 3);
    }
    let mut visited = vec![false; 16];
    let mut proof_size = 0;
    assert!(!verify_claim(root, &tree, leaves[1], 0, 8, &mut visited, &mut proof_size));
    let h = hash_double_field_element_merkle_damgard(FieldElement::from_real(1), FieldElement::from_real(2), HashDigest::default());
    assert_ne!(h, HashDigest::default());
}

#[test]
fn repeated_path_check_changes_nothing() {
    let leaves: Vec<HashDigest> = (0..8u64).map(|i| hash_single_field_element(FieldElement::from_real(i))).collect();
    let mut tree = Vec::new();
    create_tree(&mut tree, &leaves, true);
    let root = tree[1];
    let mut visited = vec![false; 16];
    let mut proof_size = 0;
    // leaf 2 is node 10: its siblings are 11, 4 and 3
    assert!(verify_claim(root, &tree, leaves[2], 2, 8, &mut visited, &mut proof_size));
    let marked: Vec<usize> = (0..16).filter(|k| visited[*k]).collect();
    assert_eq!(marked, vec![3, 4, 11]);
    assert_eq!(proof_size, 96);
    // the same check again marks nothing and adds nothing
    assert!(verify_claim(root, &tree, leaves[2], 2, 8, &mut visited, &mut proof_size));
    assert_eq!((0..16).filter(|k| visited[*k]).count(), 3);
    assert_eq!(proof_size, 96);
    // leaf 3 (node 11) shares the siblings 4 and 3; only 10 is new
    assert!(verify_claim(root, &tree, leaves[3], 3, 8, &mut visited, &mut proof_size));
    assert_eq!(proof_size, 128);
    assert!(visited[10]);
}

#[test]
fn polynomial_examples() {
    let p = LinearPoly::new(FieldElement::from_real(2), FieldElement::from_real(3));
    assert_eq!(p.eval(FieldElement::from_real(5)), FieldElement::from_real(13));
    let q = QuadraticPoly::new(FieldElement::from_real(1), FieldElement::from_real(2), FieldElement::from_real(3));
    assert_eq!(q.eval(&FieldElement::from_real(2)), FieldElement::from_real(11));
    let s = p + LinearPoly::new_single_input(FieldElement::from_real(4));
    assert_eq!(s.eval(FieldElement::from_real(5)), FieldElement::from_real(17));
    let m = p * p;
    assert_eq!(m.eval(&FieldElement::from_real(5)), FieldElement::from_real(169));
    let c: CubicPoly = q.multi(p);
    assert_eq!(c.eval(FieldElement::from_real(2)), FieldElement::from_real(11 * 7));
    assert_eq!((q + q).eval(&FieldElement::from_real(2)), FieldElement::from_real(22));
}

#[test]
fn element_size_is_two_words() {
    assert_eq!(FieldElement::new(1, 2).size(), 16);
}

#[test]
fn bit_stream_is_the_two_words_little_endian() {
    let x = FieldElement::new(0x0102, 7);
    let bytes = x.bit_stream().unwrap();
    assert_eq!(bytes, vec![2, 1, 0, 0, 0, 0, 0, 0, 7, 0, 0, 0, 0, 0, 0, 0]);
}
