use foaks::config::{ConfigError, Paths};
use foaks::field::FieldElement;
use foaks::prover::{from_string, ZkProver, SIZE};

#[test]
fn print_paths() {
    let circuit = "/workspaces/zkFOAKS/foaks/linear_gkr/mat_16_circuit.txt";
    let meta = "/workspaces/zkFOAKS/foaks/linear_gkr/mat_16_meta.txt";

    let envs = vec!["", "", circuit, meta]
        .iter()
        .map(|s| String::from(*s))
        .collect::<Vec<String>>();

    let paths = Paths::build(envs).unwrap();
    assert_eq!(paths.file_path, circuit);
    assert_eq!(paths.meta_path, meta);
}

#[test]
fn paths_missing_arguments() {
    let two = vec![String::from("a"), String::from("b")];
    assert!(matches!(Paths::build(two), Err(ConfigError::MissingCircuitPath)));
    let three = vec![String::from("a"), String::from("b"), String::from("c")];
    assert!(matches!(Paths::build(three), Err(ConfigError::MissingMetaPath)));
}

#[test]
fn prover_new() {
    assert_eq!(2 + 2, 4);
    let p = ZkProver::new();
    assert_eq!(p.circuit_value.len(), SIZE);
    assert!(p.circuit_value.iter().all(|v| v.is_empty()));
}

#[test]
fn prover_from_string() {
    let str = from_string("string");
    assert_eq!(str.real, 7452375);
}

#[test]
fn from_string_decimal() {
    let x = from_string("12345");
    assert_eq!(x, FieldElement::new(12345, 0));
}

use foaks::gkr_run::Verdict;
use foaks::gkr_verifier::ZkVerifier;

const SAMPLE_CIRCUIT: &str = "2\n2 3 0 5 0 3 1 7 0\n2 0 0 0 1 1 1 0 1\n";
const SAMPLE_META: &str = "0 0 0 0 0\n0 0 0 0 0\n";

#[test]
fn read_sample_circuit() {
    let mut v = ZkVerifier::new();
    let bits = v.read_circuit(SAMPLE_CIRCUIT, SAMPLE_META);
    assert_eq!(bits, Some(15));
    assert_eq!(v.a_c.total_depth, 3);
    assert_eq!(v.a_c.circuit.len(), 3);
    assert_eq!(v.a_c.circuit[0].gates.len(), 1 << 15);
    assert_eq!(v.a_c.circuit[1].gates.len(), 1 << 15);
    assert_eq!(v.a_c.circuit[2].gates.len(), 2);
    assert_eq!(v.a_c.circuit[0].bit_length, 15);
    assert_eq!(v.a_c.circuit[1].bit_length, 15);
    assert_eq!(v.a_c.circuit[2].bit_length, 1);
    assert_eq!((v.a_c.circuit[0].gates[1].ty, v.a_c.circuit[0].gates[1].u), (3, 7));
    assert_eq!((v.a_c.circuit[0].gates[5].ty, v.a_c.circuit[0].gates[5].u), (3, 0));
    assert_eq!((v.a_c.circuit[1].gates[9].ty, v.a_c.circuit[1].gates[9].u), (4, 9));
    assert_eq!((v.a_c.circuit[2].gates[1].ty, v.a_c.circuit[2].gates[1].u, v.a_c.circuit[2].gates[1].v), (1, 0, 1));
    assert_eq!(v.beta_g_r0_first_half.len(), 1 << 7);
    assert_eq!(v.beta_g_r0_second_half.len(), 1 << 8);
}

#[test]
fn read_rejects_bad_texts() {
    let mut v = ZkVerifier::new();
    assert_eq!(v.read_circuit("", SAMPLE_META), None);
    assert_eq!(v.read_circuit("0\n", SAMPLE_META), None);
    assert_eq!(v.read_circuit("x\n", SAMPLE_META), None);
    // gates out of order
    assert_eq!(v.read_circuit("2\n2 3 0 5 0 3 1 7 0\n2 0 1 0 1 1 0 0 1\n", SAMPLE_META), None);
    // an input of a gate beyond the previous layer
    assert_eq!(v.read_circuit("2\n2 3 0 5 0 3 1 7 0\n2 0 0 0 40000 1 1 0 1\n", SAMPLE_META), None);
    // a missing meta line
    assert_eq!(v.read_circuit(SAMPLE_CIRCUIT, "0 0 0 0 0\n"), None);
    // a parallel layer whose copies are not 2^log_repeat_num
    assert_eq!(v.read_circuit(SAMPLE_CIRCUIT, "0 0 0 0 0\n1 2 3 1 1\n"), None);
    assert_eq!(v.a_c.circuit.len(), 0);
}

fn sample_inputs() -> Vec<FieldElement> {
    let mut inputs = vec![FieldElement::zero(); 1 << 15];
    inputs[0] = FieldElement::from_real(5);
    inputs[1] = FieldElement::from_real(7);
    inputs
}

#[test]
fn honest_run_is_accepted() {
    let mut v = ZkVerifier::new();
    let bits = v.read_circuit(SAMPLE_CIRCUIT, SAMPLE_META).unwrap();
    let verdict = v.verify(bits, sample_inputs(), 0, vec![], vec![]);
    match verdict {
        Verdict::Accepted { claim, r, one_minus_r } => {
            assert_eq!(r.len(), 15);
            assert_eq!(one_minus_r.len(), 15);
            for k in 0..15 {
                assert_eq!(r[k] + one_minus_r[k], FieldElement::real_one());
            }
            // the multilinear extension of the inputs at r: only inputs 0 and 1
            // (5 and 7) are not zero, and r[0] picks between them
            let mut rest = FieldElement::real_one();
            for k in 1..15 {
                rest = rest * one_minus_r[k];
            }
            let expected = (one_minus_r[0] * FieldElement::from_real(5) + r[0] * FieldElement::from_real(7)) * rest;
            assert_eq!(claim, expected);
        }
        Verdict::Phase1Rejected { layer, round } => panic!("phase 1 rejected {} {}", layer, round),
        Verdict::Phase2Rejected { layer, round } => panic!("phase 2 rejected {} {}", layer, round),
        Verdict::LayerRejected { layer } => panic!("layer rejected {}", layer),
        Verdict::QueryMismatch { index } => panic!("query {}", index),
        Verdict::Malformed => panic!("malformed"),
    }
    assert_eq!(v.proof_size, 48 * 60);
}

#[test]
fn query_mismatch_is_reported() {
    let mut v = ZkVerifier::new();
    let bits = v.read_circuit(SAMPLE_CIRCUIT, SAMPLE_META).unwrap();
    // the outputs are 12 and 35
    let codeword = vec![FieldElement::from_real(35), FieldElement::from_real(13)];
    let verdict = v.verify(bits, sample_inputs(), 2, codeword, vec![1, 1]);
    // the first query already differs: output 0 is 12, position 1 holds 13
    assert!(matches!(verdict, Verdict::QueryMismatch { index: 0 }));
    assert_eq!(v.proof_size, 48 * 60);
}

#[test]
fn malformed_without_inputs() {
    let mut v = ZkVerifier::new();
    let bits = v.read_circuit(SAMPLE_CIRCUIT, SAMPLE_META).unwrap();
    let verdict = v.verify(bits, vec![], 0, vec![], vec![]);
    assert!(matches!(verdict, Verdict::Malformed));
}

#[test]
fn queries_that_match_are_accepted() {
    let mut v = ZkVerifier::new();
    let bits = v.read_circuit(SAMPLE_CIRCUIT, SAMPLE_META).unwrap();
    // the outputs are 12 and 35
    let codeword = vec![FieldElement::from_real(35), FieldElement::from_real(12)];
    let verdict = v.verify(bits, sample_inputs(), 2, codeword, vec![1, 0]);
    assert!(matches!(verdict, Verdict::Accepted { .. }));
    assert_eq!(v.proof_size, 48 * 60);
}

#[test]
fn malformed_when_the_tables_do_not_fit() {
    let mut v = ZkVerifier::new();
    v.read_circuit(SAMPLE_CIRCUIT, SAMPLE_META).unwrap();
    let verdict = v.verify(200, sample_inputs(), 0, vec![], vec![]);
    assert!(matches!(verdict, Verdict::Malformed));
}

fn input_only_verifier() -> ZkVerifier {
    let mut layer = foaks::circuit::Layer::new();
    for _ in 0..2 {
        let mut g = foaks::circuit::Gate::new();
        g.ty = 3;
        layer.gates.push(g);
    }
    layer.bit_length = 1;
    let mut v = ZkVerifier::new();
    v.a_c.circuit.push(layer);
    v.a_c.total_depth = 1;
    v
}

#[test]
fn input_only_circuit_checks_the_queries() {
    let inputs = vec![FieldElement::from_real(5), FieldElement::from_real(7)];
    // the outputs are the inputs: 5 and 7
    let mut v = input_only_verifier();
    let codeword = vec![FieldElement::from_real(7), FieldElement::from_real(5)];
    let verdict = v.verify(1, inputs.clone(), 2, codeword, vec![1, 0]);
    match verdict {
        Verdict::Accepted { claim, r, one_minus_r } => {
            assert_eq!(r.len(), 1);
            // the multilinear extension of (5, 7) at r
            assert_eq!(claim, one_minus_r[0] * FieldElement::from_real(5) + r[0] * FieldElement::from_real(7));
        }
        _ => panic!("not accepted"),
    }
    let mut v = input_only_verifier();
    let codeword = vec![FieldElement::from_real(7), FieldElement::from_real(5)];
    let verdict = v.verify(1, inputs, 2, codeword, vec![0, 0]);
    assert!(matches!(verdict, Verdict::QueryMismatch { index: 0 }));
}
