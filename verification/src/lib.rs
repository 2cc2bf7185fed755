pub mod field;
pub mod utility;
pub mod hash;
pub mod merkle;
pub mod polynomial;
pub mod utils;
pub mod circuit;
pub mod prover;
pub mod beta;
pub mod sumcheck;
pub mod gkr_verifier;
pub mod constants;
pub mod config;
pub mod text;
pub mod circuit_file;
pub mod gkr_run;
pub mod fft;
pub mod fe_text;
pub mod sumcheck_rounds;
pub mod vpd;
pub mod public_array;
pub mod tensor;
pub mod fft_laws;
pub mod linear_code;
pub mod linear_pc;
pub mod multilinear;
pub mod gate_identities;
pub mod phase_one_total;
pub mod phase_two_total;
