//! The command line of the verifier: the circuit file and its meta file.
use vstd::prelude::*;

verus! {

/// The files that describe a circuit.
pub struct Paths {
    pub file_path: String,
    pub meta_path: String,
}

#[derive(Debug, PartialEq, Eq, Structural, Clone, Copy)]
pub enum ConfigError {
    /// No third argument: the circuit file is missing.
    MissingCircuitPath,
    /// No fourth argument: the meta file is missing.
    MissingMetaPath,
}

impl Paths {
    /// The paths from the command-line arguments: the circuit file is the
    /// third argument and the meta file the fourth.
    pub fn build(args: Vec<String>) -> (r: Result<Paths, ConfigError>)
        ensures
            args@.len() < 3 ==> r == Err::<Paths, ConfigError>(ConfigError::MissingCircuitPath),
            args@.len() == 3 ==> r == Err::<Paths, ConfigError>(ConfigError::MissingMetaPath),
            args@.len() >= 4 ==> (r matches Ok(p) && p.file_path == args@[2] && p.meta_path == args@[3]),
    {
        let mut args = args;
        if args.len() < 3 {
            return Err(ConfigError::MissingCircuitPath);
        }
        if args.len() < 4 {
            return Err(ConfigError::MissingMetaPath);
        }
        let meta_path = args.remove(3);
        let file_path = args.remove(2);
        Ok(Paths { file_path, meta_path })
    }
}

} // verus!
