//! Parameters shared by the commitment and the proof system.
use vstd::prelude::*;

verus! {

/// The deepest folding of the low-degree test.
pub const MAX_FRI_DEPTH: usize = 30;

/// The witness is cut into `2^LOG_SLICE_NUMBER` slices.
pub const LOG_SLICE_NUMBER: usize = 6;

/// The number of slices, `2^LOG_SLICE_NUMBER`.
pub const SLICE_NUMBER: usize = 64;

/// The Reed-Solomon code rate, as a power of two.
pub const RS_CODE_RATE: usize = 5;

/// The largest number of bits of a layer.
pub const MAX_BIT_LENGTH: usize = 30;

/// The largest order of a transform.
pub const MAX_ORDER_FFT: usize = 28;

} // verus!
