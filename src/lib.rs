//! Number-theoretic transforms over the BN254 group G1 on the CPU, serial and
//! split into independent parts, verified against their contracts, with the
//! field and group arithmetic delegated to arkworks.
use vstd::prelude::*;

pub mod bits;
pub mod error;
pub mod field;
pub mod point;
pub mod ntt;

pub use error::{EcError, EcResult};
pub use field::{Scalar, pow_vartime};
pub use point::Point;
pub use ntt::{
    parallel_ec_fft, parallel_ec_fft_gather, parallel_ec_fft_part, serial_ec_fft, try_parallel_ec_fft,
    try_serial_ec_fft,
};
pub use bits::bitreverse;

verus! {

} // verus!
