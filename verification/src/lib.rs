//! Password generation from a user-assembled character pool, with an
//! exact fixed-point account of the resulting entropy.
//!
//! The crate has three parts: a [`Pool`] of unique characters with stable
//! insertion order, an entropy engine converting between password length
//! and entropy in bits (held in a fixed-point representation so that the
//! conversions are exact and free of overflow), and a sampler that draws
//! passwords uniformly from a pool.

use vstd::prelude::*;

pub mod config;
pub mod entropy;
pub mod pool;
pub mod sample;

pub use config::Config;
pub use entropy::calculate_entropy;
pub use entropy::calculate_length;
pub use pool::assemble_pool;
pub use pool::Pool;
pub use sample::generate_password;
pub use sample::generate_passwords;

verus! {

/// Why a request could not be served.
#[derive(Clone, Copy, Debug, PartialEq, Eq, Structural)]
pub enum UpwdError {
    /// The character pool holds no characters, so no password can be drawn
    /// and no entropy can be attributed to one.
    EmptyPool,
    /// The pool size is 0 or 1, so no finite positive length yields the
    /// requested entropy.
    DegeneratePoolSize,
}

} // verus!
