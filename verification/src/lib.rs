//! Fraud detection by similarity search.
//!
//! A transaction is turned into a short vector of quantized features and classified by the labels
//! of the five nearest labelled vectors of a prebuilt index.

pub mod consts;
pub mod evaluation;
pub mod http;
pub mod index;
pub mod laws;
pub mod parse;
pub mod references;
pub mod report;
pub mod response;
pub mod server;
pub mod text;
pub mod time;
pub mod trailing;
pub mod vectorize;

use vstd::prelude::*;

verus! {

/// Number of features that take part in distances.
pub const DIM: usize = 14;

/// Number of features that a stored vector has room for.
pub const STORE_DIM: usize = 16;

/// Number of neighbours that vote.
pub const K: usize = 5;

/// The quantized value of `1.0`.
pub const SCALE: i16 = 10_000;

/// A quantized feature vector.
pub type QVec = [i16; STORE_DIM];

} // verus!
