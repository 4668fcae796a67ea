//! Pixel: forward-secure signatures over a pairing, with aggregation. A signer holds
//! one verification key for all periods and a key set that moves forward from period
//! to period and never back. The signatures of many signers on one message at one
//! period add up to one signature, which one pairing equation verifies under the sum
//! of their keys.

pub mod aggregate_signature;
pub mod algebra;
pub mod correctness;
pub mod descent;
pub mod errors;
pub mod keys;
pub mod model;
pub mod signature;
pub mod util;
