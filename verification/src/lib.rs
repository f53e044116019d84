//! Shamir's secret sharing over GF(256): a secret byte string is split into
//! shards such that any `threshold` of them reconstruct it.

pub mod encoding;
pub mod err;
pub mod math;
pub mod shamir;
pub mod shard;

pub use shamir::{decode, decode_with_lut, encode, ShamirScheme};
pub use shard::SsssShard;
