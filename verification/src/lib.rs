//! A round-based proof-of-stake block-proposal simulation: hash-chained
//! blocks with an exact text codec, a per-height candidate pool, a
//! stake-weighted lottery, the write-once canonical store, and the round
//! orchestrator that drives one tick of the protocol at a time.

pub mod block;
pub mod clock;
pub mod codec;
pub mod digits;
pub mod errors;
pub mod hashing;
pub mod lottery;
pub mod randomness;
pub mod registry;
pub mod round;
pub mod store;
