//! Core of a proof-of-work blockchain node: the canonical block model, its
//! canonical hash, structural block validation, exact 256-bit target and
//! difficulty arithmetic, and a bounded nonce search.
//!
//! Every function in this crate carries a contract that Verus proves, with the
//! exception of the few wrappers around outside code, each of which says in its
//! documentation what is taken on trust.

pub mod block;
pub mod bytes;
pub mod consensus;
pub mod encoding;
pub mod error;
pub mod hashing;
pub mod wide;

pub use block::{
    Block, BlockHeader, IntentData, IntentType, NoVerification, ProcessingRequirements,
    Transaction, Verifier,
};
pub use consensus::pow::{adjust_difficulty, Difficulty, Miner, MiningResult, Target};
pub use error::{Error, ValidationFailure};
