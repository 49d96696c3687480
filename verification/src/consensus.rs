//! Consensus: how a block earns its place in the chain.

pub mod pow;
