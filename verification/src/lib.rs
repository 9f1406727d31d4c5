//! OotleSwap: a constant-product AMM for Tari Ootle, its pool registry and a
//! faucet test token, written as verified state machines over plain values.
//!
//! The Ootle engine (vaults, buckets, minting, events) stays outside this
//! crate: each operation here decides what happens to the numbers and
//! addresses, and the template that runs on the engine performs the
//! corresponding vault and resource operations.

pub mod address;
pub mod math;
pub mod pool;
pub mod factory;
pub mod soon_token;
