//! Reward accounting for a liquidity-mining contract: 256-bit unsigned
//! integers over big-endian bytes, ray (10^27) fixed-point arithmetic,
//! the share computation for mining pools, and the contract's storage
//! and entry points as a state machine over plain values.
#![allow(non_snake_case)]

pub mod digits;
pub mod persist;
pub mod u256;
pub mod address;
pub mod constants;
pub mod contract;
pub mod context;
pub mod db;
pub mod decimal;
pub mod host;
pub mod laws;
pub mod types;
pub mod utils;
