//! Core logic of a sandwich-trading engine for constant-product (V2) pools.
//!
//! The library holds the decision and computation layer: swap classification,
//! constant-product pricing, packed calldata construction, profit settlement,
//! grid-search optimization, bundle packing under balance budgets, and the
//! bookkeeping of pending transactions. Chain RPC, EVM execution and relay
//! dispatch live outside the library and hand it plain values.

pub mod amm;
pub mod encode;
pub mod extractor;
pub mod fees;
pub mod maps;
pub mod optimizer;
pub mod packer;
pub mod pools;
pub mod sandwich;
pub mod strategy;
pub mod types;
