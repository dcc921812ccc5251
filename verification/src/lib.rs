//! Exact-arithmetic alpha-factor toolkit: partition numbers, Hecke operators,
//! q-series, a deterministic integer backtest and a hash-chained factor ledger.

pub mod backtest;
pub mod bignat;
pub mod bigint;
pub mod rational;
pub mod partition;
pub mod qseries;
pub mod entropy;
pub mod digest;
pub mod features;
pub mod hecke;
pub mod hecke_product;
pub mod worm;
