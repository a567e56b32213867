//! Erasure-coded stripe updates: a Reed-Solomon kernel over GF(2^8), stripe
//! containers, byte-range sets, the eviction policies and segment logs of a slice
//! buffer, and the configuration and routing rules of the update pipelines.
pub mod cluster;
pub mod config;
pub mod erasure_code;
pub mod error;
pub mod gf;
pub mod standalone;
pub mod storage;
pub mod trace_parser;

pub use error::{SUError, SUResult};
