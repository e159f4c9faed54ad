//! Shadow loan-to-value monitor for fixed-maturity lending markets.

pub mod binary64;
pub mod clock;
pub mod config;
pub mod feeds;
pub mod laws;
pub mod markets;
pub mod shadow;
pub mod types;
