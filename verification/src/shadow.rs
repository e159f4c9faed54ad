//! The shadow engine.

pub mod engine;
