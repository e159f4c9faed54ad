//! The two price feeds.

pub mod cex;
pub mod oracle;
