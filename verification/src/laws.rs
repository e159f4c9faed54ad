//! What holds of the library as a whole.

pub mod auction;
pub mod book;
pub mod crash;
pub mod due;
pub mod health;
pub mod incentive;
pub mod interpolation;
pub mod lif;
pub mod liquidation;
pub mod markets;
pub mod oracle;
pub mod quote;
pub mod ramp;
pub mod seizure;
pub mod shortfall;
pub mod state;
pub mod takings;
pub mod wait;
pub mod weights;
pub mod worth;
