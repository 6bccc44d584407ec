//! First-order Markov chain transition counting with a sliding live window.

pub mod baseline;
pub mod kl;
pub mod live;
pub mod tally;
