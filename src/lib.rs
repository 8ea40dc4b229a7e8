//! Dice-roll expressions such as `3d6+2`: a verified scanner that turns the
//! text into terms, and an evaluator that rolls each term and adds up the
//! result.

pub mod random;
pub mod roll;
pub mod scan;
pub mod term;

pub use random::roll_range;
pub use roll::{roll_dice, sum_terms, Roll, RollView};
pub use scan::{normalize, parse_terms};
pub use term::{DieRollTerm, RollError};
