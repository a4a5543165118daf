//! What holds of the election as a whole.
pub mod arithmetic;
pub mod candidacy;
pub mod certificates;
pub mod elections;
pub mod leaders;
pub mod measures;
pub mod measuring;
pub mod rules;
pub mod scores;
pub mod window;
