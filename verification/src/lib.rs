//! Fills the outlined interior of a thermometer picture in proportion to the
//! progress made towards a goal.

pub mod bounds;
pub mod fill;
pub mod grid;
pub mod parse;
pub mod path;
