//! The values of a locale file and the rules by which they are read.

pub mod grammar;
pub mod interpolate;
pub mod key;
pub mod parsed_value;
pub mod plural;
pub mod seed;
pub mod tag;
pub mod text;
