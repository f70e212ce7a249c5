//! Miscellaneous building blocks.

pub mod lemmas;
pub mod model;
pub mod utils;
