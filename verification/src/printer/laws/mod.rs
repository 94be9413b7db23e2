//! What holds of everything that is printed.

pub mod output;
pub mod content;
pub mod errors;
pub mod lines;
pub mod fitting;
pub mod fills;
pub mod nesting;
pub mod layout;
pub mod measuring;
pub mod widths;
pub mod steps;
pub mod rows;
pub mod alternatives;
pub mod basics;
pub mod documents;
pub mod entries;
pub mod choices;
pub mod conditions;
