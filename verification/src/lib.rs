//! Prints documents made of format elements, collects the elements that make up a document, and
//! plans edits of JavaScript syntax trees.

pub mod text_size;
pub mod tag;
pub mod format_element;
pub mod diagnostics;
pub mod options;
pub mod printed;
pub mod printer;
pub mod arguments;
pub mod syntax;
pub mod batch;
