//! A front end for template markup.
//!
//! The scanner turns raw template text — elements, attributes, bound
//! attributes, plain text and embedded expression placeholders — into a flat
//! ordered token sequence, and the parser turns that sequence into a syntax
//! tree for a downstream generator to consume.

pub mod chars;
pub mod laws;
pub mod parser;
pub mod scanner;
pub mod token;
