//! Column-aligned reprinting of loosely delimited tabular text.
//!
//! The library splits lines into fields, measures the fields of each column,
//! chooses a width per column and renders rows into aligned text. Reading and
//! writing streams is left to the caller.
pub mod column;
pub mod errors;
pub mod histogram;
pub mod parser;
pub mod pipeline;
pub mod range;
pub mod render;
pub mod utils;
pub mod wide;

pub use crate::errors::Error;
pub use crate::pipeline::{Options, Pipeline};
