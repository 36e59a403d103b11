//! Generating random resources that conform to a narrowed schema.

pub mod rand;
pub mod gen;
