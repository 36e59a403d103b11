//! Constraint-driven generation and mutation of Kubernetes resources for
//! fuzzing admission controller chains.

pub mod text;
pub mod paths;
pub mod json;
pub mod conf;
pub mod schema;
pub mod pattern;
pub mod constrain;
pub mod load;
pub mod generator;
pub mod mutator;
pub mod fuzz;
pub mod status;
pub mod resource;
pub mod cli;
