//! What the library is for, operation by operation: what every result satisfies,
//! said of inputs and results alone.

pub mod codes;
pub mod instructions;
pub mod kinds;
pub mod layouts;
pub mod objects;
pub mod packing;
pub mod parses;
pub mod pipelines;
pub mod rewritings;
pub mod sections;
pub mod shared;
pub mod steps;
pub mod tables;
pub mod templates;
pub mod texts;
pub mod transforms;
