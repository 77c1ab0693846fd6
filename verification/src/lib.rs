//! Verified core of the Z1 inference engine for Llama models.

pub mod arith;
pub mod console;
pub mod engine;
pub mod expr;
pub mod float;
pub mod generate;
pub mod gguf;
pub mod graph;
pub mod harness;
pub mod plan;
pub mod quantum;
pub mod sampling;
pub mod server;
pub mod shapes;
pub mod text;
pub mod values;
pub mod weights;
