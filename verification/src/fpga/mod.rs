//! Synthesis: from a truth table to an addressable circuit configuration.

pub mod circuit;
pub mod layout;
pub mod route;
pub mod synthesis;
pub mod table;

pub use circuit::{CircuitView, CompileError, CompletionDetector, DualRailSignal, LookupTable};
pub use route::RouteDescriptor;
pub use synthesis::FpgaCircuit;
