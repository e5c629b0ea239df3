//! Compiler and runtime for a small clockless-logic description language.
//!
//! A circuit is described as a truth table over named inputs. The compiler
//! turns it into dual-rail registers, lookup tables, a completion detector
//! and a routing table inside a configuration region; the runtime drives
//! installed circuits while keeping every signal on the return-to-NULL
//! discipline of NULL Convention Logic.

pub mod fpga;
pub mod parser;
pub mod runtime;
pub mod sel4;
