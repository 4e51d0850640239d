//! A four-function reverse Polish notation calculator engine.
//!
//! Every value the engine holds is an IEEE 754 binary64 number kept as its
//! 64-bit pattern. The engine is an operand stack plus a digit-entry state
//! machine; each command reports whether the display has to be refreshed.

pub mod binary64;
pub mod command;
pub mod decimal;
pub mod display;
pub mod laws;
pub mod render;
pub mod rpn_calc;
pub mod shortest;
