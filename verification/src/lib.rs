//! A verified execution engine for a minimal tape-based, byte-oriented
//! language with eight instructions: pointer movement, cell arithmetic,
//! byte input/output, and a zero-test loop construct.
//!
//! The engine runs as a strict pipeline: a loader decodes source symbols
//! into an instruction sequence, a one-time resolver matches every loop
//! bracket pair into a jump table, and an execution loop runs the sequence
//! against a fixed-size circular memory tape.  The whole pipeline is
//! specified against a mathematical small-step machine in [`semantics`]
//! and verified against it.

pub mod instructions;
pub mod semantics;
pub mod interpreter;
