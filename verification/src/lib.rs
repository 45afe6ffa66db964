//! Compiler and witness builder for independently challengeable program
//! segments of a fraud-proof protocol.
//!
//! A large verifiable computation is split into small segments.  For each
//! segment, the compiler produces bytecode for a two-stack machine that
//! re-verifies bit commitments, recomputes the segment's fragment and
//! compares the outcome against the committed result hashes, and the
//! witness builder lays out the exact ordered byte witness that bytecode
//! consumes.

pub mod assigner;
pub mod element;
pub mod hashing;
pub mod protocol;
pub mod script;
pub mod segment;
