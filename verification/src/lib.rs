//! A verified interpreter for a minimal eight-instruction language that
//! operates on a flat array of byte cells addressed by a single movable
//! pointer.
//!
//! The pipeline: the lexer ([`token::tokenize`]) filters raw source bytes
//! down to instruction tokens; the structural parser ([`parser::parse`])
//! builds a nested operation tree, resolving loop nesting; the peephole
//! optimizer ([`optimizer::optimizing_parse`]) additionally fuses runs of
//! identical pointer-move and cell-arithmetic operations; the linear
//! compiler ([`flat::compile`]) instead produces a flat instruction array
//! with precomputed jump targets. Two execution engines — a tree walker
//! ([`interp::run`]) and a program-counter-driven loop ([`flat::run_flat`])
//! — drive a fixed-size byte memory with a single data pointer.
//!
//! Every component carries a contract against a mathematical model of the
//! machine ([`sem`]), and the optimizer is proved semantically transparent.

pub mod ast;
pub mod flat;
pub mod interp;
pub mod optimizer;
pub mod parser;
pub mod sem;
pub mod token;
