//! A whole-program compiler for a small statically-shaped imperative
//! language, targeting a stack-based virtual machine.
//!
//! The pipeline is: `tokenize` (source text to tokens), `parse` (tokens to
//! an abstract syntax tree), `generate` (syntax tree to a flat three-address
//! intermediate representation organised into per-function basic-block
//! graphs), and `trans` (intermediate representation to stack-machine
//! assembly, resolving call and return through a central dispatch
//! trampoline).

pub mod generate;
pub mod parse;
pub mod strutil;
pub mod trans;
pub mod tokenize;
