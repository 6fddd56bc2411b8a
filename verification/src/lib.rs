//! An execution engine for the eight-instruction tape language: a front end
//! that reads source text, an intermediate representation with a peephole
//! optimizer, a packed 32-bit encoding, and interpreters for each form.
//! What each part computes is stated in its contract and proved.

pub mod aot;
pub mod bytecode;
pub mod engine;
pub mod fusion;
pub mod link;
pub mod machine;
pub mod naive;
pub mod nesting;
pub mod optcode;
pub mod parse;
pub mod tree;
