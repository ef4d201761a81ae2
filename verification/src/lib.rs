//! Core of a small compiler for a statically typed, Rust-like imperative
//! language: interned symbols and an abstract syntax tree, a tree-walking
//! interpreter, a linear three-address intermediate representation with an
//! AST lowering pass, and an x86-64 machine-code encoder with forward-jump
//! patching.
//!
//! Parsing, type checking, borrow checking and the JIT loader are outside
//! collaborators: the driver around this library supplies an AST, gates it,
//! and hands the finished byte vector to executable memory.

pub mod ast;
pub mod lower;
pub mod interp;
pub mod ir;
pub mod x86;
