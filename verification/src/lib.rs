//! An optimizing compiler middle-end for a small eight-operator tape
//! language: tokens, a syntax tree of nested loops, a flat intermediate
//! representation with matched loop markers, and the rewrite passes that
//! shrink it, with the backends that turn tree or program into target
//! operations.
//!
//! The way of a program: `lexer` and `parser` read it, `lowering` flattens
//! the tree, `optimizer` runs `peephole`, `locality` and `deadloop` round
//! after round, and `codegen` writes the result out; `compiler` does all of
//! it in one call. `naive` and `llvm` are backends that start from the
//! tree.
//!
//! The other modules hold what is proved of these: `unique` (a token
//! stream is written by one tree), `nesting` and `preserved` (loop markers
//! stay matched through every pass), `shape`, `canonical` and `progress`
//! (the optimizer comes to rest, and where), `effect` and `machine` (what
//! a run does to the tape and what a whole program does), `folding`,
//! `pruning`, `clearing` and `sound` (the passes do not change that, the
//! multiplication rule apart), `loops` (the multiplication rule is right
//! on a cleared counter), and `target` (the generated operations do what
//! the program does).

pub mod lexer;
pub mod parser;
pub mod unique;
pub mod lowering;
pub mod nesting;
pub mod peephole;
pub mod locality;
pub mod deadloop;
pub mod optimizer;
pub mod codegen;
pub mod target;
pub mod compiler;
pub mod naive;
pub mod llvm;
pub mod shape;
pub mod canonical;
pub mod progress;
pub mod preserved;
pub mod effect;
pub mod loops;
pub mod machine;
pub mod folding;
pub mod pruning;
pub mod clearing;
pub mod sound;
