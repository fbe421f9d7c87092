//! An evaluator for boolean formulas.
//!
//! A formula is built from the bits `0` and `1`, variables, parentheses and
//! nine operators: `!`, `&&`, `||`, `->`, `<-`, `<->`, `^`, `!&&` and `!||`.
//! A line holds a formula between square brackets, followed by the bits of
//! its variables: `[a && (b || 1)] a 1 b 0`.
//!
//! The modules, in the order in which a line passes through them:
//!
//! - `chars`: characters and their classes;
//! - `token`: tokens and their mathematical model;
//! - `tokenizer`: the lexer, from text to tokens;
//! - `syntax`: the grammar validator;
//! - `binding`: variable bindings and substitution;
//! - `blocks`: the bracket resolver, from parentheses to groups;
//! - `evaluator`: the tree builder and the evaluator;
//! - `boolean`: the operators on bits;
//! - `formula`: the steps in a row, from tokens or text to a bit;
//! - `commands`: lines, commands and the replies to them;
//! - `error`: the ways to fail.
//!
//! Four more modules state what holds of the others: `shape` (tokens up to
//! their positions), `flatten` (from groups back to parentheses), `render`
//! (from tokens back to text, and through the lexer again) and `relex`
//! (from a line to its tokens, to text and to the same tokens again).
#![allow(non_snake_case)]

pub mod binding;
pub mod blocks;
pub mod boolean;
pub mod chars;
pub mod commands;
pub mod error;
pub mod evaluator;
pub mod flatten;
pub mod formula;
pub mod relex;
pub mod render;
pub mod shape;
pub mod syntax;
pub mod token;
pub mod tokenizer;
