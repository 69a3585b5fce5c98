//! A compiler for a small scripting language with integer, character and
//! string values, variables, `print`, arithmetic, equality tests and chains
//! of `if`, `else if` and `else`.
//!
//! A source text is split into tokens ([`tokenizer`]), the tokens are parsed
//! into statements ([`parser`]), and the statements are lowered in one walk
//! to a program of basic blocks ([`codegen`], [`ir`]), which the back end
//! writes as the text of an LLVM module ([`llvm`]).
//!
//! Each step has its specification, and the code is verified against it.
//! On top of that stand the proofs that the tokenizer does not care how
//! tokens are spaced ([`spelling`], [`spacing`]), that the parser reads
//! arithmetic by the usual rules ([`grammar`]), and that a lowered program
//! is complete
//! ([`typing`], [`loads`]) and prints what its statements mean ([`meaning`],
//! [`correct`], [`outcomes`]); [`pipeline`] follows an arithmetic expression
//! through all the steps.
pub mod token;
pub mod tokenizer;
pub mod spelling;
pub mod spacing;
pub mod ast;
pub mod parser;
pub mod grammar;
pub mod ir;
pub mod codegen;
pub mod meaning;
pub mod correct;
pub mod outcomes;
pub mod typing;
pub mod loads;
pub mod pipeline;
pub mod llvm;
