//! Front end of the Jib compiler: a tokenizer over raw source text and a tree
//! builder that folds the token stream into a syntax tree.

pub mod args;
pub mod diagnostic;
pub mod lexer;
pub mod parser;
pub mod pattern;
pub mod text;
pub mod theorems;
