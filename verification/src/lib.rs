//! A tokenizer and a recursive-descent parser for JSON-like text, with
//! trailing commas tolerated in objects and arrays.
//!
//! `tokenizer` turns characters into tokens and `parser` turns tokens into
//! a tree of elements. `grammar` and the spec functions of `tokenizer` say
//! what each of them gives for every input; `writing` proves that what
//! writes an element reads back as that element.
pub mod grammar;
pub mod number;
pub mod parser;
pub mod text;
pub mod tokenizer;
pub mod truncated;
pub mod writing;
