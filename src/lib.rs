//! Formatting of action priority lists: tokenizing, parsing and pretty-printing
//! of boolean conditions, and grouping of script lines by trigger key.
pub mod text;
pub mod tokenizer;
pub mod expr;
pub mod render;
pub mod condition;
pub mod order;
pub mod script;
pub mod group;
