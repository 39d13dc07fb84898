//! The tokenizer: from the input to a tree of tokens.

pub mod l1;
pub mod l2;
pub mod quoted;
