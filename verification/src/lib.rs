//! A small interactive shell: command-line tokenizer, line editor, and
//! completion trie, with their behaviour stated and proved in Verus.
pub mod bitmap;
pub mod buffer;
pub mod commands;
pub mod input;
pub mod parse;
pub mod prompt;
pub mod terminal;
pub mod text;
pub mod trie;
