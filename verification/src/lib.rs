//! A small interactive command shell: tokenizer, command and pipeline
//! planning, and the shell's variable store, with verified contracts.

pub mod command;
pub mod input;
pub mod lines;
pub mod pipeline;
pub mod shell;
pub mod text;
pub mod token_laws;
pub mod tokenize;
