//! The core of a small interactive shell: splitting a command line into
//! words (with quoting and escapes), picking out output redirections,
//! deciding what a command does, and choosing completions for the TAB key.

pub mod text;
pub mod input;
pub mod decode_command;
pub mod completer;
