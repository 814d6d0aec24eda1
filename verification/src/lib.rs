//! Front end of a command-line shell: a statement tokenizer that splits raw
//! input into statement strings while tracking quoting, nesting and comments,
//! and the job model that turns a statement's argument list into an
//! executable representation with multi-source and multi-sink I/O wiring.

pub mod splitter;
pub mod job;
pub mod tee;
pub mod plugins;
pub mod refined;
