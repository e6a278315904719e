//! Shell-quoting for lines of text.
//!
//! The library turns each input line into a form that a POSIX-compatible
//! shell parses back as a single word equal to the original line, with
//! NUL characters removed first, since no quoted shell word can carry a
//! NUL.  [`quoting`] holds the quoting engine and its fallback policy,
//! [`shell`] a model of shell word reading and the proof that quoting
//! round-trips through it, [`lines`] the line sources and the output
//! framing, and [`cli`] the validation of the separator option.

pub mod cli;
pub mod lines;
pub mod quoting;
pub mod shell;
