//! A state machine for branching, text-defined user prompts.
//!
//! A script is a line-oriented text document describing a sequence of
//! dialog nodes.  Each node is one of three kinds: a `Question` node that
//! captures a free-text answer, a `Branching` node that offers a numbered
//! list of options, and a `Terminating` node that ends the session.  The
//! parser turns the script into an ordered node list; the execution engine
//! walks that list one input line at a time, storing captured answers in a
//! variable environment and substituting them into later prompts.

pub mod env;
pub mod machine;
pub mod node;
pub mod parse;
pub mod text;

pub use env::Env;
pub use machine::Nodes;
pub use parse::NodesParser;
pub use text::{format_authors, trim_whitespace};
