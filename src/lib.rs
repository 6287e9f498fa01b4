//! Include resolution and custom-gates pragma checking for circuit source files.
//!
//! `path` holds a purely lexical path normalizer, `file_stack` the worklist
//! that resolves include statements and hands out each file once, and
//! `includes_graph` the include graph that reports every chain through which
//! the custom-gates feature reaches a file lacking its pragma.
pub mod path;
pub mod file_stack;
pub mod includes_graph;
