//! A small `make`-style build tool: a rule file names targets, their
//! dependencies and the shell commands that produce them.  The library
//! parses such a file into a rule set, expands macros, glob tokens and
//! pattern rules, folds the phony pseudo-target, and plans which rules
//! must run by comparing modification times along the dependency graph.

pub mod resolver;
pub mod laws;
pub mod parse;
pub mod render;
pub mod text;
pub mod types;
