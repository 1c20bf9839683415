//! todoscan: find annotation tags (TODO, FIXME, HACK, XXX, BUG) in source
//! files. The library holds the configuration rules, the per-file scan, and
//! the rendering of matches; walking directories, reading files and printing
//! are left to the command-line program.
use vstd::prelude::*;

pub mod config;
pub mod matcher;
pub mod output;
pub mod scanner;
pub mod text;
