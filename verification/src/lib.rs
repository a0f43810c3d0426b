//! Whole-program stack-usage analysis for embedded executables.
//!
//! The crate builds a call graph whose nodes carry a per-function local
//! stack usage (`Local`) and, after analysis, an upper or lower bound on
//! the total stack depth of any call chain rooted at that node (`Max`).

pub mod analyze;
pub mod builder;
pub mod chars;
pub mod fmt_num;
pub mod names;
pub mod sig;
pub mod graph;
pub mod ir;
pub mod demangle;
pub mod machine;
pub mod maybe;
pub mod metrics;
pub mod symbols;
pub mod target;
pub mod node;
pub mod parse;
pub mod render;
