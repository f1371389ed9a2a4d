//! Control-flow graphs of function bodies with `match`, `if let` and `if`:
//! patterns are checked for shape, blocks are sealed once, and every arm
//! reconverges at a single join block.

use vstd::prelude::*;

pub mod builder;
pub mod frame;
pub mod graph;
pub mod pattern;
pub mod reach;
pub mod rect;
pub mod store;
