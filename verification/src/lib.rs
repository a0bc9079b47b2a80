//! Flattening of hierarchical document block trees into plain content records,
//! together with the path and batch rules that drive it over a directory.

pub mod batch;
pub mod block;
pub mod chars;
pub mod flatten;
pub mod paths;
pub mod text;
