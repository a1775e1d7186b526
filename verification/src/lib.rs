//! Summarize disk usage of a set of filesystem paths as a hierarchical,
//! proportionally-scaled text chart.
//!
//! The library holds the weighted tree model with its aggregation,
//! sorting and culling passes, the decision logic of the filesystem
//! scan, and the renderer that turns a tree into fixed-width rows with
//! nested proportional bars. Filesystem probing, terminal handling and
//! the command line live outside, in the binary around the library.

pub mod app;
pub mod args;
pub mod scan;
pub mod tree;
pub mod visualize;
