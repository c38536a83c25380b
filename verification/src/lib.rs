//! One-way directory synchronisation: the comparison of a source tree with a
//! target tree, the plan that results from it, and the bookkeeping of the two
//! phases that carry the plan out.
//!
//! The library never touches a file system. It says what has to be looked at
//! and takes the answers; the caller does the looking.
//!
//! - [`path`]: paths as sequences of components.
//! - [`exclusion`]: the source directories that a comparison leaves out.
//! - [`plan`]: the directories to create and the files to copy.
//! - [`differ`]: the comparison, as a conversation with the caller.
//! - [`snapshot`]: the comparison of a tree held in memory, in one go.
//! - [`apply`]: carrying a plan out item by item, and what failed.
//! - [`tree`]: what a comparison is to find, for any source tree.
//! - [`conversation`]: that the differ finds it.
//! - [`reach`], [`laws`]: what holds of every plan.

pub mod apply;
pub mod conversation;
pub mod differ;
pub mod exclusion;
pub mod laws;
pub mod path;
pub mod plan;
pub mod reach;
pub mod snapshot;
pub mod tree;
