//! An append-only, indexable singly-linked list whose nodes may carry one
//! randomly assigned "skip" link to a later node, so that lookup by position
//! can jump ahead instead of walking every link.
//!
//! Nodes live in an arena and refer to each other by position, so the links
//! that do not own (the back link and the skip link) are plain indices.

pub mod draw;
pub mod list;

pub use draw::{adopts_skip, PercentSource, ThreadRandom};
pub use list::{drained_view, skip_added, LinkedList, Node};
