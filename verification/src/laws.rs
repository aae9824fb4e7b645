//! What the operations are for, stated on what goes in and what comes out: laws that hold whatever
//! way an operation is carried out.

pub mod actions;
pub mod arguments;
pub mod buffers;
pub mod caches;
pub mod calls;
pub mod escaping;
pub mod folding;
pub mod importing;
pub mod keeping;
pub mod listing;
pub mod merging;
pub mod pruning;
pub mod requests;
pub mod rings;
pub mod scanning;
pub mod sizes;
pub mod steps;
pub mod texts;
pub mod types;
pub mod walks;
pub mod windows;
