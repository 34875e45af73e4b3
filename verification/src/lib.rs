//! The leaf node of a copy-on-write B+Tree: a fixed-capacity, sorted slot
//! array of key-value pairs, together with the insert/remove outcome protocol
//! (`Ok` / `Split` / `Shrink`) through which a parent branch reacts to a
//! child's structural changes.
//!
//! A leaf is always mutated by a single writer working on a private copy, so
//! it carries no synchronization state of its own. What is verified here is
//! the structural core the surrounding tree depends on: the live prefix stays
//! strictly sorted, an insert into a full leaf keeps the `L_CAPACITY`
//! smallest keys and promotes exactly the largest excess pair, and a remove
//! that empties the leaf reports a `Shrink` to its parent.

pub mod constants;
pub mod leaf;
pub mod order;
pub mod states;
pub mod utils;
