//! A customizable buddy allocator: a coordinator over pluggable rows, one row
//! per power-of-two size class.
//!
//! Addresses are plain `usize` values. A row records which blocks of its size
//! class are free, by block index (`address / 2^order`); the coordinator moves
//! blocks between rows when it splits and coalesces.
//!
//! - `order`: orders, block sizes, and the arithmetic between addresses and
//!   block indices;
//! - `line`: the contract between the coordinator and its rows;
//! - `partition`: what the rows mean taken together, and why it is kept;
//! - `allocator`: the coordinator;
//! - `bitmap`, `bit_array`, `linked_list`, `avl`: rows.

pub mod order;
pub mod line;
pub mod partition;
pub mod bitmap;
pub mod allocator;
pub mod linked_list;
pub mod avl;
pub mod bit_array;

pub use crate::allocator::{BuddyAllocator, BuddyError};
pub use crate::avl::AvlBuddy;
pub use crate::bit_array::BitArrayBuddy;
pub use crate::bitmap::UsizeBuddy;
pub use crate::linked_list::LinkedListBuddy;
pub use crate::line::{BuddyCollection, BuddyLine, OligarchyCollection};
pub use crate::order::Order;
