use vstd::prelude::*;

pub mod binary_search_tree;
pub mod order;
pub mod singly_linked_list;

pub use binary_search_tree::{BinarySearchTree, Node};

verus! {

/// Sum of two unsigned integers; the caller guarantees the sum fits in a `u64`.
pub fn add(left: u64, right: u64) -> (r: u64)
    requires
        left + right <= u64::MAX,
    ensures
        r == left + right,
{
    left + right
}

} // verus!
