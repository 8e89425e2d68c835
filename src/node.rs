use vstd::prelude::*;
use crate::ids::ArenaItemId;

verus! {

/// A tree node: the ids of its five neighbours and the caller's value.
#[derive(Debug)]
pub struct Node<T> {
    pub parent_id: Option<ArenaItemId>,
    pub prev_sibling_id: Option<ArenaItemId>,
    pub next_sibling_id: Option<ArenaItemId>,
    pub first_child_id: Option<ArenaItemId>,
    pub last_child_id: Option<ArenaItemId>,
    pub value: T,
}

impl<T> Node<T> {
    pub open spec fn new_spec(value: T) -> Node<T> {
        Node {
            parent_id: None,
            prev_sibling_id: None,
            next_sibling_id: None,
            first_child_id: None,
            last_child_id: None,
            value,
        }
    }

    /// A node linked to nothing.
    pub fn new(value: T) -> (r: Node<T>)
        ensures
            r == Node::new_spec(value),
    {
        Node {
            parent_id: None,
            prev_sibling_id: None,
            next_sibling_id: None,
            first_child_id: None,
            last_child_id: None,
            value,
        }
    }
}

} // verus!
