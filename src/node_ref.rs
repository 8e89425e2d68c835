use vstd::prelude::*;
use crate::ids::ArenaItemId;
use crate::node::Node;
use crate::tree::Tree;

verus! {

/// A read-only handle on one node of a tree, with the node's record fetched when the
/// handle is made.
pub struct Ref<'a, T> {
    cached: Option<&'a Node<T>>,
    tree: &'a Tree<T>,
    id: ArenaItemId,
}

impl<'a, T> Clone for Ref<'a, T> {
    fn clone(&self) -> (r: Self)
        ensures
            r == *self,
    {
        proof {
            use_type_invariant(self);
        }
        Ref { cached: self.cached, tree: self.tree, id: self.id }
    }
}

impl<'a, T> Copy for Ref<'a, T> {}

impl<'a, T> Ref<'a, T> {
    #[verifier::type_invariant]
    spec fn inv(&self) -> bool {
        &&& self.tree.wf()
        &&& self.cached.is_some() == self.tree.nodes().contains_key(self.id)
        &&& self.cached.is_some() ==> *self.cached.unwrap() == self.tree.nodes()[self.id]
    }

    pub closed spec fn spec_tree(&self) -> Tree<T> {
        *self.tree
    }

    pub closed spec fn spec_id(&self) -> ArenaItemId {
        self.id
    }

    pub(crate) fn new(tree: &'a Tree<T>, id: ArenaItemId) -> (r: Ref<'a, T>)
        requires
            tree.wf(),
        ensures
            r.spec_tree() == *tree,
            r.spec_id() == id,
    {
        proof {
            tree.lemma_unfold();
        }
        let cached = tree.arena.get(id);
        Ref { cached, tree, id }
    }

    pub fn tree(&self) -> (r: &'a Tree<T>)
        ensures
            *r == self.spec_tree(),
            r.wf(),
    {
        proof {
            use_type_invariant(self);
        }
        self.tree
    }

    pub fn id(&self) -> (r: ArenaItemId)
        ensures
            r == self.spec_id(),
            self.spec_tree().wf(),
    {
        proof {
            use_type_invariant(self);
        }
        self.id
    }

    pub fn try_value(&self) -> (r: Option<&'a T>)
        ensures
            r.is_some() == self.spec_tree().nodes().contains_key(self.spec_id()),
            r.is_some() ==> *r.unwrap() == self.spec_tree().nodes()[self.spec_id()].value,
    {
        proof {
            use_type_invariant(self);
        }
        match self.cached {
            Some(node) => Some(&node.value),
            None => None,
        }
    }

    pub fn try_into_value(self) -> (r: Option<&'a T>)
        ensures
            r.is_some() == self.spec_tree().nodes().contains_key(self.spec_id()),
            r.is_some() ==> *r.unwrap() == self.spec_tree().nodes()[self.spec_id()].value,
    {
        self.try_value()
    }

    pub fn parent_id(&self) -> (r: Option<ArenaItemId>)
        ensures
            r == self.spec_tree().parent_of(self.spec_id()),
    {
        proof {
            use_type_invariant(self);
        }
        match self.cached {
            Some(node) => node.parent_id,
            None => None,
        }
    }

    pub fn prev_sibling_id(&self) -> (r: Option<ArenaItemId>)
        ensures
            r == self.spec_tree().prev_sibling_of(self.spec_id()),
    {
        proof {
            use_type_invariant(self);
        }
        match self.cached {
            Some(node) => node.prev_sibling_id,
            None => None,
        }
    }

    pub fn next_sibling_id(&self) -> (r: Option<ArenaItemId>)
        ensures
            r == self.spec_tree().next_sibling_of(self.spec_id()),
    {
        proof {
            use_type_invariant(self);
        }
        match self.cached {
            Some(node) => node.next_sibling_id,
            None => None,
        }
    }

    pub fn first_child_id(&self) -> (r: Option<ArenaItemId>)
        ensures
            r == self.spec_tree().first_child_of(self.spec_id()),
    {
        proof {
            use_type_invariant(self);
        }
        match self.cached {
            Some(node) => node.first_child_id,
            None => None,
        }
    }

    pub fn last_child_id(&self) -> (r: Option<ArenaItemId>)
        ensures
            r == self.spec_tree().last_child_of(self.spec_id()),
    {
        proof {
            use_type_invariant(self);
        }
        match self.cached {
            Some(node) => node.last_child_id,
            None => None,
        }
    }

    /// A handle on the node `id` of the same tree, when `id` is `Some`.
    fn relative(&self, id: Option<ArenaItemId>) -> (r: Option<Ref<'a, T>>)
        ensures
            r.is_some() == id.is_some(),
            r.is_some() ==> r.unwrap().spec_id() == id.unwrap() && r.unwrap().spec_tree()
                == self.spec_tree(),
    {
        proof {
            use_type_invariant(self);
        }
        match id {
            Some(id) => Some(Ref::new(self.tree, id)),
            None => None,
        }
    }

    pub fn parent(&self) -> (r: Option<Ref<'a, T>>)
        ensures
            r.is_some() == self.spec_tree().parent_of(self.spec_id()).is_some(),
            r.is_some() ==> r.unwrap().spec_id() == self.spec_tree().parent_of(self.spec_id()).unwrap()
                && r.unwrap().spec_tree() == self.spec_tree(),
    {
        self.relative(self.parent_id())
    }

    pub fn prev_sibling(&self) -> (r: Option<Ref<'a, T>>)
        ensures
            r.is_some() == self.spec_tree().prev_sibling_of(self.spec_id()).is_some(),
            r.is_some() ==> r.unwrap().spec_id() == self.spec_tree().prev_sibling_of(
                self.spec_id(),
            ).unwrap() && r.unwrap().spec_tree() == self.spec_tree(),
    {
        self.relative(self.prev_sibling_id())
    }

    pub fn next_sibling(&self) -> (r: Option<Ref<'a, T>>)
        ensures
            r.is_some() == self.spec_tree().next_sibling_of(self.spec_id()).is_some(),
            r.is_some() ==> r.unwrap().spec_id() == self.spec_tree().next_sibling_of(
                self.spec_id(),
            ).unwrap() && r.unwrap().spec_tree() == self.spec_tree(),
    {
        self.relative(self.next_sibling_id())
    }

    pub fn first_child(&self) -> (r: Option<Ref<'a, T>>)
        ensures
            r.is_some() == self.spec_tree().first_child_of(self.spec_id()).is_some(),
            r.is_some() ==> r.unwrap().spec_id() == self.spec_tree().first_child_of(
                self.spec_id(),
            ).unwrap() && r.unwrap().spec_tree() == self.spec_tree(),
    {
        self.relative(self.first_child_id())
    }

    pub fn last_child(&self) -> (r: Option<Ref<'a, T>>)
        ensures
            r.is_some() == self.spec_tree().last_child_of(self.spec_id()).is_some(),
            r.is_some() ==> r.unwrap().spec_id() == self.spec_tree().last_child_of(
                self.spec_id(),
            ).unwrap() && r.unwrap().spec_tree() == self.spec_tree(),
    {
        self.relative(self.last_child_id())
    }

    /// The previous and next sibling ids.
    pub fn sibling_ids(&self) -> (r: (Option<ArenaItemId>, Option<ArenaItemId>))
        ensures
            r == (self.spec_tree().prev_sibling_of(self.spec_id()), self.spec_tree().next_sibling_of(
                self.spec_id(),
            )),
    {
        (self.prev_sibling_id(), self.next_sibling_id())
    }

    /// The first and last child ids.
    pub fn edge_ids(&self) -> (r: (Option<ArenaItemId>, Option<ArenaItemId>))
        ensures
            r == (self.spec_tree().first_child_of(self.spec_id()), self.spec_tree().last_child_of(
                self.spec_id(),
            )),
    {
        (self.first_child_id(), self.last_child_id())
    }
}

} // verus!
