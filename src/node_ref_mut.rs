use vstd::prelude::*;
use crate::ids::ArenaItemId;
use crate::links::{
    append_link,
    prepend_link,
    detach_link,
    lemma_append_link,
    lemma_prepend_link,
    lemma_detach_link,
    lemma_value_update,
    lemma_links_union,
    lemma_links_keep_values,
    child_list_ok,
    raise,
    lemma_ranked_attach,
    lemma_ranked_release,
    lemma_ranked_union,
    lemma_anc_closed,
    parent_ok,
};
use crate::node_ref::Ref;
use crate::node::Node;
use crate::tree::Tree;

verus! {

/// A handle on one node of a tree that can change the tree; it fetches the node anew on
/// each access.
pub struct RefMut<'a, T> {
    pub tree: &'a mut Tree<T>,
    pub id: ArenaItemId,
}

impl<T> Tree<T> {
    pub fn get_mut(&mut self, id: ArenaItemId) -> (r: RefMut<'_, T>)
        ensures
            *r.tree == *old(self),
            *final(r.tree) == *final(self),
            r.id == id,
    {
        RefMut { tree: self, id }
    }
}

impl<'a, T> RefMut<'a, T> {
    /// The tree as it stands now.
    pub open spec fn spec_tree(&self) -> Tree<T> {
        *self.tree
    }

    pub fn tree(&self) -> (r: &Tree<T>)
        ensures
            *r == self.spec_tree(),
    {
        self.tree
    }

    /// The whole tree, for changes beyond this node.
    pub fn tree_mut(&mut self) -> (r: &mut Tree<T>)
        ensures
            *r == *old(self).tree,
            *final(self).tree == *final(r),
            final(self).id == old(self).id,
            *final(final(self).tree) == *final(old(self).tree),
    {
        self.tree
    }

    pub fn id(&self) -> (r: ArenaItemId)
        ensures
            r == self.id,
    {
        self.id
    }

    /// A read-only handle on the same node.
    pub fn into_ref(self) -> (r: Ref<'a, T>)
        requires
            self.spec_tree().wf(),
        ensures
            r.spec_tree() == self.spec_tree(),
            r.spec_id() == self.id,
    {
        Ref::new(self.tree, self.id)
    }

    pub fn try_value(&self) -> (r: Option<&T>)
        requires
            self.spec_tree().wf(),
        ensures
            r.is_some() == self.spec_tree().nodes().contains_key(self.id),
            r.is_some() ==> *r.unwrap() == self.spec_tree().nodes()[self.id].value,
    {
        proof {
            self.tree.lemma_unfold();
        }
        match self.tree.arena.get(self.id) {
            Some(node) => Some(&node.value),
            None => None,
        }
    }

    pub fn try_value_mut(&mut self) -> (r: Option<&mut T>)
        requires
            old(self).tree.wf(),
        ensures
            final(self).id == old(self).id,
            *final(final(self).tree) == *final(old(self).tree),
            r.is_some() == old(self).tree.nodes().contains_key(old(self).id),
            r.is_some() ==> *r.unwrap() == old(self).tree.nodes()[old(self).id].value,
            final(self).tree.wf(),
            old(self).tree.same_storage(*final(self).tree),
            final(self).tree.children() == old(self).tree.children(),
            r.is_some() ==> final(self).tree.nodes() == old(self).tree.nodes().insert(
                old(self).id,
                Node { value: *final(r.unwrap()), ..old(self).tree.nodes()[old(self).id] },
            ),
            r.is_none() ==> final(self).tree.nodes() == old(self).tree.nodes(),
    {
        let id = self.id;
        proof {
            self.tree.lemma_unfold();
        }
        let ghost old_tree = *self.tree;
        let r = match self.tree.arena.get_mut(id) {
            Some(node) => Some(&mut node.value),
            None => None,
        };
        proof {
            let new_tree = after_borrow(*self.tree);
            new_tree.lemma_unfold();
            if r.is_some() {
                lemma_value_update(old_tree.nodes(), old_tree.children(), id, *final(r.unwrap()));
                assert(new_tree.nodes() =~= old_tree.nodes().insert(id, Node { value: *final(r.unwrap()), ..old_tree.nodes()[id] }));
                lemma_ranked_release(old_tree.nodes(), new_tree.nodes(), old_tree.depths());
            }
        }
        r
    }

    pub fn parent_id(&self) -> (r: Option<ArenaItemId>)
        requires
            self.spec_tree().wf(),
        ensures
            r == self.spec_tree().parent_of(self.id),
    {
        proof {
            self.tree.lemma_unfold();
        }
        match self.tree.arena.get(self.id) {
            Some(node) => node.parent_id,
            None => None,
        }
    }

    pub fn parent(&mut self) -> (r: Option<RefMut<'_, T>>)
        requires
            old(self).tree.wf(),
        ensures
            final(self).id == old(self).id,
            *final(final(self).tree) == *final(old(self).tree),
            r.is_some() == old(self).tree.parent_of(old(self).id).is_some(),
            r.is_some() ==> r.unwrap().id == old(self).tree.parent_of(old(self).id).unwrap()
                && *r.unwrap().tree == *old(self).tree && *final(self).tree == *final(r.unwrap().tree),
            r.is_none() ==> *final(self).tree == *old(self).tree,
    {
        match self.parent_id() {
            Some(id) => Some(self.tree.get_mut(id)),
            None => None,
        }
    }

    pub fn prev_sibling_id(&self) -> (r: Option<ArenaItemId>)
        requires
            self.spec_tree().wf(),
        ensures
            r == self.spec_tree().prev_sibling_of(self.id),
    {
        proof {
            self.tree.lemma_unfold();
        }
        match self.tree.arena.get(self.id) {
            Some(node) => node.prev_sibling_id,
            None => None,
        }
    }

    pub fn prev_sibling(&mut self) -> (r: Option<RefMut<'_, T>>)
        requires
            old(self).tree.wf(),
        ensures
            final(self).id == old(self).id,
            *final(final(self).tree) == *final(old(self).tree),
            r.is_some() == old(self).tree.prev_sibling_of(old(self).id).is_some(),
            r.is_some() ==> r.unwrap().id == old(self).tree.prev_sibling_of(old(self).id).unwrap()
                && *r.unwrap().tree == *old(self).tree && *final(self).tree == *final(r.unwrap().tree),
            r.is_none() ==> *final(self).tree == *old(self).tree,
    {
        match self.prev_sibling_id() {
            Some(id) => Some(self.tree.get_mut(id)),
            None => None,
        }
    }

    pub fn next_sibling_id(&self) -> (r: Option<ArenaItemId>)
        requires
            self.spec_tree().wf(),
        ensures
            r == self.spec_tree().next_sibling_of(self.id),
    {
        proof {
            self.tree.lemma_unfold();
        }
        match self.tree.arena.get(self.id) {
            Some(node) => node.next_sibling_id,
            None => None,
        }
    }

    pub fn next_sibling(&mut self) -> (r: Option<RefMut<'_, T>>)
        requires
            old(self).tree.wf(),
        ensures
            final(self).id == old(self).id,
            *final(final(self).tree) == *final(old(self).tree),
            r.is_some() == old(self).tree.next_sibling_of(old(self).id).is_some(),
            r.is_some() ==> r.unwrap().id == old(self).tree.next_sibling_of(old(self).id).unwrap()
                && *r.unwrap().tree == *old(self).tree && *final(self).tree == *final(r.unwrap().tree),
            r.is_none() ==> *final(self).tree == *old(self).tree,
    {
        match self.next_sibling_id() {
            Some(id) => Some(self.tree.get_mut(id)),
            None => None,
        }
    }

    pub fn first_child_id(&self) -> (r: Option<ArenaItemId>)
        requires
            self.spec_tree().wf(),
        ensures
            r == self.spec_tree().first_child_of(self.id),
    {
        proof {
            self.tree.lemma_unfold();
        }
        match self.tree.arena.get(self.id) {
            Some(node) => node.first_child_id,
            None => None,
        }
    }

    pub fn first_child(&mut self) -> (r: Option<RefMut<'_, T>>)
        requires
            old(self).tree.wf(),
        ensures
            final(self).id == old(self).id,
            *final(final(self).tree) == *final(old(self).tree),
            r.is_some() == old(self).tree.first_child_of(old(self).id).is_some(),
            r.is_some() ==> r.unwrap().id == old(self).tree.first_child_of(old(self).id).unwrap()
                && *r.unwrap().tree == *old(self).tree && *final(self).tree == *final(r.unwrap().tree),
            r.is_none() ==> *final(self).tree == *old(self).tree,
    {
        match self.first_child_id() {
            Some(id) => Some(self.tree.get_mut(id)),
            None => None,
        }
    }

    pub fn last_child_id(&self) -> (r: Option<ArenaItemId>)
        requires
            self.spec_tree().wf(),
        ensures
            r == self.spec_tree().last_child_of(self.id),
    {
        proof {
            self.tree.lemma_unfold();
        }
        match self.tree.arena.get(self.id) {
            Some(node) => node.last_child_id,
            None => None,
        }
    }

    pub fn last_child(&mut self) -> (r: Option<RefMut<'_, T>>)
        requires
            old(self).tree.wf(),
        ensures
            final(self).id == old(self).id,
            *final(final(self).tree) == *final(old(self).tree),
            r.is_some() == old(self).tree.last_child_of(old(self).id).is_some(),
            r.is_some() ==> r.unwrap().id == old(self).tree.last_child_of(old(self).id).unwrap()
                && *r.unwrap().tree == *old(self).tree && *final(self).tree == *final(r.unwrap().tree),
            r.is_none() ==> *final(self).tree == *old(self).tree,
    {
        match self.last_child_id() {
            Some(id) => Some(self.tree.get_mut(id)),
            None => None,
        }
    }

    /// The previous and next sibling ids.
    pub fn sibling_ids(&self) -> (r: (Option<ArenaItemId>, Option<ArenaItemId>))
        requires
            self.spec_tree().wf(),
        ensures
            r == (self.spec_tree().prev_sibling_of(self.id), self.spec_tree().next_sibling_of(self.id)),
    {
        (self.prev_sibling_id(), self.next_sibling_id())
    }

    /// The first and last child ids.
    pub fn edge_ids(&self) -> (r: (Option<ArenaItemId>, Option<ArenaItemId>))
        requires
            self.spec_tree().wf(),
        ensures
            r == (self.spec_tree().first_child_of(self.id), self.spec_tree().last_child_of(self.id)),
    {
        (self.first_child_id(), self.last_child_id())
    }

    /// Links the existing node `child_id` as this node's last child. `None`, changing
    /// nothing, unless both nodes exist and the child may be attached here (see
    /// `Tree::can_attach`).
    pub fn append_id(&mut self, child_id: ArenaItemId) -> (r: Option<()>)
        requires
            old(self).tree.wf(),
        ensures
            final(self).id == old(self).id,
            *final(final(self).tree) == *final(old(self).tree),
            final(self).tree.wf(),
            old(self).tree.same_storage(*final(self).tree),
            r.is_some() == old(self).tree.can_attach(old(self).id, child_id),
            r.is_some() ==> final(self).tree.nodes() == append_link(
                old(self).tree.nodes(),
                old(self).id,
                child_id,
            ) && final(self).tree.children() == old(self).tree.children().insert(
                old(self).id,
                old(self).tree.children()[old(self).id].push(child_id),
            ),
            r.is_none() ==> *final(self).tree == *old(self).tree,
    {
        let id = self.id;
        proof {
            self.tree.lemma_unfold();
        }
        let ghost old_tree = *self.tree;
        let old_last_child_id = match self.tree.arena.get(id) {
            Some(node) => node.last_child_id,
            None => {
                return None;
            },
        };
        let attachable = match self.tree.arena.get(child_id) {
            Some(node) => node.parent_id.is_none(),
            None => false,
        };
        if !attachable || child_id == id || child_id == self.tree.root {
            return None;
        }
        if self.tree.reaches_exec(id, child_id) {
            return None;
        }
        // Link the new child to its parent and previous sibling.
        match self.tree.arena.get_mut(child_id) {
            Some(node) => {
                node.parent_id = Some(id);
                node.prev_sibling_id = old_last_child_id;
            },
            None => {},
        }
        // Link the old last child forward to the new child.
        match old_last_child_id {
            Some(last_id) => match self.tree.arena.get_mut(last_id) {
                Some(node) => {
                    node.next_sibling_id = Some(child_id);
                },
                None => {},
            },
            None => {},
        }
        // Make the new child this node's last child, and its first if it has no other.
        match self.tree.arena.get_mut(id) {
            Some(node) => {
                node.last_child_id = Some(child_id);
                if node.first_child_id.is_none() {
                    node.first_child_id = node.last_child_id;
                }
            },
            None => {},
        }
        proof {
            let m = old_tree.nodes();
            let kids = old_tree.children();
            lemma_append_link(m, kids, id, child_id);
            lemma_links_keep_values(m, kids, id, child_id);
            lemma_ranked_attach(m, append_link(m, id, child_id), old_tree.depths(), id, child_id);
            self.tree.kids = Ghost(kids.insert(id, kids[id].push(child_id)));
            self.tree.depth = Ghost(raise(m, old_tree.depths(), id));
            self.tree.lemma_unfold();
            assert(self.tree.nodes() =~= append_link(m, id, child_id));
        }
        Some(())
    }

    /// Links the existing node `child_id` as this node's first child. `None`, changing
    /// nothing, unless both nodes exist and the child may be attached here (see
    /// `Tree::can_attach`).
    pub fn prepend_id(&mut self, child_id: ArenaItemId) -> (r: Option<()>)
        requires
            old(self).tree.wf(),
        ensures
            final(self).id == old(self).id,
            *final(final(self).tree) == *final(old(self).tree),
            final(self).tree.wf(),
            old(self).tree.same_storage(*final(self).tree),
            r.is_some() == old(self).tree.can_attach(old(self).id, child_id),
            r.is_some() ==> final(self).tree.nodes() == prepend_link(
                old(self).tree.nodes(),
                old(self).id,
                child_id,
            ) && final(self).tree.children() == old(self).tree.children().insert(
                old(self).id,
                seq![child_id] + old(self).tree.children()[old(self).id],
            ),
            r.is_none() ==> *final(self).tree == *old(self).tree,
    {
        let id = self.id;
        proof {
            self.tree.lemma_unfold();
        }
        let ghost old_tree = *self.tree;
        let old_first_child_id = match self.tree.arena.get(id) {
            Some(node) => node.first_child_id,
            None => {
                return None;
            },
        };
        let attachable = match self.tree.arena.get(child_id) {
            Some(node) => node.parent_id.is_none(),
            None => false,
        };
        if !attachable || child_id == id || child_id == self.tree.root {
            return None;
        }
        if self.tree.reaches_exec(id, child_id) {
            return None;
        }
        // Link the new child to its parent and next sibling.
        match self.tree.arena.get_mut(child_id) {
            Some(node) => {
                node.parent_id = Some(id);
                node.next_sibling_id = old_first_child_id;
            },
            None => {},
        }
        // Link the old first child back to the new child.
        match old_first_child_id {
            Some(first_id) => match self.tree.arena.get_mut(first_id) {
                Some(node) => {
                    node.prev_sibling_id = Some(child_id);
                },
                None => {},
            },
            None => {},
        }
        // Make the new child this node's first child, and its last if it has no other.
        match self.tree.arena.get_mut(id) {
            Some(node) => {
                node.first_child_id = Some(child_id);
                if node.last_child_id.is_none() {
                    node.last_child_id = node.first_child_id;
                }
            },
            None => {},
        }
        proof {
            let m = old_tree.nodes();
            let kids = old_tree.children();
            lemma_prepend_link(m, kids, id, child_id);
            lemma_links_keep_values(m, kids, id, child_id);
            lemma_ranked_attach(m, prepend_link(m, id, child_id), old_tree.depths(), id, child_id);
            self.tree.kids = Ghost(kids.insert(id, seq![child_id] + kids[id]));
            self.tree.depth = Ghost(raise(m, old_tree.depths(), id));
            self.tree.lemma_unfold();
            assert(self.tree.nodes() =~= prepend_link(m, id, child_id));
        }
        Some(())
    }

    /// Unlinks this node from its parent and siblings; its own children stay with it.
    /// `None`, changing nothing, when the node is missing or has no parent.
    pub fn detach_own_id(&mut self) -> (r: Option<()>)
        requires
            old(self).tree.wf(),
        ensures
            final(self).id == old(self).id,
            *final(final(self).tree) == *final(old(self).tree),
            final(self).tree.wf(),
            old(self).tree.same_storage(*final(self).tree),
            r.is_some() == old(self).tree.parent_of(old(self).id).is_some(),
            r.is_some() ==> final(self).tree.nodes() == detach_link(old(self).tree.nodes(), old(self).id)
                && final(self).tree.children() == old(self).tree.children().insert(
                old(self).tree.parent_of(old(self).id).unwrap(),
                old(self).tree.children()[old(self).tree.parent_of(old(self).id).unwrap()].remove(
                    old(self).tree.children()[old(self).tree.parent_of(
                        old(self).id,
                    ).unwrap()].index_of(old(self).id),
                ),
            ),
            r.is_none() ==> *final(self).tree == *old(self).tree,
    {
        let id = self.id;
        proof {
            self.tree.lemma_unfold();
        }
        let ghost old_tree = *self.tree;
        let (old_parent_id, old_prev_sibling_id, old_next_sibling_id) = match self.tree.arena.get(id) {
            Some(node) => match node.parent_id {
                Some(parent_id) => (parent_id, node.prev_sibling_id, node.next_sibling_id),
                None => {
                    return None;
                },
            },
            None => {
                return None;
            },
        };
        // Clear this node's parent and siblings.
        match self.tree.arena.get_mut(id) {
            Some(node) => {
                node.parent_id = None;
                node.prev_sibling_id = None;
                node.next_sibling_id = None;
            },
            None => {},
        }
        // Link the old previous and next siblings to each other.
        match old_prev_sibling_id {
            Some(prev_id) => match self.tree.arena.get_mut(prev_id) {
                Some(node) => {
                    node.next_sibling_id = old_next_sibling_id;
                },
                None => {},
            },
            None => {},
        }
        match old_next_sibling_id {
            Some(next_id) => match self.tree.arena.get_mut(next_id) {
                Some(node) => {
                    node.prev_sibling_id = old_prev_sibling_id;
                },
                None => {},
            },
            None => {},
        }
        // Update the old parent's first and last child.
        match self.tree.arena.get_mut(old_parent_id) {
            Some(node) => {
                let first = node.first_child_id;
                let last = node.last_child_id;
                if first == last {
                    node.first_child_id = None;
                    node.last_child_id = None;
                } else if first == Some(id) {
                    node.first_child_id = old_next_sibling_id;
                } else if last == Some(id) {
                    node.last_child_id = old_prev_sibling_id;
                }
            },
            None => {},
        }
        proof {
            let m = old_tree.nodes();
            let kids = old_tree.children();
            assert(parent_ok(m, kids, id));
            let i = kids[old_parent_id].index_of(id);
            lemma_detach_link(m, kids, id, old_parent_id, i);
            lemma_links_keep_values(m, kids, old_parent_id, id);
            lemma_ranked_release(m, detach_link(m, id), old_tree.depths());
            self.tree.kids = Ghost(kids.insert(old_parent_id, kids[old_parent_id].remove(i)));
            self.tree.lemma_unfold();
            assert(self.tree.nodes() =~= detach_link(m, id));
        }
        Some(())
    }

    /// A view of this node's value for as long as the tree stays borrowed.
    pub fn try_into_value(self) -> (r: Option<&'a mut T>)
        requires
            self.spec_tree().wf(),
        ensures
            r.is_some() == self.spec_tree().nodes().contains_key(self.id),
            r.is_some() ==> *r.unwrap() == self.spec_tree().nodes()[self.id].value,
            (*final(self.tree)).wf(),
            self.spec_tree().same_storage(*final(self.tree)),
            (*final(self.tree)).children() == self.spec_tree().children(),
            r.is_some() ==> (*final(self.tree)).nodes() == self.spec_tree().nodes().insert(
                self.id,
                Node { value: *final(r.unwrap()), ..self.spec_tree().nodes()[self.id] },
            ),
            r.is_none() ==> (*final(self.tree)).nodes() == self.spec_tree().nodes(),
    {
        let id = self.id;
        let tree = self.tree;
        proof {
            tree.lemma_unfold();
        }
        let ghost old_tree = *tree;
        let r = match tree.arena.get_mut(id) {
            Some(node) => Some(&mut node.value),
            None => None,
        };
        proof {
            let new_tree = after_borrow(*tree);
            new_tree.lemma_unfold();
            if r.is_some() {
                lemma_value_update(old_tree.nodes(), old_tree.children(), id, *final(r.unwrap()));
                assert(new_tree.nodes() =~= old_tree.nodes().insert(id, Node { value: *final(r.unwrap()), ..old_tree.nodes()[id] }));
                lemma_ranked_release(old_tree.nodes(), new_tree.nodes(), old_tree.depths());
            }
        }
        r
    }

    /// Unlinks this node from its parent and siblings, if it has a parent.
    pub fn detach(&mut self)
        requires
            old(self).tree.wf(),
        ensures
            final(self).id == old(self).id,
            *final(final(self).tree) == *final(old(self).tree),
            final(self).tree.wf(),
            old(self).tree.same_storage(*final(self).tree),
            old(self).tree.parent_of(old(self).id).is_some() ==> final(self).tree.nodes() == detach_link(
                old(self).tree.nodes(),
                old(self).id,
            ) && final(self).tree.children() == old(self).tree.children().insert(
                old(self).tree.parent_of(old(self).id).unwrap(),
                old(self).tree.children()[old(self).tree.parent_of(old(self).id).unwrap()].remove(
                    old(self).tree.children()[old(self).tree.parent_of(
                        old(self).id,
                    ).unwrap()].index_of(old(self).id),
                ),
            ),
            old(self).tree.parent_of(old(self).id).is_none() ==> *final(self).tree == *old(self).tree,
    {
        let _ = self.detach_own_id();
    }

    /// Allocates a node holding `value` and links it as this node's last child (when this
    /// node exists); returns a handle on the new node.
    pub fn append(&mut self, value: T) -> (r: RefMut<'_, T>)
        requires
            old(self).tree.wf(),
            old(self).tree.can_alloc(),
        ensures
            final(self).id == old(self).id,
            *final(final(self).tree) == *final(old(self).tree),
            *final(self).tree == *final(r.tree),
            !old(self).tree.nodes().contains_key(r.id),
            r.spec_tree().wf(),
            r.spec_tree().spec_root() == old(self).tree.spec_root(),
            r.spec_tree().bucket_ids() == old(self).tree.bucket_ids(),
            r.spec_tree().alloc_count() == old(self).tree.alloc_count() + 1,
            old(self).tree.nodes().contains_key(old(self).id) ==> r.spec_tree().nodes() == append_link(
                old(self).tree.nodes().insert(r.id, Node::new_spec(value)),
                old(self).id,
                r.id,
            ) && r.spec_tree().children() == old(self).tree.children().insert(r.id, Seq::empty()).insert(
                old(self).id,
                old(self).tree.children()[old(self).id].push(r.id),
            ),
            !old(self).tree.nodes().contains_key(old(self).id) ==> r.spec_tree().nodes()
                == old(self).tree.nodes().insert(r.id, Node::new_spec(value)) && r.spec_tree().children()
                == old(self).tree.children().insert(r.id, Seq::empty()),
    {
        let ghost old_tree = *self.tree;
        let id = self.tree.allocate(value);
        proof {
            old_tree.lemma_unfold();
            self.tree.lemma_unfold();
            if old_tree.nodes().contains_key(self.id) {
                assert(id != self.id);
                assert(self.tree.children()[self.id] == old_tree.children()[self.id]);
                let part = old_tree.nodes().dom();
                assert forall|x: ArenaItemId| #[trigger] part.contains(x) && self.tree.nodes().contains_key(x)
                    && self.tree.nodes()[x].parent_id.is_some() implies part.contains(self.tree.nodes()[x].parent_id.unwrap()) by {
                    assert(old_tree.nodes().contains_key(x) && old_tree.nodes()[x].parent_id.is_some());
                }
                if self.tree.reaches(self.id, id) {
                    lemma_anc_closed(self.tree.nodes(), self.tree.depths(), part, self.id, id);
                }
            }
        }
        let _ = self.append_id(id);
        self.tree.get_mut(id)
    }

    /// Allocates a node holding `value` and links it as this node's first child (when this
    /// node exists); returns a handle on the new node.
    pub fn prepend(&mut self, value: T) -> (r: RefMut<'_, T>)
        requires
            old(self).tree.wf(),
            old(self).tree.can_alloc(),
        ensures
            final(self).id == old(self).id,
            *final(final(self).tree) == *final(old(self).tree),
            *final(self).tree == *final(r.tree),
            !old(self).tree.nodes().contains_key(r.id),
            r.spec_tree().wf(),
            r.spec_tree().spec_root() == old(self).tree.spec_root(),
            r.spec_tree().bucket_ids() == old(self).tree.bucket_ids(),
            r.spec_tree().alloc_count() == old(self).tree.alloc_count() + 1,
            old(self).tree.nodes().contains_key(old(self).id) ==> r.spec_tree().nodes() == prepend_link(
                old(self).tree.nodes().insert(r.id, Node::new_spec(value)),
                old(self).id,
                r.id,
            ) && r.spec_tree().children() == old(self).tree.children().insert(r.id, Seq::empty()).insert(
                old(self).id,
                seq![r.id] + old(self).tree.children()[old(self).id],
            ),
            !old(self).tree.nodes().contains_key(old(self).id) ==> r.spec_tree().nodes()
                == old(self).tree.nodes().insert(r.id, Node::new_spec(value)) && r.spec_tree().children()
                == old(self).tree.children().insert(r.id, Seq::empty()),
    {
        let ghost old_tree = *self.tree;
        let id = self.tree.allocate(value);
        proof {
            old_tree.lemma_unfold();
            self.tree.lemma_unfold();
            if old_tree.nodes().contains_key(self.id) {
                assert(id != self.id);
                assert(self.tree.children()[self.id] == old_tree.children()[self.id]);
                let part = old_tree.nodes().dom();
                assert forall|x: ArenaItemId| #[trigger] part.contains(x) && self.tree.nodes().contains_key(x)
                    && self.tree.nodes()[x].parent_id.is_some() implies part.contains(self.tree.nodes()[x].parent_id.unwrap()) by {
                    assert(old_tree.nodes().contains_key(x) && old_tree.nodes()[x].parent_id.is_some());
                }
                if self.tree.reaches(self.id, id) {
                    lemma_anc_closed(self.tree.nodes(), self.tree.depths(), part, self.id, id);
                }
            }
        }
        let _ = self.prepend_id(id);
        self.tree.get_mut(id)
    }

    /// Moves the children of `other`'s root, each with everything below it, to the end of
    /// this node's children, in their order; `other`'s storage joins this tree's without
    /// renumbering. `false`, changing nothing, when this node is missing.
    pub fn append_tree(&mut self, other: Tree<T>) -> (r: bool)
        requires
            old(self).tree.wf(),
            other.wf(),
            old(self).tree.bucket_ids().disjoint(other.bucket_ids()),
        ensures
            final(self).id == old(self).id,
            *final(final(self).tree) == *final(old(self).tree),
            final(self).tree.wf(),
            r == old(self).tree.nodes().contains_key(old(self).id),
            !r ==> *final(self).tree == *old(self).tree,
            r ==> final(self).tree.spec_root() == old(self).tree.spec_root()
                && final(self).tree.alloc_count() == old(self).tree.alloc_count()
                && final(self).tree.bucket_ids() == old(self).tree.bucket_ids().union(other.bucket_ids())
                && final(self).tree.nodes().dom() == old(self).tree.nodes().dom().union(other.nodes().dom()),
            r ==> final(self).tree.children()[old(self).id] == old(self).tree.children()[old(self).id]
                + other.children()[other.spec_root()],
            r ==> final(self).tree.children()[other.spec_root()] == Seq::<ArenaItemId>::empty(),
            r ==> forall|x: ArenaItemId|
                other.nodes().contains_key(x) && x != other.spec_root() ==> #[trigger] final(self).tree.children()[x]
                    == other.children()[x] && final(self).tree.nodes()[x].value == other.nodes()[x].value,
            r ==> forall|x: ArenaItemId|
                old(self).tree.nodes().contains_key(x) && x != old(self).id ==> #[trigger] final(self).tree.children()[x]
                    == old(self).tree.children()[x] && final(self).tree.nodes()[x].value
                    == old(self).tree.nodes()[x].value,
            r ==> final(self).tree.nodes()[old(self).id].value == old(self).tree.nodes()[old(self).id].value,
    {
        let id = self.id;
        proof {
            self.tree.lemma_unfold();
            other.lemma_unfold();
        }
        if self.tree.arena.get(id).is_none() {
            return false;
        }
        let other_root = other.root;
        let ghost old_tree = *self.tree;
        let ghost m0 = old_tree.nodes().union_prefer_right(other.nodes());
        let ghost k0 = old_tree.children().union_prefer_right(other.children());
        let ghost s = other.children()[other_root];
        let ghost a = old_tree.children()[id];
        proof {
            assert forall|x: ArenaItemId| old_tree.nodes().contains_key(x) implies !other.nodes().contains_key(x) by {
                old_tree.lemma_nodes_in_buckets(x);
                other.lemma_nodes_in_buckets(x);
            }
            assert(old_tree.nodes().dom().disjoint(other.nodes().dom()));
            lemma_links_union(old_tree.nodes(), old_tree.children(), other.nodes(), other.children());
            assert(child_list_ok(other.nodes(), other_root, s));
        }
        self.tree.arena.merge(other.arena);
        proof {
            lemma_ranked_union(old_tree.nodes(), old_tree.depths(), other.nodes(), other.depths());
            self.tree.depth = Ghost(old_tree.depths().union_prefer_right(other.depths()));
            self.tree.kids = Ghost(k0);
            self.tree.lemma_unfold();
            assert(self.tree.nodes() == m0);
            assert(s.take(0) =~= Seq::<ArenaItemId>::empty());
            assert(s.skip(0) =~= s);
            assert(a + s.take(0) =~= a);
            assert(m0.contains_key(id));
            assert(m0.contains_key(other_root));
        }
        let ghost mut k: int = 0;
        loop
            invariant
                self.id == id,
                *final(self.tree) == *final(old(self).tree),
                self.tree.wf(),
                self.tree.spec_root() == old_tree.spec_root(),
                self.tree.alloc_count() == old_tree.alloc_count(),
                self.tree.bucket_ids() == old_tree.bucket_ids().union(other.bucket_ids()),
                self.tree.nodes().dom() == m0.dom(),
                0 <= k <= s.len(),
                self.tree.children()[id] == a + s.take(k),
                self.tree.children()[other_root] == s.skip(k),
                forall|x: ArenaItemId|
                    m0.contains_key(x) && x != id && x != other_root ==> #[trigger] self.tree.children()[x] == k0[x],
                forall|x: ArenaItemId| m0.contains_key(x) ==> #[trigger] self.tree.nodes()[x].value == m0[x].value,
                old_tree.wf(),
                old_tree.nodes().contains_key(id),
                other.nodes().contains_key(other_root),
                m0.contains_key(id),
                m0.contains_key(other_root),
                forall|x: ArenaItemId| #[trigger] m0.contains_key(x) == (old_tree.nodes().contains_key(x) || other.nodes().contains_key(x)),
                old_tree.nodes().dom().disjoint(other.nodes().dom()),
                forall|j: int| 0 <= j < s.len() ==> other.nodes().contains_key(#[trigger] s[j]),
                forall|x: ArenaItemId| old_tree.nodes().contains_key(x) ==> #[trigger] self.tree.nodes()[x].parent_id
                    == old_tree.nodes()[x].parent_id,
            ensures
                k == s.len(),
                self.id == id,
                *final(self.tree) == *final(old(self).tree),
                self.tree.wf(),
                self.tree.spec_root() == old_tree.spec_root(),
                self.tree.alloc_count() == old_tree.alloc_count(),
                self.tree.bucket_ids() == old_tree.bucket_ids().union(other.bucket_ids()),
                self.tree.nodes().dom() == m0.dom(),
                self.tree.children()[id] == a + s.take(k),
                self.tree.children()[other_root] == s.skip(k),
                forall|x: ArenaItemId|
                    m0.contains_key(x) && x != id && x != other_root ==> #[trigger] self.tree.children()[x] == k0[x],
                forall|x: ArenaItemId| m0.contains_key(x) ==> #[trigger] self.tree.nodes()[x].value == m0[x].value,
            decreases s.len() - k,
        {
            proof {
                self.tree.lemma_unfold();
                assert(m0.contains_key(other_root));
                assert(self.tree.nodes().contains_key(other_root));
                assert(child_list_ok(self.tree.nodes(), other_root, self.tree.children()[other_root]));
            }
            let first = match self.tree.arena.get(other_root) {
                Some(node) => node.first_child_id,
                None => None,
            };
            match first {
                None => {
                    break;
                },
                Some(c) => {
                    let ghost before = *self.tree;
                    proof {
                        assert(s.skip(k)[0] == s[k]);
                        assert(c == s[k]);
                        assert(other.nodes().contains_key(c));
                        assert(s.skip(k).index_of(c) == 0) by {
                            let t = s.skip(k);
                            let i = t.index_of(c);
                            assert(t.contains(c));
                        }
                        lemma_links_keep_values(before.nodes(), before.children(), other_root, c);
                    }
                    {
                        let mut handle = self.tree.get_mut(c);
                        handle.detach_own_id();
                    }
                    let ghost middle = *self.tree;
                    proof {
                        assert(middle.nodes() == crate::links::detach_link(before.nodes(), c));
                        assert(before.nodes().contains_key(id));
                        assert(middle.nodes().contains_key(id));
                        middle.lemma_unfold();
                        let part = old_tree.nodes().dom();
                        assert forall|x: ArenaItemId| #[trigger] part.contains(x) && middle.nodes().contains_key(x)
                            && middle.nodes()[x].parent_id.is_some() implies part.contains(middle.nodes()[x].parent_id.unwrap()) by {
                            assert(x != c);
                            assert(middle.nodes()[x].parent_id == before.nodes()[x].parent_id);
                            assert(before.nodes()[x].parent_id == old_tree.nodes()[x].parent_id);
                            old_tree.lemma_unfold();
                            assert(old_tree.nodes().contains_key(x) && old_tree.nodes()[x].parent_id.is_some());
                        }
                        if middle.reaches(id, c) {
                            lemma_anc_closed(middle.nodes(), middle.depths(), part, id, c);
                        }
                        assert(s.skip(k).remove(0) =~= s.skip(k + 1));
                        middle.lemma_unfold();
                        lemma_links_keep_values(middle.nodes(), middle.children(), id, c);
                    }
                    let _ = self.append_id(c);
                    proof {
                        assert(s.take(k + 1) =~= s.take(k).push(c));
                        assert(a + s.take(k + 1) =~= (a + s.take(k)).push(c));
                        k = k + 1;
                    }
                },
            }
        }
        proof {
            assert(s.take(k) =~= s);
        }
        true
    }

    /// Moves the children of `other`'s root, each with everything below it, to the front of
    /// this node's children, one after the other, so that they end up in reverse order;
    /// `other`'s storage joins this tree's without renumbering. `false`, changing nothing,
    /// when this node is missing.
    pub fn prepend_tree(&mut self, other: Tree<T>) -> (r: bool)
        requires
            old(self).tree.wf(),
            other.wf(),
            old(self).tree.bucket_ids().disjoint(other.bucket_ids()),
        ensures
            final(self).id == old(self).id,
            *final(final(self).tree) == *final(old(self).tree),
            final(self).tree.wf(),
            r == old(self).tree.nodes().contains_key(old(self).id),
            !r ==> *final(self).tree == *old(self).tree,
            r ==> final(self).tree.spec_root() == old(self).tree.spec_root()
                && final(self).tree.alloc_count() == old(self).tree.alloc_count()
                && final(self).tree.bucket_ids() == old(self).tree.bucket_ids().union(other.bucket_ids())
                && final(self).tree.nodes().dom() == old(self).tree.nodes().dom().union(other.nodes().dom()),
            r ==> final(self).tree.children()[old(self).id] == other.children()[other.spec_root()].reverse()
                + old(self).tree.children()[old(self).id],
            r ==> final(self).tree.children()[other.spec_root()] == Seq::<ArenaItemId>::empty(),
            r ==> forall|x: ArenaItemId|
                other.nodes().contains_key(x) && x != other.spec_root() ==> #[trigger] final(self).tree.children()[x]
                    == other.children()[x] && final(self).tree.nodes()[x].value == other.nodes()[x].value,
            r ==> forall|x: ArenaItemId|
                old(self).tree.nodes().contains_key(x) && x != old(self).id ==> #[trigger] final(self).tree.children()[x]
                    == old(self).tree.children()[x] && final(self).tree.nodes()[x].value
                    == old(self).tree.nodes()[x].value,
            r ==> final(self).tree.nodes()[old(self).id].value == old(self).tree.nodes()[old(self).id].value,
    {
        let id = self.id;
        proof {
            self.tree.lemma_unfold();
            other.lemma_unfold();
        }
        if self.tree.arena.get(id).is_none() {
            return false;
        }
        let other_root = other.root;
        let ghost old_tree = *self.tree;
        let ghost m0 = old_tree.nodes().union_prefer_right(other.nodes());
        let ghost k0 = old_tree.children().union_prefer_right(other.children());
        let ghost s = other.children()[other_root];
        let ghost a = old_tree.children()[id];
        proof {
            assert forall|x: ArenaItemId| old_tree.nodes().contains_key(x) implies !other.nodes().contains_key(x) by {
                old_tree.lemma_nodes_in_buckets(x);
                other.lemma_nodes_in_buckets(x);
            }
            assert(old_tree.nodes().dom().disjoint(other.nodes().dom()));
            lemma_links_union(old_tree.nodes(), old_tree.children(), other.nodes(), other.children());
            assert(child_list_ok(other.nodes(), other_root, s));
        }
        self.tree.arena.merge(other.arena);
        proof {
            lemma_ranked_union(old_tree.nodes(), old_tree.depths(), other.nodes(), other.depths());
            self.tree.depth = Ghost(old_tree.depths().union_prefer_right(other.depths()));
            self.tree.kids = Ghost(k0);
            self.tree.lemma_unfold();
            assert(self.tree.nodes() == m0);
            assert(s.take(0) =~= Seq::<ArenaItemId>::empty());
            assert(s.skip(0) =~= s);
            assert(s.take(0).reverse() + a =~= a);
            assert(m0.contains_key(id));
            assert(m0.contains_key(other_root));
        }
        let ghost mut k: int = 0;
        loop
            invariant
                self.id == id,
                *final(self.tree) == *final(old(self).tree),
                self.tree.wf(),
                self.tree.spec_root() == old_tree.spec_root(),
                self.tree.alloc_count() == old_tree.alloc_count(),
                self.tree.bucket_ids() == old_tree.bucket_ids().union(other.bucket_ids()),
                self.tree.nodes().dom() == m0.dom(),
                0 <= k <= s.len(),
                self.tree.children()[id] == s.take(k).reverse() + a,
                self.tree.children()[other_root] == s.skip(k),
                forall|x: ArenaItemId|
                    m0.contains_key(x) && x != id && x != other_root ==> #[trigger] self.tree.children()[x] == k0[x],
                forall|x: ArenaItemId| m0.contains_key(x) ==> #[trigger] self.tree.nodes()[x].value == m0[x].value,
                old_tree.wf(),
                old_tree.nodes().contains_key(id),
                other.nodes().contains_key(other_root),
                m0.contains_key(id),
                m0.contains_key(other_root),
                forall|x: ArenaItemId| #[trigger] m0.contains_key(x) == (old_tree.nodes().contains_key(x) || other.nodes().contains_key(x)),
                old_tree.nodes().dom().disjoint(other.nodes().dom()),
                forall|j: int| 0 <= j < s.len() ==> other.nodes().contains_key(#[trigger] s[j]),
                forall|x: ArenaItemId| old_tree.nodes().contains_key(x) ==> #[trigger] self.tree.nodes()[x].parent_id
                    == old_tree.nodes()[x].parent_id,
            ensures
                k == s.len(),
                self.id == id,
                *final(self.tree) == *final(old(self).tree),
                self.tree.wf(),
                self.tree.spec_root() == old_tree.spec_root(),
                self.tree.alloc_count() == old_tree.alloc_count(),
                self.tree.bucket_ids() == old_tree.bucket_ids().union(other.bucket_ids()),
                self.tree.nodes().dom() == m0.dom(),
                self.tree.children()[id] == s.take(k).reverse() + a,
                self.tree.children()[other_root] == s.skip(k),
                forall|x: ArenaItemId|
                    m0.contains_key(x) && x != id && x != other_root ==> #[trigger] self.tree.children()[x] == k0[x],
                forall|x: ArenaItemId| m0.contains_key(x) ==> #[trigger] self.tree.nodes()[x].value == m0[x].value,
            decreases s.len() - k,
        {
            proof {
                self.tree.lemma_unfold();
                assert(m0.contains_key(other_root));
                assert(self.tree.nodes().contains_key(other_root));
                assert(child_list_ok(self.tree.nodes(), other_root, self.tree.children()[other_root]));
            }
            let first = match self.tree.arena.get(other_root) {
                Some(node) => node.first_child_id,
                None => None,
            };
            match first {
                None => {
                    break;
                },
                Some(c) => {
                    let ghost before = *self.tree;
                    proof {
                        assert(s.skip(k)[0] == s[k]);
                        assert(c == s[k]);
                        assert(other.nodes().contains_key(c));
                        assert(s.skip(k).index_of(c) == 0) by {
                            let t = s.skip(k);
                            let i = t.index_of(c);
                            assert(t.contains(c));
                        }
                        lemma_links_keep_values(before.nodes(), before.children(), other_root, c);
                    }
                    {
                        let mut handle = self.tree.get_mut(c);
                        handle.detach_own_id();
                    }
                    let ghost middle = *self.tree;
                    proof {
                        assert(middle.nodes() == crate::links::detach_link(before.nodes(), c));
                        assert(before.nodes().contains_key(id));
                        assert(middle.nodes().contains_key(id));
                        middle.lemma_unfold();
                        let part = old_tree.nodes().dom();
                        assert forall|x: ArenaItemId| #[trigger] part.contains(x) && middle.nodes().contains_key(x)
                            && middle.nodes()[x].parent_id.is_some() implies part.contains(middle.nodes()[x].parent_id.unwrap()) by {
                            assert(x != c);
                            assert(middle.nodes()[x].parent_id == before.nodes()[x].parent_id);
                            assert(before.nodes()[x].parent_id == old_tree.nodes()[x].parent_id);
                            old_tree.lemma_unfold();
                            assert(old_tree.nodes().contains_key(x) && old_tree.nodes()[x].parent_id.is_some());
                        }
                        if middle.reaches(id, c) {
                            lemma_anc_closed(middle.nodes(), middle.depths(), part, id, c);
                        }
                        assert(s.skip(k).remove(0) =~= s.skip(k + 1));
                        middle.lemma_unfold();
                        lemma_links_keep_values(middle.nodes(), middle.children(), id, c);
                    }
                    let _ = self.prepend_id(c);
                    proof {
                        assert(s.take(k + 1) =~= s.take(k).push(c));
                        assert(s.take(k + 1).reverse() =~= seq![c] + s.take(k).reverse());
                        assert(s.take(k + 1).reverse() + a =~= seq![c] + (s.take(k).reverse() + a));
                        k = k + 1;
                    }
                },
            }
        }
        proof {
            assert(s.take(k) =~= s);
        }
        true
    }
}

} // verus!
