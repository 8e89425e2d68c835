use vstd::prelude::*;
use crate::hashmap::HashmapArena;
use crate::ids::{ArenaItemId, BucketId, BucketIdGenerator};
use crate::links::{links_ok, child_list_ok, parent_ok, ranked, is_anc};
use crate::node::Node;
use crate::node_ref::Ref;

verus! {

/// A tree over an arena of nodes, with a permanent root.
pub struct Tree<T> {
    pub(crate) arena: HashmapArena<Node<T>>,
    pub(crate) root: ArenaItemId,
    pub(crate) kids: Ghost<Map<ArenaItemId, Seq<ArenaItemId>>>,
    pub(crate) depth: Ghost<Map<ArenaItemId, nat>>,
}

impl<T> Tree<T> {
    /// The nodes, by id.
    pub closed spec fn nodes(&self) -> Map<ArenaItemId, Node<T>> {
        self.arena@
    }

    /// The child list of every node, by id.
    pub closed spec fn children(&self) -> Map<ArenaItemId, Seq<ArenaItemId>> {
        self.kids@
    }

    /// The id of the permanent root.
    pub closed spec fn spec_root(&self) -> ArenaItemId {
        self.root
    }

    /// Ranks under which every parent ranks below its children.
    pub closed spec fn depths(&self) -> Map<ArenaItemId, nat> {
        self.depth@
    }

    /// Whether `a` is `n` or one of its ancestors.
    pub open spec fn reaches(&self, n: ArenaItemId, a: ArenaItemId) -> bool {
        is_anc(self.nodes(), self.depths(), n, a)
    }

    /// The tree's invariant: the root exists and has no parent, the links form consistent
    /// child lists, and no node is its own ancestor.
    pub closed spec fn wf(&self) -> bool {
        &&& self.arena.wf()
        &&& self.nodes().contains_key(self.root)
        &&& self.nodes()[self.root].parent_id.is_none()
        &&& links_ok(self.nodes(), self.children())
        &&& ranked(self.nodes(), self.depths())
    }

    /// How many nodes have been allocated into this tree's own bucket.
    pub closed spec fn alloc_count(&self) -> nat {
        self.arena.alloc_count()
    }

    /// Whether an allocation has an entry number left.
    pub open spec fn can_alloc(&self) -> bool {
        self.alloc_count() < u32::MAX
    }

    /// The ids of the buckets that hold this tree's nodes.
    pub closed spec fn bucket_ids(&self) -> Set<BucketId> {
        self.arena.bucket_ids()
    }

    /// The node `id`, if this tree holds it.
    pub open spec fn node_of(&self, id: ArenaItemId) -> Option<Node<T>> {
        if self.nodes().contains_key(id) {
            Some(self.nodes()[id])
        } else {
            None
        }
    }

    pub open spec fn parent_of(&self, id: ArenaItemId) -> Option<ArenaItemId> {
        match self.node_of(id) {
            Some(n) => n.parent_id,
            None => None,
        }
    }

    pub open spec fn prev_sibling_of(&self, id: ArenaItemId) -> Option<ArenaItemId> {
        match self.node_of(id) {
            Some(n) => n.prev_sibling_id,
            None => None,
        }
    }

    pub open spec fn next_sibling_of(&self, id: ArenaItemId) -> Option<ArenaItemId> {
        match self.node_of(id) {
            Some(n) => n.next_sibling_id,
            None => None,
        }
    }

    pub open spec fn first_child_of(&self, id: ArenaItemId) -> Option<ArenaItemId> {
        match self.node_of(id) {
            Some(n) => n.first_child_id,
            None => None,
        }
    }

    pub open spec fn last_child_of(&self, id: ArenaItemId) -> Option<ArenaItemId> {
        match self.node_of(id) {
            Some(n) => n.last_child_id,
            None => None,
        }
    }

    /// Whether `child` can be linked under `parent`: both exist, and `child` has no
    /// parent and is neither the root nor `parent` or one of its ancestors.
    pub open spec fn can_attach(&self, parent: ArenaItemId, child: ArenaItemId) -> bool {
        &&& self.nodes().contains_key(parent)
        &&& self.nodes().contains_key(child)
        &&& child != parent
        &&& child != self.spec_root()
        &&& self.nodes()[child].parent_id.is_none()
        &&& !self.reaches(parent, child)
    }

    /// Whether `other` has this tree's root, buckets and allocation count.
    pub open spec fn same_storage(&self, other: Tree<T>) -> bool {
        &&& other.spec_root() == self.spec_root()
        &&& other.bucket_ids() == self.bucket_ids()
        &&& other.alloc_count() == self.alloc_count()
    }

    /// The definitions of this tree's model, for the modules that build on its fields.
    pub(crate) proof fn lemma_unfold(&self)
        ensures
            self.nodes() == self.arena@,
            self.children() == self.kids@,
            self.spec_root() == self.root,
            self.alloc_count() == self.arena.alloc_count(),
            self.bucket_ids() == self.arena.bucket_ids(),
            self.depths() == self.depth@,
            self.wf() == (self.arena.wf() && self.nodes().contains_key(self.root)
                && self.nodes()[self.root].parent_id.is_none() && links_ok(self.nodes(), self.children())
                && ranked(self.nodes(), self.depths())),
    {
    }

    /// What a well-formed tree guarantees of its nodes and child lists.
    pub proof fn lemma_wf_links(&self)
        requires
            self.wf(),
        ensures
            links_ok(self.nodes(), self.children()),
            ranked(self.nodes(), self.depths()),
            self.nodes().contains_key(self.spec_root()),
            self.nodes()[self.spec_root()].parent_id.is_none(),
    {
    }

    /// A parent ranks below its child.
    pub proof fn lemma_parent_ranks_lower(&self, id: ArenaItemId)
        requires
            self.wf(),
            self.parent_of(id).is_some(),
        ensures
            self.depths()[self.parent_of(id).unwrap()] < self.depths()[id],
    {
        assert(self.nodes().contains_key(id) && self.nodes()[id].parent_id.is_some());
    }

    /// Every node of a tree lives in one of its buckets.
    pub proof fn lemma_nodes_in_buckets(&self, id: ArenaItemId)
        requires
            self.wf(),
        ensures
            self.nodes().contains_key(id) ==> self.bucket_ids().contains(id.bucket_id),
    {
        self.arena.lemma_ids_in_buckets(id);
    }

    pub fn new(ids: &mut BucketIdGenerator, root: T) -> (r: Tree<T>)
        requires
            old(ids).can_generate(),
        ensures
            r.wf(),
            r.alloc_count() == 1,
            r.nodes().dom() == set![r.spec_root()],
            r.nodes()[r.spec_root()].value == root,
            r.children()[r.spec_root()] == Seq::<ArenaItemId>::empty(),
            r.bucket_ids() == set![BucketId(old(ids).next_value() as u32)],
            final(ids).next_value() == old(ids).next_value() + 1,
    {
        let mut arena = HashmapArena::new(ids);
        let root_id = arena.allocate(Node::new(root));
        let ghost kids = Map::<ArenaItemId, Seq<ArenaItemId>>::empty().insert(root_id, Seq::empty());
        let ghost depth = Map::<ArenaItemId, nat>::empty().insert(root_id, 0);
        let r = Tree { arena, root: root_id, kids: Ghost(kids), depth: Ghost(depth) };
        proof {
            assert(r.nodes().dom() =~= set![root_id]);
            assert(kids.dom() =~= r.nodes().dom());
            assert(depth.dom() =~= r.nodes().dom());
            assert(child_list_ok(r.nodes(), root_id, kids[root_id]));
            assert(parent_ok(r.nodes(), kids, root_id));
        }
        r
    }

    /// Whether `a` is `n` or one of its ancestors, found by walking up from `n`.
    pub(crate) fn reaches_exec(&self, n: ArenaItemId, a: ArenaItemId) -> (r: bool)
        requires
            self.wf(),
            self.nodes().contains_key(n),
        ensures
            r == self.reaches(n, a),
    {
        proof {
            self.lemma_unfold();
        }
        let mut cur = n;
        loop
            invariant
                self.wf(),
                self.nodes().contains_key(cur),
                self.reaches(n, a) == self.reaches(cur, a),
            decreases self.depths()[cur],
        {
            if cur == a {
                return true;
            }
            let parent = match self.arena.get(cur) {
                Some(node) => node.parent_id,
                None => None,
            };
            match parent {
                Some(p) => {
                    proof {
                        assert(self.nodes().contains_key(cur) && self.nodes()[cur].parent_id.is_some());
                    }
                    cur = p;
                },
                None => {
                    return false;
                },
            }
        }
    }

    pub fn root(&self) -> (r: ArenaItemId)
        ensures
            r == self.spec_root(),
    {
        self.root
    }

    /// Allocates an unattached node holding `value`.
    pub fn allocate(&mut self, value: T) -> (r: ArenaItemId)
        requires
            old(self).wf(),
            old(self).can_alloc(),
        ensures
            final(self).wf(),
            !old(self).nodes().contains_key(r),
            final(self).nodes() == old(self).nodes().insert(r, Node::new_spec(value)),
            final(self).children() == old(self).children().insert(r, Seq::empty()),
            final(self).spec_root() == old(self).spec_root(),
            final(self).bucket_ids() == old(self).bucket_ids(),
            final(self).alloc_count() == old(self).alloc_count() + 1,
    {
        let ghost old_self = *self;
        let id = self.arena.allocate(Node::new(value));
        proof {
            self.arena.lemma_ids_in_buckets(id);
            old_self.arena.lemma_ids_in_buckets(id);
            self.kids = Ghost(self.kids@.insert(id, Seq::empty()));
            self.depth = Ghost(self.depth@.insert(id, 0));
            let m = self.nodes();
            assert(self.depth@.dom() =~= m.dom());
            assert forall|x: ArenaItemId| #[trigger] m.contains_key(x) && m[x].parent_id.is_some() implies m.contains_key(m[x].parent_id.unwrap())
                && self.depth@[m[x].parent_id.unwrap()] < self.depth@[x] by {
                assert(old_self.nodes().contains_key(x) && old_self.nodes()[x].parent_id.is_some());
            }
            assert(self.kids@.dom() =~= m.dom());
            assert forall|x: ArenaItemId| m.contains_key(x) implies #[trigger] child_list_ok(m, x, self.kids@[x]) by {
                if x != id {
                    assert(child_list_ok(old_self.nodes(), x, old_self.kids@[x]));
                    let t = old_self.kids@[x];
                    assert forall|k: int| #![trigger t[k]] 0 <= k < t.len() implies t[k] != id by {}
                }
            }
            assert forall|x: ArenaItemId| m.contains_key(x) implies #[trigger] parent_ok(m, self.kids@, x) by {
                if x != id {
                    assert(parent_ok(old_self.nodes(), old_self.kids@, x));
                }
            }
        }
        id
    }

    pub fn get(&self, id: ArenaItemId) -> (r: Ref<'_, T>)
        requires
            self.wf(),
        ensures
            r.spec_tree() == *self,
            r.spec_id() == id,
    {
        Ref::new(self, id)
    }
}

} // verus!
