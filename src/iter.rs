use vstd::prelude::*;
use crate::ids::ArenaItemId;
use crate::links::child_list_ok;
use crate::node_ref::Ref;
use crate::tree::Tree;

verus! {

/// Whether the two handles are on the same node (both absent counts as the same).
fn same_node<T>(a: &Option<Ref<'_, T>>, b: &Option<Ref<'_, T>>) -> (r: bool)
    ensures
        r == (match (a, b) {
            (Some(x), Some(y)) => x.spec_id() == y.spec_id(),
            (None, None) => true,
            _ => false,
        }),
{
    match (a, b) {
        (Some(x), Some(y)) => x.id() == y.id(),
        (None, None) => true,
        _ => false,
    }
}

/// A cursor over the children of one node, from either end; the two ends move toward
/// each other and the cursor is done once they have met.
pub struct Children<'a, T> {
    front: Option<Ref<'a, T>>,
    back: Option<Ref<'a, T>>,
    tree: Ghost<Tree<T>>,
    parent: Ghost<ArenaItemId>,
    lo: Ghost<int>,
    hi: Ghost<int>,
}

impl<'a, T> Children<'a, T> {
    #[verifier::type_invariant]
    spec fn inv(&self) -> bool {
        if self.lo@ < self.hi@ {
            let s = self.tree@.children()[self.parent@];
            &&& self.tree@.wf()
            &&& self.tree@.nodes().contains_key(self.parent@)
            &&& 0 <= self.lo@ < self.hi@ <= s.len()
            &&& self.front.is_some() && self.back.is_some()
            &&& self.front.unwrap().spec_tree() == self.tree@
            &&& self.back.unwrap().spec_tree() == self.tree@
            &&& self.front.unwrap().spec_id() == s[self.lo@]
            &&& self.back.unwrap().spec_id() == s[self.hi@ - 1]
        } else {
            self.front.is_none() && self.back.is_none()
        }
    }

    /// The ids still to come, front to back.
    pub closed spec fn remaining(&self) -> Seq<ArenaItemId> {
        if self.lo@ < self.hi@ {
            self.tree@.children()[self.parent@].subrange(self.lo@, self.hi@)
        } else {
            Seq::empty()
        }
    }

    /// The tree the handles read from, while any id remains.
    pub closed spec fn spec_tree(&self) -> Tree<T> {
        self.tree@
    }

    /// A cursor over the children of `root`.
    pub fn new(root: &Ref<'a, T>) -> (r: Children<'a, T>)
        ensures
            r.remaining() == (if root.spec_tree().nodes().contains_key(root.spec_id()) {
                root.spec_tree().children()[root.spec_id()]
            } else {
                Seq::<ArenaItemId>::empty()
            }),
            r.remaining().len() > 0 ==> r.spec_tree() == root.spec_tree(),
    {
        let front = root.first_child();
        let back = root.last_child();
        let tree = root.tree();
        let ghost p = root.spec_id();
        let ghost t = root.spec_tree();
        proof {
            if t.nodes().contains_key(p) {
                t.lemma_unfold();
                assert(child_list_ok(t.nodes(), p, t.children()[p]));
            }
        }
        let ghost n: int = if t.nodes().contains_key(p) { t.children()[p].len() as int } else { 0 };
        let r = Children { front, back, tree: Ghost(t), parent: Ghost(p), lo: Ghost(0), hi: Ghost(n) };
        proof {
            if t.nodes().contains_key(p) {
                assert(t.children()[p].subrange(0, n) =~= t.children()[p]);
            }
        }
        r
    }

    /// The next child from the front.
    pub fn next(&mut self) -> (r: Option<Ref<'a, T>>)
        ensures
            r.is_some() == (old(self).remaining().len() > 0),
            r.is_some() ==> r.unwrap().spec_id() == old(self).remaining()[0] && r.unwrap().spec_tree()
                == old(self).spec_tree(),
            final(self).remaining() == (if old(self).remaining().len() > 0 {
                old(self).remaining().drop_first()
            } else {
                Seq::<ArenaItemId>::empty()
            }),
            final(self).remaining().len() > 0 ==> final(self).spec_tree() == old(self).spec_tree(),
    {
        proof {
            use_type_invariant(&*self);
        }
        let ghost t = self.tree@;
        let ghost p = self.parent@;
        proof {
            if self.lo@ < self.hi@ {
                t.lemma_unfold();
                assert(child_list_ok(t.nodes(), p, t.children()[p]));
            }
        }
        if same_node(&self.front, &self.back) {
            let node = self.front;
            let ghost hi = self.hi@;
            proof {
                if node.is_some() {
                    let s = t.children()[p];
                    assert(s[hi - 1] == s[old(self).lo@]);
                    assert(old(self).lo@ == hi - 1);
                    assert(old(self).remaining().drop_first() =~= Seq::<ArenaItemId>::empty());
                }
            }
            *self = Children { front: None, back: None, tree: Ghost(t), parent: Ghost(p), lo: Ghost(hi), hi: Ghost(hi) };
            node
        } else {
            let node = self.front;
            let next = match node {
                Some(n) => n.next_sibling(),
                None => None,
            };
            let back = self.back;
            let ghost lo = self.lo@ + 1;
            let ghost hi = self.hi@;
            proof {
                let s = t.children()[p];
                assert(old(self).remaining().drop_first() =~= s.subrange(lo, hi));
            }
            *self = Children { front: next, back, tree: Ghost(t), parent: Ghost(p), lo: Ghost(lo), hi: Ghost(hi) };
            node
        }
    }

    /// The next child from the back.
    pub fn next_back(&mut self) -> (r: Option<Ref<'a, T>>)
        ensures
            r.is_some() == (old(self).remaining().len() > 0),
            r.is_some() ==> r.unwrap().spec_id() == old(self).remaining().last() && r.unwrap().spec_tree()
                == old(self).spec_tree(),
            final(self).remaining() == (if old(self).remaining().len() > 0 {
                old(self).remaining().drop_last()
            } else {
                Seq::<ArenaItemId>::empty()
            }),
            final(self).remaining().len() > 0 ==> final(self).spec_tree() == old(self).spec_tree(),
    {
        proof {
            use_type_invariant(&*self);
        }
        let ghost t = self.tree@;
        let ghost p = self.parent@;
        proof {
            if self.lo@ < self.hi@ {
                t.lemma_unfold();
                assert(child_list_ok(t.nodes(), p, t.children()[p]));
            }
        }
        if same_node(&self.front, &self.back) {
            let node = self.back;
            let ghost lo = self.lo@;
            proof {
                if node.is_some() {
                    let s = t.children()[p];
                    assert(s[old(self).hi@ - 1] == s[lo]);
                    assert(lo == old(self).hi@ - 1);
                    assert(old(self).remaining().drop_last() =~= Seq::<ArenaItemId>::empty());
                }
            }
            *self = Children { front: None, back: None, tree: Ghost(t), parent: Ghost(p), lo: Ghost(lo), hi: Ghost(lo) };
            node
        } else {
            let node = self.back;
            let prev = match node {
                Some(n) => n.prev_sibling(),
                None => None,
            };
            let front = self.front;
            let ghost lo = self.lo@;
            let ghost hi = self.hi@ - 1;
            proof {
                let s = t.children()[p];
                assert(old(self).remaining().drop_last() =~= s.subrange(lo, hi));
            }
            *self = Children { front, back: prev, tree: Ghost(t), parent: Ghost(p), lo: Ghost(lo), hi: Ghost(hi) };
            node
        }
    }
}

/// A traversal event on a node's id: entering it, or leaving it after its children.
#[derive(Clone, Copy, PartialEq, Eq, Structural, Debug)]
pub enum EdgeId {
    Open(ArenaItemId),
    Close(ArenaItemId),
}

/// A traversal event on a node: entering it, or leaving it after its children.
pub enum Edge<'a, T> {
    Open(Ref<'a, T>),
    Close(Ref<'a, T>),
}

impl<'a, T> Clone for Edge<'a, T> {
    fn clone(&self) -> (r: Self)
        ensures
            r == *self,
    {
        match self {
            Edge::Open(v) => Edge::Open(*v),
            Edge::Close(v) => Edge::Close(*v),
        }
    }
}

impl<'a, T> Copy for Edge<'a, T> {}

impl<'a, T> Edge<'a, T> {
    /// The event on ids that this event stands for.
    pub open spec fn spec_id_edge(&self) -> EdgeId {
        match self {
            Edge::Open(v) => EdgeId::Open(v.spec_id()),
            Edge::Close(v) => EdgeId::Close(v.spec_id()),
        }
    }

    pub open spec fn spec_node(&self) -> Ref<'a, T> {
        match self {
            Edge::Open(v) => *v,
            Edge::Close(v) => *v,
        }
    }

    pub fn node(self) -> (r: Ref<'a, T>)
        ensures
            r == self.spec_node(),
    {
        match self {
            Edge::Open(v) => v,
            Edge::Close(v) => v,
        }
    }

    pub fn id_edge(&self) -> (r: EdgeId)
        ensures
            r == self.spec_id_edge(),
    {
        match self {
            Edge::Open(v) => EdgeId::Open(v.id()),
            Edge::Close(v) => EdgeId::Close(v.id()),
        }
    }
}

/// The event that follows `e` in the pre-order walk of `t` from `root`; `None` before the
/// first event and after the last.
pub open spec fn traverse_step<T>(t: Tree<T>, root: ArenaItemId, e: Option<EdgeId>) -> Option<EdgeId> {
    match e {
        None => Some(EdgeId::Open(root)),
        Some(EdgeId::Open(n)) => match t.first_child_of(n) {
            Some(c) => Some(EdgeId::Open(c)),
            None => Some(EdgeId::Close(n)),
        },
        Some(EdgeId::Close(n)) => if n == root {
            None
        } else {
            match t.next_sibling_of(n) {
                Some(s) => Some(EdgeId::Open(s)),
                None => match t.parent_of(n) {
                    Some(p) => Some(EdgeId::Close(p)),
                    None => None,
                },
            }
        },
    }
}

pub open spec fn edge_ids_of<'a, T>(e: Option<Edge<'a, T>>) -> Option<EdgeId> {
    match e {
        Some(x) => Some(x.spec_id_edge()),
        None => None,
    }
}

/// A pre-order walk over the subtree of one node that reports entering and leaving each
/// node.
pub struct Traverse<'a, T> {
    root: Ref<'a, T>,
    edge: Option<Edge<'a, T>>,
}

impl<'a, T> Traverse<'a, T> {
    #[verifier::type_invariant]
    spec fn inv(&self) -> bool {
        self.edge.is_some() ==> self.edge.unwrap().spec_node().spec_tree() == self.root.spec_tree()
    }

    /// The tree walked.
    pub closed spec fn spec_tree(&self) -> Tree<T> {
        self.root.spec_tree()
    }

    /// The node the walk starts from.
    pub closed spec fn spec_root(&self) -> ArenaItemId {
        self.root.spec_id()
    }

    /// The last event reported, if the walk has started and not ended.
    pub closed spec fn current(&self) -> Option<EdgeId> {
        edge_ids_of(self.edge)
    }

    /// The walked tree is well formed.
    fn check_tree(&self)
        ensures
            self.spec_tree().wf(),
    {
        let _ = self.root.id();
    }

    pub fn new(root: &Ref<'a, T>) -> (r: Traverse<'a, T>)
        ensures
            r.spec_tree() == root.spec_tree(),
            r.spec_root() == root.spec_id(),
            r.current().is_none(),
    {
        Traverse { root: *root, edge: None }
    }

    /// Advances the walk by one event and reports it; `None` once the walk is over.
    pub fn next(&mut self) -> (r: Option<Edge<'a, T>>)
        ensures
            final(self).spec_tree() == old(self).spec_tree(),
            final(self).spec_root() == old(self).spec_root(),
            final(self).current() == traverse_step(old(self).spec_tree(), old(self).spec_root(), old(self).current()),
            edge_ids_of(r) == final(self).current(),
            r.is_some() ==> r.unwrap().spec_node().spec_tree() == old(self).spec_tree(),
    {
        proof {
            use_type_invariant(&*self);
        }
        let root = self.root;
        let next = match self.edge {
            None => Some(Edge::Open(root)),
            Some(Edge::Open(node)) => match node.first_child() {
                Some(first_child) => Some(Edge::Open(first_child)),
                None => Some(Edge::Close(node)),
            },
            Some(Edge::Close(node)) => {
                if node.id() == root.id() {
                    None
                } else {
                    match node.next_sibling() {
                        Some(next_sibling) => Some(Edge::Open(next_sibling)),
                        None => match node.parent() {
                            Some(parent) => Some(Edge::Close(parent)),
                            None => None,
                        },
                    }
                }
            },
        };
        *self = Traverse { root, edge: next };
        next
    }
}

/// A measure that falls with each step of a walk that leaves a node: entering a node
/// counts one more than leaving it, and a parent ranks below its children.
pub open spec fn edge_rank<T>(t: Tree<T>, e: Option<EdgeId>) -> nat {
    match e {
        Some(EdgeId::Open(n)) => t.depths()[n] + 1,
        Some(EdgeId::Close(n)) => t.depths()[n],
        None => 0,
    }
}

/// The state of the walk of `t` from `root` after stepping from `e` past every leaving
/// event up to the next entering event, or to the end.
pub open spec fn descend_step<T>(t: Tree<T>, root: ArenaItemId, e: Option<EdgeId>) -> Option<EdgeId>
    decreases edge_rank(t, e),
{
    let next = traverse_step(t, root, e);
    match next {
        Some(EdgeId::Close(n)) => if edge_rank(t, next) < edge_rank(t, e) {
            descend_step(t, root, next)
        } else {
            None
        },
        _ => next,
    }
}

/// The nodes of a subtree in pre-order, the subtree's own root first.
pub struct Descendants<'a, T> {
    iter: Traverse<'a, T>,
}

impl<'a, T> Descendants<'a, T> {
    pub closed spec fn spec_tree(&self) -> Tree<T> {
        self.iter.spec_tree()
    }

    pub closed spec fn spec_root(&self) -> ArenaItemId {
        self.iter.spec_root()
    }

    /// The state of the underlying walk.
    pub closed spec fn current(&self) -> Option<EdgeId> {
        self.iter.current()
    }

    pub fn new(root: &Ref<'a, T>) -> (r: Descendants<'a, T>)
        ensures
            r.spec_tree() == root.spec_tree(),
            r.spec_root() == root.spec_id(),
            r.current().is_none(),
    {
        Descendants { iter: Traverse::new(root) }
    }

    /// The next node entered by the walk; `None` once the walk is over.
    pub fn next(&mut self) -> (r: Option<Ref<'a, T>>)
        ensures
            final(self).spec_tree() == old(self).spec_tree(),
            final(self).spec_root() == old(self).spec_root(),
            final(self).current() == descend_step(old(self).spec_tree(), old(self).spec_root(), old(self).current()),
            r.is_some() == (final(self).current().is_some()),
            r.is_some() ==> final(self).current() == Some(EdgeId::Open(r.unwrap().spec_id()))
                && r.unwrap().spec_tree() == old(self).spec_tree(),
    {
        self.iter.check_tree();
        let ghost t = self.iter.spec_tree();
        let ghost root = self.iter.spec_root();
        let ghost target = descend_step(t, root, self.iter.current());
        loop
            invariant
                t.wf(),
                t == old(self).spec_tree(),
                root == old(self).spec_root(),
                self.iter.spec_tree() == t,
                self.iter.spec_root() == root,
                descend_step(t, root, self.iter.current()) == target,
                target == descend_step(old(self).spec_tree(), old(self).spec_root(), old(self).current()),
            decreases edge_rank(t, self.iter.current()),
        {
            let ghost before = self.iter.current();
            match self.iter.next() {
                Some(Edge::Open(node)) => {
                    return Some(node);
                },
                Some(Edge::Close(node)) => {
                    proof {
                        match before {
                            Some(EdgeId::Close(n)) => {
                                t.lemma_parent_ranks_lower(n);
                            },
                            _ => {},
                        }
                    }
                },
                None => {
                    return None;
                },
            }
        }
    }
}

impl<'a, T> Ref<'a, T> {
    /// The ids of this node's children, front to back.
    pub open spec fn spec_children(&self) -> Seq<ArenaItemId> {
        if self.spec_tree().nodes().contains_key(self.spec_id()) {
            self.spec_tree().children()[self.spec_id()]
        } else {
            Seq::empty()
        }
    }

    pub fn children_refs_iter(&self) -> (r: Children<'a, T>)
        ensures
            r.remaining() == self.spec_children(),
            r.remaining().len() > 0 ==> r.spec_tree() == self.spec_tree(),
    {
        Children::new(self)
    }

    pub fn children_ids_iter(&self) -> (r: Vec<ArenaItemId>)
        ensures
            r@ == self.spec_children(),
    {
        let mut children = Children::new(self);
        let mut ids: Vec<ArenaItemId> = Vec::new();
        loop
            invariant
                ids@ + children.remaining() == self.spec_children(),
            ensures
                ids@ == self.spec_children(),
            decreases children.remaining().len(),
        {
            let ghost before = children.remaining();
            let ghost ids_before = ids@;
            match children.next() {
                Some(child) => {
                    ids.push(child.id());
                    proof {
                        assert(ids@ + children.remaining() =~= ids_before + before);
                    }
                },
                None => {
                    proof {
                        assert(ids@ + children.remaining() =~= ids@);
                    }
                    break;
                },
            }
        }
        ids
    }

    /// The values of this node's children, front to back.
    pub fn children_values_iter(&self) -> (r: Vec<&'a T>)
        ensures
            r@.len() == self.spec_children().len(),
            forall|i: int|
                0 <= i < r@.len() ==> *#[trigger] r@[i] == self.spec_tree().nodes()[self.spec_children()[i]].value,
    {
        let _ = self.id();
        let ghost target = self.spec_children();
        let ghost t = self.spec_tree();
        proof {
            t.lemma_unfold();
            if t.nodes().contains_key(self.spec_id()) {
                assert(child_list_ok(t.nodes(), self.spec_id(), target));
            }
        }
        let mut children = Children::new(self);
        let mut values: Vec<&'a T> = Vec::new();
        proof {
            assert(target.subrange(0, target.len() as int) =~= target);
        }
        loop
            invariant
                t == self.spec_tree(),
                values@.len() <= target.len(),
                children.remaining() == target.subrange(values@.len() as int, target.len() as int),
                children.remaining().len() > 0 ==> children.spec_tree() == t,
                forall|j: int| 0 <= j < target.len() ==> t.nodes().contains_key(#[trigger] target[j]),
                forall|i: int| 0 <= i < values@.len() ==> *#[trigger] values@[i] == t.nodes()[target[i]].value,
            ensures
                values@.len() == target.len(),
                forall|i: int| 0 <= i < values@.len() ==> *#[trigger] values@[i] == t.nodes()[target[i]].value,
            decreases children.remaining().len(),
        {
            let ghost k = values@.len() as int;
            match children.next() {
                Some(child) => {
                    proof {
                        assert(child.spec_id() == target[k]);
                    }
                    match child.try_value() {
                        Some(v) => {
                            values.push(v);
                        },
                        None => {},
                    }
                    proof {
                        assert(target.subrange(k, target.len() as int).drop_first() =~= target.subrange(k + 1, target.len() as int));
                    }
                },
                None => {
                    break;
                },
            }
        }
        values
    }

    pub fn descendants_refs_iter(&self) -> (r: Descendants<'a, T>)
        ensures
            r.spec_tree() == self.spec_tree(),
            r.spec_root() == self.spec_id(),
            r.current().is_none(),
    {
        Descendants::new(self)
    }

    pub fn traverse_edges_iter(&self) -> (r: Traverse<'a, T>)
        ensures
            r.spec_tree() == self.spec_tree(),
            r.spec_root() == self.spec_id(),
            r.current().is_none(),
    {
        Traverse::new(self)
    }
}

} // verus!
