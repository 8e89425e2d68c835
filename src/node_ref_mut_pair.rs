use vstd::prelude::*;
use crate::ids::ArenaItemId;
use crate::links::{lemma_value_update, lemma_ranked_release};
use crate::node::Node;
use crate::tree::Tree;

verus! {

/// A handle on two nodes of one tree whose values can be changed at the same time.
pub struct RefMutPair<'a, T> {
    pub tree: &'a mut Tree<T>,
    pub ids: (ArenaItemId, ArenaItemId),
}

/// The nodes `m` after the values of the two different nodes `a` and `b` have been set.
pub open spec fn with_values<T>(
    m: Map<ArenaItemId, Node<T>>,
    a: ArenaItemId,
    va: T,
    b: ArenaItemId,
    vb: T,
) -> Map<ArenaItemId, Node<T>> {
    m.insert(a, Node { value: va, ..m[a] }).insert(b, Node { value: vb, ..m[b] })
}

/// What is written through one of two views of different nodes is what that node holds
/// afterwards, whatever is written through the other, in either order.
pub proof fn lemma_pair_writes_independent<T>(
    m: Map<ArenaItemId, Node<T>>,
    a: ArenaItemId,
    va: T,
    b: ArenaItemId,
    vb: T,
)
    requires
        a != b,
    ensures
        with_values(m, a, va, b, vb)[a].value == va,
        with_values(m, a, va, b, vb)[b].value == vb,
        with_values(m, a, va, b, vb) == with_values(m, b, vb, a, va),
{
    assert(with_values(m, a, va, b, vb) =~= with_values(m, b, vb, a, va));
}

impl<T> Tree<T> {
    pub fn get_mut_pair(&mut self, ids: (ArenaItemId, ArenaItemId)) -> (r: RefMutPair<'_, T>)
        ensures
            *r.tree == *old(self),
            *final(r.tree) == *final(self),
            r.ids == ids,
    {
        RefMutPair { tree: self, ids }
    }
}

impl<'a, T> RefMutPair<'a, T> {
    /// The tree as it stands now.
    pub open spec fn spec_tree(&self) -> Tree<T> {
        *self.tree
    }

    /// Views of the values of both nodes at once; `None` when either is missing.
    pub fn try_values(&mut self) -> (r: Option<(&mut T, &mut T)>)
        requires
            old(self).tree.wf(),
            old(self).ids.0 != old(self).ids.1,
        ensures
            final(self).ids == old(self).ids,
            *final(final(self).tree) == *final(old(self).tree),
            r.is_some() == (old(self).tree.nodes().contains_key(old(self).ids.0)
                && old(self).tree.nodes().contains_key(old(self).ids.1)),
            r.is_some() ==> *r.unwrap().0 == old(self).tree.nodes()[old(self).ids.0].value
                && *r.unwrap().1 == old(self).tree.nodes()[old(self).ids.1].value,
            final(self).tree.wf(),
            old(self).tree.same_storage(*final(self).tree),
            final(self).tree.children() == old(self).tree.children(),
            r.is_some() ==> final(self).tree.nodes() == with_values(
                old(self).tree.nodes(),
                old(self).ids.0,
                *final(r.unwrap().0),
                old(self).ids.1,
                *final(r.unwrap().1),
            ),
            r.is_none() ==> final(self).tree.nodes() == old(self).tree.nodes(),
    {
        let (a, b) = self.ids;
        proof {
            self.tree.lemma_unfold();
        }
        let ghost old_tree = *self.tree;
        let (first, second) = self.tree.arena.get_mut_pair(a, b);
        let r = match first {
            Some(x) => match second {
                Some(y) => Some((&mut x.value, &mut y.value)),
                None => None,
            },
            None => None,
        };
        proof {
            let new_tree = after_borrow(*self.tree);
            new_tree.lemma_unfold();
            if r.is_some() {
                let m = old_tree.nodes();
                let va = *final(r.unwrap().0);
                let vb = *final(r.unwrap().1);
                lemma_value_update(m, old_tree.children(), a, va);
                lemma_value_update(m.insert(a, Node { value: va, ..m[a] }), old_tree.children(), b, vb);
                assert(new_tree.nodes() =~= with_values(m, a, va, b, vb));
                lemma_ranked_release(m, new_tree.nodes(), old_tree.depths());
            } else {
                assert(new_tree.nodes() =~= old_tree.nodes());
            }
        }
        r
    }

    /// Views of the values of both nodes at once, for as long as the tree stays borrowed;
    /// `None` when either is missing.
    pub fn try_into_values(self) -> (r: Option<(&'a mut T, &'a mut T)>)
        requires
            self.spec_tree().wf(),
            self.ids.0 != self.ids.1,
        ensures
            r.is_some() == (self.spec_tree().nodes().contains_key(self.ids.0)
                && self.spec_tree().nodes().contains_key(self.ids.1)),
            r.is_some() ==> *r.unwrap().0 == self.spec_tree().nodes()[self.ids.0].value
                && *r.unwrap().1 == self.spec_tree().nodes()[self.ids.1].value,
            (*final(self.tree)).wf(),
            self.spec_tree().same_storage(*final(self.tree)),
            (*final(self.tree)).children() == self.spec_tree().children(),
            r.is_some() ==> (*final(self.tree)).nodes() == with_values(
                self.spec_tree().nodes(),
                self.ids.0,
                *final(r.unwrap().0),
                self.ids.1,
                *final(r.unwrap().1),
            ),
            r.is_none() ==> (*final(self.tree)).nodes() == self.spec_tree().nodes(),
    {
        let (a, b) = self.ids;
        let tree = self.tree;
        proof {
            tree.lemma_unfold();
        }
        let ghost old_tree = *tree;
        let (first, second) = tree.arena.get_mut_pair(a, b);
        let r = match first {
            Some(x) => match second {
                Some(y) => Some((&mut x.value, &mut y.value)),
                None => None,
            },
            None => None,
        };
        proof {
            let new_tree = after_borrow(*tree);
            new_tree.lemma_unfold();
            if r.is_some() {
                let m = old_tree.nodes();
                let va = *final(r.unwrap().0);
                let vb = *final(r.unwrap().1);
                lemma_value_update(m, old_tree.children(), a, va);
                lemma_value_update(m.insert(a, Node { value: va, ..m[a] }), old_tree.children(), b, vb);
                assert(new_tree.nodes() =~= with_values(m, a, va, b, vb));
                lemma_ranked_release(m, new_tree.nodes(), old_tree.depths());
            } else {
                assert(new_tree.nodes() =~= old_tree.nodes());
            }
        }
        r
    }
}

} // verus!
