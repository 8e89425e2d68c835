use vstd::prelude::*;
use crate::ids::ArenaItemId;
use crate::node::Node;

verus! {

/// `s` is the child list of `p` in `m`: `p`'s first and last child are its ends, and each
/// element names `p` as parent and its neighbours in `s` as siblings.
pub open spec fn child_list_ok<T>(m: Map<ArenaItemId, Node<T>>, p: ArenaItemId, s: Seq<ArenaItemId>) -> bool {
    &&& s.no_duplicates()
    &&& m[p].first_child_id == (if s.len() == 0 { None } else { Some(s[0]) })
    &&& m[p].last_child_id == (if s.len() == 0 { None } else { Some(s[s.len() - 1]) })
    &&& forall|i: int|
        #![trigger s[i]]
        0 <= i < s.len() ==> {
            &&& m.contains_key(s[i])
            &&& m[s[i]].parent_id == Some(p)
            &&& m[s[i]].prev_sibling_id == (if i == 0 { None } else { Some(s[i - 1]) })
            &&& m[s[i]].next_sibling_id == (if i == s.len() - 1 { None } else { Some(s[i + 1]) })
        }
}

/// A node with a parent is in that parent's child list; one without has no siblings.
pub open spec fn parent_ok<T>(m: Map<ArenaItemId, Node<T>>, kids: Map<ArenaItemId, Seq<ArenaItemId>>, x: ArenaItemId) -> bool {
    match m[x].parent_id {
        Some(p) => p != x && m.contains_key(p) && kids[p].contains(x),
        None => m[x].prev_sibling_id.is_none() && m[x].next_sibling_id.is_none(),
    }
}

/// The links of `m` form consistent doubly-linked child lists, recorded in `kids`: every
/// node's list is `kids` of it, a node with a parent is in that parent's list, and a node
/// without a parent has no siblings.
pub open spec fn links_ok<T>(m: Map<ArenaItemId, Node<T>>, kids: Map<ArenaItemId, Seq<ArenaItemId>>) -> bool {
    &&& kids.dom() == m.dom()
    &&& forall|x: ArenaItemId| m.contains_key(x) ==> #[trigger] child_list_ok(m, x, kids[x])
    &&& forall|x: ArenaItemId| m.contains_key(x) ==> #[trigger] parent_ok(m, kids, x)
}

/// `m` after linking the unattached node `c` as the new last child of `p`.
pub open spec fn append_link<T>(m: Map<ArenaItemId, Node<T>>, p: ArenaItemId, c: ArenaItemId) -> Map<ArenaItemId, Node<T>> {
    let last = m[p].last_child_id;
    let m1 = m.insert(c, Node { parent_id: Some(p), prev_sibling_id: last, ..m[c] });
    let m2 = match last {
        Some(l) => m1.insert(l, Node { next_sibling_id: Some(c), ..m1[l] }),
        None => m1,
    };
    let np = m2[p];
    m2.insert(p, Node {
        last_child_id: Some(c),
        first_child_id: if np.first_child_id.is_none() { Some(c) } else { np.first_child_id },
        ..np
    })
}

/// `m` after linking the unattached node `c` as the new first child of `p`.
pub open spec fn prepend_link<T>(m: Map<ArenaItemId, Node<T>>, p: ArenaItemId, c: ArenaItemId) -> Map<ArenaItemId, Node<T>> {
    let first = m[p].first_child_id;
    let m1 = m.insert(c, Node { parent_id: Some(p), next_sibling_id: first, ..m[c] });
    let m2 = match first {
        Some(f) => m1.insert(f, Node { prev_sibling_id: Some(c), ..m1[f] }),
        None => m1,
    };
    let np = m2[p];
    m2.insert(p, Node {
        first_child_id: Some(c),
        last_child_id: if np.last_child_id.is_none() { Some(c) } else { np.last_child_id },
        ..np
    })
}

/// `m` after unlinking `x` from its parent and siblings; its own children stay.
pub open spec fn detach_link<T>(m: Map<ArenaItemId, Node<T>>, x: ArenaItemId) -> Map<ArenaItemId, Node<T>> {
    let n = m[x];
    let p = n.parent_id.unwrap();
    let prev = n.prev_sibling_id;
    let next = n.next_sibling_id;
    let m1 = m.insert(x, Node { parent_id: None, prev_sibling_id: None, next_sibling_id: None, ..n });
    let m2 = match prev {
        Some(a) => m1.insert(a, Node { next_sibling_id: next, ..m1[a] }),
        None => m1,
    };
    let m3 = match next {
        Some(b) => m2.insert(b, Node { prev_sibling_id: prev, ..m2[b] }),
        None => m2,
    };
    let np = m3[p];
    if np.first_child_id == np.last_child_id {
        m3.insert(p, Node { first_child_id: None, last_child_id: None, ..np })
    } else if np.first_child_id == Some(x) {
        m3.insert(p, Node { first_child_id: next, ..np })
    } else if np.last_child_id == Some(x) {
        m3.insert(p, Node { last_child_id: prev, ..np })
    } else {
        m3
    }
}

/// The nodes of `append_link(m, p, c)`, one by one.
proof fn lemma_append_nodes<T>(m: Map<ArenaItemId, Node<T>>, kids: Map<ArenaItemId, Seq<ArenaItemId>>, p: ArenaItemId, c: ArenaItemId)
    requires
        links_ok(m, kids),
        m.contains_key(p),
        m.contains_key(c),
        c != p,
        m[c].parent_id.is_none(),
    ensures
        ({
            let m2 = append_link(m, p, c);
            let s = kids[p];
            &&& m2.dom() == m.dom()
            &&& !s.contains(c)
            &&& m2[c] == Node { parent_id: Some(p), prev_sibling_id: m[p].last_child_id, ..m[c] }
            &&& m2[p] == Node {
                last_child_id: Some(c),
                first_child_id: if s.len() == 0 { Some(c) } else { m[p].first_child_id },
                ..m[p]
            }
            &&& s.len() > 0 ==> s[s.len() - 1] != p && s[s.len() - 1] != c && m2[s[s.len() - 1]] == Node {
                next_sibling_id: Some(c),
                ..m[s[s.len() - 1]]
            }
            &&& forall|y: ArenaItemId| y != c && y != p && (s.len() == 0 || y != s[s.len() - 1]) ==> #[trigger] m2[y] == m[y]
        }),
{
    let s = kids[p];
    assert(child_list_ok(m, p, s));
    assert(parent_ok(m, kids, c));
    assert(!s.contains(c)) by {
        if s.contains(c) {
            let i = choose|i: int| 0 <= i < s.len() && s[i] == c;
            assert(m[s[i]].parent_id == Some(p));
        }
    }
    if s.len() > 0 {
        let l = s[s.len() - 1];
        assert(m[l].parent_id == Some(p));
        assert(parent_ok(m, kids, l));
    }
    assert(append_link(m, p, c).dom() =~= m.dom());
}

pub proof fn lemma_append_link<T>(
    m: Map<ArenaItemId, Node<T>>,
    kids: Map<ArenaItemId, Seq<ArenaItemId>>,
    p: ArenaItemId,
    c: ArenaItemId,
)
    requires
        links_ok(m, kids),
        m.contains_key(p),
        m.contains_key(c),
        c != p,
        m[c].parent_id.is_none(),
    ensures
        links_ok(append_link(m, p, c), kids.insert(p, kids[p].push(c))),
{
    let m2 = append_link(m, p, c);
    let kids2 = kids.insert(p, kids[p].push(c));
    let s = kids[p];
    lemma_append_nodes(m, kids, p, c);
    assert(child_list_ok(m, p, s));
    assert(kids2.dom() =~= m2.dom());
    assert forall|x: ArenaItemId| m2.contains_key(x) implies #[trigger] child_list_ok(m2, x, kids2[x]) by {
        assert(child_list_ok(m, x, kids[x]));
        if x == p {
            let s2 = s.push(c);
            assert(parent_ok(m, kids, c));
            assert forall|i: int| #![trigger s2[i]] 0 <= i < s2.len() implies {
                &&& m2.contains_key(s2[i])
                &&& m2[s2[i]].parent_id == Some(p)
                &&& m2[s2[i]].prev_sibling_id == (if i == 0 { None } else { Some(s2[i - 1]) })
                &&& m2[s2[i]].next_sibling_id == (if i == s2.len() - 1 { None } else { Some(s2[i + 1]) })
            } by {
                if i < s.len() {
                    assert(s2[i] == s[i]);
                    assert(s[i] != c);
                    assert(m[s[i]].parent_id == Some(p));
                    assert(parent_ok(m, kids, p));
                }
            }
            assert(s2.no_duplicates());
            assert(child_list_ok(m2, x, s2));
        } else {
            assert(m2[x].first_child_id == m[x].first_child_id);
            assert(m2[x].last_child_id == m[x].last_child_id);
            let t = kids[x];
            assert forall|i: int| #![trigger t[i]] 0 <= i < t.len() implies m2[t[i]].parent_id == m[t[i]].parent_id
                && m2[t[i]].prev_sibling_id == m[t[i]].prev_sibling_id
                && m2[t[i]].next_sibling_id == m[t[i]].next_sibling_id by {
                assert(m[t[i]].parent_id == Some(x));
                if s.len() > 0 {
                    assert(m[s[s.len() - 1]].parent_id == Some(p));
                }
            }
        }
    }
    assert forall|x: ArenaItemId| m2.contains_key(x) implies #[trigger] parent_ok(m2, kids2, x) by {
        assert(parent_ok(m, kids, x));
        if x == c {
            assert(kids2[p][s.len() as int] == c);
        } else {
            match m[x].parent_id {
                Some(q) => {
                    if q == p {
                        let i = choose|i: int| 0 <= i < s.len() && s[i] == x;
                        assert(kids2[p][i] == x);
                    }
                },
                None => {
                    if s.len() > 0 {
                        assert(m[s[s.len() - 1]].parent_id == Some(p));
                    }
                },
            }
        }
    }
}


/// The nodes of `prepend_link(m, p, c)`, one by one.
proof fn lemma_prepend_nodes<T>(m: Map<ArenaItemId, Node<T>>, kids: Map<ArenaItemId, Seq<ArenaItemId>>, p: ArenaItemId, c: ArenaItemId)
    requires
        links_ok(m, kids),
        m.contains_key(p),
        m.contains_key(c),
        c != p,
        m[c].parent_id.is_none(),
    ensures
        ({
            let m2 = prepend_link(m, p, c);
            let s = kids[p];
            &&& m2.dom() == m.dom()
            &&& !s.contains(c)
            &&& m2[c] == Node { parent_id: Some(p), next_sibling_id: m[p].first_child_id, ..m[c] }
            &&& m2[p] == Node {
                first_child_id: Some(c),
                last_child_id: if s.len() == 0 { Some(c) } else { m[p].last_child_id },
                ..m[p]
            }
            &&& s.len() > 0 ==> s[0] != p && s[0] != c && m2[s[0]] == Node {
                prev_sibling_id: Some(c),
                ..m[s[0]]
            }
            &&& forall|y: ArenaItemId| y != c && y != p && (s.len() == 0 || y != s[0]) ==> #[trigger] m2[y] == m[y]
        }),
{
    let s = kids[p];
    assert(child_list_ok(m, p, s));
    assert(parent_ok(m, kids, c));
    assert(!s.contains(c)) by {
        if s.contains(c) {
            let i = choose|i: int| 0 <= i < s.len() && s[i] == c;
            assert(m[s[i]].parent_id == Some(p));
        }
    }
    if s.len() > 0 {
        let f = s[0];
        assert(m[f].parent_id == Some(p));
        assert(parent_ok(m, kids, f));
    }
    assert(prepend_link(m, p, c).dom() =~= m.dom());
}

pub proof fn lemma_prepend_link<T>(
    m: Map<ArenaItemId, Node<T>>,
    kids: Map<ArenaItemId, Seq<ArenaItemId>>,
    p: ArenaItemId,
    c: ArenaItemId,
)
    requires
        links_ok(m, kids),
        m.contains_key(p),
        m.contains_key(c),
        c != p,
        m[c].parent_id.is_none(),
    ensures
        links_ok(prepend_link(m, p, c), kids.insert(p, seq![c] + kids[p])),
{
    let m2 = prepend_link(m, p, c);
    let kids2 = kids.insert(p, seq![c] + kids[p]);
    let s = kids[p];
    lemma_prepend_nodes(m, kids, p, c);
    assert(child_list_ok(m, p, s));
    assert(kids2.dom() =~= m2.dom());
    assert forall|x: ArenaItemId| m2.contains_key(x) implies #[trigger] child_list_ok(m2, x, kids2[x]) by {
        assert(child_list_ok(m, x, kids[x]));
        if x == p {
            let s2 = seq![c] + s;
            assert(parent_ok(m, kids, c));
            assert forall|i: int| #![trigger s2[i]] 0 <= i < s2.len() implies {
                &&& m2.contains_key(s2[i])
                &&& m2[s2[i]].parent_id == Some(p)
                &&& m2[s2[i]].prev_sibling_id == (if i == 0 { None } else { Some(s2[i - 1]) })
                &&& m2[s2[i]].next_sibling_id == (if i == s2.len() - 1 { None } else { Some(s2[i + 1]) })
            } by {
                if i > 0 {
                    assert(s2[i] == s[i - 1]);
                    assert(s[i - 1] != c);
                    assert(m[s[i - 1]].parent_id == Some(p));
                    assert(parent_ok(m, kids, p));
                }
            }
            assert(s2.no_duplicates()) by {
                assert forall|i: int, j: int| 0 <= i < s2.len() && 0 <= j < s2.len() && i != j implies s2[i] != s2[j] by {
                    if i > 0 && j > 0 {
                        assert(s2[i] == s[i - 1] && s2[j] == s[j - 1]);
                    } else if i == 0 {
                        assert(s.contains(s2[j]) ==> s2[j] != c);
                        assert(s2[j] == s[j - 1]);
                    } else {
                        assert(s2[i] == s[i - 1]);
                    }
                }
            }
            assert(child_list_ok(m2, x, s2));
        } else {
            assert(m2[x].first_child_id == m[x].first_child_id);
            assert(m2[x].last_child_id == m[x].last_child_id);
            let t = kids[x];
            assert forall|i: int| #![trigger t[i]] 0 <= i < t.len() implies m2[t[i]].parent_id == m[t[i]].parent_id
                && m2[t[i]].prev_sibling_id == m[t[i]].prev_sibling_id
                && m2[t[i]].next_sibling_id == m[t[i]].next_sibling_id by {
                assert(m[t[i]].parent_id == Some(x));
                if s.len() > 0 {
                    assert(m[s[0]].parent_id == Some(p));
                }
            }
        }
    }
    assert forall|x: ArenaItemId| m2.contains_key(x) implies #[trigger] parent_ok(m2, kids2, x) by {
        assert(parent_ok(m, kids, x));
        if x == c {
            assert(kids2[p][0] == c);
        } else {
            match m[x].parent_id {
                Some(q) => {
                    if q == p {
                        let i = choose|i: int| 0 <= i < s.len() && s[i] == x;
                        assert(kids2[p][i + 1] == x);
                    }
                },
                None => {
                    if s.len() > 0 {
                        assert(m[s[0]].parent_id == Some(p));
                    }
                },
            }
        }
    }
}

/// The nodes of `detach_link(m, x)`, one by one, where `x` sits at index `i` of its
/// parent's list.
proof fn lemma_detach_nodes<T>(m: Map<ArenaItemId, Node<T>>, kids: Map<ArenaItemId, Seq<ArenaItemId>>, x: ArenaItemId, p: ArenaItemId, i: int)
    requires
        links_ok(m, kids),
        m.contains_key(x),
        m[x].parent_id == Some(p),
        0 <= i < kids[p].len(),
        kids[p][i] == x,
    ensures
        ({
            let m2 = detach_link(m, x);
            let s = kids[p];
            let n = s.len();
            &&& m2.dom() == m.dom()
            &&& m.contains_key(p) && p != x
            &&& m2[x] == Node { parent_id: None, prev_sibling_id: None, next_sibling_id: None, ..m[x] }
            &&& i > 0 ==> s[i - 1] != p && s[i - 1] != x && m2[s[i - 1]] == Node {
                next_sibling_id: if i == n - 1 { None } else { Some(s[i + 1]) },
                ..m[s[i - 1]]
            }
            &&& i < n - 1 ==> s[i + 1] != p && s[i + 1] != x && m2[s[i + 1]] == Node {
                prev_sibling_id: if i == 0 { None } else { Some(s[i - 1]) },
                ..m[s[i + 1]]
            }
            &&& m2[p] == (if n == 1 {
                Node { first_child_id: None, last_child_id: None, ..m[p] }
            } else if i == 0 {
                Node { first_child_id: Some(s[1]), ..m[p] }
            } else if i == n - 1 {
                Node { last_child_id: Some(s[n - 2]), ..m[p] }
            } else {
                m[p]
            })
            &&& forall|y: ArenaItemId|
                y != x && y != p && (i == 0 || y != s[i - 1]) && (i == n - 1 || y != s[i + 1])
                    ==> #[trigger] m2[y] == m[y]
        }),
{
    let s = kids[p];
    let n = s.len();
    assert(parent_ok(m, kids, x));
    assert(child_list_ok(m, p, s));
    assert(m[s[i]].prev_sibling_id == (if i == 0 { None } else { Some(s[i - 1]) }));
    assert(m[s[i]].next_sibling_id == (if i == n - 1 { None } else { Some(s[i + 1]) }));
    if i > 0 {
        assert(m[s[i - 1]].parent_id == Some(p));
        assert(parent_ok(m, kids, s[i - 1]));
    }
    if i < n - 1 {
        assert(m[s[i + 1]].parent_id == Some(p));
        assert(parent_ok(m, kids, s[i + 1]));
    }
    if n > 1 {
        assert(s[0] != s[n - 1]);
    }
    assert(detach_link(m, x).dom() =~= m.dom());
}

proof fn lemma_detach_parent_list<T>(
    m: Map<ArenaItemId, Node<T>>,
    kids: Map<ArenaItemId, Seq<ArenaItemId>>,
    x: ArenaItemId,
    p: ArenaItemId,
    i: int,
)
    requires
        links_ok(m, kids),
        m.contains_key(x),
        m[x].parent_id == Some(p),
        0 <= i < kids[p].len(),
        kids[p][i] == x,
    ensures
        child_list_ok(detach_link(m, x), p, kids[p].remove(i)),
{
    let m2 = detach_link(m, x);
    let s = kids[p];
    let s2 = s.remove(i);
    lemma_detach_nodes(m, kids, x, p, i);
    assert(child_list_ok(m, p, s));
    assert forall|k: int| #![trigger s2[k]] 0 <= k < s2.len() implies {
        &&& m2.contains_key(s2[k])
        &&& m2[s2[k]].parent_id == Some(p)
        &&& m2[s2[k]].prev_sibling_id == (if k == 0 { None } else { Some(s2[k - 1]) })
        &&& m2[s2[k]].next_sibling_id == (if k == s2.len() - 1 { None } else { Some(s2[k + 1]) })
    } by {
        if k < i {
            assert(s2[k] == s[k]);
            assert(m[s[k]].parent_id == Some(p));
        } else {
            assert(s2[k] == s[k + 1]);
            assert(m[s[k + 1]].parent_id == Some(p));
        }
    }
    assert(s2.no_duplicates()) by {
        assert forall|a: int, b: int| 0 <= a < s2.len() && 0 <= b < s2.len() && a != b implies s2[a] != s2[b] by {
            let a1 = if a < i { a } else { a + 1 };
            let b1 = if b < i { b } else { b + 1 };
            assert(s2[a] == s[a1] && s2[b] == s[b1]);
        }
    }
}

proof fn lemma_detach_other_lists<T>(
    m: Map<ArenaItemId, Node<T>>,
    kids: Map<ArenaItemId, Seq<ArenaItemId>>,
    x: ArenaItemId,
    p: ArenaItemId,
    i: int,
)
    requires
        links_ok(m, kids),
        m.contains_key(x),
        m[x].parent_id == Some(p),
        0 <= i < kids[p].len(),
        kids[p][i] == x,
    ensures
        forall|y: ArenaItemId| m.contains_key(y) && y != p ==> #[trigger] child_list_ok(detach_link(m, x), y, kids[y]),
{
    let m2 = detach_link(m, x);
    let s = kids[p];
    let n = s.len();
    lemma_detach_nodes(m, kids, x, p, i);
    assert(child_list_ok(m, p, s));
    assert forall|y: ArenaItemId| m.contains_key(y) && y != p implies #[trigger] child_list_ok(m2, y, kids[y]) by {
        assert(child_list_ok(m, y, kids[y]));
        assert(m2[y].first_child_id == m[y].first_child_id);
        assert(m2[y].last_child_id == m[y].last_child_id);
        let t = kids[y];
        assert forall|k: int| #![trigger t[k]] 0 <= k < t.len() implies m2[t[k]].parent_id == m[t[k]].parent_id
            && m2[t[k]].prev_sibling_id == m[t[k]].prev_sibling_id
            && m2[t[k]].next_sibling_id == m[t[k]].next_sibling_id by {
            assert(m[t[k]].parent_id == Some(y));
            if i > 0 {
                assert(m[s[i - 1]].parent_id == Some(p));
            }
            if i < n - 1 {
                assert(m[s[i + 1]].parent_id == Some(p));
            }
        }
    }
}

proof fn lemma_detach_parents<T>(
    m: Map<ArenaItemId, Node<T>>,
    kids: Map<ArenaItemId, Seq<ArenaItemId>>,
    x: ArenaItemId,
    p: ArenaItemId,
    i: int,
)
    requires
        links_ok(m, kids),
        m.contains_key(x),
        m[x].parent_id == Some(p),
        0 <= i < kids[p].len(),
        kids[p][i] == x,
    ensures
        forall|y: ArenaItemId| m.contains_key(y) ==> #[trigger] parent_ok(detach_link(m, x), kids.insert(p, kids[p].remove(i)), y),
{
    let m2 = detach_link(m, x);
    let s = kids[p];
    let n = s.len();
    let s2 = s.remove(i);
    let kids2 = kids.insert(p, s2);
    lemma_detach_nodes(m, kids, x, p, i);
    assert(child_list_ok(m, p, s));
    assert forall|y: ArenaItemId| m.contains_key(y) implies #[trigger] parent_ok(m2, kids2, y) by {
        assert(parent_ok(m, kids, y));
        if y != x {
            match m[y].parent_id {
                Some(q) => {
                    if q == p {
                        let k = choose|k: int| 0 <= k < s.len() && s[k] == y;
                        assert(k != i);
                        if k < i {
                            assert(s2[k] == y);
                        } else {
                            assert(s2[k - 1] == y);
                        }
                    }
                },
                None => {
                    if i > 0 {
                        assert(m[s[i - 1]].parent_id == Some(p));
                    }
                    if i < n - 1 {
                        assert(m[s[i + 1]].parent_id == Some(p));
                    }
                },
            }
        }
    }
}

pub proof fn lemma_detach_link<T>(
    m: Map<ArenaItemId, Node<T>>,
    kids: Map<ArenaItemId, Seq<ArenaItemId>>,
    x: ArenaItemId,
    p: ArenaItemId,
    i: int,
)
    requires
        links_ok(m, kids),
        m.contains_key(x),
        m[x].parent_id == Some(p),
        0 <= i < kids[p].len(),
        kids[p][i] == x,
    ensures
        links_ok(detach_link(m, x), kids.insert(p, kids[p].remove(i))),
{
    let m2 = detach_link(m, x);
    let kids2 = kids.insert(p, kids[p].remove(i));
    lemma_detach_nodes(m, kids, x, p, i);
    lemma_detach_parent_list(m, kids, x, p, i);
    lemma_detach_other_lists(m, kids, x, p, i);
    lemma_detach_parents(m, kids, x, p, i);
    assert(kids2.dom() =~= m2.dom());
    assert forall|y: ArenaItemId| m2.contains_key(y) implies #[trigger] child_list_ok(m2, y, kids2[y]) by {
        if y != p {
            assert(child_list_ok(m2, y, kids[y]));
        }
    }
    assert forall|y: ArenaItemId| m2.contains_key(y) implies #[trigger] parent_ok(m2, kids2, y) by {}
}

/// Linking an unattached node as the last child of `p` and then unlinking it again gives
/// back exactly the nodes and child lists that there were before.
pub proof fn lemma_append_then_detach<T>(
    m: Map<ArenaItemId, Node<T>>,
    kids: Map<ArenaItemId, Seq<ArenaItemId>>,
    p: ArenaItemId,
    c: ArenaItemId,
)
    requires
        links_ok(m, kids),
        m.contains_key(p),
        m.contains_key(c),
        c != p,
        m[c].parent_id.is_none(),
    ensures
        ({
            let m2 = append_link(m, p, c);
            let kids2 = kids.insert(p, kids[p].push(c));
            &&& m2[c].parent_id == Some(p)
            &&& detach_link(m2, c) == m
            &&& kids2.insert(p, kids2[p].remove(kids2[p].index_of(c))) == kids
        }),
{
    let m2 = append_link(m, p, c);
    let s = kids[p];
    let s2 = s.push(c);
    let kids2 = kids.insert(p, s2);
    let n = s.len();
    lemma_append_nodes(m, kids, p, c);
    lemma_append_link(m, kids, p, c);
    assert(s2[n as int] == c);
    assert(s2.no_duplicates()) by {
        assert(child_list_ok(m2, p, kids2[p]));
    }
    let i = s2.index_of(c);
    assert(s2.contains(c));
    assert(i == n);
    lemma_detach_nodes(m2, kids2, c, p, n as int);
    assert(child_list_ok(m, p, s));
    assert(parent_ok(m, kids, c));
    if n > 0 {
        assert(m[s[n - 1]].parent_id == Some(p));
        assert(parent_ok(m, kids, s[n - 1]));
    }
    let m3 = detach_link(m2, c);
    assert(m3 =~= m) by {
        assert forall|y: ArenaItemId| m3.contains_key(y) implies m3[y] == m[y] by {
            if y == p {
                if n == 0 {
                    assert(m[p].first_child_id.is_none());
                }
            }
        }
    }
    assert(s2.remove(n as int) =~= s);
    assert(kids2.insert(p, s2.remove(n as int)) =~= kids);
}

/// Changing the value held by a node leaves its links as they were.
pub proof fn lemma_value_update<T>(
    m: Map<ArenaItemId, Node<T>>,
    kids: Map<ArenaItemId, Seq<ArenaItemId>>,
    x: ArenaItemId,
    v: T,
)
    requires
        links_ok(m, kids),
        m.contains_key(x),
    ensures
        links_ok(m.insert(x, Node { value: v, ..m[x] }), kids),
{
    let m2 = m.insert(x, Node { value: v, ..m[x] });
    assert(m2.dom() =~= m.dom());
    assert forall|y: ArenaItemId| m2.contains_key(y) implies #[trigger] child_list_ok(m2, y, kids[y]) by {
        assert(child_list_ok(m, y, kids[y]));
    }
    assert forall|y: ArenaItemId| m2.contains_key(y) implies #[trigger] parent_ok(m2, kids, y) by {
        assert(parent_ok(m, kids, y));
    }
}

/// Two node maps with consistent links and no id in common have consistent links together.
pub proof fn lemma_links_union<T>(
    m1: Map<ArenaItemId, Node<T>>,
    kids1: Map<ArenaItemId, Seq<ArenaItemId>>,
    m2: Map<ArenaItemId, Node<T>>,
    kids2: Map<ArenaItemId, Seq<ArenaItemId>>,
)
    requires
        links_ok(m1, kids1),
        links_ok(m2, kids2),
        m1.dom().disjoint(m2.dom()),
    ensures
        links_ok(m1.union_prefer_right(m2), kids1.union_prefer_right(kids2)),
{
    let m = m1.union_prefer_right(m2);
    let kids = kids1.union_prefer_right(kids2);
    assert(kids.dom() =~= m.dom());
    assert forall|x: ArenaItemId| m.contains_key(x) implies #[trigger] child_list_ok(m, x, kids[x]) by {
        if m2.contains_key(x) {
            assert(child_list_ok(m2, x, kids2[x]));
            let t = kids2[x];
            assert forall|k: int| #![trigger t[k]] 0 <= k < t.len() implies m[t[k]] == m2[t[k]] by {}
        } else {
            assert(child_list_ok(m1, x, kids1[x]));
            let t = kids1[x];
            assert forall|k: int| #![trigger t[k]] 0 <= k < t.len() implies m[t[k]] == m1[t[k]] && !m2.contains_key(t[k]) by {
                assert(m1.contains_key(t[k]));
            }
        }
    }
    assert forall|x: ArenaItemId| m.contains_key(x) implies #[trigger] parent_ok(m, kids, x) by {
        if m2.contains_key(x) {
            assert(parent_ok(m2, kids2, x));
        } else {
            assert(parent_ok(m1, kids1, x));
            match m1[x].parent_id {
                Some(p) => {
                    assert(m1.contains_key(p));
                    assert(!m2.contains_key(p));
                },
                None => {},
            }
        }
    }
}

/// Linking and unlinking keep the set of nodes and every node's value.
pub proof fn lemma_links_keep_values<T>(
    m: Map<ArenaItemId, Node<T>>,
    kids: Map<ArenaItemId, Seq<ArenaItemId>>,
    p: ArenaItemId,
    c: ArenaItemId,
)
    requires
        links_ok(m, kids),
        m.contains_key(p),
        m.contains_key(c),
    ensures
        c != p && m[c].parent_id.is_none() ==> append_link(m, p, c).dom() == m.dom() && forall|y: ArenaItemId|
            m.contains_key(y) ==> #[trigger] append_link(m, p, c)[y].value == m[y].value,
        c != p && m[c].parent_id.is_none() ==> prepend_link(m, p, c).dom() == m.dom() && forall|y: ArenaItemId|
            m.contains_key(y) ==> #[trigger] prepend_link(m, p, c)[y].value == m[y].value,
        m[c].parent_id == Some(p) ==> detach_link(m, c).dom() == m.dom() && forall|y: ArenaItemId|
            m.contains_key(y) ==> #[trigger] detach_link(m, c)[y].value == m[y].value,
        c != p && m[c].parent_id.is_none() ==> append_link(m, p, c)[c].parent_id == Some(p) && forall|y: ArenaItemId|
            y != c ==> #[trigger] append_link(m, p, c)[y].parent_id == m[y].parent_id,
        c != p && m[c].parent_id.is_none() ==> prepend_link(m, p, c)[c].parent_id == Some(p) && forall|y: ArenaItemId|
            y != c ==> #[trigger] prepend_link(m, p, c)[y].parent_id == m[y].parent_id,
        m[c].parent_id == Some(p) ==> detach_link(m, c)[c].parent_id.is_none() && forall|y: ArenaItemId|
            y != c ==> #[trigger] detach_link(m, c)[y].parent_id == m[y].parent_id,
{
    if c != p && m[c].parent_id.is_none() {
        lemma_append_nodes(m, kids, p, c);
        lemma_prepend_nodes(m, kids, p, c);
    }
    if m[c].parent_id == Some(p) {
        assert(parent_ok(m, kids, c));
        let i = kids[p].index_of(c);
        lemma_detach_nodes(m, kids, c, p, i);
    }
}

/// The ids met by following next-sibling links from `start`, at most `n` of them.
pub open spec fn next_chain<T>(m: Map<ArenaItemId, Node<T>>, start: Option<ArenaItemId>, n: nat) -> Seq<ArenaItemId>
    decreases n,
{
    if n == 0 {
        Seq::empty()
    } else {
        match start {
            Some(x) => seq![x] + next_chain(m, m[x].next_sibling_id, (n - 1) as nat),
            None => Seq::empty(),
        }
    }
}

/// The ids met by following previous-sibling links from `start`, at most `n` of them.
pub open spec fn prev_chain<T>(m: Map<ArenaItemId, Node<T>>, start: Option<ArenaItemId>, n: nat) -> Seq<ArenaItemId>
    decreases n,
{
    if n == 0 {
        Seq::empty()
    } else {
        match start {
            Some(x) => seq![x] + prev_chain(m, m[x].prev_sibling_id, (n - 1) as nat),
            None => Seq::empty(),
        }
    }
}

#[verifier::spinoff_prover]
proof fn lemma_next_chain_from<T>(m: Map<ArenaItemId, Node<T>>, p: ArenaItemId, s: Seq<ArenaItemId>, i: int, extra: nat)
    requires
        child_list_ok(m, p, s),
        0 <= i <= s.len(),
    ensures
        next_chain(m, if i < s.len() { Some(s[i]) } else { None }, (s.len() - i + extra) as nat) == s.subrange(i, s.len() as int),
    decreases s.len() - i,
{
    if i < s.len() {
        lemma_next_chain_from(m, p, s, i + 1, extra);
        assert(m[s[i]].next_sibling_id == (if i + 1 < s.len() { Some(s[i + 1]) } else { None }));
        assert(s.subrange(i, s.len() as int) =~= seq![s[i]] + s.subrange(i + 1, s.len() as int));
    } else {
        assert(s.subrange(i, s.len() as int) =~= Seq::<ArenaItemId>::empty());
        if extra > 0 {
            assert(next_chain(m, None, extra) == Seq::<ArenaItemId>::empty());
        }
    }
}

#[verifier::spinoff_prover]
proof fn lemma_prev_chain_from<T>(m: Map<ArenaItemId, Node<T>>, p: ArenaItemId, s: Seq<ArenaItemId>, j: int, extra: nat)
    requires
        child_list_ok(m, p, s),
        0 <= j <= s.len(),
    ensures
        prev_chain(m, if j > 0 { Some(s[j - 1]) } else { None }, (j + extra) as nat) == s.subrange(0, j).reverse(),
    decreases j,
{
    if j > 0 {
        lemma_prev_chain_from(m, p, s, j - 1, extra);
        assert(m[s[j - 1]].prev_sibling_id == (if j - 1 > 0 { Some(s[j - 2]) } else { None }));
        assert(s.subrange(0, j).reverse() =~= seq![s[j - 1]] + s.subrange(0, j - 1).reverse());
    } else {
        assert(s.subrange(0, 0).reverse() =~= Seq::<ArenaItemId>::empty());
        if extra > 0 {
            assert(prev_chain(m, None, extra) == Seq::<ArenaItemId>::empty());
        }
    }
}

/// For every node: walking its children front to back by next-sibling links gives its
/// child list, and walking them back to front by previous-sibling links gives that list
/// reversed, however many steps are allowed past its end; its first and last child are
/// both absent when it has no children, and otherwise both present, the ends of the list,
/// and equal when it has exactly one.
pub proof fn lemma_child_order<T>(m: Map<ArenaItemId, Node<T>>, kids: Map<ArenaItemId, Seq<ArenaItemId>>, x: ArenaItemId, extra: nat)
    requires
        links_ok(m, kids),
        m.contains_key(x),
    ensures
        next_chain(m, m[x].first_child_id, kids[x].len() + extra) == kids[x],
        prev_chain(m, m[x].last_child_id, kids[x].len() + extra) == kids[x].reverse(),
        kids[x].len() == 0 <==> (m[x].first_child_id.is_none() && m[x].last_child_id.is_none()),
        kids[x].len() > 0 ==> m[x].first_child_id == Some(kids[x][0]) && m[x].last_child_id == Some(
            kids[x][kids[x].len() - 1],
        ),
        kids[x].len() == 1 <==> (m[x].first_child_id.is_some() && m[x].first_child_id == m[x].last_child_id),
{
    let s = kids[x];
    assert(child_list_ok(m, x, s));
    lemma_next_chain_from(m, x, s, 0, extra);
    lemma_prev_chain_from(m, x, s, s.len() as int, extra);
    assert(s.subrange(0, s.len() as int) =~= s);
    if s.len() > 1 {
        assert(s[0] != s[s.len() - 1]);
    }
}

/// `d` ranks the nodes of `m` so that every parent ranks strictly below its children; so
/// no node is its own ancestor.
pub open spec fn ranked<T>(m: Map<ArenaItemId, Node<T>>, d: Map<ArenaItemId, nat>) -> bool {
    &&& d.dom() == m.dom()
    &&& forall|x: ArenaItemId|
        #[trigger] m.contains_key(x) && m[x].parent_id.is_some() ==> m.contains_key(m[x].parent_id.unwrap())
            && d[m[x].parent_id.unwrap()] < d[x]
}

/// `a` is `n` or one of its ancestors in `m`, given ranks `d`.
pub open spec fn is_anc<T>(m: Map<ArenaItemId, Node<T>>, d: Map<ArenaItemId, nat>, n: ArenaItemId, a: ArenaItemId) -> bool
    decreases d[n],
{
    if a == n {
        true
    } else if !m.contains_key(n) {
        false
    } else {
        match m[n].parent_id {
            Some(p) => if d[p] < d[n] {
                is_anc(m, d, p, a)
            } else {
                false
            },
            None => false,
        }
    }
}

/// The ranks after attaching a node under `p`: everything that is not `p` or one of its
/// ancestors moves up by `p`'s rank plus one.
pub open spec fn raise<T>(m: Map<ArenaItemId, Node<T>>, d: Map<ArenaItemId, nat>, p: ArenaItemId) -> Map<ArenaItemId, nat> {
    Map::new(
        |y: ArenaItemId| d.contains_key(y),
        |y: ArenaItemId| if is_anc(m, d, p, y) { d[y] } else { d[y] + d[p] + 1 },
    )
}

proof fn lemma_anc_parent<T>(m: Map<ArenaItemId, Node<T>>, d: Map<ArenaItemId, nat>, n: ArenaItemId, x: ArenaItemId, q: ArenaItemId)
    requires
        ranked(m, d),
        m.contains_key(x),
        m.contains_key(n),
        m[x].parent_id == Some(q),
        is_anc(m, d, n, x),
    ensures
        is_anc(m, d, n, q),
    decreases d[n],
{
    if x == n {
        assert(d[q] < d[n]);
        assert(is_anc(m, d, q, q));
    } else {
        let p = m[n].parent_id.unwrap();
        assert(d[p] < d[n]);
        lemma_anc_parent(m, d, p, x, q);
    }
}

/// The ancestors of a node in a part of the nodes that contains the parent of each of its
/// members lie in that part.
pub proof fn lemma_anc_closed<T>(m: Map<ArenaItemId, Node<T>>, d: Map<ArenaItemId, nat>, part: Set<ArenaItemId>, n: ArenaItemId, a: ArenaItemId)
    requires
        ranked(m, d),
        part.contains(n),
        forall|x: ArenaItemId| #[trigger] part.contains(x) && m.contains_key(x) && m[x].parent_id.is_some() ==> part.contains(m[x].parent_id.unwrap()),
        is_anc(m, d, n, a),
    ensures
        part.contains(a),
    decreases d[n],
{
    if a != n {
        let p = m[n].parent_id.unwrap();
        assert(d[p] < d[n]);
        lemma_anc_closed(m, d, part, p, a);
    }
}

/// Giving the parentless node `c` the parent `p`, where `c` is not `p` or an ancestor of
/// it, keeps the nodes ranked under the raised ranks.
pub proof fn lemma_ranked_attach<T>(
    m: Map<ArenaItemId, Node<T>>,
    m2: Map<ArenaItemId, Node<T>>,
    d: Map<ArenaItemId, nat>,
    p: ArenaItemId,
    c: ArenaItemId,
)
    requires
        ranked(m, d),
        m.contains_key(p),
        m.contains_key(c),
        m2.dom() == m.dom(),
        !is_anc(m, d, p, c),
        m2[c].parent_id == Some(p),
        forall|y: ArenaItemId| y != c ==> #[trigger] m2[y].parent_id == m[y].parent_id,
    ensures
        ranked(m2, raise(m, d, p)),
{
    let d2 = raise(m, d, p);
    assert(d2.dom() =~= m2.dom());
    assert(is_anc(m, d, p, p));
    assert forall|x: ArenaItemId| #[trigger] m2.contains_key(x) && m2[x].parent_id.is_some() implies m2.contains_key(m2[x].parent_id.unwrap()) && d2[m2[x].parent_id.unwrap()] < d2[x] by {
        if x == c {
            assert(d2[p] == d[p]);
            assert(d2[c] == d[c] + d[p] + 1);
        } else {
            let q = m[x].parent_id.unwrap();
            assert(m2[x].parent_id == m[x].parent_id);
            assert(d[q] < d[x]);
            if is_anc(m, d, p, x) {
                lemma_anc_parent(m, d, p, x, q);
            }
            assert(d.contains_key(q));
        }
    }
}

/// Taking parents away keeps the nodes ranked under the same ranks.
pub proof fn lemma_ranked_release<T>(m: Map<ArenaItemId, Node<T>>, m2: Map<ArenaItemId, Node<T>>, d: Map<ArenaItemId, nat>)
    requires
        ranked(m, d),
        m2.dom() == m.dom(),
        forall|y: ArenaItemId| #[trigger] m2[y].parent_id.is_none() || m2[y].parent_id == m[y].parent_id,
    ensures
        ranked(m2, d),
{
    assert forall|x: ArenaItemId| #[trigger] m2.contains_key(x) && m2[x].parent_id.is_some() implies m2.contains_key(m2[x].parent_id.unwrap()) && d[m2[x].parent_id.unwrap()] < d[x] by {
        assert(m2[x].parent_id == m[x].parent_id);
        assert(m.contains_key(x) && m[x].parent_id.is_some());
    }
}

/// Ranked node maps with no id in common are ranked together.
pub proof fn lemma_ranked_union<T>(
    m1: Map<ArenaItemId, Node<T>>,
    d1: Map<ArenaItemId, nat>,
    m2: Map<ArenaItemId, Node<T>>,
    d2: Map<ArenaItemId, nat>,
)
    requires
        ranked(m1, d1),
        ranked(m2, d2),
        m1.dom().disjoint(m2.dom()),
    ensures
        ranked(m1.union_prefer_right(m2), d1.union_prefer_right(d2)),
{
    let m = m1.union_prefer_right(m2);
    let d = d1.union_prefer_right(d2);
    assert(d.dom() =~= m.dom());
    assert forall|x: ArenaItemId| #[trigger] m.contains_key(x) && m[x].parent_id.is_some() implies m.contains_key(m[x].parent_id.unwrap())
        && d[m[x].parent_id.unwrap()] < d[x] by {
        if m2.contains_key(x) {
            assert(m2.contains_key(x) && m2[x].parent_id.is_some());
        } else {
            assert(m1.contains_key(x) && m1[x].parent_id.is_some());
            assert(!m2.contains_key(m1[x].parent_id.unwrap()));
        }
    }
}
} // verus!
