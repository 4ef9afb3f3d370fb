use vstd::prelude::*;

verus! {

/// The links of one node of a tree stored as first child, next sibling and
/// parent.
pub struct Links<K> {
    pub child: Option<K>,
    pub sibling: Option<K>,
    pub parent: Option<K>,
}

impl<K> Links<K> {
    pub open spec fn with_child(self, v: Option<K>) -> Links<K> {
        Links { child: v, sibling: self.sibling, parent: self.parent }
    }

    pub open spec fn with_sibling(self, v: Option<K>) -> Links<K> {
        Links { child: self.child, sibling: v, parent: self.parent }
    }

    pub open spec fn with_parent(self, v: Option<K>) -> Links<K> {
        Links { child: self.child, sibling: self.sibling, parent: v }
    }
}

/// `s` lists the children of `x` in sibling order.
pub open spec fn chain_ok<K>(m: Map<K, Links<K>>, x: K, s: Seq<K>, d: spec_fn(K) -> nat) -> bool {
    &&& s.no_duplicates()
    &&& m[x].child == (if s.len() == 0 {
        None
    } else {
        Some(s[0])
    })
    &&& forall|i: int|
        #![trigger s[i]]
        0 <= i < s.len() ==> {
            &&& m.dom().contains(s[i])
            &&& m[s[i]].parent == Some(x)
            &&& d(s[i]) == d(x) + 1
            &&& m[s[i]].sibling == (if i + 1 < s.len() {
                Some(s[i + 1])
            } else {
                None
            })
        }
}

/// `c` gives the children of each node and `d` its depth, in a way that
/// makes `m` a tree rooted at `root`.
pub open spec fn witness_ok<K>(
    m: Map<K, Links<K>>,
    root: K,
    c: spec_fn(K) -> Seq<K>,
    d: spec_fn(K) -> nat,
) -> bool {
    &&& m.dom().finite()
    &&& m.dom().contains(root)
    &&& m[root].parent is None
    &&& m[root].sibling is None
    &&& d(root) == 0
    &&& forall|x: K| m.dom().contains(x) ==> #[trigger] chain_ok(m, x, c(x), d)
    &&& forall|y: K|
        #[trigger] m.dom().contains(y) && y != root ==> (m[y].parent matches Some(p) && m.dom().contains(p)
            && c(p).contains(y))
}

/// Every node but the root has a parent that lists it once among its
/// children, and following parents always ends at the root.
pub open spec fn tree_wf<K>(m: Map<K, Links<K>>, root: K) -> bool {
    exists|c: spec_fn(K) -> Seq<K>, d: spec_fn(K) -> nat| witness_ok(m, root, c, d)
}

/// The node `n` parent steps above `y`, if there is one.
pub open spec fn ancestor_at<K>(m: Map<K, Links<K>>, y: K, n: nat) -> Option<K>
    decreases n,
{
    if n == 0 {
        Some(y)
    } else if m.dom().contains(y) && m[y].parent is Some {
        ancestor_at(m, m[y].parent->0, (n - 1) as nat)
    } else {
        None
    }
}

/// `y` lies below `a`.
#[verifier::opaque]
pub open spec fn is_desc<K>(m: Map<K, Links<K>>, a: K, y: K) -> bool {
    exists|n: nat| n >= 1 && #[trigger] ancestor_at(m, y, n) == Some(a)
}

/// The nodes below `a`.
pub open spec fn desc_set<K>(m: Map<K, Links<K>>, a: K) -> Set<K> {
    Set::new(|y: K| m.dom().contains(y) && is_desc(m, a, y))
}

/// Makes `node` the first child of `parent`.
pub open spec fn link<K>(m: Map<K, Links<K>>, node: K, parent: K) -> Map<K, Links<K>> {
    let old_child = m[parent].child;
    let m1 = m.insert(parent, m[parent].with_child(Some(node)));
    m1.insert(node, m1[node].with_sibling(old_child).with_parent(Some(parent)))
}

/// Takes `node` out of the list of children of its parent; the links of
/// `node` itself are left as they were.
pub open spec fn unlink<K>(m: Map<K, Links<K>>, node: K) -> Map<K, Links<K>> {
    let p = m[node].parent->0;
    let s = m[node].sibling;
    if m[p].child == Some(node) {
        m.insert(p, m[p].with_child(s))
    } else {
        Map::new(
            |q: K| m.dom().contains(q),
            |q: K|
                if m[q].sibling == Some(node) {
                    m[q].with_sibling(s)
                } else {
                    m[q]
                },
        )
    }
}


/// Every node's children are listed by `c` with depths from `d`.
pub open spec fn chains_ok<K>(m: Map<K, Links<K>>, c: spec_fn(K) -> Seq<K>, d: spec_fn(K) -> nat) -> bool {
    forall|x: K| m.dom().contains(x) ==> #[trigger] chain_ok(m, x, c(x), d)
}

/// `node` is listed as nobody's child.
pub open spec fn orphan<K>(m: Map<K, Links<K>>, c: spec_fn(K) -> Seq<K>, node: K) -> bool {
    forall|x: K| #[trigger] m.dom().contains(x) ==> !c(x).contains(node)
}

/// A node lies `n` levels below its ancestor at distance `n`.
pub proof fn lemma_depth<K>(
    m: Map<K, Links<K>>,
    root: K,
    c: spec_fn(K) -> Seq<K>,
    d: spec_fn(K) -> nat,
    y: K,
    a: K,
    n: nat,
)
    requires
        witness_ok(m, root, c, d),
        m.dom().contains(y),
        ancestor_at(m, y, n) == Some(a),
    ensures
        m.dom().contains(a),
        d(y) == d(a) + n,
    decreases n,
{
    if n > 0 {
        let p = m[y].parent->0;
        assert(y != root);
        assert(c(p).contains(y));
        let i = c(p).index_of(y);
        assert(chain_ok(m, p, c(p), d));
        assert(c(p)[i] == y);
        lemma_depth(m, root, c, d, p, a, (n - 1) as nat);
    }
}

/// A node is not below itself, and the root is below no node.
pub proof fn lemma_desc_facts<K>(
    m: Map<K, Links<K>>,
    root: K,
    c: spec_fn(K) -> Seq<K>,
    d: spec_fn(K) -> nat,
    a: K,
    y: K,
)
    requires
        witness_ok(m, root, c, d),
        m.dom().contains(y),
        is_desc(m, a, y),
    ensures
        m.dom().contains(a),
        d(y) > d(a),
        y != root,
        y != a,
{
    reveal(is_desc);
    let n = choose|n: nat| n >= 1 && #[trigger] ancestor_at(m, y, n) == Some(a);
    lemma_depth(m, root, c, d, y, a, n);
}

/// A child of `x`, or of a node below `x`, is below `x`.
pub proof fn lemma_child_is_desc<K>(m: Map<K, Links<K>>, x: K, z: K, y: K)
    requires
        m.dom().contains(y),
        m[y].parent == Some(z),
        z == x || is_desc(m, x, z),
    ensures
        is_desc(m, x, y),
{
    reveal(is_desc);
    if z == x {
        assert(ancestor_at(m, z, 0) == Some(x));
        assert(ancestor_at(m, y, 1) == Some(x));
    } else {
        let n = choose|n: nat| n >= 1 && #[trigger] ancestor_at(m, z, n) == Some(x);
        assert(ancestor_at(m, y, n + 1) == ancestor_at(m, z, n));
    }
}

/// The parent of a node below `x` is `x` or below `x`.
pub proof fn lemma_desc_parent<K>(m: Map<K, Links<K>>, x: K, y: K)
    requires
        is_desc(m, x, y),
    ensures
        m.dom().contains(y),
        m[y].parent is Some,
        m[y].parent->0 == x || is_desc(m, x, m[y].parent->0),
{
    reveal(is_desc);
    let n = choose|n: nat| n >= 1 && #[trigger] ancestor_at(m, y, n) == Some(x);
    let p = m[y].parent->0;
    if n > 1 {
        assert(ancestor_at(m, p, (n - 1) as nat) == Some(x));
    } else {
        assert(ancestor_at(m, p, 0) == Some(p));
    }
}

/// The children lists after `node` is taken out of its parent's list.
pub open spec fn children_without<K>(
    m: Map<K, Links<K>>,
    c: spec_fn(K) -> Seq<K>,
    node: K,
) -> spec_fn(K) -> Seq<K> {
    let p = m[node].parent->0;
    |x: K|
        if x == p {
            c(p).remove(c(p).index_of(node))
        } else {
            c(x)
        }
}


/// The one node whose next sibling is `node` is the node before it in its
/// parent's list of children.
pub proof fn lemma_sibling_pred<K>(
    m: Map<K, Links<K>>,
    root: K,
    c: spec_fn(K) -> Seq<K>,
    d: spec_fn(K) -> nat,
    node: K,
    q: K,
)
    requires
        witness_ok(m, root, c, d),
        m.dom().contains(node),
        node != root,
        m.dom().contains(q),
        m[q].sibling == Some(node),
    ensures
        c(m[node].parent->0).index_of(node) > 0,
        q == c(m[node].parent->0)[c(m[node].parent->0).index_of(node) - 1],
{
    let p = m[node].parent->0;
    assert(c(p).contains(node));
    let cp = c(p);
    let i = cp.index_of(node);
    assert(chain_ok(m, p, cp, d));
    assert(cp[i] == node);
    assert(q != root);
    let pq = m[q].parent->0;
    assert(c(pq).contains(q));
    let j = c(pq).index_of(q);
    assert(chain_ok(m, pq, c(pq), d));
    assert(c(pq)[j] == q);
    assert(c(pq)[j + 1] == node);
    assert(pq == p);
}

/// The unlinked node keeps its own links, and so does the root.
pub proof fn lemma_unlink_fixed<K>(
    m: Map<K, Links<K>>,
    root: K,
    c: spec_fn(K) -> Seq<K>,
    d: spec_fn(K) -> nat,
    node: K,
)
    requires
        witness_ok(m, root, c, d),
        m.dom().contains(node),
        node != root,
    ensures
        unlink(m, node).dom() == m.dom(),
        unlink(m, node)[node] == m[node],
        unlink(m, node)[root].sibling == m[root].sibling,
        forall|y: K| #[trigger] m.dom().contains(y) ==> unlink(m, node)[y].parent == m[y].parent,
{
    let m1 = unlink(m, node);
    let p = m[node].parent->0;
    assert(c(p).contains(node));
    let cp = c(p);
    let i = cp.index_of(node);
    assert(chain_ok(m, p, cp, d));
    assert(cp[i] == node);
    assert(m1.dom() =~= m.dom());
    assert(d(node) == d(p) + 1);
    if m[node].sibling == Some(node) {
        lemma_sibling_pred(m, root, c, d, node, node);
    }
    if m[root].sibling == Some(node) {
        lemma_sibling_pred(m, root, c, d, node, root);
    }
}

/// The list of children of `p` with the entry at `i` taken out.
proof fn lemma_remove_index<K>(cp: Seq<K>, i: int)
    requires
        0 <= i < cp.len(),
        cp.no_duplicates(),
    ensures
        cp.remove(i).len() == cp.len() - 1,
        forall|k: int| 0 <= k < cp.remove(i).len() ==> #[trigger] cp.remove(i)[k] == (if k < i {
            cp[k]
        } else {
            cp[k + 1]
        }),
        !cp.remove(i).contains(cp[i]),
        forall|y: K| #[trigger] cp.contains(y) && y != cp[i] ==> cp.remove(i).contains(y),
        cp.remove(i).no_duplicates(),
{
    let cp1 = cp.remove(i);
    assert forall|k: int| 0 <= k < cp1.len() implies #[trigger] cp1[k] == (if k < i {
        cp[k]
    } else {
        cp[k + 1]
    }) by {}
    if cp1.contains(cp[i]) {
        let k = cp1.index_of(cp[i]);
        assert(cp1[k] == cp[i]);
        if k < i {
            assert(cp[k] == cp[i]);
        } else {
            assert(cp[k + 1] == cp[i]);
        }
    }
    assert forall|y: K| #[trigger] cp.contains(y) && y != cp[i] implies cp1.contains(y) by {
        let k = cp.index_of(y);
        assert(cp[k] == y);
        if k < i {
            assert(cp1[k] == y);
        } else {
            assert(cp1[k - 1] == y);
        }
    }
    assert forall|a: int, b: int| 0 <= a < cp1.len() && 0 <= b < cp1.len() && a != b implies cp1[a] != cp1[b] by {
        let aa = if a < i { a } else { a + 1 };
        let bb = if b < i { b } else { b + 1 };
        assert(cp1[a] == cp[aa] && cp1[b] == cp[bb]);
    }
}

/// Unlinking the first child of `p`: the rest of the list matches.
proof fn lemma_unlink_first<K>(
    m: Map<K, Links<K>>,
    root: K,
    c: spec_fn(K) -> Seq<K>,
    d: spec_fn(K) -> nat,
    node: K,
)
    requires
        witness_ok(m, root, c, d),
        m.dom().contains(node),
        node != root,
        m[m[node].parent->0].child == Some(node),
    ensures
        chain_ok(unlink(m, node), m[node].parent->0, children_without(m, c, node)(m[node].parent->0), d),
{
    let m1 = unlink(m, node);
    let p = m[node].parent->0;
    assert(c(p).contains(node));
    let cp = c(p);
    let i = cp.index_of(node);
    assert(chain_ok(m, p, cp, d));
    assert(cp[i] == node);
    lemma_remove_index(cp, i);
    let cp1 = cp.remove(i);
    assert(i == 0) by {
        assert(cp[0] == node);
    }
    assert forall|k: int| 0 <= k < cp1.len() implies {
        &&& m1.dom().contains(#[trigger] cp1[k])
        &&& m1[cp1[k]].parent == Some(p)
        &&& d(cp1[k]) == d(p) + 1
        &&& m1[cp1[k]].sibling == (if k + 1 < cp1.len() {
            Some(cp1[k + 1])
        } else {
            None
        })
    } by {
        assert(cp[k + 1] != p) by {
            assert(d(cp[k + 1]) == d(p) + 1);
        }
    }
    assert(d(node) == d(p) + 1);
}

/// Unlinking a later child of `p`: its predecessor now points past it.
#[verifier::rlimit(30)]
proof fn lemma_unlink_later<K>(
    m: Map<K, Links<K>>,
    root: K,
    c: spec_fn(K) -> Seq<K>,
    d: spec_fn(K) -> nat,
    node: K,
)
    requires
        witness_ok(m, root, c, d),
        m.dom().contains(node),
        node != root,
        m[m[node].parent->0].child != Some(node),
    ensures
        chain_ok(unlink(m, node), m[node].parent->0, children_without(m, c, node)(m[node].parent->0), d),
{
    let m1 = unlink(m, node);
    let p = m[node].parent->0;
    let sn = m[node].sibling;
    assert(c(p).contains(node));
    let cp = c(p);
    let i = cp.index_of(node);
    assert(chain_ok(m, p, cp, d));
    assert(cp[i] == node);
    lemma_remove_index(cp, i);
    let cp1 = cp.remove(i);
    assert(i > 0) by {
        if i == 0 {
            assert(cp[0] == node);
        }
    }
    assert forall|k: int| 0 <= k < cp1.len() implies {
        &&& m1.dom().contains(#[trigger] cp1[k])
        &&& m1[cp1[k]].parent == Some(p)
        &&& d(cp1[k]) == d(p) + 1
        &&& m1[cp1[k]].sibling == (if k + 1 < cp1.len() {
            Some(cp1[k + 1])
        } else {
            None
        })
    } by {
        if k < i - 1 {
            assert(m[cp[k]].sibling == Some(cp[k + 1]));
            assert(cp[k + 1] != node);
        } else if k == i - 1 {
            assert(m[cp[k]].sibling == Some(node));
            if k + 1 < cp1.len() {
                assert(sn == Some(cp[i + 1]));
            }
        } else {
            if m[cp[k + 1]].sibling == Some(node) {
                lemma_sibling_pred(m, root, c, d, node, cp[k + 1]);
            }
        }
    }
    assert(cp1.len() > 0 && cp1[0] == cp[0]);
}

/// After `unlink`, the parent's list of children no longer holds `node` and
/// matches the links.
pub proof fn lemma_unlink_parent_chain<K>(
    m: Map<K, Links<K>>,
    root: K,
    c: spec_fn(K) -> Seq<K>,
    d: spec_fn(K) -> nat,
    node: K,
)
    requires
        witness_ok(m, root, c, d),
        m.dom().contains(node),
        node != root,
    ensures
        chain_ok(unlink(m, node), m[node].parent->0, children_without(m, c, node)(m[node].parent->0), d),
        !children_without(m, c, node)(m[node].parent->0).contains(node),
        forall|y: K| #[trigger] c(m[node].parent->0).contains(y) && y != node ==> children_without(m, c, node)(m[node].parent->0).contains(y),
{
    let p = m[node].parent->0;
    assert(c(p).contains(node));
    let cp = c(p);
    let i = cp.index_of(node);
    assert(chain_ok(m, p, cp, d));
    assert(cp[i] == node);
    lemma_remove_index(cp, i);
    if m[p].child == Some(node) {
        lemma_unlink_first(m, root, c, d, node);
    } else {
        lemma_unlink_later(m, root, c, d, node);
    }
}

/// After `unlink`, the lists of children of the other nodes still match the
/// links.
pub proof fn lemma_unlink_other_chain<K>(
    m: Map<K, Links<K>>,
    root: K,
    c: spec_fn(K) -> Seq<K>,
    d: spec_fn(K) -> nat,
    node: K,
    x: K,
)
    requires
        witness_ok(m, root, c, d),
        m.dom().contains(node),
        node != root,
        m.dom().contains(x),
        x != m[node].parent->0,
    ensures
        chain_ok(unlink(m, node), x, c(x), d),
        !c(x).contains(node),
{
    let m1 = unlink(m, node);
    let p = m[node].parent->0;
    assert(chain_ok(m, x, c(x), d));
    let s = c(x);
    assert forall|k: int| 0 <= k < s.len() implies {
        &&& m1.dom().contains(#[trigger] s[k])
        &&& m1[s[k]].parent == Some(x)
        &&& d(s[k]) == d(x) + 1
        &&& m1[s[k]].sibling == (if k + 1 < s.len() {
            Some(s[k + 1])
        } else {
            None
        })
    } by {
        if m[s[k]].sibling == Some(node) {
            lemma_sibling_pred(m, root, c, d, node, s[k]);
            let cp = c(p);
            let i = cp.index_of(node);
            assert(chain_ok(m, p, cp, d));
            assert(cp[i - 1] == s[k]);
        }
    }
    if s.contains(node) {
        let k = s.index_of(node);
        assert(s[k] == node);
    }
}

/// After `unlink`, the lists without `node` match the links, and every
/// node but the root and `node` is still listed by its parent.
pub proof fn lemma_unlink_chains<K>(
    m: Map<K, Links<K>>,
    root: K,
    c: spec_fn(K) -> Seq<K>,
    d: spec_fn(K) -> nat,
    node: K,
)
    requires
        witness_ok(m, root, c, d),
        m.dom().contains(node),
        node != root,
    ensures
        chains_ok(unlink(m, node), children_without(m, c, node), d),
        orphan(unlink(m, node), children_without(m, c, node), node),
        forall|y: K|
            #[trigger] m.dom().contains(y) && y != root && y != node ==> children_without(m, c, node)(
                m[y].parent->0,
            ).contains(y),
{
    let m1 = unlink(m, node);
    let c1 = children_without(m, c, node);
    let p = m[node].parent->0;
    lemma_unlink_fixed(m, root, c, d, node);
    lemma_unlink_parent_chain(m, root, c, d, node);
    assert forall|x: K| m1.dom().contains(x) implies #[trigger] chain_ok(m1, x, c1(x), d) by {
        if x != p {
            lemma_unlink_other_chain(m, root, c, d, node, x);
        }
    }
    assert forall|x: K| #[trigger] m1.dom().contains(x) implies !c1(x).contains(node) by {
        if x != p {
            lemma_unlink_other_chain(m, root, c, d, node, x);
        }
    }
    assert forall|y: K| #[trigger] m.dom().contains(y) && y != root && y != node implies c1(
        m[y].parent->0,
    ).contains(y) by {
        let py = m[y].parent->0;
        assert(c(py).contains(y));
    }
}

/// The children lists after `node` is put first among the children of `q`.
pub open spec fn children_with<K>(c: spec_fn(K) -> Seq<K>, node: K, q: K) -> spec_fn(K) -> Seq<K> {
    |x: K|
        if x == q {
            seq![node] + c(q)
        } else {
            c(x)
        }
}

proof fn lemma_link_chain_q<K>(
    m: Map<K, Links<K>>,
    c: spec_fn(K) -> Seq<K>,
    d: spec_fn(K) -> nat,
    node: K,
    q: K,
)
    requires
        chain_ok(m, q, c(q), d),
        m.dom().contains(node),
        m.dom().contains(q),
        node != q,
        !c(q).contains(node),
        d(node) == d(q) + 1,
    ensures
        chain_ok(link(m, node, q), q, seq![node] + c(q), d),
{
    let m2 = link(m, node, q);
    let s = c(q);
    let s2 = seq![node] + s;
    assert forall|k: int| 0 <= k < s2.len() implies {
        &&& m2.dom().contains(#[trigger] s2[k])
        &&& m2[s2[k]].parent == Some(q)
        &&& d(s2[k]) == d(q) + 1
        &&& m2[s2[k]].sibling == (if k + 1 < s2.len() {
            Some(s2[k + 1])
        } else {
            None
        })
    } by {
        if k > 0 {
            assert(s2[k] == s[k - 1]);
            assert(s[k - 1] != node);
            assert(s[k - 1] != q);
            if k + 1 < s2.len() {
                assert(s2[k + 1] == s[k]);
            }
        } else {
            if s.len() > 0 {
                assert(s2[1] == s[0]);
            }
        }
    }
    assert forall|a: int, b: int| 0 <= a < s2.len() && 0 <= b < s2.len() && a != b implies s2[a] != s2[b] by {
        if a > 0 && b > 0 {
            assert(s2[a] == s[a - 1] && s2[b] == s[b - 1]);
        } else if a == 0 {
            assert(s2[b] == s[b - 1]);
            assert(s.contains(s[b - 1]));
        } else {
            assert(s2[a] == s[a - 1]);
            assert(s.contains(s[a - 1]));
        }
    }
}

proof fn lemma_link_chain_other<K>(
    m: Map<K, Links<K>>,
    c: spec_fn(K) -> Seq<K>,
    d: spec_fn(K) -> nat,
    node: K,
    q: K,
    x: K,
)
    requires
        chain_ok(m, x, c(x), d),
        m.dom().contains(node),
        m.dom().contains(q),
        x != q,
        !c(x).contains(node),
    ensures
        chain_ok(link(m, node, q), x, c(x), d),
{
    let m2 = link(m, node, q);
    let s = c(x);
    assert forall|k: int| 0 <= k < s.len() implies {
        &&& m2.dom().contains(#[trigger] s[k])
        &&& m2[s[k]].parent == Some(x)
        &&& d(s[k]) == d(x) + 1
        &&& m2[s[k]].sibling == (if k + 1 < s.len() {
            Some(s[k + 1])
        } else {
            None
        })
    } by {
        assert(s[k] != node);
    }
}

/// Linking a node that nobody lists as a child under `q` keeps every list
/// of children in line with the links.
pub proof fn lemma_link_chains<K>(
    m: Map<K, Links<K>>,
    c: spec_fn(K) -> Seq<K>,
    d: spec_fn(K) -> nat,
    node: K,
    q: K,
)
    requires
        chains_ok(m, c, d),
        m.dom().contains(node),
        m.dom().contains(q),
        node != q,
        orphan(m, c, node),
        d(node) == d(q) + 1,
    ensures
        link(m, node, q).dom() == m.dom(),
        chains_ok(link(m, node, q), children_with(c, node, q), d),
        link(m, node, q)[node].parent == Some(q),
        forall|y: K| #[trigger] m.dom().contains(y) && y != node ==> link(m, node, q)[y].parent == m[y].parent && link(m, node, q)[y].sibling == m[y].sibling,
{
    let m2 = link(m, node, q);
    let c2 = children_with(c, node, q);
    assert(m2.dom() =~= m.dom());
    assert forall|x: K| m2.dom().contains(x) implies #[trigger] chain_ok(m2, x, c2(x), d) by {
        assert(chain_ok(m, x, c(x), d));
        assert(!c(x).contains(node));
        if x == q {
            lemma_link_chain_q(m, c, d, node, q);
        } else {
            lemma_link_chain_other(m, c, d, node, q, x);
        }
    }
}

/// `y` is `node` or lies below it.
pub open spec fn in_subtree<K>(m: Map<K, Links<K>>, node: K, y: K) -> bool {
    y == node || is_desc(m, node, y)
}

/// Depths after the subtree of `node` is moved to hang below `q`.
pub open spec fn depths_moved<K>(m: Map<K, Links<K>>, d: spec_fn(K) -> nat, node: K, q: K) -> spec_fn(K) -> nat {
    |y: K|
        if in_subtree(m, node, y) {
            (d(y) + d(q) + 1 - d(node)) as nat
        } else {
            d(y)
        }
}

proof fn lemma_depths_moved<K>(
    m: Map<K, Links<K>>,
    root: K,
    c: spec_fn(K) -> Seq<K>,
    d: spec_fn(K) -> nat,
    node: K,
    q: K,
)
    requires
        witness_ok(m, root, c, d),
        m.dom().contains(node),
        node != root,
        m.dom().contains(q),
        !in_subtree(m, node, q),
    ensures
        chains_ok(unlink(m, node), children_without(m, c, node), depths_moved(m, d, node, q)),
        depths_moved(m, d, node, q)(node) == depths_moved(m, d, node, q)(q) + 1,
        depths_moved(m, d, node, q)(root) == 0,
{
    let m1 = unlink(m, node);
    let c1 = children_without(m, c, node);
    let d2 = depths_moved(m, d, node, q);
    lemma_unlink_fixed(m, root, c, d, node);
    lemma_unlink_chains(m, root, c, d, node);
    assert forall|x: K| m1.dom().contains(x) implies #[trigger] chain_ok(m1, x, c1(x), d2) by {
        assert(chain_ok(m1, x, c1(x), d));
        let s = c1(x);
        assert(!s.contains(node));
        if in_subtree(m, node, x) && x != node {
            lemma_desc_facts(m, root, c, d, node, x);
        }
        assert forall|k: int| 0 <= k < s.len() implies d2(#[trigger] s[k]) == d2(x) + 1 by {
            let z = s[k];
            assert(m1[z].parent == Some(x));
            assert(m[z].parent == Some(x));
            assert(z != node) by {
                assert(s.contains(z));
            }
            if in_subtree(m, node, x) {
                lemma_child_is_desc(m, node, x, z);
            } else {
                if is_desc(m, node, z) {
                    lemma_desc_parent(m, node, z);
                }
            }
        }
    }
    assert(!in_subtree(m, node, root)) by {
        if is_desc(m, node, root) {
            lemma_desc_facts(m, root, c, d, node, root);
        }
    }
}

/// Moving a node, with everything below it, under a node that is not in
/// that subtree keeps a tree a tree with the same root.
pub proof fn lemma_move_keeps_tree<K>(m: Map<K, Links<K>>, root: K, node: K, q: K)
    requires
        tree_wf(m, root),
        m.dom().contains(node),
        node != root,
        m.dom().contains(q),
        q != node,
        !is_desc(m, node, q),
    ensures
        tree_wf(link(unlink(m, node), node, q), root),
        link(unlink(m, node), node, q).dom() == m.dom(),
{
    let (c, d) = choose|c: spec_fn(K) -> Seq<K>, d: spec_fn(K) -> nat| witness_ok(m, root, c, d);
    let m1 = unlink(m, node);
    let c1 = children_without(m, c, node);
    let d2 = depths_moved(m, d, node, q);
    lemma_unlink_fixed(m, root, c, d, node);
    lemma_unlink_chains(m, root, c, d, node);
    lemma_depths_moved(m, root, c, d, node, q);
    lemma_link_chains(m1, c1, d2, node, q);
    let m2 = link(m1, node, q);
    let c2 = children_with(c1, node, q);
    assert forall|y: K| #[trigger] m2.dom().contains(y) && y != root implies (m2[y].parent matches Some(p) && m2.dom().contains(p)
        && c2(p).contains(y)) by {
        if y == node {
            assert(c2(q)[0] == node);
        } else {
            let py = m[y].parent->0;
            assert(c1(py).contains(y));
            if py == q {
                let k = c1(q).index_of(y);
                assert(c1(q)[k] == y);
                assert(c2(q)[k + 1] == y);
            }
        }
    }
    assert(witness_ok(m2, root, c2, d2));
}

/// Children lists and depths of `m` and of a disjoint tree `t` put together,
/// with `t` hanging one level below `q`.
pub open spec fn children_union<K>(t: Map<K, Links<K>>, c: spec_fn(K) -> Seq<K>, ct: spec_fn(K) -> Seq<K>) -> spec_fn(K) -> Seq<K> {
    |x: K|
        if t.dom().contains(x) {
            ct(x)
        } else {
            c(x)
        }
}

pub open spec fn depths_union<K>(t: Map<K, Links<K>>, d: spec_fn(K) -> nat, dt: spec_fn(K) -> nat, q: K) -> spec_fn(K) -> nat {
    |x: K|
        if t.dom().contains(x) {
            dt(x) + d(q) + 1
        } else {
            d(x)
        }
}

proof fn lemma_union_chains<K>(
    m: Map<K, Links<K>>,
    root: K,
    c: spec_fn(K) -> Seq<K>,
    d: spec_fn(K) -> nat,
    t: Map<K, Links<K>>,
    troot: K,
    ct: spec_fn(K) -> Seq<K>,
    dt: spec_fn(K) -> nat,
    q: K,
)
    requires
        witness_ok(m, root, c, d),
        witness_ok(t, troot, ct, dt),
        m.dom().disjoint(t.dom()),
        m.dom().contains(q),
    ensures
        chains_ok(m.union_prefer_right(t), children_union(t, c, ct), depths_union(t, d, dt, q)),
        orphan(m.union_prefer_right(t), children_union(t, c, ct), troot),
{
    let m0 = m.union_prefer_right(t);
    let c0 = children_union(t, c, ct);
    let d0 = depths_union(t, d, dt, q);
    assert forall|x: K| m0.dom().contains(x) implies #[trigger] chain_ok(m0, x, c0(x), d0) && !c0(x).contains(troot) by {
        if t.dom().contains(x) {
            assert(chain_ok(t, x, ct(x), dt));
            let s = ct(x);
            assert forall|k: int| 0 <= k < s.len() implies {
                &&& m0.dom().contains(#[trigger] s[k])
                &&& m0[s[k]].parent == Some(x)
                &&& d0(s[k]) == d0(x) + 1
                &&& m0[s[k]].sibling == (if k + 1 < s.len() {
                    Some(s[k + 1])
                } else {
                    None
                })
            } by {
                assert(t.dom().contains(s[k]));
            }
            if s.contains(troot) {
                let k = s.index_of(troot);
                assert(s[k] == troot);
            }
        } else {
            assert(chain_ok(m, x, c(x), d));
            let s = c(x);
            assert forall|k: int| 0 <= k < s.len() implies {
                &&& m0.dom().contains(#[trigger] s[k])
                &&& m0[s[k]].parent == Some(x)
                &&& d0(s[k]) == d0(x) + 1
                &&& m0[s[k]].sibling == (if k + 1 < s.len() {
                    Some(s[k + 1])
                } else {
                    None
                })
            } by {
                assert(m.dom().contains(s[k]));
                assert(!t.dom().contains(s[k]));
            }
            if s.contains(troot) {
                let k = s.index_of(troot);
                assert(s[k] == troot);
                assert(m.dom().contains(troot));
            }
        }
    }
    assert forall|x: K| #[trigger] m0.dom().contains(x) implies !c0(x).contains(troot) by {
        assert(chain_ok(m0, x, c0(x), d0) && !c0(x).contains(troot));
    }
}

/// Hanging a tree with fresh keys as the first child of a node of another
/// tree gives a tree.
pub proof fn lemma_graft_keeps_tree<K>(m: Map<K, Links<K>>, root: K, t: Map<K, Links<K>>, troot: K, q: K)
    requires
        tree_wf(m, root),
        tree_wf(t, troot),
        m.dom().disjoint(t.dom()),
        m.dom().contains(q),
    ensures
        tree_wf(link(m.union_prefer_right(t), troot, q), root),
        link(m.union_prefer_right(t), troot, q).dom() == m.dom().union(t.dom()),
{
    let (c, d) = choose|c: spec_fn(K) -> Seq<K>, d: spec_fn(K) -> nat| witness_ok(m, root, c, d);
    let (ct, dt) = choose|c: spec_fn(K) -> Seq<K>, d: spec_fn(K) -> nat| witness_ok(t, troot, c, d);
    let m0 = m.union_prefer_right(t);
    let c0 = children_union(t, c, ct);
    let d0 = depths_union(t, d, dt, q);
    lemma_union_chains(m, root, c, d, t, troot, ct, dt, q);
    assert(troot != q);
    lemma_link_chains(m0, c0, d0, troot, q);
    let m2 = link(m0, troot, q);
    let c2 = children_with(c0, troot, q);
    assert(m0.dom() =~= m.dom().union(t.dom()));
    assert(!t.dom().contains(root));
    assert forall|y: K| #[trigger] m2.dom().contains(y) && y != root implies (m2[y].parent matches Some(p) && m2.dom().contains(p)
        && c2(p).contains(y)) by {
        if y == troot {
            assert(c2(q)[0] == troot);
        } else {
            let py = m0[y].parent->0;
            assert(c0(py).contains(y));
            if py == q {
                let k = c0(q).index_of(y);
                assert(c0(q)[k] == y);
                assert(c2(q)[k + 1] == y);
            }
        }
    }
    assert(witness_ok(m2, root, c2, d0));
}

/// The tree made of one node.
pub open spec fn single<K>(k: K) -> Map<K, Links<K>> {
    map![k => Links { child: None, sibling: None, parent: None }]
}

/// A single node is a tree.
pub proof fn lemma_single_is_tree<K>(k: K)
    ensures
        tree_wf(single(k), k),
{
    let c = |x: K| Seq::<K>::empty();
    let d = |x: K| 0nat;
    assert(witness_ok(single(k), k, c, d));
}

/// Adding a fresh node as the first child of a node keeps a tree a tree.
pub proof fn lemma_add_leaf_keeps_tree<K>(m: Map<K, Links<K>>, root: K, k: K, q: K)
    requires
        tree_wf(m, root),
        !m.dom().contains(k),
        m.dom().contains(q),
    ensures
        tree_wf(link(m.insert(k, Links { child: None, sibling: None, parent: None }), k, q), root),
{
    lemma_single_is_tree(k);
    assert(m.union_prefer_right(single(k)) =~= m.insert(k, Links { child: None, sibling: None, parent: None }));
    lemma_graft_keeps_tree(m, root, single(k), k, q);
}

proof fn lemma_delete_chain<K>(
    m: Map<K, Links<K>>,
    root: K,
    c: spec_fn(K) -> Seq<K>,
    d: spec_fn(K) -> nat,
    node: K,
    x: K,
)
    requires
        witness_ok(m, root, c, d),
        m.dom().contains(node),
        node != root,
        chain_ok(unlink(m, node), x, children_without(m, c, node)(x), d),
        !children_without(m, c, node)(x).contains(node),
        forall|y: K| #[trigger] m.dom().contains(y) ==> unlink(m, node)[y].parent == m[y].parent,
        m.dom().contains(x),
        !desc_set(m, node).insert(node).contains(x),
    ensures
        chain_ok(unlink(m, node).remove_keys(desc_set(m, node).insert(node)), x, children_without(m, c, node)(x), d),
{
    let m1 = unlink(m, node);
    let c1 = children_without(m, c, node);
    let sub = desc_set(m, node).insert(node);
    let m3 = m1.remove_keys(sub);
    let s = c1(x);
    assert forall|k: int| 0 <= k < s.len() implies {
        &&& m3.dom().contains(#[trigger] s[k])
        &&& m3[s[k]].parent == Some(x)
        &&& d(s[k]) == d(x) + 1
        &&& m3[s[k]].sibling == (if k + 1 < s.len() {
            Some(s[k + 1])
        } else {
            None
        })
    } by {
        let z = s[k];
        assert(s.contains(z));
        assert(z != node);
        assert(m[z].parent == Some(x));
        if is_desc(m, node, z) {
            lemma_desc_parent(m, node, z);
        }
    }
}

proof fn lemma_delete_parents<K>(
    m: Map<K, Links<K>>,
    root: K,
    c: spec_fn(K) -> Seq<K>,
    d: spec_fn(K) -> nat,
    node: K,
    sub: Set<K>,
)
    requires
        witness_ok(m, root, c, d),
        m.dom().contains(node),
        node != root,
        sub == desc_set(m, node).insert(node),
        forall|y: K|
            #[trigger] m.dom().contains(y) && y != root && y != node ==> children_without(m, c, node)(
                m[y].parent->0,
            ).contains(y),
        forall|y: K| #[trigger] m.dom().contains(y) ==> unlink(m, node)[y].parent == m[y].parent,
        unlink(m, node).dom() == m.dom(),
    ensures
        forall|y: K| #[trigger] unlink(m, node).remove_keys(sub).dom().contains(y) && y != root ==> (unlink(m, node).remove_keys(sub)[y].parent matches Some(p)
            && unlink(m, node).remove_keys(sub).dom().contains(p) && children_without(m, c, node)(p).contains(y)),
{
    let m1 = unlink(m, node);
    let c1 = children_without(m, c, node);
    let m3 = m1.remove_keys(sub);
    assert forall|y: K| #[trigger] m3.dom().contains(y) && y != root implies (m3[y].parent matches Some(p) && m3.dom().contains(p)
        && c1(p).contains(y)) by {
        let py = m[y].parent->0;
        assert(y != node);
        assert(c1(py).contains(y));
        if sub.contains(py) {
            lemma_child_is_desc(m, node, py, y);
        }
    }
}

proof fn lemma_delete_chains<K>(
    m: Map<K, Links<K>>,
    root: K,
    c: spec_fn(K) -> Seq<K>,
    d: spec_fn(K) -> nat,
    node: K,
    sub: Set<K>,
)
    requires
        witness_ok(m, root, c, d),
        m.dom().contains(node),
        node != root,
        sub == desc_set(m, node).insert(node),
        chains_ok(unlink(m, node), children_without(m, c, node), d),
        orphan(unlink(m, node), children_without(m, c, node), node),
        forall|y: K| #[trigger] m.dom().contains(y) ==> unlink(m, node)[y].parent == m[y].parent,
        unlink(m, node).dom() == m.dom(),
    ensures
        chains_ok(unlink(m, node).remove_keys(sub), children_without(m, c, node), d),
{
    let m1 = unlink(m, node);
    let c1 = children_without(m, c, node);
    let m3 = m1.remove_keys(sub);
    assert forall|x: K| m3.dom().contains(x) implies #[trigger] chain_ok(m3, x, c1(x), d) by {
        assert(m1.dom().contains(x));
        assert(chain_ok(m1, x, c1(x), d));
        lemma_delete_chain(m, root, c, d, node, x);
    }
}

/// Unlinking a node and dropping it with everything below it keeps a tree
/// a tree.
#[verifier::rlimit(100)]
pub proof fn lemma_delete_keeps_tree<K>(m: Map<K, Links<K>>, root: K, node: K)
    requires
        tree_wf(m, root),
        m.dom().contains(node),
        node != root,
    ensures
        tree_wf(unlink(m, node).remove_keys(desc_set(m, node).insert(node)), root),
{
    let (c, d) = choose|c: spec_fn(K) -> Seq<K>, d: spec_fn(K) -> nat| witness_ok(m, root, c, d);
    let m1 = unlink(m, node);
    let c1 = children_without(m, c, node);
    let sub = desc_set(m, node).insert(node);
    let m3 = m1.remove_keys(sub);
    lemma_unlink_fixed(m, root, c, d, node);
    lemma_unlink_chains(m, root, c, d, node);
    lemma_delete_chains(m, root, c, d, node, sub);
    assert(!sub.contains(root)) by {
        if is_desc(m, node, root) {
            lemma_desc_facts(m, root, c, d, node, root);
        }
    }
    lemma_delete_parents(m, root, c, d, node, sub);
    assert(m1.dom().finite());
    assert(m3.dom() =~= m1.dom().difference(sub));
    assert(m3.dom().finite());
    assert(m3.dom().contains(root));
    assert(witness_ok(m3, root, c1, d));
}

/// The list of children of a node is fixed by the links.
pub proof fn lemma_chain_unique<K>(
    m: Map<K, Links<K>>,
    x: K,
    s1: Seq<K>,
    d1: spec_fn(K) -> nat,
    s2: Seq<K>,
    d2: spec_fn(K) -> nat,
)
    requires
        chain_ok(m, x, s1, d1),
        chain_ok(m, x, s2, d2),
    ensures
        s1 == s2,
{
    let n = if s1.len() < s2.len() { s1.len() } else { s2.len() };
    assert forall|k: int| 0 <= k < n implies s1[k] == s2[k] by {
        lemma_chain_prefix(m, x, s1, d1, s2, d2, k);
    }
    if s1.len() < s2.len() {
        if s1.len() == 0 {
            assert(m[x].child == Some(s2[0]));
        } else {
            let l = s1.len() - 1;
            assert(s1[l] == s2[l]);
            assert(m[s1[l]].sibling is None);
            assert(m[s2[l]].sibling == Some(s2[l + 1]));
        }
    } else if s2.len() < s1.len() {
        if s2.len() == 0 {
            assert(m[x].child == Some(s1[0]));
        } else {
            let l = s2.len() - 1;
            assert(s1[l] == s2[l]);
            assert(m[s2[l]].sibling is None);
            assert(m[s1[l]].sibling == Some(s1[l + 1]));
        }
    }
    assert(s1 =~= s2);
}

proof fn lemma_chain_prefix<K>(
    m: Map<K, Links<K>>,
    x: K,
    s1: Seq<K>,
    d1: spec_fn(K) -> nat,
    s2: Seq<K>,
    d2: spec_fn(K) -> nat,
    k: int,
)
    requires
        chain_ok(m, x, s1, d1),
        chain_ok(m, x, s2, d2),
        0 <= k < s1.len(),
        k < s2.len(),
    ensures
        s1[k] == s2[k],
    decreases k,
{
    if k > 0 {
        lemma_chain_prefix(m, x, s1, d1, s2, d2, k - 1);
        assert(m[s1[k - 1]].sibling == Some(s1[k]));
        assert(m[s2[k - 1]].sibling == Some(s2[k]));
    }
}

/// The children of `x` in sibling order.
pub open spec fn children_of<K>(m: Map<K, Links<K>>, root: K, x: K) -> Seq<K> {
    let (c, d) = choose|c: spec_fn(K) -> Seq<K>, d: spec_fn(K) -> nat| witness_ok(m, root, c, d);
    c(x)
}

/// Any witness of a tree lists the same children.
pub proof fn lemma_children_of<K>(
    m: Map<K, Links<K>>,
    root: K,
    c: spec_fn(K) -> Seq<K>,
    d: spec_fn(K) -> nat,
)
    requires
        witness_ok(m, root, c, d),
    ensures
        forall|x: K| #[trigger] m.dom().contains(x) ==> children_of(m, root, x) == c(x),
{
    let (c0, d0) = choose|c: spec_fn(K) -> Seq<K>, d: spec_fn(K) -> nat| witness_ok(m, root, c, d);
    assert forall|x: K| #[trigger] m.dom().contains(x) implies children_of(m, root, x) == c(x) by {
        assert(chain_ok(m, x, c(x), d));
        assert(chain_ok(m, x, c0(x), d0));
        lemma_chain_unique(m, x, c(x), d, c0(x), d0);
    }
}

/// A set that holds `x` and, with every node it holds, the children of that
/// node, holds everything below `x`.
pub proof fn lemma_closed_contains_desc<K>(
    m: Map<K, Links<K>>,
    root: K,
    c: spec_fn(K) -> Seq<K>,
    d: spec_fn(K) -> nat,
    x: K,
    s: Set<K>,
    y: K,
)
    requires
        witness_ok(m, root, c, d),
        s.contains(x),
        forall|z: K, w: K| #[trigger] s.contains(z) && #[trigger] c(z).contains(w) ==> s.contains(w),
        is_desc(m, x, y),
    ensures
        s.contains(y),
{
    reveal(is_desc);
    let n = choose|n: nat| n >= 1 && #[trigger] ancestor_at(m, y, n) == Some(x);
    lemma_closed_n(m, root, c, d, x, s, y, n);
}

proof fn lemma_closed_n<K>(
    m: Map<K, Links<K>>,
    root: K,
    c: spec_fn(K) -> Seq<K>,
    d: spec_fn(K) -> nat,
    x: K,
    s: Set<K>,
    y: K,
    n: nat,
)
    requires
        witness_ok(m, root, c, d),
        s.contains(x),
        forall|z: K, w: K| #[trigger] s.contains(z) && #[trigger] c(z).contains(w) ==> s.contains(w),
        n >= 1,
        ancestor_at(m, y, n) == Some(x),
    ensures
        s.contains(y),
    decreases n,
{
    let p = m[y].parent->0;
    assert(m.dom().contains(y));
    if y == root {
        assert(m[root].parent is None);
    }
    assert(c(p).contains(y));
    if n == 1 {
        assert(ancestor_at(m, p, 0) == Some(p));
    } else {
        lemma_closed_n(m, root, c, d, x, s, p, (n - 1) as nat);
    }
}

/// The nodes below a node are finitely many.
pub proof fn lemma_desc_finite<K>(m: Map<K, Links<K>>, x: K)
    requires
        m.dom().finite(),
    ensures
        desc_set(m, x).finite(),
        desc_set(m, x).subset_of(m.dom()),
{
    vstd::set_lib::lemma_set_subset_finite(m.dom(), desc_set(m, x));
}

/// Every node but the root lies below the root.
pub proof fn lemma_all_below_root<K>(
    m: Map<K, Links<K>>,
    root: K,
    c: spec_fn(K) -> Seq<K>,
    d: spec_fn(K) -> nat,
    y: K,
)
    requires
        witness_ok(m, root, c, d),
        m.dom().contains(y),
        y != root,
    ensures
        is_desc(m, root, y),
    decreases d(y),
{
    let p = m[y].parent->0;
    assert(c(p).contains(y));
    let k = c(p).index_of(y);
    assert(chain_ok(m, p, c(p), d));
    assert(c(p)[k] == y);
    if p != root {
        lemma_all_below_root(m, root, c, d, p);
    }
    lemma_child_is_desc(m, root, p, y);
}

/// An optional key carried over by `f`.
pub open spec fn rename_opt<K, J>(o: Option<K>, f: spec_fn(K) -> J) -> Option<J> {
    match o {
        Some(k) => Some(f(k)),
        None => None,
    }
}

/// Links carried over by `f`.
pub open spec fn rename_links<K, J>(l: Links<K>, f: spec_fn(K) -> J) -> Links<J> {
    Links { child: rename_opt(l.child, f), sibling: rename_opt(l.sibling, f), parent: rename_opt(l.parent, f) }
}

/// The tree `m` with its keys carried over by `f`, which `g` undoes.
pub open spec fn rename<K, J>(m: Map<K, Links<K>>, f: spec_fn(K) -> J, g: spec_fn(J) -> K) -> Map<J, Links<J>> {
    Map::new(|j: J| m.dom().contains(g(j)) && f(g(j)) == j, |j: J| rename_links(m[g(j)], f))
}

/// Giving the nodes of a tree new keys, one for one, gives a tree.
pub proof fn lemma_rename_keeps_tree<K, J>(m: Map<K, Links<K>>, root: K, f: spec_fn(K) -> J, g: spec_fn(J) -> K)
    requires
        tree_wf(m, root),
        forall|k: K| #[trigger] m.dom().contains(k) ==> g(f(k)) == k,
    ensures
        tree_wf(rename(m, f, g), f(root)),
        rename(m, f, g).dom() == m.dom().map(f),
        forall|k: K| #[trigger] m.dom().contains(k) ==> rename(m, f, g).dom().contains(f(k))
            && rename(m, f, g)[f(k)] == rename_links(m[k], f),
{
    let (c, d) = choose|c: spec_fn(K) -> Seq<K>, d: spec_fn(K) -> nat| witness_ok(m, root, c, d);
    let r = rename(m, f, g);
    let c2 = |j: J| c(g(j)).map_values(f);
    let d2 = |j: J| d(g(j));
    assert forall|k: K| #[trigger] m.dom().contains(k) implies r.dom().contains(f(k)) && r[f(k)] == rename_links(m[k], f) by {}
    assert(r.dom() =~= m.dom().map(f)) by {
        assert forall|j: J| r.dom().contains(j) implies m.dom().map(f).contains(j) by {
            assert(m.dom().contains(g(j)));
        }
        assert forall|j: J| m.dom().map(f).contains(j) implies r.dom().contains(j) by {
            let k = choose|k: K| m.dom().contains(k) && f(k) == j;
            assert(g(f(k)) == k);
        }
    }
    m.dom().lemma_map_finite(f);
    assert forall|j: J| r.dom().contains(j) implies #[trigger] chain_ok(r, j, c2(j), d2) by {
        let x = g(j);
        assert(chain_ok(m, x, c(x), d));
        let s = c(x);
        let s2 = c2(j);
        assert forall|i: int| 0 <= i < s.len() implies m.dom().contains(#[trigger] s[i]) by {}
        assert(s2.no_duplicates()) by {
            assert forall|a: int, b: int| 0 <= a < s2.len() && 0 <= b < s2.len() && a != b implies s2[a] != s2[b] by {
                assert(m.dom().contains(s[a]) && m.dom().contains(s[b]));
                assert(g(f(s[a])) == s[a] && g(f(s[b])) == s[b]);
            }
        }
        assert forall|i: int| 0 <= i < s2.len() implies {
            &&& r.dom().contains(#[trigger] s2[i])
            &&& r[s2[i]].parent == Some(j)
            &&& d2(s2[i]) == d2(j) + 1
            &&& r[s2[i]].sibling == (if i + 1 < s2.len() {
                Some(s2[i + 1])
            } else {
                None
            })
        } by {
            assert(m.dom().contains(s[i]));
            assert(g(f(s[i])) == s[i]);
            if i + 1 < s.len() {
                assert(m.dom().contains(s[i + 1]));
            }
        }
    }
    assert forall|y: J| #[trigger] r.dom().contains(y) && y != f(root) implies (r[y].parent matches Some(p) && r.dom().contains(p)
        && c2(p).contains(y)) by {
        let x = g(y);
        assert(x != root);
        let px = m[x].parent->0;
        assert(m.dom().contains(px) && c(px).contains(x));
        assert(g(f(px)) == px);
        let i = c(px).index_of(x);
        assert(c(px)[i] == x);
        assert(c2(f(px))[i] == y);
    }
    assert(g(f(root)) == root);
    assert(witness_ok(r, f(root), c2, d2));
}

} // verus!
