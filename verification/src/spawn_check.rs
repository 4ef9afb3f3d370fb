use vstd::prelude::*;
use crate::saved::SavedNode;
use crate::hierarchy::{Hierarchy, saved_links, spawnable, scene_settable};
use crate::tree::{Links, witness_ok, chain_ok, tree_wf, lemma_chain_unique};

verus! {

/// The positions below `n`, as `u32`s, form a finite set of `n` elements.
proof fn lemma_u32_range(n: u32)
    ensures
        Set::new(|i: u32| i < n).finite(),
        Set::new(|i: u32| i < n).len() == n,
    decreases n,
{
    if n == 0 {
        assert(Set::new(|i: u32| i < n) =~= Set::<u32>::empty());
    } else {
        lemma_u32_range((n - 1) as u32);
        assert(Set::new(|i: u32| i < n) =~= Set::new(|i: u32| i < (n - 1) as u32).insert((n - 1) as u32));
    }
}

/// The positions of the saved nodes that are not yet marked.
pub open spec fn unmarked(seen: Seq<bool>, n: u32) -> Set<u32> {
    Set::new(|i: u32| i < n && !seen[i as int])
}

/// What walking the children of `x` has found so far: `chain`, from the
/// first child of `x` on along sibling links, with `cur` the link after
/// its end.
pub open spec fn walked(m: Map<u32, Links<u32>>, x: u32, chain: Seq<u32>, cur: Option<u32>) -> bool {
    &&& chain.len() == 0 ==> cur == m[x].child
    &&& chain.len() > 0 ==> m[x].child == Some(chain[0]) && cur == m[chain.last()].sibling
    &&& forall|k: int| 0 <= k < chain.len() - 1 ==> m[#[trigger] chain[k]].sibling == Some(chain[k + 1])
}

/// A walk of the children of `x` follows every list of children of `x`
/// that a tree admits: it is a prefix of it, and the link after it is the
/// next child.
proof fn lemma_walk_prefix(m: Map<u32, Links<u32>>, x: u32, chain: Seq<u32>, cur: Option<u32>, s: Seq<u32>, d: spec_fn(u32) -> nat)
    requires
        chain_ok(m, x, s, d),
        walked(m, x, chain, cur),
    ensures
        chain.len() <= s.len(),
        forall|k: int| 0 <= k < chain.len() ==> chain[k] == s[k],
        cur == (if chain.len() < s.len() {
            Some(s[chain.len() as int])
        } else {
            None::<u32>
        }),
    decreases chain.len(),
{
    if chain.len() > 0 {
        let prev = chain.drop_last();
        let pcur = if prev.len() == 0 {
            m[x].child
        } else {
            m[prev.last()].sibling
        };
        assert(walked(m, x, prev, pcur)) by {
            assert forall|k: int| 0 <= k < prev.len() - 1 implies m[#[trigger] prev[k]].sibling == Some(prev[k + 1]) by {
                assert(prev[k] == chain[k] && prev[k + 1] == chain[k + 1]);
            }
        }
        lemma_walk_prefix(m, x, prev, pcur, s, d);
        let l = chain.len() - 1;
        if l > 0 {
            assert(chain[l - 1] == prev[l - 1]);
            assert(m[chain[l - 1]].sibling == Some(chain[l]));
        }
        assert(pcur == Some(chain[l]));
        assert(l < s.len());
        assert(chain[l] == s[l]);
        assert forall|k: int| 0 <= k < chain.len() implies chain[k] == s[k] by {
            if k < l {
                assert(chain[k] == prev[k]);
            }
        }
        assert(cur == m[s[l]].sibling);
    }
}

/// Two nodes without a parent leave no tree.
proof fn lemma_two_roots(m: Map<u32, Links<u32>>, a: u32, b: u32)
    requires
        a != b,
        m.dom().contains(a),
        m.dom().contains(b),
        m[a].parent is None,
        m[b].parent is None,
    ensures
        forall|r: u32| !#[trigger] tree_wf(m, r),
{
    assert forall|r: u32| !#[trigger] tree_wf(m, r) by {
        if tree_wf(m, r) {
            let (c, d) = choose|c: spec_fn(u32) -> Seq<u32>, d: spec_fn(u32) -> nat| witness_ok(m, r, c, d);
            assert(witness_ok(m, r, c, d));
            if a != r {
                assert(m[a].parent is Some);
            } else {
                assert(m[b].parent is Some);
            }
        }
    }
}

/// With a tree rooted at `r` whose lists of children are walked in full
/// for every marked node, every node is marked.
proof fn lemma_all_marked(
    m: Map<u32, Links<u32>>,
    r: u32,
    c: spec_fn(u32) -> Seq<u32>,
    d: spec_fn(u32) -> nat,
    cm: Map<u32, Seq<u32>>,
    dm: spec_fn(u32) -> nat,
    seen: Seq<bool>,
    y: u32,
)
    requires
        witness_ok(m, r, c, d),
        m.dom().contains(y),
        forall|i: u32| #[trigger] m.dom().contains(i) ==> (i as int) < seen.len(),
        seen[r as int],
        forall|x: u32| #[trigger] m.dom().contains(x) && seen[x as int] ==> cm.dom().contains(x) && chain_ok(m, x, cm[x], dm),
        forall|x: u32, j: int| #[trigger] cm.dom().contains(x) && 0 <= j < cm[x].len() ==> seen[#[trigger] cm[x][j] as int],
    ensures
        seen[y as int],
    decreases d(y),
{
    if y != r {
        let p = m[y].parent->0;
        assert(c(p).contains(y));
        let k = c(p).index_of(y);
        assert(chain_ok(m, p, c(p), d));
        assert(c(p)[k] == y);
        assert(d(p) < d(y));
        lemma_all_marked(m, r, c, d, cm, dm, seen, p);
        lemma_chain_unique(m, p, cm[p], dm, c(p), d);
        assert(cm[p][k] == y);
    }
}

/// Whether the saved nodes form a tree, as spawning a graph needs: there
/// is one node without a parent, and from it every node is reached once by
/// following each node's first-child and next-sibling links, each node
/// reached naming the node whose children are walked as its parent.
#[verifier::rlimit(100)]
#[verifier::spinoff_prover]
pub fn graph_spawnable(nodes: &Vec<SavedNode>) -> (b: bool)
    ensures
        b == spawnable(nodes@),
{
    let ghost m = saved_links(nodes@);
    let n = nodes.len();
    if n > u32::MAX as usize {
        return false;
    }
    proof {
        lemma_u32_range(n as u32);
        assert(m.dom() =~= Set::new(|i: u32| i < n as u32));
        assert forall|i: u32| #[trigger] m.dom().contains(i) implies m[i] == (Links {
            child: nodes@[i as int].child_index,
            sibling: nodes@[i as int].sibling_index,
            parent: nodes@[i as int].parent_index,
        }) by {}
    }
    // The node without a parent, and that it is the only one.
    let mut root: Option<usize> = None;
    let mut i: usize = 0;
    while i < n
        invariant
            n == nodes@.len(),
            n <= u32::MAX,
            m == saved_links(nodes@),
            i <= n,
            match root {
                Some(r) => r < i && nodes@[r as int].parent_index is None
                    && forall|j: int| 0 <= j < i && j != r ==> nodes@[j].parent_index is Some,
                None => forall|j: int| 0 <= j < i ==> nodes@[j].parent_index is Some,
            },
        decreases n - i,
    {
        if nodes[i].parent_index.is_none() {
            match root {
                Some(r) => {
                    proof {
                        lemma_two_roots(m, r as u32, i as u32);
                    }
                    return false;
                },
                None => {
                    root = Some(i);
                },
            }
        }
        i = i + 1;
    }
    let r: usize = match root {
        Some(r) => r,
        None => {
            proof {
                assert forall|q: u32| !#[trigger] tree_wf(m, q) by {
                    if tree_wf(m, q) {
                        let (c, d) = choose|c: spec_fn(u32) -> Seq<u32>, d: spec_fn(u32) -> nat| witness_ok(m, q, c, d);
                        assert(witness_ok(m, q, c, d));
                        assert(nodes@[q as int].parent_index is Some);
                    }
                }
            }
            return false;
        },
    };
    let ghost rr = r as u32;
    let mut seen: Vec<bool> = Vec::new();
    let mut depth: Vec<usize> = Vec::new();
    let mut k: usize = 0;
    while k < n
        invariant
            k <= n,
            seen@.len() == k,
            depth@.len() == k,
            forall|j: int| 0 <= j < k ==> !seen@[j] && depth@[j] == 0,
        decreases n - k,
    {
        seen.push(false);
        depth.push(0);
        k = k + 1;
    }
    seen.set(r, true);
    let mut unseen: usize = n - 1;
    let mut queue: Vec<u32> = Vec::new();
    queue.push(r as u32);
    let mut head: usize = 0;
    let ghost mut cm: Map<u32, Seq<u32>> = Map::empty();
    proof {
        assert(unmarked(seen@, n as u32) =~= Set::new(|i: u32| i < n as u32).remove(r as u32));
        assert forall|i: u32| i < n && #[trigger] seen@[i as int] implies queue@.contains(i) by {
            assert(i == rr);
            assert(queue@[0] == i);
        }
    }
    while head < queue.len()
        invariant
            n == nodes@.len(),
            n <= u32::MAX,
            m == saved_links(nodes@),
            m.dom() == Set::new(|i: u32| i < n as u32),
            forall|i: u32| #[trigger] m.dom().contains(i) ==> m[i] == (Links {
                child: nodes@[i as int].child_index,
                sibling: nodes@[i as int].sibling_index,
                parent: nodes@[i as int].parent_index,
            }),
            rr == r as u32,
            r < n,
            nodes@[r as int].parent_index is None,
            forall|j: int| 0 <= j < n && j != r ==> nodes@[j].parent_index is Some,
            seen@.len() == n,
            depth@.len() == n,
            unmarked(seen@, n as u32).finite(),
            unseen == unmarked(seen@, n as u32).len(),
            head <= queue@.len(),
            queue@.len() + unseen == n,
            queue@.len() >= 1,
            queue@[0] == rr,
            depth@[r as int] == 0,
            queue@.no_duplicates(),
            forall|q: int| 0 <= q < queue@.len() ==> (#[trigger] queue@[q]) < n && seen@[queue@[q] as int]
                && depth@[queue@[q] as int] <= q,
            forall|i: u32| i < n && #[trigger] seen@[i as int] ==> queue@.contains(i),
            forall|x: u32| #[trigger] cm.dom().contains(x) <==> exists|q: int| 0 <= q < head && queue@[q] == x,
            forall|x: u32| #[trigger] cm.dom().contains(x) ==> chain_ok(m, x, cm[x], |i: u32| depth@[i as int] as nat),
            forall|x: u32, j: int| #[trigger] cm.dom().contains(x) && 0 <= j < cm[x].len() ==> seen@[#[trigger] cm[x][j] as int],
            forall|y: u32| y < n && #[trigger] seen@[y as int] && y != rr ==> (m[y].parent matches Some(p)
                && cm.dom().contains(p) && cm[p].contains(y)),
        decreases unseen + queue@.len() - head,
    {
        let x = queue[head];
        let ghost q0 = head as int;
        head = head + 1;
        proof {
            assert(!cm.dom().contains(x)) by {
                if cm.dom().contains(x) {
                    let q = choose|q: int| 0 <= q < head - 1 && queue@[q] == x;
                    assert(queue@[q] == queue@[q0]);
                }
            }
        }
        let dx = depth[x as usize];
        let mut cur = nodes[x as usize].child_index;
        let ghost mut chain: Seq<u32> = Seq::empty();
        loop
            invariant
                n == nodes@.len(),
                n <= u32::MAX,
                m == saved_links(nodes@),
                m.dom() == Set::new(|i: u32| i < n as u32),
                forall|i: u32| #[trigger] m.dom().contains(i) ==> m[i] == (Links {
                    child: nodes@[i as int].child_index,
                    sibling: nodes@[i as int].sibling_index,
                    parent: nodes@[i as int].parent_index,
                }),
                rr == r as u32,
                r < n,
                nodes@[r as int].parent_index is None,
                forall|j: int| 0 <= j < n && j != r ==> nodes@[j].parent_index is Some,
                seen@.len() == n,
                depth@.len() == n,
                unmarked(seen@, n as u32).finite(),
                unseen == unmarked(seen@, n as u32).len(),
                1 <= head <= queue@.len(),
                queue@.len() + unseen == n,
                queue@[0] == rr,
                depth@[r as int] == 0,
                queue@.no_duplicates(),
                forall|q: int| 0 <= q < queue@.len() ==> (#[trigger] queue@[q]) < n && seen@[queue@[q] as int]
                    && depth@[queue@[q] as int] <= q,
                forall|i: u32| i < n && #[trigger] seen@[i as int] ==> queue@.contains(i),
                x == queue@[head - 1],
                dx == depth@[x as int],
                dx <= head - 1,
                !cm.dom().contains(x),
                forall|c: u32| #[trigger] cm.dom().contains(c) <==> exists|q: int| 0 <= q < head - 1 && queue@[q] == c,
                forall|c: u32| #[trigger] cm.dom().contains(c) ==> chain_ok(m, c, cm[c], |i: u32| depth@[i as int] as nat),
                forall|c: u32, j: int| #[trigger] cm.dom().contains(c) && 0 <= j < cm[c].len() ==> seen@[#[trigger] cm[c][j] as int],
                walked(m, x, chain, cur),
                chain.no_duplicates(),
                forall|j: int| 0 <= j < chain.len() ==> (#[trigger] chain[j]) < n && m[chain[j]].parent == Some(x)
                    && seen@[chain[j] as int] && depth@[chain[j] as int] == dx + 1,
                forall|y: u32| y < n && #[trigger] seen@[y as int] && y != rr ==> (m[y].parent matches Some(p)
                    && ((cm.dom().contains(p) && cm[p].contains(y)) || (p == x && chain.contains(y)))),
            ensures
                cur is None,
                walked(m, x, chain, cur),
                chain.no_duplicates(),
                forall|j: int| 0 <= j < chain.len() ==> (#[trigger] chain[j]) < n && m[chain[j]].parent == Some(x)
                    && seen@[chain[j] as int] && depth@[chain[j] as int] == dx + 1,
                unmarked(seen@, n as u32).finite(),
                unseen == unmarked(seen@, n as u32).len(),
                1 <= head <= queue@.len(),
                queue@.len() + unseen == n,
                queue@[0] == rr,
                depth@[r as int] == 0,
                queue@.no_duplicates(),
                forall|q: int| 0 <= q < queue@.len() ==> (#[trigger] queue@[q]) < n && seen@[queue@[q] as int]
                    && depth@[queue@[q] as int] <= q,
                forall|i: u32| i < n && #[trigger] seen@[i as int] ==> queue@.contains(i),
                x == queue@[head - 1],
                dx == depth@[x as int],
                forall|c: u32| #[trigger] cm.dom().contains(c) ==> chain_ok(m, c, cm[c], |i: u32| depth@[i as int] as nat),
                forall|c: u32, j: int| #[trigger] cm.dom().contains(c) && 0 <= j < cm[c].len() ==> seen@[#[trigger] cm[c][j] as int],
                forall|y: u32| y < n && #[trigger] seen@[y as int] && y != rr ==> (m[y].parent matches Some(p)
                    && ((cm.dom().contains(p) && cm[p].contains(y)) || (p == x && chain.contains(y)))),
            decreases unseen,
        {
            let y = match cur {
                Some(y) => y,
                None => {
                    break;
                },
            };
            if y as usize >= n || nodes[y as usize].parent_index != Some(x) || seen[y as usize] {
                proof {
                    assert forall|q: u32| !#[trigger] tree_wf(m, q) by {
                        if tree_wf(m, q) {
                            let (c, d) = choose|c: spec_fn(u32) -> Seq<u32>, d: spec_fn(u32) -> nat| witness_ok(m, q, c, d);
                            assert(witness_ok(m, q, c, d));
                            assert(m.dom().contains(x));
                            assert(chain_ok(m, x, c(x), d));
                            lemma_walk_prefix(m, x, chain, cur, c(x), d);
                            let l = chain.len() as int;
                            assert(c(x)[l] == y);
                            assert(m.dom().contains(y));
                            assert(m[y].parent == Some(x));
                            assert(y != rr);
                            assert(chain.contains(y));
                            let j = chain.index_of(y);
                            assert(c(x)[j] == c(x)[l]);
                        }
                    }
                }
                return false;
            }
            let ghost before = seen@;
            let ghost dbefore = depth@;
            let ghost qbefore = queue@;
            seen.set(y as usize, true);
            depth.set(y as usize, dx + 1);
            queue.push(y);
            proof {
                assert(unmarked(before, n as u32).contains(y));
                assert(unmarked(seen@, n as u32) =~= unmarked(before, n as u32).remove(y));
                assert(!queue@.drop_last().contains(y));
                assert(queue@.drop_last() =~= qbefore);
                assert forall|i: u32| i < n && #[trigger] seen@[i as int] implies queue@.contains(i) by {
                    if i == y {
                        assert(queue@[queue@.len() - 1] == i);
                    } else {
                        assert(before[i as int]);
                        assert(qbefore.contains(i));
                        let q = qbefore.index_of(i);
                        assert(queue@[q] == i);
                    }
                }
                assert forall|c: u32| #[trigger] cm.dom().contains(c) <==> exists|q: int| 0 <= q < head - 1 && queue@[q] == c by {
                    if cm.dom().contains(c) {
                        let q = choose|q: int| 0 <= q < head - 1 && qbefore[q] == c;
                        assert(queue@[q] == c);
                    }
                    if exists|q: int| 0 <= q < head - 1 && queue@[q] == c {
                        let q = choose|q: int| 0 <= q < head - 1 && queue@[q] == c;
                        assert(qbefore[q] == c);
                    }
                }
                assert forall|c: u32| #[trigger] cm.dom().contains(c) implies chain_ok(m, c, cm[c], |i: u32| depth@[i as int] as nat) by {
                    assert(chain_ok(m, c, cm[c], |i: u32| dbefore[i as int] as nat));
                    let q = choose|q: int| 0 <= q < head - 1 && queue@[q] == c;
                    assert(before[c as int]);
                    assert forall|t: int| 0 <= t < cm[c].len() implies depth@[cm[c][t] as int] == dbefore[cm[c][t] as int] by {
                        assert(before[cm[c][t] as int]);
                    }
                }
                assert forall|t: int| 0 <= t < chain.len() implies depth@[chain[t] as int] == dbefore[chain[t] as int] by {
                    assert(before[chain[t] as int]);
                }
                let old_chain = chain;
                chain = chain.push(y);
                assert(chain[chain.len() - 1] == y);
                assert forall|z: u32| z < n && #[trigger] seen@[z as int] && z != rr implies (m[z].parent matches Some(p)
                    && ((cm.dom().contains(p) && cm[p].contains(z)) || (p == x && chain.contains(z)))) by {
                    if z != y {
                        assert(before[z as int]);
                        if old_chain.contains(z) {
                            let t = old_chain.index_of(z);
                            assert(chain[t] == z);
                        }
                    } else {
                        assert(m.dom().contains(y));
                    }
                }
            }
            unseen = unseen - 1;
            cur = nodes[y as usize].sibling_index;
        }
        proof {
            cm = cm.insert(x, chain);
        }
    }
    // Every node is reached, and the root has no sibling.
    let mut all = true;
    let mut j: usize = 0;
    while j < n
        invariant
            j <= n,
            seen@.len() == n,
            all <==> forall|i: int| 0 <= i < j ==> seen@[i],
        decreases n - j,
    {
        if !seen[j] {
            all = false;
        }
        j = j + 1;
    }
    let ok = all && nodes[r].sibling_index.is_none();
    proof {
        let dm = |i: u32| depth@[i as int] as nat;
        let cf = |i: u32| if cm.dom().contains(i) {
            cm[i]
        } else {
            Seq::<u32>::empty()
        };
        if ok {
            assert forall|x: u32| m.dom().contains(x) implies #[trigger] chain_ok(m, x, cf(x), dm) by {
                assert(seen@[x as int]);
                assert(queue@.contains(x));
                let q = queue@.index_of(x);
                assert(queue@[q] == x);
                assert(cm.dom().contains(x));
            }
            assert forall|y: u32| #[trigger] m.dom().contains(y) && y != rr implies (m[y].parent matches Some(p)
                && m.dom().contains(p) && cf(p).contains(y)) by {
                assert(seen@[y as int]);
                let p = m[y].parent->0;
                assert(cm.dom().contains(p));
                let q = choose|q: int| 0 <= q < head && queue@[q] == p;
            }
            assert(witness_ok(m, rr, cf, dm));
            assert(tree_wf(m, rr));
        } else {
            assert forall|q: u32| !#[trigger] tree_wf(m, q) by {
                if tree_wf(m, q) {
                    let (c, d) = choose|c: spec_fn(u32) -> Seq<u32>, d: spec_fn(u32) -> nat| witness_ok(m, q, c, d);
                    assert(witness_ok(m, q, c, d));
                    assert(q == rr) by {
                        if q != rr {
                            assert(nodes@[q as int].parent_index is Some);
                        }
                    }
                    if !all {
                        let i = choose|i: int| 0 <= i < n && !seen@[i];
                        assert forall|x: u32| #[trigger] m.dom().contains(x) && seen@[x as int] implies
                            cm.dom().contains(x) && chain_ok(m, x, cm[x], dm) by {
                            assert(queue@.contains(x));
                            let qq = queue@.index_of(x);
                            assert(queue@[qq] == x);
                        }
                        lemma_all_marked(m, rr, c, d, cm, dm, seen@, i as u32);
                    } else {
                        assert(m[rr].sibling is None);
                    }
                }
            }
        }
    }
    ok
}

impl Hierarchy {
    /// Whether the graph `name` can be set as the scene, as `set_scene`
    /// needs: it is a graph of the game data, its nodes form a tree, and the
    /// pools have room for them.
    pub fn scene_settable_check(&self, name: &str) -> (b: bool)
        requires
            self.wf(),
        ensures
            b == scene_settable(*self, name@),
    {
        match self.game_data.graphs.get(name) {
            None => false,
            Some(g) => {
                let n = g.nodes.len();
                graph_spawnable(&g.nodes) && self.object_pool.has_room_for(n)
                    && self.node_ext_pools.sprite_pool.has_room_for(n)
                    && self.node_ext_pools.camera_pool.has_room_for(n)
                    && self.node_ext_pools.rect_collider_pool.has_room_for(n)
            },
        }
    }
}

} // verus!
