use vstd::prelude::*;
use crate::pool::{Pool, Handle, PoolModel};
use crate::node::{Node, Transform, NodeExtensionHandle, NodeExtensionPools, NodeScriptData, SpriteExtension, CameraExtension, RectColliderExtension};
use crate::game_data::{SavedGameData, graph_table};
use crate::saved::{SavedNode, SavedNodeExtension};
use crate::tree::{Links, tree_wf, witness_ok, chain_ok, link, unlink, desc_set, children_of, lemma_children_of, lemma_sibling_pred};

verus! {

/// The view of an optional handle.
pub open spec fn opt_view<T>(o: Option<Handle<T>>) -> Option<(usize, u32)> {
    match o {
        Some(h) => Some(h@),
        None => None,
    }
}

/// The links of a node, by handle views.
pub open spec fn node_links(n: Node) -> Links<(usize, u32)> {
    Links { child: opt_view(n.child_handle), sibling: opt_view(n.sibling_handle), parent: opt_view(n.parent_handle) }
}

/// The links of the nodes that a pool holds.
pub open spec fn links_of(p: PoolModel<Node>) -> Map<(usize, u32), Links<(usize, u32)>> {
    Map::new(|h: (usize, u32)| p.valid(h), |h: (usize, u32)| node_links(p.lookup(h)->0))
}

/// An extension handle as its kind and its handle view.
pub open spec fn ext_key(e: NodeExtensionHandle) -> Option<(int, (usize, u32))> {
    match e {
        NodeExtensionHandle::Nothing => None,
        NodeExtensionHandle::Sprite(h) => Some((0int, h@)),
        NodeExtensionHandle::Camera(h) => Some((1int, h@)),
        NodeExtensionHandle::RectCollider(h) => Some((2int, h@)),
    }
}

/// The extension pools `b` are `a` without the extensions in `gone`.
pub open spec fn exts_removed(a: NodeExtensionPools, b: NodeExtensionPools, gone: Set<(int, (usize, u32))>) -> bool {
    &&& forall|v: (usize, u32)| #[trigger] b.sprite_pool@.lookup(v) == (if gone.contains((0int, v)) {
        None
    } else {
        a.sprite_pool@.lookup(v)
    })
    &&& forall|v: (usize, u32)| #[trigger] b.camera_pool@.lookup(v) == (if gone.contains((1int, v)) {
        None
    } else {
        a.camera_pool@.lookup(v)
    })
    &&& forall|v: (usize, u32)| #[trigger] b.rect_collider_pool@.lookup(v) == (if gone.contains((2int, v)) {
        None
    } else {
        a.rect_collider_pool@.lookup(v)
    })
}

/// What destroying `x` leaves of a tree: `x` leaves its parent's children
/// and goes with everything below it.
pub open spec fn destroy_links<K>(m: Map<K, Links<K>>, x: K) -> Map<K, Links<K>> {
    unlink(m, x).remove_keys(desc_set(m, x).insert(x))
}

/// Destroying the nodes of `s`, the last first, meets in each step a node
/// of the tree other than its root.
pub open spec fn destroys_ok<K>(m: Map<K, Links<K>>, root: K, s: Seq<K>) -> bool
    decreases s.len(),
{
    if s.len() == 0 {
        true
    } else {
        &&& m.dom().contains(s.last())
        &&& s.last() != root
        &&& destroys_ok(destroy_links(m, s.last()), root, s.drop_last())
    }
}

/// The tree after destroying the nodes of `s`, the last first.
pub open spec fn after_destroys<K>(m: Map<K, Links<K>>, s: Seq<K>) -> Map<K, Links<K>>
    decreases s.len(),
{
    if s.len() == 0 {
        m
    } else {
        after_destroys(destroy_links(m, s.last()), s.drop_last())
    }
}

/// The nodes that destroying `x` takes out of the pool: `x` and every
/// node below it.
pub open spec fn destroyed_by(m: Map<(usize, u32), Links<(usize, u32)>>, x: (usize, u32)) -> Set<(usize, u32)> {
    desc_set(m, x).insert(x)
}

/// The nodes that destroying the nodes of `s`, the last first, takes out of
/// the pool.
pub open spec fn destroyed_nodes(m: Map<(usize, u32), Links<(usize, u32)>>, s: Seq<(usize, u32)>) -> Set<(usize, u32)>
    decreases s.len(),
{
    if s.len() == 0 {
        Set::empty()
    } else {
        destroyed_by(m, s.last()) + destroyed_nodes(destroy_links(m, s.last()), s.drop_last())
    }
}

/// The nodes at or below the first `k` nodes of `cs`.
pub open spec fn subtrees_of(m: Map<(usize, u32), Links<(usize, u32)>>, cs: Seq<(usize, u32)>, k: int) -> Set<(usize, u32)> {
    Set::new(|z: (usize, u32)| exists|j: int| 0 <= j < k && #[trigger] destroyed_by(m, cs[j]).contains(z))
}

/// The pool `p` with the slots of the handles in `s` emptied.
pub open spec fn pool_without(p: PoolModel<Node>, s: Set<(usize, u32)>) -> PoolModel<Node> {
    PoolModel {
        slots: Seq::new(
            p.slots.len(),
            |i: int|
                if s.contains((i as usize, p.slots[i].0)) {
                    (p.slots[i].0, None)
                } else {
                    p.slots[i]
                },
        ),
        free: p.free,
    }
}

/// Removing a valid handle from a pool leaves the other handles as they
/// were.
proof fn lemma_remove_lookup<T>(p: PoolModel<T>, h: (usize, u32))
    requires
        p.wf(),
        p.valid(h),
    ensures
        forall|v: (usize, u32)| #[trigger] p.remove(h).lookup(v) == (if v == h {
            None
        } else {
            p.lookup(v)
        }),
{
}

/// The extensions, as kind and handle view, of the nodes of `p` in `s`.
pub open spec fn ext_keys_of(p: PoolModel<Node>, s: Set<(usize, u32)>) -> Set<(int, (usize, u32))> {
    Set::new(|e: (int, (usize, u32))| exists|g: (usize, u32)| #[trigger] s.contains(g) && ext_key(p.lookup(g)->0.node_extension) == Some(e))
}

/// A node, or a node below it, keeps its links when it leaves its parent.
proof fn lemma_unlink_keeps_below<K>(
    m: Map<K, Links<K>>,
    root: K,
    c: spec_fn(K) -> Seq<K>,
    d: spec_fn(K) -> nat,
    x: K,
    y: K,
)
    requires
        witness_ok(m, root, c, d),
        m.dom().contains(x),
        x != root,
        m.dom().contains(y),
        y == x || crate::tree::is_desc(m, x, y),
    ensures
        unlink(m, x)[y] == m[y],
{
    let p = m[x].parent->0;
    assert(c(p).contains(x));
    let i = c(p).index_of(x);
    assert(chain_ok(m, p, c(p), d));
    assert(c(p)[i] == x);
    assert(d(x) == d(p) + 1);
    if y != x {
        crate::tree::lemma_desc_facts(m, root, c, d, x, y);
    }
    if m[p].child != Some(x) {
        if m[y].sibling == Some(x) {
            lemma_sibling_pred(m, root, c, d, x, y);
            assert(c(p)[i - 1] == y);
            assert(d(y) == d(p) + 1);
            assert(c(p)[i - 1] != c(p)[i]);
        }
    }
}

/// The running scene: nodes in a pool, one of them the root, the
/// extensions of the nodes, and the nodes waiting to be started or
/// destroyed.
pub struct Hierarchy {
    pub root: Handle<Node>,
    pub object_pool: Pool<Node>,
    pub node_ext_pools: NodeExtensionPools,
    pub to_start_stack: Vec<Handle<Node>>,
    pub to_destroy_stack: Vec<Handle<Node>>,
    pub game_data: SavedGameData,
    /// The nodes that hang below the root.
    pub live: Ghost<Set<(usize, u32)>>,
}

impl Hierarchy {
    pub open spec fn nodes(&self) -> PoolModel<Node> {
        self.object_pool@
    }

    /// The links of the nodes below the root.
    pub open spec fn live_links(&self) -> Map<(usize, u32), Links<(usize, u32)>> {
        links_of(self.nodes()).restrict(self.live@)
    }

    /// The node a valid handle refers to.
    pub open spec fn node(&self, h: (usize, u32)) -> Node {
        self.nodes().lookup(h)->0
    }

    /// Every node holds an extension of its own.
    pub open spec fn extensions_ok(&self) -> bool {
        &&& forall|h: (usize, u32)| #[trigger] self.nodes().valid(h) ==> self.node_ext_pools.holds(self.node(h).node_extension)
        &&& forall|h: (usize, u32), g: (usize, u32)|
            #[trigger] self.nodes().valid(h) && #[trigger] self.nodes().valid(g) && h != g && ext_key(self.node(h).node_extension) is Some
                ==> ext_key(self.node(h).node_extension) != ext_key(self.node(g).node_extension)
    }

    /// The pools are well formed, the nodes below the root form a tree, and
    /// the extensions belong each to one node.
    pub open spec fn wf(&self) -> bool {
        &&& self.object_pool@.wf()
        &&& self.node_ext_pools.wf()
        &&& self.live@.subset_of(self.nodes().handles())
        &&& tree_wf(self.live_links(), self.root@)
        &&& self.extensions_ok()
        &&& self.exts_attached()
    }

    /// The node `n` is in the pool and has the extension with key `k`.
    pub open spec fn owns_ext(&self, n: (usize, u32), k: (int, (usize, u32))) -> bool {
        &&& self.nodes().valid(n)
        &&& ext_key(self.node(n).node_extension) == Some(k)
    }

    /// Every extension belongs to the node it names.
    pub open spec fn exts_attached(&self) -> bool {
        &&& forall|v: (usize, u32)| #[trigger] self.node_ext_pools.sprite_pool@.valid(v)
            ==> self.owns_ext(self.node_ext_pools.sprite_pool@.lookup(v)->0.node_handle@, (0int, v))
        &&& forall|v: (usize, u32)| #[trigger] self.node_ext_pools.camera_pool@.valid(v)
            ==> self.owns_ext(self.node_ext_pools.camera_pool@.lookup(v)->0.node_handle@, (1int, v))
        &&& forall|v: (usize, u32)| #[trigger] self.node_ext_pools.rect_collider_pool@.valid(v)
            ==> self.owns_ext(self.node_ext_pools.rect_collider_pool@.lookup(v)->0.node_handle@, (2int, v))
    }
}

impl Hierarchy {
    /// A scene holding only the root node, with the given game data.
    pub fn new(game_data: SavedGameData) -> (h: Self)
        ensures
            h.wf(),
            h.nodes().handles() == set![h.root@],
            h.nodes().slots.len() == 1,
            h.live@ == set![h.root@],
            h.to_start_stack@.len() == 0,
            h.to_destroy_stack@.len() == 0,
            h.node(h.root@).child_handle is None,
            h.node(h.root@).parent_handle is None,
            h.node(h.root@).sibling_handle is None,
            h.node(h.root@).name@ == Seq::<char>::empty(),
            h.node(h.root@).transform == (Transform { x: 0, y: 0 }),
            h.node(h.root@).node_extension is Nothing,
            h.node(h.root@).script_data is None,
            h.node(h.root@).enabled,
            h.node(h.root@).global_transform == (Transform { x: 0, y: 0 }),
            !h.node(h.root@).global_enabled,
            h.node_ext_pools.sprite_pool@.slots.len() == 0,
            h.node_ext_pools.camera_pool@.slots.len() == 0,
            h.node_ext_pools.rect_collider_pool@.slots.len() == 0,
            h.game_data == game_data,
    {
        let mut object_pool: Pool<Node> = Pool::new();
        let root_node = Node {
            child_handle: None,
            parent_handle: None,
            sibling_handle: None,
            name: String::new(),
            transform: Transform { x: 0, y: 0 },
            node_extension: NodeExtensionHandle::Nothing,
            script_data: None,
            enabled: true,
            global_transform: Transform { x: 0, y: 0 },
            global_enabled: false,
        };
        let ghost rn = root_node;
        let root = object_pool.add(root_node);
        let ghost live_set = set![root@];
        let h = Hierarchy {
            root,
            object_pool,
            node_ext_pools: NodeExtensionPools::new(),
            to_start_stack: Vec::new(),
            to_destroy_stack: Vec::new(),
            game_data,
            live: Ghost(live_set),
        };
        proof {
            crate::pool::lemma_lookup_after_add(PoolModel { slots: Seq::empty(), free: Seq::empty() }, rn);
            assert(h.nodes().handles() =~= set![root@]);
            assert(h.live_links() =~= crate::tree::single(root@));
            crate::tree::lemma_single_is_tree(root@);
        }
        h
    }
}

/// Two nodes agree on everything but their links.
pub open spec fn same_payload(a: Node, b: Node) -> bool {
    &&& a.name == b.name
    &&& a.transform == b.transform
    &&& a.node_extension == b.node_extension
    &&& a.script_data == b.script_data
    &&& a.enabled == b.enabled
    &&& a.global_transform == b.global_transform
    &&& a.global_enabled == b.global_enabled
}

/// Two slots agree but, where `relink` holds, for the links of the node.
pub open spec fn same_slot_but_links(a: (u32, Option<Node>), b: (u32, Option<Node>), relink: bool) -> bool {
    &&& a.0 == b.0
    &&& (a.1 is Some <==> b.1 is Some)
    &&& a.1 is Some ==> same_payload(a.1->0, b.1->0)
    &&& !relink ==> a == b
}

/// Two pools agree but for the links of the nodes in `live`.
pub open spec fn same_but_links(a: PoolModel<Node>, b: PoolModel<Node>, live: Set<(usize, u32)>) -> bool {
    &&& a.free == b.free
    &&& a.slots.len() == b.slots.len()
    &&& forall|i: int|
        0 <= i < a.slots.len() ==> #[trigger] same_slot_but_links(
            a.slots[i],
            b.slots[i],
            live.contains((i as usize, a.slots[i].0)),
        )
}

/// Writing a node with the same payload over a node in `live` keeps the
/// pool the same but for links.
proof fn lemma_relink_one(p: PoolModel<Node>, h: (usize, u32), n: Node, live: Set<(usize, u32)>)
    requires
        p.valid(h),
        live.contains(h),
        same_payload(p.lookup(h)->0, n),
    ensures
        same_but_links(p, p.set(h.0, Some(n)), live),
        p.set(h.0, Some(n)).lookup(h) == Some(n),
        forall|g: (usize, u32)| g != h ==> p.set(h.0, Some(n)).lookup(g) == #[trigger] p.lookup(g),
        p.set(h.0, Some(n)).handles() == p.handles(),
{
    let q = p.set(h.0, Some(n));
    assert forall|i: int| 0 <= i < p.slots.len() implies #[trigger] same_slot_but_links(
        p.slots[i],
        q.slots[i],
        live.contains((i as usize, p.slots[i].0)),
    ) by {
        if i == h.0 {
        }
    }
    assert(q.handles() =~= p.handles());
}

/// The links of the nodes of `p` in `live`, when they agree with `m`.
proof fn lemma_live_links(p: PoolModel<Node>, live: Set<(usize, u32)>, m: Map<(usize, u32), Links<(usize, u32)>>)
    requires
        live.subset_of(p.handles()),
        m.dom() == live,
        forall|h: (usize, u32)| #[trigger] live.contains(h) ==> node_links(p.lookup(h)->0) == m[h],
    ensures
        links_of(p).restrict(live) == m,
{
    assert(links_of(p).restrict(live) =~= m);
}

impl Hierarchy {
    /// Takes a node out of the list of children of its parent; the node
    /// keeps its own links.
    fn unlink_node(&mut self, handle: Handle<Node>)
        requires
            old(self).wf(),
            old(self).live@.contains(handle@),
            handle@ != old(self).root@,
        ensures
            final(self).live_links() == unlink(old(self).live_links(), handle@),
            same_but_links(old(self).nodes(), final(self).nodes(), old(self).live@),
            final(self).live == old(self).live,
            final(self).root == old(self).root,
            final(self).node_ext_pools == old(self).node_ext_pools,
            final(self).to_start_stack == old(self).to_start_stack,
            final(self).to_destroy_stack == old(self).to_destroy_stack,
            final(self).game_data == old(self).game_data,
    {
        let ghost p0 = self.nodes();
        let ghost m = self.live_links();
        let ghost live = self.live@;
        let ghost root = self.root@;
        let ghost (c, d) = choose|c: spec_fn((usize, u32)) -> Seq<(usize, u32)>, d: spec_fn((usize, u32)) -> nat|
            witness_ok(m, root, c, d);
        proof {
            assert(witness_ok(m, root, c, d));
            assert(m.dom().contains(handle@));
            assert(m[handle@].parent is Some);
            assert(m.dom() =~= live);
            crate::tree::lemma_unlink_fixed(m, root, c, d, handle@);
        }
        let node = self.object_pool.borrow(handle);
        let sibling_handle = node.sibling_handle;
        let parent_handle = node.parent_handle.unwrap();
        let ghost p = parent_handle@;
        let ghost cp = c(p);
        proof {
            assert(c(p).contains(handle@));
            assert(chain_ok(m, p, cp, d));
            let i = cp.index_of(handle@);
            assert(cp[i] == handle@);
            assert(m.dom().contains(p));
        }
        let ghost i = cp.index_of(handle@);
        let parent_child = self.object_pool.borrow(parent_handle).child_handle.unwrap();
        if parent_child == handle {
            let ghost pn0 = p0.lookup(p)->0;
            let pn = self.object_pool.borrow_mut(parent_handle);
            pn.child_handle = sibling_handle;
            proof {
                let n1 = self.nodes().lookup(p)->0;
                lemma_relink_one(p0, p, n1, live);
                lemma_live_links(self.nodes(), live, unlink(m, handle@));
            }
        } else {
            proof {
                if i == 0 {
                    assert(cp[0] == handle@);
                }
            }
            let ghost pred = cp[i - 1];
            proof {
                assert(m.dom().contains(pred));
            }
            let ghost predn = p0.lookup(pred)->0;
            let ghost p1 = p0.set(pred.0, Some(Node { sibling_handle, ..predn }));
            proof {
                lemma_relink_one(p0, pred, Node { sibling_handle, ..predn }, live);
            }
            let mut cur = Some(parent_child);
            let ghost mut k: int = 0;
            loop
                invariant
                    old(self).wf(),
                    self.live == old(self).live,
                    self.root == old(self).root,
                    self.node_ext_pools == old(self).node_ext_pools,
                    self.to_start_stack == old(self).to_start_stack,
                    self.to_destroy_stack == old(self).to_destroy_stack,
                    self.game_data == old(self).game_data,
                    witness_ok(m, root, c, d),
                    chain_ok(m, p, cp, d),
                    m == old(self).live_links(),
                    p0 == old(self).nodes(),
                    live == old(self).live@,
                    0 < i < cp.len(),
                    cp[i] == handle@,
                    pred == cp[i - 1],
                    predn == p0.lookup(pred)->0,
                    opt_view(sibling_handle) == m[handle@].sibling,
                    p == m[handle@].parent->0,
                    p1 == p0.set(pred.0, Some(Node { sibling_handle, ..predn })),
                    same_but_links(p0, p1, live),
                    forall|g: (usize, u32)| g != pred ==> p1.lookup(g) == #[trigger] p0.lookup(g),
                    p1.lookup(pred) == Some(Node { sibling_handle, ..predn }),
                    0 <= k <= cp.len(),
                    k != i,
                    opt_view(cur) == (if k < cp.len() {
                        Some(cp[k])
                    } else {
                        None::<(usize, u32)>
                    }),
                    self.nodes() == (if k > i {
                        p1
                    } else {
                        p0
                    }),
                ensures
                    self.nodes() == p1,
                decreases cp.len() - k,
            {
                match cur {
                    Some(ch) => {
                        proof {
                            assert(m.dom().contains(cp[k]));
                        }
                        let ghost before = self.nodes();
                        let n = self.object_pool.borrow_mut(ch);
                        if n.sibling_handle == Some(handle) {
                            n.sibling_handle = sibling_handle;
                            proof {
                                if k != i - 1 {
                                    lemma_sibling_pred(m, root, c, d, handle@, ch@);
                                }
                                assert(self.nodes() =~= p1);
                            }
                        } else {
                            proof {
                                if k == i - 1 {
                                    assert(m[pred].sibling == Some(handle@));
                                }
                                assert(self.nodes().slots =~= before.slots);
                            }
                        }
                        cur = self.object_pool.borrow(ch).sibling_handle;
                        proof {
                            if k == i - 1 {
                                k = i + 1;
                            } else {
                                k = k + 1;
                            }
                        }
                    },
                    None => {
                        break;
                    },
                }
            }
            proof {
                assert forall|q: (usize, u32)| #[trigger] m.dom().contains(q) && m[q].sibling == Some(handle@) implies q == pred by {
                    lemma_sibling_pred(m, root, c, d, handle@, q);
                }
                lemma_live_links(self.nodes(), live, unlink(m, handle@));
            }
        }
    }
}

/// Emptying the slot of a node drops it from the pool without the
/// handles of `gone`.
proof fn lemma_pool_without_step(pu: PoolModel<Node>, gone: Set<(usize, u32)>, y: (usize, u32))
    requires
        pu.valid(y),
        pu.slots.len() <= usize::MAX,
    ensures
        pool_without(pu, gone).set(y.0, None) == pool_without(pu, gone.insert(y)),
{
    let a = pool_without(pu, gone).set(y.0, None);
    let b = pool_without(pu, gone.insert(y));
    assert(pu.slots[y.0 as int].0 == y.1);
    assert forall|i: int| 0 <= i < a.slots.len() implies a.slots[i] == b.slots[i] by {
        if i == y.0 {
            assert(gone.insert(y).contains((i as usize, pu.slots[i].0)));
        } else {
            assert((i as usize, pu.slots[i].0) != y);
            assert(gone.insert(y).contains((i as usize, pu.slots[i].0)) == gone.contains((i as usize, pu.slots[i].0)));
        }
    }
    assert(a.slots =~= b.slots);
}

/// Emptying no slot leaves a pool as it is.
proof fn lemma_pool_without_empty(p: PoolModel<Node>)
    ensures
        pool_without(p, Set::empty()) == p,
{
    assert(pool_without(p, Set::empty()).slots =~= p.slots);
}

/// Agreeing but for links keeps a pool well formed.
proof fn lemma_same_but_links_wf(a: PoolModel<Node>, b: PoolModel<Node>, live: Set<(usize, u32)>)
    requires
        same_but_links(a, b, live),
        a.wf(),
    ensures
        b.wf(),
{
    assert forall|i: int| 0 <= i < b.slots.len() implies #[trigger] b.slots[i].0 >= 1 by {
        assert(same_slot_but_links(a.slots[i], b.slots[i], live.contains((i as usize, a.slots[i].0))));
    }
    assert forall|k: int| 0 <= k < b.free.len() implies #[trigger] b.free[k] < b.slots.len()
        && b.slots[b.free[k] as int].1 is None by {
        let i = b.free[k] as int;
        assert(same_slot_but_links(a.slots[i], b.slots[i], live.contains((i as usize, a.slots[i].0))));
    }
}

/// What agreeing but for links says of one handle.
proof fn lemma_same_but_links_at(a: PoolModel<Node>, b: PoolModel<Node>, live: Set<(usize, u32)>, h: (usize, u32))
    requires
        same_but_links(a, b, live),
    ensures
        a.valid(h) <==> b.valid(h),
        a.valid(h) ==> same_payload(a.lookup(h)->0, b.lookup(h)->0),
        !live.contains(h) ==> a.lookup(h) == b.lookup(h),
{
    if h.0 < a.slots.len() {
        let i = h.0 as int;
        assert(same_slot_but_links(a.slots[i], b.slots[i], live.contains((i as usize, a.slots[i].0))));
    }
}

/// The extension of a node outside `gone` is still held once those of
/// `gone` are destroyed.
proof fn lemma_ext_still_held(
    p0: PoolModel<Node>,
    e0: NodeExtensionPools,
    e1: NodeExtensionPools,
    gone: Set<(usize, u32)>,
    y: (usize, u32),
    ext: NodeExtensionHandle,
)
    requires
        p0.valid(y),
        !gone.contains(y),
        forall|g: (usize, u32)| #[trigger] gone.contains(g) ==> p0.valid(g),
        ext == p0.lookup(y)->0.node_extension,
        e0.holds(ext),
        forall|h: (usize, u32), g: (usize, u32)|
            #[trigger] p0.valid(h) && #[trigger] p0.valid(g) && h != g && ext_key(p0.lookup(h)->0.node_extension) is Some
                ==> ext_key(p0.lookup(h)->0.node_extension) != ext_key(p0.lookup(g)->0.node_extension),
        exts_removed(e0, e1, ext_keys_of(p0, gone)),
    ensures
        e1.holds(ext),
        ext_key(ext) is Some ==> !ext_keys_of(p0, gone).contains(ext_key(ext)->0),
{
    let ek = ext_key(ext);
    if ek is Some {
        assert(!ext_keys_of(p0, gone).contains(ek->0)) by {
            if ext_keys_of(p0, gone).contains(ek->0) {
                let g = choose|g: (usize, u32)| #[trigger] gone.contains(g) && ext_key(p0.lookup(g)->0.node_extension) == Some(ek->0);
                assert(gone.contains(g));
                assert(p0.valid(g));
            }
        }
    }
}

/// Destroying the extension of one more node of `gone`.
proof fn lemma_destroy_step_exts(
    p0: PoolModel<Node>,
    e0: NodeExtensionPools,
    e1: NodeExtensionPools,
    e2: NodeExtensionPools,
    gone: Set<(usize, u32)>,
    y: (usize, u32),
    ext: NodeExtensionHandle,
)
    requires
        p0.valid(y),
        !gone.contains(y),
        forall|g: (usize, u32)| #[trigger] gone.contains(g) ==> p0.valid(g),
        ext == p0.lookup(y)->0.node_extension,
        e0.holds(ext),
        forall|h: (usize, u32), g: (usize, u32)|
            #[trigger] p0.valid(h) && #[trigger] p0.valid(g) && h != g && ext_key(p0.lookup(h)->0.node_extension) is Some
                ==> ext_key(p0.lookup(h)->0.node_extension) != ext_key(p0.lookup(g)->0.node_extension),
        e1.wf(),
        exts_removed(e0, e1, ext_keys_of(p0, gone)),
        match ext {
            NodeExtensionHandle::Nothing => e2 == e1,
            NodeExtensionHandle::Sprite(v) => e2.sprite_pool@ == e1.sprite_pool@.remove(v@)
                && e2.camera_pool == e1.camera_pool && e2.rect_collider_pool == e1.rect_collider_pool,
            NodeExtensionHandle::Camera(v) => e2.camera_pool@ == e1.camera_pool@.remove(v@)
                && e2.sprite_pool == e1.sprite_pool && e2.rect_collider_pool == e1.rect_collider_pool,
            NodeExtensionHandle::RectCollider(v) => e2.rect_collider_pool@ == e1.rect_collider_pool@.remove(v@)
                && e2.sprite_pool == e1.sprite_pool && e2.camera_pool == e1.camera_pool,
        },
    ensures
        exts_removed(e0, e2, ext_keys_of(p0, gone.insert(y))),
{
    let ek = ext_key(ext);
    lemma_ext_still_held(p0, e0, e1, gone, y, ext);
    match ext {
        NodeExtensionHandle::Nothing => {},
        NodeExtensionHandle::Sprite(v) => { lemma_remove_lookup(e1.sprite_pool@, v@); },
        NodeExtensionHandle::Camera(v) => { lemma_remove_lookup(e1.camera_pool@, v@); },
        NodeExtensionHandle::RectCollider(v) => { lemma_remove_lookup(e1.rect_collider_pool@, v@); },
    }
    let gone2 = gone.insert(y);
    let gone_ext2 = match ek {
        Some(e) => ext_keys_of(p0, gone).insert(e),
        None => ext_keys_of(p0, gone),
    };
    assert(ext_keys_of(p0, gone2) =~= gone_ext2) by {
        assert forall|e: (int, (usize, u32))| ext_keys_of(p0, gone2).contains(e) implies gone_ext2.contains(e) by {
            let g = choose|g: (usize, u32)| #[trigger] gone2.contains(g) && ext_key(p0.lookup(g)->0.node_extension) == Some(e);
            if g != y {
                assert(gone.contains(g));
            }
        }
        assert forall|e: (int, (usize, u32))| gone_ext2.contains(e) implies ext_keys_of(p0, gone2).contains(e) by {
            if ext_keys_of(p0, gone).contains(e) {
                let g = choose|g: (usize, u32)| #[trigger] gone.contains(g) && ext_key(p0.lookup(g)->0.node_extension) == Some(e);
                assert(gone2.contains(g));
            } else {
                assert(gone2.contains(y));
            }
        }
    }
}

/// Emptying the slots of `s` leaves the other handles as they were.
proof fn lemma_pool_without_lookup(p: PoolModel<Node>, s: Set<(usize, u32)>, v: (usize, u32))
    ensures
        !s.contains(v) ==> pool_without(p, s).lookup(v) == p.lookup(v),
        s.contains(v) ==> pool_without(p, s).lookup(v) is None,
{
}

/// A node at or below a child of `y` lies below `y`.
proof fn lemma_child_subtree_below(
    m: Map<(usize, u32), Links<(usize, u32)>>,
    root: (usize, u32),
    c: spec_fn((usize, u32)) -> Seq<(usize, u32)>,
    d: spec_fn((usize, u32)) -> nat,
    y: (usize, u32),
    j: int,
    z: (usize, u32),
)
    requires
        witness_ok(m, root, c, d),
        m.dom().contains(y),
        0 <= j < c(y).len(),
        destroyed_by(m, c(y)[j]).contains(z),
    ensures
        desc_set(m, y).contains(z),
        z != y,
{
    assert(chain_ok(m, y, c(y), d));
    let w = c(y)[j];
    assert(m.dom().contains(w) && m[w].parent == Some(y));
    if z == w {
        crate::tree::lemma_child_is_desc(m, y, y, w);
    } else {
        lemma_desc_through_child(m, y, w, z);
    }
    crate::tree::lemma_desc_facts(m, root, c, d, y, z);
}

/// A node below `y` lies at or below one of the children of `y`.
proof fn lemma_subtree_split(
    m: Map<(usize, u32), Links<(usize, u32)>>,
    root: (usize, u32),
    c: spec_fn((usize, u32)) -> Seq<(usize, u32)>,
    d: spec_fn((usize, u32)) -> nat,
    y: (usize, u32),
    z: (usize, u32),
)
    requires
        witness_ok(m, root, c, d),
        desc_set(m, y).contains(z),
    ensures
        subtrees_of(m, c(y), c(y).len() as int).contains(z),
{
    reveal(crate::tree::is_desc);
    let n = choose|n: nat| n >= 1 && #[trigger] crate::tree::ancestor_at(m, z, n) == Some(y);
    lemma_ancestor_last(m, z, n);
    let w = crate::tree::ancestor_at(m, z, (n - 1) as nat)->0;
    assert(m.dom().contains(w) && m[w].parent == Some(y));
    assert(w != root);
    assert(c(y).contains(w));
    let j = c(y).index_of(w);
    assert(c(y)[j] == w);
    if n == 1 {
        assert(z == w);
    } else {
        assert(crate::tree::is_desc(m, w, z));
    }
    assert(destroyed_by(m, c(y)[j]).contains(z));
}

/// No node lies at or below two children of one node.
proof fn lemma_child_subtrees_apart(
    m: Map<(usize, u32), Links<(usize, u32)>>,
    root: (usize, u32),
    c: spec_fn((usize, u32)) -> Seq<(usize, u32)>,
    d: spec_fn((usize, u32)) -> nat,
    y: (usize, u32),
    j: int,
    k: int,
    z: (usize, u32),
)
    requires
        witness_ok(m, root, c, d),
        m.dom().contains(y),
        0 <= j < c(y).len(),
        0 <= k < c(y).len(),
        destroyed_by(m, c(y)[j]).contains(z),
        destroyed_by(m, c(y)[k]).contains(z),
    ensures
        j == k,
{
    reveal(crate::tree::is_desc);
    let n1: nat = if z == c(y)[j] {
        0
    } else {
        choose|n: nat| n >= 1 && #[trigger] crate::tree::ancestor_at(m, z, n) == Some(c(y)[j])
    };
    let n2: nat = if z == c(y)[k] {
        0
    } else {
        choose|n: nat| n >= 1 && #[trigger] crate::tree::ancestor_at(m, z, n) == Some(c(y)[k])
    };
    assert(crate::tree::ancestor_at(m, z, 0) == Some(z));
    lemma_subtrees_apart(m, root, c, d, y, j, k, z, n1, n2);
}

/// The extensions of the nodes of `p0` that a call may destroy: every node
/// holds its extension and no two nodes share one.
pub open spec fn exts_owned(p0: PoolModel<Node>, e0: NodeExtensionPools) -> bool {
    &&& forall|h: (usize, u32)| #[trigger] p0.valid(h) ==> e0.holds(p0.lookup(h)->0.node_extension)
    &&& forall|h: (usize, u32), g: (usize, u32)|
        #[trigger] p0.valid(h) && #[trigger] p0.valid(g) && h != g && ext_key(p0.lookup(h)->0.node_extension) is Some
            ==> ext_key(p0.lookup(h)->0.node_extension) != ext_key(p0.lookup(g)->0.node_extension)
}

/// Takes `y` and every node below it, as the links of `m` place them, out
/// of the pool and destroys their extensions. The pool is `pu` with the
/// slots of `gone` emptied; `p0` and `e0` are the pool and the extensions
/// before any node was destroyed.
#[verifier::rlimit(40)]
#[verifier::spinoff_prover]
fn take_subtree(
    pool: &mut Pool<Node>,
    exts: &mut NodeExtensionPools,
    y: Handle<Node>,
    Ghost(m): Ghost<Map<(usize, u32), Links<(usize, u32)>>>,
    Ghost(root): Ghost<(usize, u32)>,
    Ghost(c): Ghost<spec_fn((usize, u32)) -> Seq<(usize, u32)>>,
    Ghost(d): Ghost<spec_fn((usize, u32)) -> nat>,
    Ghost(p0): Ghost<PoolModel<Node>>,
    Ghost(pu): Ghost<PoolModel<Node>>,
    Ghost(e0): Ghost<NodeExtensionPools>,
    Ghost(gone): Ghost<Set<(usize, u32)>>,
)
    requires
        witness_ok(m, root, c, d),
        m.dom().contains(y@),
        same_but_links(p0, pu, m.dom()),
        exts_owned(p0, e0),
        forall|z: (usize, u32)| #[trigger] destroyed_by(m, y@).contains(z)
            ==> pu.valid(z) && node_links(pu.lookup(z)->0) == m[z] && !gone.contains(z),
        forall|g: (usize, u32)| #[trigger] gone.contains(g) ==> p0.valid(g),
        old(pool)@ == pool_without(pu, gone),
        old(pool)@.wf(),
        old(exts).wf(),
        exts_removed(e0, *old(exts), ext_keys_of(p0, gone)),
    ensures
        final(pool)@ == pool_without(pu, gone + destroyed_by(m, y@)),
        final(pool)@.wf(),
        final(exts).wf(),
        exts_removed(e0, *final(exts), ext_keys_of(p0, gone + destroyed_by(m, y@))),
    decreases desc_set(m, y@).len(),
{
    let ghost sub = destroyed_by(m, y@);
    let ghost cs = c(y@);
    proof {
        assert(sub.contains(y@));
        lemma_pool_without_lookup(pu, gone, y@);
        lemma_same_but_links_at(p0, pu, m.dom(), y@);
        pool.lemma_slots_bound();
        assert(chain_ok(m, y@, cs, d));
    }
    let (_t, node) = pool.take(y);
    let ghost e_before = *exts;
    proof {
        assert(node == pu.lookup(y@)->0);
        assert(p0.valid(y@));
        assert(e0.holds(p0.lookup(y@)->0.node_extension));
        lemma_ext_still_held(p0, e0, e_before, gone, y@, node.node_extension);
    }
    exts.destroy_extension(node.node_extension);
    let ghost mut done: Set<(usize, u32)> = gone.insert(y@);
    proof {
        lemma_destroy_step_exts(p0, e0, e_before, *exts, gone, y@, node.node_extension);
        lemma_pool_without_step(pu, gone, y@);
        assert(subtrees_of(m, cs, 0) =~= Set::empty());
        assert(done =~= gone.insert(y@) + subtrees_of(m, cs, 0));
    }
    let mut cur = node.child_handle;
    let ghost mut k: int = 0;
    loop
        invariant
            witness_ok(m, root, c, d),
            m.dom().contains(y@),
            same_but_links(p0, pu, m.dom()),
            exts_owned(p0, e0),
            forall|z: (usize, u32)| #[trigger] destroyed_by(m, y@).contains(z)
                ==> pu.valid(z) && node_links(pu.lookup(z)->0) == m[z] && !gone.contains(z),
            forall|g: (usize, u32)| #[trigger] gone.contains(g) ==> p0.valid(g),
            sub == destroyed_by(m, y@),
            cs == c(y@),
            chain_ok(m, y@, cs, d),
            0 <= k <= cs.len(),
            opt_view(cur) == (if k < cs.len() {
                Some(cs[k])
            } else {
                None::<(usize, u32)>
            }),
            done == gone.insert(y@) + subtrees_of(m, cs, k),
            pool@ == pool_without(pu, done),
            pool@.wf(),
            exts.wf(),
            exts_removed(e0, *exts, ext_keys_of(p0, done)),
        ensures
            done == gone.insert(y@) + subtrees_of(m, cs, cs.len() as int),
            pool@ == pool_without(pu, done),
            pool@.wf(),
            exts.wf(),
            exts_removed(e0, *exts, ext_keys_of(p0, done)),
        decreases cs.len() - k,
    {
        match cur {
            Some(h) => {
                let ghost w = cs[k];
                proof {
                    assert(m.dom().contains(w) && m[w].parent == Some(y@));
                    assert forall|z: (usize, u32)| #[trigger] destroyed_by(m, w).contains(z) implies
                        pu.valid(z) && node_links(pu.lookup(z)->0) == m[z] && !done.contains(z) by {
                        lemma_child_subtree_below(m, root, c, d, y@, k, z);
                        assert(sub.contains(z));
                        if subtrees_of(m, cs, k).contains(z) {
                            let j = choose|j: int| 0 <= j < k && #[trigger] destroyed_by(m, cs[j]).contains(z);
                            lemma_child_subtrees_apart(m, root, c, d, y@, j, k, z);
                        }
                    }
                    assert forall|g: (usize, u32)| #[trigger] done.contains(g) implies p0.valid(g) by {
                        if !gone.contains(g) {
                            if g == y@ {
                                assert(sub.contains(g));
                            } else {
                                let j = choose|j: int| 0 <= j < k && #[trigger] destroyed_by(m, cs[j]).contains(g);
                                lemma_child_subtree_below(m, root, c, d, y@, j, g);
                                assert(sub.contains(g));
                            }
                            lemma_same_but_links_at(p0, pu, m.dom(), g);
                        }
                    }
                    assert(destroyed_by(m, w).contains(w));
                    lemma_pool_without_lookup(pu, done, w);
                    lemma_desc_child_smaller(m, root, c, d, y@, w);
                }
                let next = pool.borrow(h).sibling_handle;
                take_subtree(pool, exts, h, Ghost(m), Ghost(root), Ghost(c), Ghost(d), Ghost(p0), Ghost(pu), Ghost(e0), Ghost(done));
                proof {
                    let done2 = done + destroyed_by(m, w);
                    assert(done2 =~= gone.insert(y@) + subtrees_of(m, cs, k + 1)) by {
                        assert forall|z: (usize, u32)| subtrees_of(m, cs, k + 1).contains(z) implies done2.contains(z) by {
                            let j = choose|j: int| 0 <= j < k + 1 && #[trigger] destroyed_by(m, cs[j]).contains(z);
                            if j < k {
                                assert(subtrees_of(m, cs, k).contains(z));
                            }
                        }
                        assert forall|z: (usize, u32)| destroyed_by(m, w).contains(z) implies subtrees_of(m, cs, k + 1).contains(z) by {
                            assert(destroyed_by(m, cs[k]).contains(z));
                        }
                        assert forall|z: (usize, u32)| subtrees_of(m, cs, k).contains(z) implies subtrees_of(m, cs, k + 1).contains(z) by {
                            let j = choose|j: int| 0 <= j < k && #[trigger] destroyed_by(m, cs[j]).contains(z);
                            assert(destroyed_by(m, cs[j]).contains(z));
                        }
                    }
                    done = done2;
                    k = k + 1;
                }
                cur = next;
            },
            None => {
                break;
            },
        }
    }
    proof {
        assert(done =~= gone + sub) by {
            assert forall|z: (usize, u32)| sub.contains(z) && z != y@ implies subtrees_of(m, cs, cs.len() as int).contains(z) by {
                lemma_subtree_split(m, root, c, d, y@, z);
            }
            assert forall|z: (usize, u32)| subtrees_of(m, cs, cs.len() as int).contains(z) implies sub.contains(z) by {
                let j = choose|j: int| 0 <= j < cs.len() && #[trigger] destroyed_by(m, cs[j]).contains(z);
                lemma_child_subtree_below(m, root, c, d, y@, j, z);
            }
        }
    }
}

/// What `destroy_now` leaves, once the nodes are taken out.
#[verifier::rlimit(50)]
proof fn lemma_destroy_now_done(
    h0: Hierarchy,
    h1: Hierarchy,
    x: (usize, u32),
    pu: PoolModel<Node>,
    c: spec_fn((usize, u32)) -> Seq<(usize, u32)>,
    d: spec_fn((usize, u32)) -> nat,
)
    requires
        h0.wf(),
        witness_ok(h0.live_links(), h0.root@, c, d),
        h0.live_links().dom() == h0.live@,
        h0.live@.contains(x),
        x != h0.root@,
        h1.root == h0.root,
        h1.live@ == h0.live@.difference(destroyed_by(h0.live_links(), x)),
        same_but_links(h0.nodes(), pu, h0.live@),
        links_of(pu).restrict(h0.live@) == unlink(h0.live_links(), x),
        unlink(h0.live_links(), x).dom() == h0.live_links().dom(),
        h1.nodes() == pool_without(pu, destroyed_by(h0.live_links(), x)),
        h1.nodes().wf(),
        h1.node_ext_pools.wf(),
        exts_removed(h0.node_ext_pools, h1.node_ext_pools, ext_keys_of(h0.nodes(), destroyed_by(h0.live_links(), x))),
    ensures
        h1.wf(),
        h1.live_links() == destroy_links(h0.live_links(), x),
        h1.live@ == destroy_links(h0.live_links(), x).dom(),
        forall|h: (usize, u32)| #[trigger] h1.nodes().valid(h) <==> (h0.nodes().valid(h)
            && !destroyed_by(h0.live_links(), x).contains(h)),
        forall|h: (usize, u32)| #[trigger] h1.nodes().valid(h) ==> same_payload(h0.node(h), h1.node(h)),
        forall|h: (usize, u32)| #[trigger] h1.nodes().valid(h) && !h1.live@.contains(h)
            ==> h1.nodes().lookup(h) == h0.nodes().lookup(h),
{
    let m = h0.live_links();
    let root = h0.root@;
    let live = h0.live@;
    let p0 = h0.nodes();
    let e0 = h0.node_ext_pools;
    let dset = destroyed_by(m, x);
    let gone = dset;
    let gone_ext = ext_keys_of(p0, gone);
    let new_live = h1.live@;
    let dl = destroy_links(m, x);
    crate::tree::lemma_delete_keeps_tree(m, root, x);
    assert(dl.dom() =~= new_live);
    assert forall|h: (usize, u32)| #[trigger] new_live.contains(h) implies !gone.contains(h) && h1.nodes().lookup(h) == pu.lookup(h) by {
        lemma_pool_without_lookup(pu, gone, h);
    }
    assert forall|h: (usize, u32)| #[trigger] new_live.contains(h) implies node_links(h1.nodes().lookup(h)->0) == dl[h] by {
        assert(links_of(pu).restrict(live)[h] == unlink(m, x)[h]);
    }
    assert(new_live.subset_of(h1.nodes().handles())) by {
        assert forall|h: (usize, u32)| new_live.contains(h) implies h1.nodes().handles().contains(h) by {
            assert(live.contains(h));
            assert(p0.valid(h));
            lemma_same_but_links_at(p0, pu, live, h);
        }
    }
    lemma_live_links(h1.nodes(), new_live, dl);
    assert forall|h: (usize, u32)| #[trigger] h1.nodes().valid(h) <==> (p0.valid(h) && !dset.contains(h)) by {
        lemma_pool_without_lookup(pu, gone, h);
        lemma_same_but_links_at(p0, pu, live, h);
    }
    assert forall|h: (usize, u32)| #[trigger] h1.nodes().valid(h) implies same_payload(h0.node(h), h1.node(h)) by {
        lemma_pool_without_lookup(pu, gone, h);
        lemma_same_but_links_at(p0, pu, live, h);
    }
    assert forall|h: (usize, u32)| #[trigger] h1.nodes().valid(h) && !h1.live@.contains(h)
        implies h1.nodes().lookup(h) == p0.lookup(h) by {
        lemma_pool_without_lookup(pu, gone, h);
        lemma_same_but_links_at(p0, pu, live, h);
        if live.contains(h) {
            assert(dset.contains(h));
        }
    }
    assert forall|h: (usize, u32)| #[trigger] h1.nodes().valid(h) implies h1.node_ext_pools.holds(h1.node(h).node_extension) by {
        assert(same_payload(h0.node(h), h1.node(h)));
        assert(p0.valid(h));
        assert(e0.holds(h0.node(h).node_extension));
        let ek = ext_key(h0.node(h).node_extension);
        if ek is Some && gone_ext.contains(ek->0) {
            let g = choose|g: (usize, u32)| #[trigger] gone.contains(g) && ext_key(p0.lookup(g)->0.node_extension) == Some(ek->0);
            assert(gone.contains(g));
            assert(m.dom().contains(g));
            assert(live.contains(g));
            assert(p0.valid(g));
        }
    }
    assert forall|h: (usize, u32), g: (usize, u32)|
        #[trigger] h1.nodes().valid(h) && #[trigger] h1.nodes().valid(g) && h != g && ext_key(h1.node(h).node_extension) is Some
        implies ext_key(h1.node(h).node_extension) != ext_key(h1.node(g).node_extension) by {
        assert(same_payload(h0.node(h), h1.node(h)));
        assert(same_payload(h0.node(g), h1.node(g)));
        assert(p0.valid(h) && p0.valid(g));
    }
    let e1 = h1.node_ext_pools;
    assert forall|n: (usize, u32), k: (int, (usize, u32))| h0.owns_ext(n, k) && !gone_ext.contains(k)
        implies #[trigger] h1.owns_ext(n, k) by {
        if gone.contains(n) {
            assert(gone.contains(n) && ext_key(p0.lookup(n)->0.node_extension) == Some(k));
            assert(ext_keys_of(p0, gone).contains(k));
        }
        assert(h1.nodes().valid(n));
        assert(same_payload(h0.node(n), h1.node(n)));
    }
    assert forall|v: (usize, u32)| #[trigger] e1.sprite_pool@.valid(v)
        implies h1.owns_ext(e1.sprite_pool@.lookup(v)->0.node_handle@, (0int, v)) by {
        assert(e0.sprite_pool@.valid(v));
    }
    assert forall|v: (usize, u32)| #[trigger] e1.camera_pool@.valid(v)
        implies h1.owns_ext(e1.camera_pool@.lookup(v)->0.node_handle@, (1int, v)) by {
        assert(e0.camera_pool@.valid(v));
    }
    assert forall|v: (usize, u32)| #[trigger] e1.rect_collider_pool@.valid(v)
        implies h1.owns_ext(e1.rect_collider_pool@.lookup(v)->0.node_handle@, (2int, v)) by {
        assert(e0.rect_collider_pool@.valid(v));
    }
}

impl Hierarchy {
    /// Destroys `x` at once: it leaves its parent's children, and its slot
    /// and those of every node below it are emptied, their extensions
    /// destroyed.
    fn destroy_now(&mut self, x: Handle<Node>)
        requires
            old(self).wf(),
            old(self).live@.contains(x@),
            x@ != old(self).root@,
        ensures
            final(self).wf(),
            final(self).live_links() == destroy_links(old(self).live_links(), x@),
            final(self).live@ == destroy_links(old(self).live_links(), x@).dom(),
            forall|h: (usize, u32)| #[trigger] final(self).nodes().valid(h) <==> (old(self).nodes().valid(h)
                && !destroyed_by(old(self).live_links(), x@).contains(h)),
            forall|h: (usize, u32)| #[trigger] final(self).nodes().valid(h) ==> same_payload(old(self).node(h), final(self).node(h)),
            forall|h: (usize, u32)| #[trigger] final(self).nodes().valid(h) && !final(self).live@.contains(h)
                ==> final(self).nodes().lookup(h) == old(self).nodes().lookup(h),
            exts_removed(old(self).node_ext_pools, final(self).node_ext_pools, ext_keys_of(old(self).nodes(),
                destroyed_by(old(self).live_links(), x@))),
            final(self).root == old(self).root,
            final(self).to_start_stack == old(self).to_start_stack,
            final(self).to_destroy_stack == old(self).to_destroy_stack,
            final(self).game_data == old(self).game_data,
    {
        let ghost m = self.live_links();
        let ghost live = self.live@;
        let ghost root = self.root@;
        let ghost p0 = self.nodes();
        let ghost e0 = self.node_ext_pools;
        let ghost (c, d) = choose|c: spec_fn((usize, u32)) -> Seq<(usize, u32)>, d: spec_fn((usize, u32)) -> nat|
            witness_ok(m, root, c, d);
        let ghost dset = destroyed_by(m, x@);
        proof {
            assert(witness_ok(m, root, c, d));
            assert(m.dom() =~= live);
            assert(m.dom().contains(x@));
            crate::tree::lemma_unlink_fixed(m, root, c, d, x@);
        }
        self.unlink_node(x);
        let ghost pu = self.nodes();
        proof {
            lemma_same_but_links_wf(p0, pu, live);
            lemma_pool_without_empty(pu);
            assert forall|z: (usize, u32)| #[trigger] dset.contains(z)
                implies pu.valid(z) && node_links(pu.lookup(z)->0) == m[z] && !Set::<(usize, u32)>::empty().contains(z) by {
                assert(m.dom().contains(z));
                lemma_unlink_keeps_below(m, root, c, d, x@, z);
                assert(links_of(pu).restrict(live)[z] == unlink(m, x@)[z]);
                assert(p0.valid(z));
                lemma_same_but_links_at(p0, pu, live, z);
            }
            assert(ext_keys_of(p0, Set::empty()) =~= Set::empty());
            assert(exts_owned(p0, e0));
        }
        take_subtree(&mut self.object_pool, &mut self.node_ext_pools, x, Ghost(m), Ghost(root), Ghost(c), Ghost(d),
            Ghost(p0), Ghost(pu), Ghost(e0), Ghost(Set::empty()));
        proof {
            assert(Set::<(usize, u32)>::empty() + dset =~= dset);
            self.live = Ghost(live.difference(dset));
            lemma_destroy_now_done(*old(self), *self, x@, pu, c, d);
        }
    }
}

/// The views of a list of handles.
pub open spec fn handle_views<T>(s: Seq<Handle<T>>) -> Seq<(usize, u32)> {
    s.map_values(|h: Handle<T>| h@)
}

/// Every extension that `b` holds, `a` held with the same value.
pub open spec fn exts_kept(a: NodeExtensionPools, b: NodeExtensionPools) -> bool {
    &&& forall|v: (usize, u32)| #[trigger] b.sprite_pool@.valid(v) ==> b.sprite_pool@.lookup(v) == a.sprite_pool@.lookup(v)
    &&& forall|v: (usize, u32)| #[trigger] b.camera_pool@.valid(v) ==> b.camera_pool@.lookup(v) == a.camera_pool@.lookup(v)
    &&& forall|v: (usize, u32)| #[trigger] b.rect_collider_pool@.valid(v) ==> b.rect_collider_pool@.lookup(v) == a.rect_collider_pool@.lookup(v)
}

impl Hierarchy {
    /// Queues a node to be destroyed with what lies below it when the frame
    /// ends.
    pub fn destroy_node(&mut self, handle: Handle<Node>)
        ensures
            final(self).to_destroy_stack@ == old(self).to_destroy_stack@.push(handle),
            final(self).root == old(self).root,
            final(self).object_pool == old(self).object_pool,
            final(self).node_ext_pools == old(self).node_ext_pools,
            final(self).to_start_stack == old(self).to_start_stack,
            final(self).game_data == old(self).game_data,
            final(self).live == old(self).live,
    {
        self.to_destroy_stack.push(handle);
    }

    /// Destroys the queued nodes, the last queued first: each leaves its
    /// parent's children and goes with what lies below it.
    pub fn process_pending_destroys(&mut self)
        requires
            old(self).wf(),
            destroys_ok(old(self).live_links(), old(self).root@, handle_views(old(self).to_destroy_stack@)),
        ensures
            final(self).wf(),
            final(self).to_destroy_stack@.len() == 0,
            final(self).live_links() == after_destroys(old(self).live_links(), handle_views(old(self).to_destroy_stack@)),
            final(self).live@ == final(self).live_links().dom(),
            forall|h: (usize, u32)| #[trigger] final(self).nodes().valid(h) ==> old(self).nodes().valid(h)
                && same_payload(old(self).node(h), final(self).node(h)),
            forall|h: (usize, u32)| #[trigger] old(self).nodes().valid(h) && !old(self).live@.contains(h)
                ==> final(self).nodes().lookup(h) == old(self).nodes().lookup(h),
            exts_kept(old(self).node_ext_pools, final(self).node_ext_pools),
            forall|h: (usize, u32)| #[trigger] final(self).nodes().valid(h) <==> old(self).nodes().valid(h)
                && !destroyed_nodes(old(self).live_links(), handle_views(old(self).to_destroy_stack@)).contains(h),
            exts_removed(old(self).node_ext_pools, final(self).node_ext_pools, ext_keys_of(old(self).nodes(),
                destroyed_nodes(old(self).live_links(), handle_views(old(self).to_destroy_stack@)))),
            final(self).root == old(self).root,
            final(self).to_start_stack == old(self).to_start_stack,
            final(self).game_data == old(self).game_data,
    {
        let ghost target = after_destroys(old(self).live_links(), handle_views(old(self).to_destroy_stack@));
        let ghost gone = destroyed_nodes(old(self).live_links(), handle_views(old(self).to_destroy_stack@));
        let ghost mut done: Set<(usize, u32)> = Set::empty();
        proof {
            let e0 = old(self).node_ext_pools;
            assert(exts_removed(e0, e0, ext_keys_of(old(self).nodes(), done)));
            assert(destroyed_nodes(self.live_links(), handle_views(self.to_destroy_stack@)) + done =~= gone);
        }
        loop
            invariant
                self.wf(),
                destroys_ok(self.live_links(), self.root@, handle_views(self.to_destroy_stack@)),
                after_destroys(self.live_links(), handle_views(self.to_destroy_stack@)) == target,
                target == after_destroys(old(self).live_links(), handle_views(old(self).to_destroy_stack@)),
                self.live@.subset_of(old(self).live@),
                forall|h: (usize, u32)| #[trigger] self.nodes().valid(h) ==> old(self).nodes().valid(h)
                    && same_payload(old(self).node(h), self.node(h)),
                forall|h: (usize, u32)| #[trigger] old(self).nodes().valid(h) && !old(self).live@.contains(h)
                    ==> self.nodes().lookup(h) == old(self).nodes().lookup(h),
                exts_kept(old(self).node_ext_pools, self.node_ext_pools),
                self.root == old(self).root,
                self.to_start_stack == old(self).to_start_stack,
                self.game_data == old(self).game_data,
                gone == destroyed_nodes(self.live_links(), handle_views(self.to_destroy_stack@)) + done,
                forall|h: (usize, u32)| #[trigger] self.nodes().valid(h) <==> old(self).nodes().valid(h) && !done.contains(h),
                forall|h: (usize, u32)| #[trigger] done.contains(h) ==> old(self).nodes().valid(h),
                exts_removed(old(self).node_ext_pools, self.node_ext_pools, ext_keys_of(old(self).nodes(), done)),
            ensures
                self.to_destroy_stack@.len() == 0,
                forall|h: (usize, u32)| #[trigger] self.nodes().valid(h) <==> old(self).nodes().valid(h) && !gone.contains(h),
                exts_removed(old(self).node_ext_pools, self.node_ext_pools, ext_keys_of(old(self).nodes(), gone)),
                self.wf(),
                self.live_links() == target,
                forall|h: (usize, u32)| #[trigger] self.nodes().valid(h) ==> old(self).nodes().valid(h)
                    && same_payload(old(self).node(h), self.node(h)),
                forall|h: (usize, u32)| #[trigger] old(self).nodes().valid(h) && !old(self).live@.contains(h)
                    ==> self.nodes().lookup(h) == old(self).nodes().lookup(h),
                exts_kept(old(self).node_ext_pools, self.node_ext_pools),
                self.root == old(self).root,
                self.to_start_stack == old(self).to_start_stack,
                self.game_data == old(self).game_data,
            decreases self.to_destroy_stack@.len(),
        {
            let ghost views = handle_views(self.to_destroy_stack@);
            match self.to_destroy_stack.pop() {
                Some(x) => {
                    let ghost before = *self;
                    proof {
                        assert(exts_kept(old(self).node_ext_pools, before.node_ext_pools));
                        assert(handle_views(self.to_destroy_stack@) =~= views.drop_last());
                        assert(views.last() == x@);
                        assert(self.live_links().dom() =~= self.live@);
                    }
                    self.destroy_now(x);
                    proof {
                        let step = destroyed_by(before.live_links(), x@);
                        let ml = before.live_links();
                        assert(destroyed_nodes(ml, views) == step + destroyed_nodes(destroy_links(ml, x@), views.drop_last()));
                        assert forall|h: (usize, u32)| #[trigger] step.contains(h) implies before.nodes().valid(h) by {
                            assert(ml.dom() =~= before.live@);
                            assert(ml.dom().contains(h));
                        }
                        let newdone = done + step;
                        assert forall|h: (usize, u32)| #[trigger] self.nodes().valid(h) <==> old(self).nodes().valid(h) && !newdone.contains(h) by {
                            if self.nodes().valid(h) {
                                assert(before.nodes().valid(h));
                                assert(!step.contains(h));
                            }
                        }
                        assert forall|h: (usize, u32)| #[trigger] newdone.contains(h) implies old(self).nodes().valid(h) by {
                            if step.contains(h) {
                                assert(before.nodes().valid(h));
                            }
                        }
                        let e0 = old(self).node_ext_pools;
                        let e1 = before.node_ext_pools;
                        let e2 = self.node_ext_pools;
                        let g1 = ext_keys_of(old(self).nodes(), done);
                        let gs = ext_keys_of(before.nodes(), step);
                        assert(gs == ext_keys_of(old(self).nodes(), step)) by {
                            assert forall|e: (int, (usize, u32))| #[trigger] gs.contains(e) <==> ext_keys_of(old(self).nodes(), step).contains(e) by {
                                if gs.contains(e) {
                                    let g = choose|g: (usize, u32)| #[trigger] step.contains(g) && ext_key(before.nodes().lookup(g)->0.node_extension) == Some(e);
                                    assert(before.nodes().valid(g));
                                    assert(same_payload(old(self).node(g), before.node(g)));
                                }
                                if ext_keys_of(old(self).nodes(), step).contains(e) {
                                    let g = choose|g: (usize, u32)| #[trigger] step.contains(g) && ext_key(old(self).nodes().lookup(g)->0.node_extension) == Some(e);
                                    assert(before.nodes().valid(g));
                                    assert(same_payload(old(self).node(g), before.node(g)));
                                }
                            }
                            assert(gs =~= ext_keys_of(old(self).nodes(), step));
                        }
                        assert(ext_keys_of(old(self).nodes(), newdone) =~= g1 + gs) by {
                            assert forall|e: (int, (usize, u32))| #[trigger] ext_keys_of(old(self).nodes(), newdone).contains(e) <==> (g1 + gs).contains(e) by {
                                if ext_keys_of(old(self).nodes(), newdone).contains(e) {
                                    let g = choose|g: (usize, u32)| #[trigger] newdone.contains(g) && ext_key(old(self).nodes().lookup(g)->0.node_extension) == Some(e);
                                    if done.contains(g) {
                                        assert(g1.contains(e));
                                    } else {
                                        assert(ext_keys_of(old(self).nodes(), step).contains(e));
                                    }
                                }
                                if g1.contains(e) {
                                    let g = choose|g: (usize, u32)| #[trigger] done.contains(g) && ext_key(old(self).nodes().lookup(g)->0.node_extension) == Some(e);
                                    assert(newdone.contains(g));
                                }
                                if gs.contains(e) {
                                    assert(ext_keys_of(old(self).nodes(), step).contains(e));
                                    let g = choose|g: (usize, u32)| #[trigger] step.contains(g) && ext_key(old(self).nodes().lookup(g)->0.node_extension) == Some(e);
                                    assert(newdone.contains(g));
                                }
                            }
                        }
                        assert(exts_removed(e0, e2, ext_keys_of(old(self).nodes(), newdone)));
                        assert(gone =~= destroyed_nodes(self.live_links(), handle_views(self.to_destroy_stack@)) + newdone);
                        done = newdone;
                    }
                    proof {
                        assert forall|h: (usize, u32)| #[trigger] self.nodes().valid(h) implies old(self).nodes().valid(h)
                            && same_payload(old(self).node(h), self.node(h)) by {
                            assert(before.nodes().valid(h));
                        }
                        assert forall|h: (usize, u32)| #[trigger] old(self).nodes().valid(h) && !old(self).live@.contains(h)
                            implies self.nodes().lookup(h) == old(self).nodes().lookup(h) by {
                            assert(before.nodes().lookup(h) == old(self).nodes().lookup(h));
                            assert(!before.live@.contains(h));
                            assert(!destroyed_by(before.live_links(), x@).contains(h)) by {
                                assert(before.live_links().dom() =~= before.live@);
                            }
                            assert(self.nodes().valid(h));
                        }
                        let e0 = old(self).node_ext_pools;
                        let e1 = before.node_ext_pools;
                        let e2 = self.node_ext_pools;
                        assert forall|v: (usize, u32)| #[trigger] e2.sprite_pool@.valid(v) implies e2.sprite_pool@.lookup(v) == e0.sprite_pool@.lookup(v) by {
                            assert(e2.sprite_pool@.lookup(v) == e1.sprite_pool@.lookup(v));
                            assert(e1.sprite_pool@.valid(v));
                        }
                        assert forall|v: (usize, u32)| #[trigger] e2.camera_pool@.valid(v) implies e2.camera_pool@.lookup(v) == e0.camera_pool@.lookup(v) by {
                            assert(e2.camera_pool@.lookup(v) == e1.camera_pool@.lookup(v));
                            assert(e1.camera_pool@.valid(v));
                        }
                        assert forall|v: (usize, u32)| #[trigger] e2.rect_collider_pool@.valid(v) implies e2.rect_collider_pool@.lookup(v) == e0.rect_collider_pool@.lookup(v) by {
                            assert(e2.rect_collider_pool@.lookup(v) == e1.rect_collider_pool@.lookup(v));
                            assert(e1.rect_collider_pool@.valid(v));
                        }
                    }
                },
                None => {
                    proof {
                        assert(views.len() == 0);
                        assert(gone =~= done);
                    }
                    break;
                },
            }
        }
        proof {
            assert(self.live_links().dom() =~= self.live@);
        }
    }
}

/// Implemented by script types: the number that a script type is known by.
pub trait HasTypeId {
    fn type_id() -> u32;
}

impl Hierarchy {
    /// The children of a node below the root, in sibling order.
    #[verifier::opaque]
    pub open spec fn children(&self, h: (usize, u32)) -> Seq<(usize, u32)> {
        children_of(self.live_links(), self.root@, h)
    }

    /// The first child of `search_root` that `predicate` accepts; the
    /// children are asked in sibling order, up to the first one accepted.
    #[verifier::rlimit(100)]
    pub fn find<P: Fn(&Node) -> bool>(&mut self, search_root: Handle<Node>, predicate: P) -> (r: Option<Handle<Node>>)
        requires
            old(self).wf(),
            old(self).live@.contains(search_root@),
            forall|n: &Node| #[trigger] predicate.requires((n,)),
        ensures
            *final(self) == *old(self),
            match r {
                Some(h) => old(self).children(search_root@).contains(h@)
                    && predicate.ensures((&old(self).node(h@),), true)
                    && forall|j: int| 0 <= j < old(self).children(search_root@).index_of(h@)
                        ==> #[trigger] predicate.ensures((&old(self).node(old(self).children(search_root@)[j]),), false),
                None => forall|j: int| 0 <= j < old(self).children(search_root@).len()
                    ==> #[trigger] predicate.ensures((&old(self).node(old(self).children(search_root@)[j]),), false),
            },
    {
        let ghost m = self.live_links();
        let ghost root = self.root@;
        let ghost (c, d) = choose|c: spec_fn((usize, u32)) -> Seq<(usize, u32)>, d: spec_fn((usize, u32)) -> nat|
            witness_ok(m, root, c, d);
        let ghost cs = c(search_root@);
        proof {
            assert(witness_ok(m, root, c, d));
            lemma_children_of(m, root, c, d);
            assert(m.dom().contains(search_root@));
            assert(chain_ok(m, search_root@, cs, d));
            reveal(Hierarchy::children);
            assert(self.children(search_root@) == cs);
            assert(m.dom() =~= self.live@);
            assert forall|i: int| 0 <= i < cs.len() implies self.nodes().valid(#[trigger] cs[i])
                && opt_view(self.node(cs[i]).sibling_handle) == (if i + 1 < cs.len() { Some(cs[i + 1]) } else { None::<(usize, u32)> }) by {
                assert(m.dom().contains(cs[i]));
                assert(m[cs[i]] == node_links(self.node(cs[i])));
            }
            assert(opt_view(self.node(search_root@).child_handle) == (if cs.len() > 0 { Some(cs[0]) } else { None::<(usize, u32)> })) by {
                assert(m[search_root@] == node_links(self.node(search_root@)));
            }
        }
        let mut cur_node_handle = match self.object_pool.borrow(search_root).child_handle {
            Some(h) => h,
            None => {
                return None;
            },
        };
        let ghost mut k: int = 0;
        loop
            invariant
                cs == self.children(search_root@),
                cs.no_duplicates(),
                forall|i: int| 0 <= i < cs.len() ==> self.nodes().valid(#[trigger] cs[i])
                    && opt_view(self.node(cs[i]).sibling_handle) == (if i + 1 < cs.len() { Some(cs[i + 1]) } else { None::<(usize, u32)> }),
                forall|n: &Node| #[trigger] predicate.requires((n,)),
                0 <= k < cs.len(),
                cur_node_handle@ == cs[k],
                forall|j: int| 0 <= j < k ==> #[trigger] predicate.ensures((&self.node(cs[j]),), false),
            decreases cs.len() - k,
        {
            let cur_node = self.object_pool.borrow(cur_node_handle);
            if predicate(cur_node) {
                proof {
                    assert(cs[k] == cur_node_handle@);
                    assert(cs.index_of(cur_node_handle@) == k) by {
                        assert(cs.contains(cs[k]));
                        let i = cs.index_of(cs[k]);
                        assert(cs[i] == cs[k]);
                    }
                }
                return Some(cur_node_handle);
            }
            cur_node_handle = match cur_node.sibling_handle {
                Some(h) => h,
                None => {
                    return None;
                },
            };
            proof {
                k = k + 1;
            }
        }
    }

    /// The first child of `search_root` with the given name.
    pub fn find_by_name(&mut self, search_root: Handle<Node>, name: &str) -> (r: Option<Handle<Node>>)
        requires
            old(self).wf(),
            old(self).live@.contains(search_root@),
        ensures
            *final(self) == *old(self),
            match r {
                Some(h) => old(self).children(search_root@).contains(h@)
                    && old(self).node(h@).name@ == name@
                    && forall|j: int| 0 <= j < old(self).children(search_root@).index_of(h@)
                        ==> #[trigger] old(self).node(old(self).children(search_root@)[j]).name@ != name@,
                None => forall|j: int| 0 <= j < old(self).children(search_root@).len()
                    ==> #[trigger] old(self).node(old(self).children(search_root@)[j]).name@ != name@,
            },
    {
        let name_s: String = name.to_owned();
        let pred = |x: &Node| -> (b: bool)
            ensures
                b == (x.name@ == name_s@),
        { x.name == name_s };
        let r = self.find(search_root, pred);
        proof {
            assert forall|n: &Node, b: bool| #[trigger] pred.ensures((n,), b) implies b == (n.name@ == name@) by {}
            let cs = old(self).children(search_root@);
            if r is Some {
                assert(cs.contains(r->0@));
                assert(pred.ensures((&old(self).node(r->0@),), true));
                assert(old(self).node(r->0@).name@ == name@);
                assert forall|j: int| 0 <= j < cs.index_of(r->0@) implies #[trigger] old(self).node(cs[j]).name@ != name@ by {
                    assert(pred.ensures((&old(self).node(cs[j]),), false));
                }
            } else {
                assert forall|j: int| 0 <= j < cs.len() implies #[trigger] old(self).node(cs[j]).name@ != name@ by {
                    assert(pred.ensures((&old(self).node(cs[j]),), false));
                }
            }
        }
        r
    }

    /// The first child of `search_root` whose script has the given type id.
    pub fn find_by_script_id(&mut self, search_root: Handle<Node>, type_id: u32) -> (r: Option<Handle<Node>>)
        requires
            old(self).wf(),
            old(self).live@.contains(search_root@),
        ensures
            *final(self) == *old(self),
            match r {
                Some(h) => old(self).children(search_root@).contains(h@)
                    && old(self).node(h@).script_data == Some(NodeScriptData { type_id })
                    && forall|j: int| 0 <= j < old(self).children(search_root@).index_of(h@)
                        ==> #[trigger] old(self).node(old(self).children(search_root@)[j]).script_data != Some(NodeScriptData { type_id }),
                None => forall|j: int| 0 <= j < old(self).children(search_root@).len()
                    ==> #[trigger] old(self).node(old(self).children(search_root@)[j]).script_data != Some(NodeScriptData { type_id }),
            },
    {
        let pred = |x: &Node| -> (b: bool)
            ensures
                b == (x.script_data == Some(NodeScriptData { type_id })),
        {
            match &x.script_data {
                Some(s_data) => s_data.type_id == type_id,
                None => false,
            }
        };
        let r = self.find(search_root, pred);
        proof {
            assert forall|n: &Node, b: bool| #[trigger] pred.ensures((n,), b)
                implies b == (n.script_data == Some(NodeScriptData { type_id })) by {}
            let cs = old(self).children(search_root@);
            if r is Some {
                assert forall|j: int| 0 <= j < cs.index_of(r->0@)
                    implies #[trigger] old(self).node(cs[j]).script_data != Some(NodeScriptData { type_id }) by {
                    assert(pred.ensures((&old(self).node(cs[j]),), false));
                }
            } else {
                assert forall|j: int| 0 <= j < cs.len()
                    implies #[trigger] old(self).node(cs[j]).script_data != Some(NodeScriptData { type_id }) by {
                    assert(pred.ensures((&old(self).node(cs[j]),), false));
                }
            }
        }
        r
    }

    /// The first child of `search_root` whose script is of type `T`: what
    /// `find_by_script_id` gives for the id that `T::type_id` returns.
    pub fn find_by_script_type<T: HasTypeId>(&mut self, search_root: Handle<Node>) -> (r: Option<Handle<Node>>)
        requires
            old(self).wf(),
            old(self).live@.contains(search_root@),
        ensures
            *final(self) == *old(self),
            r is Some ==> old(self).children(search_root@).contains(r->0@)
                && old(self).node(r->0@).script_data is Some,
    {
        let id = T::type_id();
        self.find_by_script_id(search_root, id)
    }
}

/// The sum of `f` over the node `y` of `p` and the `n` nodes above it.
pub open spec fn sum_up(p: PoolModel<Node>, m: Map<(usize, u32), Links<(usize, u32)>>, f: spec_fn(Node) -> int, y: (usize, u32), n: nat) -> int
    decreases n,
{
    f(p.lookup(y)->0) + if n == 0 {
        0
    } else {
        sum_up(p, m, f, m[y].parent->0, (n - 1) as nat)
    }
}

/// The node `y` of `p` and the `n` nodes above it are all enabled.
pub open spec fn all_enabled_up(p: PoolModel<Node>, m: Map<(usize, u32), Links<(usize, u32)>>, y: (usize, u32), n: nat) -> bool
    decreases n,
{
    p.lookup(y)->0.enabled && if n == 0 {
        true
    } else {
        all_enabled_up(p, m, m[y].parent->0, (n - 1) as nat)
    }
}

pub open spec fn pos_x(n: Node) -> int {
    n.transform.x as int
}

pub open spec fn pos_y(n: Node) -> int {
    n.transform.y as int
}

/// Two nodes agree on everything but their global position and state.
pub open spec fn same_but_globals(a: Node, b: Node) -> bool {
    &&& a.child_handle == b.child_handle
    &&& a.parent_handle == b.parent_handle
    &&& a.sibling_handle == b.sibling_handle
    &&& a.name == b.name
    &&& a.transform == b.transform
    &&& a.node_extension == b.node_extension
    &&& a.script_data == b.script_data
    &&& a.enabled == b.enabled
}

/// The node `n + 1` steps above `y` is the parent of the one `n` steps
/// above it.
proof fn lemma_ancestor_step<K>(m: Map<K, Links<K>>, y: K, n: nat, a: K)
    requires
        crate::tree::ancestor_at(m, y, n) == Some(a),
        m.dom().contains(a),
        m[a].parent is Some,
    ensures
        crate::tree::ancestor_at(m, y, n + 1) == m[a].parent,
    decreases n,
{
    if n > 0 {
        assert(m.dom().contains(y) && m[y].parent is Some);
        lemma_ancestor_step(m, m[y].parent->0, (n - 1) as nat, a);
    } else {
        assert(crate::tree::ancestor_at(m, m[a].parent->0, 0) == Some(m[a].parent->0));
    }
}

/// Summing one step further up adds the node one step further up.
proof fn lemma_sum_step(p: PoolModel<Node>, m: Map<(usize, u32), Links<(usize, u32)>>, f: spec_fn(Node) -> int, y: (usize, u32), n: nat, a: (usize, u32))
    requires
        crate::tree::ancestor_at(m, y, n) == Some(a),
        m.dom().contains(a),
        m[a].parent is Some,
    ensures
        sum_up(p, m, f, y, n + 1) == sum_up(p, m, f, y, n) + f(p.lookup(m[a].parent->0)->0),
        all_enabled_up(p, m, y, n + 1) == (all_enabled_up(p, m, y, n) && p.lookup(m[a].parent->0)->0.enabled),
    decreases n,
{
    if n > 0 {
        assert(m.dom().contains(y) && m[y].parent is Some);
        lemma_sum_step(p, m, f, m[y].parent->0, (n - 1) as nat, a);
    } else {
        assert(sum_up(p, m, f, m[a].parent->0, 0) == f(p.lookup(m[a].parent->0)->0));
        assert(all_enabled_up(p, m, m[a].parent->0, 0) == p.lookup(m[a].parent->0)->0.enabled);
    }
}

/// Sums and conjunctions up the tree only read the nodes on the way.
proof fn lemma_sum_same(p: PoolModel<Node>, q: PoolModel<Node>, m: Map<(usize, u32), Links<(usize, u32)>>, f: spec_fn(Node) -> int, y: (usize, u32), n: nat)
    requires
        forall|k: nat| k <= n ==> (#[trigger] crate::tree::ancestor_at(m, y, k)) is Some
            && f(p.lookup(crate::tree::ancestor_at(m, y, k)->0)->0) == f(q.lookup(crate::tree::ancestor_at(m, y, k)->0)->0)
            && p.lookup(crate::tree::ancestor_at(m, y, k)->0)->0.enabled == q.lookup(crate::tree::ancestor_at(m, y, k)->0)->0.enabled,
    ensures
        sum_up(p, m, f, y, n) == sum_up(q, m, f, y, n),
        all_enabled_up(p, m, y, n) == all_enabled_up(q, m, y, n),
    decreases n,
{
    assert(crate::tree::ancestor_at(m, y, 0) == Some(y));
    if n > 0 {
        let py = m[y].parent->0;
        assert(crate::tree::ancestor_at(m, y, 1) is Some);
        assert forall|k: nat| k <= (n - 1) as nat implies (#[trigger] crate::tree::ancestor_at(m, py, k)) is Some
            && f(p.lookup(crate::tree::ancestor_at(m, py, k)->0)->0) == f(q.lookup(crate::tree::ancestor_at(m, py, k)->0)->0)
            && p.lookup(crate::tree::ancestor_at(m, py, k)->0)->0.enabled == q.lookup(crate::tree::ancestor_at(m, py, k)->0)->0.enabled by {
            assert(crate::tree::ancestor_at(m, y, k + 1) == crate::tree::ancestor_at(m, py, k));
        }
        lemma_sum_same(p, q, m, f, py, (n - 1) as nat);
    }
}

/// What lies below a child lies below its parent.
proof fn lemma_desc_through_child<K>(m: Map<K, Links<K>>, x: K, ch: K, y: K)
    requires
        m.dom().contains(ch),
        m[ch].parent == Some(x),
        crate::tree::is_desc(m, ch, y),
    ensures
        crate::tree::is_desc(m, x, y),
{
    reveal(crate::tree::is_desc);
    let n = choose|n: nat| n >= 1 && #[trigger] crate::tree::ancestor_at(m, y, n) == Some(ch);
    lemma_ancestor_step(m, y, n, ch);
    assert(crate::tree::ancestor_at(m, y, n + 1) == Some(x));
}

/// The nodes below a child are fewer than those below its parent.
proof fn lemma_desc_child_smaller<K>(
    m: Map<K, Links<K>>,
    root: K,
    c: spec_fn(K) -> Seq<K>,
    d: spec_fn(K) -> nat,
    x: K,
    ch: K,
)
    requires
        witness_ok(m, root, c, d),
        m.dom().contains(ch),
        m[ch].parent == Some(x),
    ensures
        desc_set(m, ch).len() < desc_set(m, x).len(),
{
    crate::tree::lemma_desc_finite(m, x);
    crate::tree::lemma_desc_finite(m, ch);
    crate::tree::lemma_child_is_desc(m, x, x, ch);
    assert forall|y: K| desc_set(m, ch).contains(y) implies desc_set(m, x).remove(ch).contains(y) by {
        lemma_desc_through_child(m, x, ch, y);
        if y == ch {
            crate::tree::lemma_desc_facts(m, root, c, d, ch, ch);
        }
    }
    vstd::set_lib::lemma_len_subset(desc_set(m, ch), desc_set(m, x).remove(ch));
}

/// The node `n` steps above `y`, for `n >= 1`, is the parent of the one
/// `n - 1` steps above it.
proof fn lemma_ancestor_last<K>(m: Map<K, Links<K>>, y: K, n: nat)
    requires
        n >= 1,
        crate::tree::ancestor_at(m, y, n) is Some,
    ensures
        crate::tree::ancestor_at(m, y, (n - 1) as nat) is Some,
        m.dom().contains(crate::tree::ancestor_at(m, y, (n - 1) as nat)->0),
        m[crate::tree::ancestor_at(m, y, (n - 1) as nat)->0].parent == crate::tree::ancestor_at(m, y, n),
    decreases n,
{
    assert(m.dom().contains(y) && m[y].parent is Some);
    let py = m[y].parent->0;
    if n == 1 {
        assert(crate::tree::ancestor_at(m, y, 0) == Some(y));
        assert(crate::tree::ancestor_at(m, py, 0) == Some(py));
    } else {
        lemma_ancestor_last(m, py, (n - 1) as nat);
    }
}

/// The positions that `h` and the nodes below it get from `(tx, ty)` fit
/// in an `i32`.
pub open spec fn sums_fit(p: PoolModel<Node>, m: Map<(usize, u32), Links<(usize, u32)>>, h: (usize, u32), tx: int, ty: int) -> bool {
    forall|y: (usize, u32), n: nat| #[trigger] crate::tree::ancestor_at(m, y, n) == Some(h) ==> {
        &&& i32::MIN <= sum_up(p, m, |a: Node| pos_x(a), y, n) + tx <= i32::MAX
        &&& i32::MIN <= sum_up(p, m, |a: Node| pos_y(a), y, n) + ty <= i32::MAX
    }
}

/// The global position and state of `y`, which lies `n` steps below a node
/// whose parent's global position and state are `(tx, ty, en)`.
pub open spec fn globals_from(p: PoolModel<Node>, m: Map<(usize, u32), Links<(usize, u32)>>, y: (usize, u32), n: nat, tx: int, ty: int, en: bool) -> (int, int, bool) {
    (
        sum_up(p, m, |a: Node| pos_x(a), y, n) + tx,
        sum_up(p, m, |a: Node| pos_y(a), y, n) + ty,
        all_enabled_up(p, m, y, n) && en,
    )
}

/// The global position and state that a node holds.
pub open spec fn globals_of(n: Node) -> (int, int, bool) {
    (n.global_transform.x as int, n.global_transform.y as int, n.global_enabled)
}

/// A hierarchy whose nodes changed only in their global position and state
/// is still well formed, with the same tree.
proof fn lemma_globals_keep_wf(h0: Hierarchy, h1: Hierarchy)
    requires
        h0.wf(),
        h1.nodes().wf(),
        h1.live == h0.live,
        h1.root == h0.root,
        h1.node_ext_pools == h0.node_ext_pools,
        forall|g: (usize, u32)| #[trigger] h1.nodes().valid(g) <==> h0.nodes().valid(g),
        forall|g: (usize, u32)| #[trigger] h0.nodes().valid(g) ==> same_but_globals(h0.node(g), h1.node(g)),
    ensures
        h1.wf(),
        h1.live_links() == h0.live_links(),
{
    assert(h1.nodes().handles() =~= h0.nodes().handles());
    assert forall|g: (usize, u32)| #[trigger] h1.live@.contains(g) implies node_links(h1.node(g)) == h0.live_links()[g] by {
        assert(h0.nodes().valid(g));
    }
    assert(h0.live_links().dom() =~= h0.live@);
    lemma_live_links(h1.nodes(), h1.live@, h0.live_links());
    assert forall|g: (usize, u32)| #[trigger] h1.nodes().valid(g) implies h1.node_ext_pools.holds(h1.node(g).node_extension) by {
        assert(h0.nodes().valid(g));
    }
    assert forall|g: (usize, u32), k: (usize, u32)|
        #[trigger] h1.nodes().valid(g) && #[trigger] h1.nodes().valid(k) && g != k && ext_key(h1.node(g).node_extension) is Some
        implies ext_key(h1.node(g).node_extension) != ext_key(h1.node(k).node_extension) by {
        assert(h0.nodes().valid(g) && h0.nodes().valid(k));
    }
}

/// The nodes on the way from `y` up to a node of the tree lie in the tree.
proof fn lemma_ancestors_in_dom<K>(m: Map<K, Links<K>>, y: K, n: nat)
    requires
        crate::tree::ancestor_at(m, y, n) is Some,
        m.dom().contains(crate::tree::ancestor_at(m, y, n)->0),
    ensures
        forall|k: nat| k <= n ==> (#[trigger] crate::tree::ancestor_at(m, y, k)) is Some
            && m.dom().contains(crate::tree::ancestor_at(m, y, k)->0),
    decreases n,
{
    if n > 0 {
        assert(m.dom().contains(y) && m[y].parent is Some);
        let py = m[y].parent->0;
        lemma_ancestors_in_dom(m, py, (n - 1) as nat);
        assert forall|k: nat| k <= n implies (#[trigger] crate::tree::ancestor_at(m, y, k)) is Some
            && m.dom().contains(crate::tree::ancestor_at(m, y, k)->0) by {
            if k > 0 {
                assert(crate::tree::ancestor_at(m, y, k) == crate::tree::ancestor_at(m, py, (k - 1) as nat));
            }
        }
    }
}

/// The sums up the tree from `y` are the same in two pools whose nodes of
/// the tree agree but for their global position and state.
proof fn lemma_sums_agree(p: PoolModel<Node>, q: PoolModel<Node>, m: Map<(usize, u32), Links<(usize, u32)>>, y: (usize, u32), n: nat)
    requires
        crate::tree::ancestor_at(m, y, n) is Some,
        m.dom().contains(crate::tree::ancestor_at(m, y, n)->0),
        forall|g: (usize, u32)| #[trigger] m.dom().contains(g) ==> p.valid(g),
        forall|g: (usize, u32)| #[trigger] p.valid(g) ==> same_but_globals(p.lookup(g)->0, q.lookup(g)->0),
    ensures
        forall|tx: int, ty: int, en: bool| #[trigger] globals_from(p, m, y, n, tx, ty, en) == globals_from(q, m, y, n, tx, ty, en),
{
    lemma_ancestors_in_dom(m, y, n);
    assert forall|k: nat| k <= n implies (#[trigger] crate::tree::ancestor_at(m, y, k)) is Some
        && pos_x(p.lookup(crate::tree::ancestor_at(m, y, k)->0)->0) == pos_x(q.lookup(crate::tree::ancestor_at(m, y, k)->0)->0)
        && p.lookup(crate::tree::ancestor_at(m, y, k)->0)->0.enabled == q.lookup(crate::tree::ancestor_at(m, y, k)->0)->0.enabled by {
        assert(p.valid(crate::tree::ancestor_at(m, y, k)->0));
    }
    lemma_sum_same(p, q, m, |a: Node| pos_x(a), y, n);
    assert forall|k: nat| k <= n implies (#[trigger] crate::tree::ancestor_at(m, y, k)) is Some
        && pos_y(p.lookup(crate::tree::ancestor_at(m, y, k)->0)->0) == pos_y(q.lookup(crate::tree::ancestor_at(m, y, k)->0)->0)
        && p.lookup(crate::tree::ancestor_at(m, y, k)->0)->0.enabled == q.lookup(crate::tree::ancestor_at(m, y, k)->0)->0.enabled by {
        assert(p.valid(crate::tree::ancestor_at(m, y, k)->0));
    }
    lemma_sum_same(p, q, m, |a: Node| pos_y(a), y, n);
}

/// Two children of one node have no node below both.
proof fn lemma_subtrees_apart(
    m: Map<(usize, u32), Links<(usize, u32)>>,
    root: (usize, u32),
    c: spec_fn((usize, u32)) -> Seq<(usize, u32)>,
    d: spec_fn((usize, u32)) -> nat,
    h: (usize, u32),
    j: int,
    k: int,
    y: (usize, u32),
    n1: nat,
    n2: nat,
)
    requires
        witness_ok(m, root, c, d),
        m.dom().contains(h),
        0 <= j < c(h).len(),
        0 <= k < c(h).len(),
        crate::tree::ancestor_at(m, y, n1) == Some(c(h)[j]),
        crate::tree::ancestor_at(m, y, n2) == Some(c(h)[k]),
    ensures
        j == k,
        n1 == n2,
{
    assert(chain_ok(m, h, c(h), d));
    assert(m.dom().contains(c(h)[j]));
    lemma_ancestors_in_dom(m, y, n1);
    assert(m.dom().contains(y)) by {
        assert(crate::tree::ancestor_at(m, y, 0) == Some(y));
    }
    crate::tree::lemma_depth(m, root, c, d, y, c(h)[j], n1);
    crate::tree::lemma_depth(m, root, c, d, y, c(h)[k], n2);
}

/// The part below the child `cs[k]` of `h` is in reach of the recursion:
/// it lies below the root and its positions fit.
proof fn lemma_child_step_fits(
    before: Hierarchy,
    p0: PoolModel<Node>,
    m: Map<(usize, u32), Links<(usize, u32)>>,
    root: (usize, u32),
    c: spec_fn((usize, u32)) -> Seq<(usize, u32)>,
    d: spec_fn((usize, u32)) -> nat,
    h: (usize, u32),
    cs: Seq<(usize, u32)>,
    k: int,
    transform: Transform,
    new_transform: Transform,
    new_enabled: bool,
    enabled: bool,
)
    requires
        before.wf(),
        witness_ok(m, root, c, d),
        m.dom() == before.live@,
        before.live_links() == m,
        m.dom().contains(h),
        cs == c(h),
        0 <= k < cs.len(),
        sums_fit(p0, m, h, transform.x as int, transform.y as int),
        new_transform.x == p0.lookup(h)->0.transform.x + transform.x,
        new_transform.y == p0.lookup(h)->0.transform.y + transform.y,
        forall|g: (usize, u32)| #[trigger] m.dom().contains(g) ==> p0.valid(g),
        forall|g: (usize, u32)| #[trigger] p0.valid(g) ==> same_but_globals(p0.lookup(g)->0, before.node(g)),
    ensures
        before.live@.contains(cs[k]),
        sums_fit(before.nodes(), before.live_links(), cs[k], new_transform.x as int, new_transform.y as int),
{
    assert(chain_ok(m, h, cs, d));
    let a = cs[k];
    assert(m.dom().contains(a));
    assert forall|y: (usize, u32), n: nat| #[trigger] crate::tree::ancestor_at(m, y, n) == Some(a) implies {
        &&& i32::MIN <= sum_up(before.nodes(), m, |b: Node| pos_x(b), y, n) + new_transform.x <= i32::MAX
        &&& i32::MIN <= sum_up(before.nodes(), m, |b: Node| pos_y(b), y, n) + new_transform.y <= i32::MAX
    } by {
        lemma_ancestor_step(m, y, n, a);
        lemma_sum_step(p0, m, |b: Node| pos_x(b), y, n, a);
        lemma_sum_step(p0, m, |b: Node| pos_y(b), y, n, a);
        assert(crate::tree::ancestor_at(m, y, n + 1) == Some(h));
        lemma_sums_agree(p0, before.nodes(), m, y, n);
        assert(globals_from(p0, m, y, n, 0, 0, true) == globals_from(before.nodes(), m, y, n, 0, 0, true));
    }
}

/// After the recursion into the child `cs[k]` of `h`, the part below it
/// has its global positions and the rest is as it was.
#[verifier::rlimit(50)]
proof fn lemma_child_step_done(
    before: Hierarchy,
    after: Hierarchy,
    p0: PoolModel<Node>,
    p1: PoolModel<Node>,
    m: Map<(usize, u32), Links<(usize, u32)>>,
    root: (usize, u32),
    c: spec_fn((usize, u32)) -> Seq<(usize, u32)>,
    d: spec_fn((usize, u32)) -> nat,
    h: (usize, u32),
    cs: Seq<(usize, u32)>,
    k: int,
    new_transform: Transform,
    new_enabled: bool,
)
    requires
        witness_ok(m, root, c, d),
        m.dom().contains(h),
        cs == c(h),
        0 <= k < cs.len(),
        before.live_links() == m,
        forall|g: (usize, u32)| #[trigger] m.dom().contains(g) ==> p0.valid(g),
        globals_of(before.node(h)) == (new_transform.x as int, new_transform.y as int, new_enabled),
        forall|g: (usize, u32)| #[trigger] before.nodes().valid(g) <==> p0.valid(g),
        forall|g: (usize, u32)| #[trigger] p0.valid(g) ==> same_but_globals(p0.lookup(g)->0, before.node(g)),
        forall|g: (usize, u32)| g != h && !crate::tree::is_desc(m, h, g)
            ==> #[trigger] before.nodes().lookup(g) == p0.lookup(g),
        forall|j: int, y: (usize, u32), n: nat| 0 <= j < k && #[trigger] crate::tree::ancestor_at(m, y, n) == Some(#[trigger] cs[j])
            ==> globals_of(before.node(y)) == globals_from(p0, m, y, n, new_transform.x as int, new_transform.y as int, new_enabled),
        forall|j: int, y: (usize, u32), n: nat| k <= j < cs.len() && #[trigger] crate::tree::ancestor_at(m, y, n) == Some(#[trigger] cs[j])
            ==> before.nodes().lookup(y) == p1.lookup(y),
        // what the recursion into cs[k] ensures
        forall|g: (usize, u32)| #[trigger] after.nodes().valid(g) <==> before.nodes().valid(g),
        forall|g: (usize, u32)| #[trigger] before.nodes().valid(g) ==> same_but_globals(before.node(g), after.node(g)),
        forall|g: (usize, u32)| g != cs[k] && !crate::tree::is_desc(m, cs[k], g)
            ==> #[trigger] after.nodes().lookup(g) == before.nodes().lookup(g),
        forall|y: (usize, u32), n: nat| #[trigger] crate::tree::ancestor_at(m, y, n) == Some(cs[k])
            ==> globals_of(after.node(y)) == globals_from(before.nodes(), m, y, n,
                new_transform.x as int, new_transform.y as int, new_enabled),
    ensures
        globals_of(after.node(h)) == (new_transform.x as int, new_transform.y as int, new_enabled),
        forall|g: (usize, u32)| #[trigger] after.nodes().valid(g) <==> p0.valid(g),
        forall|g: (usize, u32)| #[trigger] p0.valid(g) ==> same_but_globals(p0.lookup(g)->0, after.node(g)),
        forall|g: (usize, u32)| g != h && !crate::tree::is_desc(m, h, g)
            ==> #[trigger] after.nodes().lookup(g) == p0.lookup(g),
        forall|j: int, y: (usize, u32), n: nat| 0 <= j < k + 1 && #[trigger] crate::tree::ancestor_at(m, y, n) == Some(#[trigger] cs[j])
            ==> globals_of(after.node(y)) == globals_from(p0, m, y, n, new_transform.x as int, new_transform.y as int, new_enabled),
        forall|j: int, y: (usize, u32), n: nat| k + 1 <= j < cs.len() && #[trigger] crate::tree::ancestor_at(m, y, n) == Some(#[trigger] cs[j])
            ==> after.nodes().lookup(y) == p1.lookup(y),
{
    assert(chain_ok(m, h, cs, d));
    let a = cs[k];
    assert(m.dom().contains(a));
    // `y` lies below `cs[j]`; it lies below `cs[k]` only for `j == k`
    assert forall|j: int, y: (usize, u32), n: nat| 0 <= j < cs.len() && j != k && #[trigger] crate::tree::ancestor_at(m, y, n) == Some(#[trigger] cs[j])
        implies after.nodes().lookup(y) == before.nodes().lookup(y) by {
        if y == a {
            assert(crate::tree::ancestor_at(m, y, 0) == Some(a));
            lemma_subtrees_apart(m, root, c, d, h, j, k, y, n, 0);
        } else if crate::tree::is_desc(m, a, y) {
            reveal(crate::tree::is_desc);
            let n2 = choose|n2: nat| n2 >= 1 && #[trigger] crate::tree::ancestor_at(m, y, n2) == Some(a);
            lemma_subtrees_apart(m, root, c, d, h, j, k, y, n, n2);
        }
    }
    // `h` and what lies outside below `h` stay
    assert(h != a && !crate::tree::is_desc(m, a, h)) by {
        crate::tree::lemma_child_is_desc(m, h, h, a);
        if crate::tree::is_desc(m, a, h) {
            crate::tree::lemma_desc_facts(m, root, c, d, a, h);
            crate::tree::lemma_desc_facts(m, root, c, d, h, a);
        }
    }
    assert forall|g: (usize, u32)| g != h && !crate::tree::is_desc(m, h, g)
        implies #[trigger] after.nodes().lookup(g) == p0.lookup(g) by {
        crate::tree::lemma_child_is_desc(m, h, h, a);
        if crate::tree::is_desc(m, a, g) {
            lemma_desc_through_child(m, h, a, g);
        }
    }
    assert forall|g: (usize, u32)| #[trigger] p0.valid(g) implies same_but_globals(p0.lookup(g)->0, after.node(g)) by {
        assert(before.nodes().valid(g));
    }
    assert forall|y: (usize, u32), n: nat| #[trigger] crate::tree::ancestor_at(m, y, n) == Some(a)
        implies globals_of(after.node(y)) == globals_from(p0, m, y, n, new_transform.x as int, new_transform.y as int, new_enabled) by {
        lemma_sums_agree(p0, before.nodes(), m, y, n);
        assert(globals_from(p0, m, y, n, new_transform.x as int, new_transform.y as int, new_enabled)
            == globals_from(before.nodes(), m, y, n, new_transform.x as int, new_transform.y as int, new_enabled));
    }
}

/// Once the recursion has been through all children of `h`, everything
/// below `h` holds its global position and state.
proof fn lemma_globals_done(
    p0: PoolModel<Node>,
    h1: Hierarchy,
    m: Map<(usize, u32), Links<(usize, u32)>>,
    root: (usize, u32),
    c: spec_fn((usize, u32)) -> Seq<(usize, u32)>,
    d: spec_fn((usize, u32)) -> nat,
    h: (usize, u32),
    cs: Seq<(usize, u32)>,
    transform: Transform,
    new_transform: Transform,
    new_enabled: bool,
    enabled: bool,
)
    requires
        witness_ok(m, root, c, d),
        m.dom().contains(h),
        cs == c(h),
        new_transform.x == p0.lookup(h)->0.transform.x + transform.x,
        new_transform.y == p0.lookup(h)->0.transform.y + transform.y,
        new_enabled == (p0.lookup(h)->0.enabled && enabled),
        globals_of(h1.node(h)) == (new_transform.x as int, new_transform.y as int, new_enabled),
        forall|j: int, y: (usize, u32), n: nat| 0 <= j < cs.len() && #[trigger] crate::tree::ancestor_at(m, y, n) == Some(#[trigger] cs[j])
            ==> globals_of(h1.node(y)) == globals_from(p0, m, y, n, new_transform.x as int, new_transform.y as int, new_enabled),
    ensures
        forall|y: (usize, u32), n: nat| #[trigger] crate::tree::ancestor_at(m, y, n) == Some(h)
            ==> globals_of(h1.node(y)) == globals_from(p0, m, y, n, transform.x as int, transform.y as int, enabled),
{
    assert forall|y: (usize, u32), n: nat| #[trigger] crate::tree::ancestor_at(m, y, n) == Some(h)
        implies globals_of(h1.node(y)) == globals_from(p0, m, y, n, transform.x as int, transform.y as int, enabled) by {
        if n == 0 {
            assert(y == h);
        } else {
            lemma_ancestor_last(m, y, n);
            let a = crate::tree::ancestor_at(m, y, (n - 1) as nat)->0;
            assert(m.dom().contains(a));
            assert(a != root);
            assert(c(h).contains(a));
            let j = cs.index_of(a);
            assert(cs[j] == a);
            lemma_sum_step(p0, m, |b: Node| pos_x(b), y, (n - 1) as nat, a);
            lemma_sum_step(p0, m, |b: Node| pos_y(b), y, (n - 1) as nat, a);
            assert(crate::tree::ancestor_at(m, y, (n - 1) as nat) == Some(cs[j]));
        }
    }
}

impl Hierarchy {
    /// Sets the global position and state of `handle` from those of its
    /// parent, `(transform, enabled)`, and then those of the nodes below it.
    #[verifier::rlimit(100)]
    fn update_global_position_recursive(&mut self, handle: Handle<Node>, transform: Transform, enabled: bool)
        requires
            old(self).wf(),
            old(self).live@.contains(handle@),
            sums_fit(old(self).nodes(), old(self).live_links(), handle@, transform.x as int, transform.y as int),
        ensures
            final(self).wf(),
            final(self).live_links() == old(self).live_links(),
            final(self).live == old(self).live,
            final(self).root == old(self).root,
            final(self).node_ext_pools == old(self).node_ext_pools,
            final(self).to_start_stack == old(self).to_start_stack,
            final(self).to_destroy_stack == old(self).to_destroy_stack,
            final(self).game_data == old(self).game_data,
            forall|g: (usize, u32)| #[trigger] final(self).nodes().valid(g) <==> old(self).nodes().valid(g),
            forall|g: (usize, u32)| #[trigger] old(self).nodes().valid(g) ==> same_but_globals(old(self).node(g), final(self).node(g)),
            forall|g: (usize, u32)| g != handle@ && !crate::tree::is_desc(old(self).live_links(), handle@, g)
                ==> #[trigger] final(self).nodes().lookup(g) == old(self).nodes().lookup(g),
            forall|y: (usize, u32), n: nat| #[trigger] crate::tree::ancestor_at(old(self).live_links(), y, n) == Some(handle@)
                ==> globals_of(final(self).node(y)) == globals_from(old(self).nodes(), old(self).live_links(), y, n,
                    transform.x as int, transform.y as int, enabled),
        decreases desc_set(old(self).live_links(), handle@).len(),
    {
        let ghost m = self.live_links();
        let ghost root = self.root@;
        let ghost p0 = self.nodes();
        let ghost h0 = *self;
        let ghost (c, d) = choose|c: spec_fn((usize, u32)) -> Seq<(usize, u32)>, d: spec_fn((usize, u32)) -> nat|
            witness_ok(m, root, c, d);
        let ghost cs = c(handle@);
        proof {
            assert(witness_ok(m, root, c, d));
            assert(m.dom() =~= self.live@);
            assert(m.dom().contains(handle@));
            assert(chain_ok(m, handle@, cs, d));
            assert(crate::tree::ancestor_at(m, handle@, 0) == Some(handle@));
            self.object_pool.lemma_slots_bound();
            crate::pool::lemma_valid_not_free(p0, handle@);
        }
        let node = self.object_pool.borrow_mut(handle);
        let new_enabled = node.enabled && enabled;
        let new_transform = Transform { x: node.transform.x + transform.x, y: node.transform.y + transform.y };
        node.global_enabled = new_enabled;
        node.global_transform = new_transform;
        let child = node.child_handle;
        proof {
            crate::pool::lemma_set_wf(p0, handle@.0);
            lemma_globals_keep_wf(h0, *self);
        }
        let ghost p1 = self.nodes();
        proof {
            assert forall|g: (usize, u32)| g != handle@ implies #[trigger] p1.lookup(g) == p0.lookup(g) by {
                if p0.valid(g) {
                    crate::pool::lemma_write_keeps_others(p0, handle@, g, p1.lookup(handle@)->0);
                }
            }
            assert forall|g: (usize, u32)| #[trigger] p1.valid(g) <==> p0.valid(g) by {
                if g == handle@ {
                } else {
                    assert(p1.lookup(g) == p0.lookup(g));
                }
            }
            assert forall|g: (usize, u32)| #[trigger] p0.valid(g) implies same_but_globals(p0.lookup(g)->0, p1.lookup(g)->0) by {
                if g != handle@ {
                    assert(p1.lookup(g) == p0.lookup(g));
                }
            }
            assert(opt_view(child) == m[handle@].child);
            assert forall|g: (usize, u32)| #[trigger] m.dom().contains(g) implies p0.valid(g) by {}
        }
        if let Some(first) = child {
            let mut cur_child_handle = first;
            let ghost mut k: int = 0;
            loop
                invariant_except_break
                    forall|j: int, y: (usize, u32), n: nat| k <= j < cs.len() && #[trigger] crate::tree::ancestor_at(m, y, n) == Some(#[trigger] cs[j])
                        ==> self.nodes().lookup(y) == p1.lookup(y),
                invariant
                    self.wf(),
                    witness_ok(m, root, c, d),
                    m == old(self).live_links(),
                    p0 == old(self).nodes(),
                    m.dom() == old(self).live@,
                    m.dom().contains(handle@),
                    cs == c(handle@),
                    chain_ok(m, handle@, cs, d),
                    self.live_links() == m,
                    self.live == old(self).live,
                    self.root == old(self).root,
                    self.node_ext_pools == old(self).node_ext_pools,
                    self.to_start_stack == old(self).to_start_stack,
                    self.to_destroy_stack == old(self).to_destroy_stack,
                    self.game_data == old(self).game_data,
                    sums_fit(p0, m, handle@, transform.x as int, transform.y as int),
                    new_transform.x == p0.lookup(handle@)->0.transform.x + transform.x,
                    new_transform.y == p0.lookup(handle@)->0.transform.y + transform.y,
                    new_enabled == (p0.lookup(handle@)->0.enabled && enabled),
                    0 <= k < cs.len(),
                    cur_child_handle@ == cs[k],
                    globals_of(self.node(handle@)) == (new_transform.x as int, new_transform.y as int, new_enabled),
                    forall|g: (usize, u32)| #[trigger] self.nodes().valid(g) <==> p0.valid(g),
                    forall|g: (usize, u32)| #[trigger] p0.valid(g) ==> same_but_globals(p0.lookup(g)->0, self.node(g)),
                    forall|g: (usize, u32)| g != handle@ && !crate::tree::is_desc(m, handle@, g)
                        ==> #[trigger] self.nodes().lookup(g) == p0.lookup(g),
                    forall|j: int, y: (usize, u32), n: nat| 0 <= j < k && #[trigger] crate::tree::ancestor_at(m, y, n) == Some(#[trigger] cs[j])
                        ==> globals_of(self.node(y)) == globals_from(p0, m, y, n, new_transform.x as int, new_transform.y as int, new_enabled),
                ensures
                    self.wf(),
                    self.live_links() == m,
                    self.live == old(self).live,
                    self.root == old(self).root,
                    self.node_ext_pools == old(self).node_ext_pools,
                    self.to_start_stack == old(self).to_start_stack,
                    self.to_destroy_stack == old(self).to_destroy_stack,
                    self.game_data == old(self).game_data,
                    globals_of(self.node(handle@)) == (new_transform.x as int, new_transform.y as int, new_enabled),
                    forall|g: (usize, u32)| #[trigger] self.nodes().valid(g) <==> p0.valid(g),
                    forall|g: (usize, u32)| #[trigger] p0.valid(g) ==> same_but_globals(p0.lookup(g)->0, self.node(g)),
                    forall|g: (usize, u32)| g != handle@ && !crate::tree::is_desc(m, handle@, g)
                        ==> #[trigger] self.nodes().lookup(g) == p0.lookup(g),
                    forall|j: int, y: (usize, u32), n: nat| 0 <= j < cs.len() && #[trigger] crate::tree::ancestor_at(m, y, n) == Some(#[trigger] cs[j])
                        ==> globals_of(self.node(y)) == globals_from(p0, m, y, n, new_transform.x as int, new_transform.y as int, new_enabled),
                decreases cs.len() - k,
            {
                let ghost before = *self;
                proof {
                    lemma_child_step_fits(before, p0, m, root, c, d, handle@, cs, k, transform, new_transform, new_enabled, enabled);
                    lemma_desc_child_smaller(m, root, c, d, handle@, cs[k]);
                }
                self.update_global_position_recursive(cur_child_handle, new_transform, new_enabled);
                proof {
                    lemma_child_step_done(before, *self, p0, p1, m, root, c, d, handle@, cs, k, new_transform, new_enabled);
                    assert(m.dom().contains(cs[k]));
                    assert(self.live_links()[cs[k]] == node_links(self.node(cs[k])));
                }
                cur_child_handle = match self.object_pool.borrow(cur_child_handle).sibling_handle {
                    Some(x) => x,
                    None => {
                        proof {
                            assert(k + 1 == cs.len());
                        }
                        break;
                    },
                };
                proof {
                    k = k + 1;
                }
            }
        } else {
            proof {
                assert(cs.len() == 0);
            }
        }
        proof {
            lemma_globals_done(p0, *self, m, root, c, d, handle@, cs, transform, new_transform, new_enabled, enabled);
        }
    }
}

/// Where the node `h` and the nodes below its child `cs[k]` fit, `h` and all
/// nodes below it fit; where they fit, the nodes below the child do.
proof fn lemma_sums_fit_split(
    p: PoolModel<Node>,
    m: Map<(usize, u32), Links<(usize, u32)>>,
    root: (usize, u32),
    c: spec_fn((usize, u32)) -> Seq<(usize, u32)>,
    d: spec_fn((usize, u32)) -> nat,
    h: (usize, u32),
    tx: int,
    ty: int,
)
    requires
        witness_ok(m, root, c, d),
        m.dom().contains(h),
    ensures
        sums_fit(p, m, h, tx, ty) <==> {
            &&& i32::MIN <= pos_x(p.lookup(h)->0) + tx <= i32::MAX
            &&& i32::MIN <= pos_y(p.lookup(h)->0) + ty <= i32::MAX
            &&& forall|k: int| 0 <= k < c(h).len() ==> #[trigger] sums_fit(p, m, c(h)[k],
                tx + pos_x(p.lookup(h)->0), ty + pos_y(p.lookup(h)->0))
        },
{
    let cs = c(h);
    let nx = tx + pos_x(p.lookup(h)->0);
    let ny = ty + pos_y(p.lookup(h)->0);
    assert(chain_ok(m, h, cs, d));
    assert(crate::tree::ancestor_at(m, h, 0) == Some(h));
    if sums_fit(p, m, h, tx, ty) {
        assert forall|k: int| 0 <= k < cs.len() implies #[trigger] sums_fit(p, m, cs[k], nx, ny) by {
            let a = cs[k];
            assert(m.dom().contains(a) && m[a].parent == Some(h));
            assert forall|y: (usize, u32), n: nat| #[trigger] crate::tree::ancestor_at(m, y, n) == Some(a) implies {
                &&& i32::MIN <= sum_up(p, m, |b: Node| pos_x(b), y, n) + nx <= i32::MAX
                &&& i32::MIN <= sum_up(p, m, |b: Node| pos_y(b), y, n) + ny <= i32::MAX
            } by {
                lemma_ancestor_step(m, y, n, a);
                lemma_sum_step(p, m, |b: Node| pos_x(b), y, n, a);
                lemma_sum_step(p, m, |b: Node| pos_y(b), y, n, a);
                assert(crate::tree::ancestor_at(m, y, n + 1) == Some(h));
            }
        }
    }
    if i32::MIN <= pos_x(p.lookup(h)->0) + tx <= i32::MAX && i32::MIN <= pos_y(p.lookup(h)->0) + ty <= i32::MAX
        && forall|k: int| 0 <= k < cs.len() ==> #[trigger] sums_fit(p, m, cs[k], nx, ny) {
        assert forall|y: (usize, u32), n: nat| #[trigger] crate::tree::ancestor_at(m, y, n) == Some(h) implies {
            &&& i32::MIN <= sum_up(p, m, |a: Node| pos_x(a), y, n) + tx <= i32::MAX
            &&& i32::MIN <= sum_up(p, m, |a: Node| pos_y(a), y, n) + ty <= i32::MAX
        } by {
            if n == 0 {
                assert(y == h);
            } else {
                lemma_ancestor_last(m, y, n);
                let w = crate::tree::ancestor_at(m, y, (n - 1) as nat)->0;
                assert(m.dom().contains(w) && m[w].parent == Some(h));
                assert(w != root);
                assert(cs.contains(w));
                let j = cs.index_of(w);
                assert(cs[j] == w);
                assert(sums_fit(p, m, cs[j], nx, ny));
                lemma_sum_step(p, m, |b: Node| pos_x(b), y, (n - 1) as nat, w);
                lemma_sum_step(p, m, |b: Node| pos_y(b), y, (n - 1) as nat, w);
                assert(crate::tree::ancestor_at(m, y, (n - 1) as nat) == Some(w));
            }
        }
    }
}

impl Hierarchy {
    /// Whether the positions that `handle` and the nodes below it get,
    /// summed down from `(tx, ty)`, fit in an `i32`.
    #[verifier::rlimit(40)]
    #[verifier::spinoff_prover]
    pub fn positions_fit_below(&self, handle: Handle<Node>, tx: i32, ty: i32) -> (b: bool)
        requires
            self.wf(),
            self.live@.contains(handle@),
        ensures
            b == sums_fit(self.nodes(), self.live_links(), handle@, tx as int, ty as int),
        decreases desc_set(self.live_links(), handle@).len(),
    {
        let ghost m = self.live_links();
        let ghost p = self.nodes();
        let ghost root = self.root@;
        let ghost (c, d) = choose|c: spec_fn((usize, u32)) -> Seq<(usize, u32)>, d: spec_fn((usize, u32)) -> nat|
            witness_ok(m, root, c, d);
        let ghost cs = c(handle@);
        proof {
            assert(witness_ok(m, root, c, d));
            assert(m.dom() =~= self.live@);
            assert(chain_ok(m, handle@, cs, d));
            lemma_sums_fit_split(p, m, root, c, d, handle@, tx as int, ty as int);
        }
        let node = self.object_pool.borrow(handle);
        let nx = node.transform.x as i64 + tx as i64;
        let ny = node.transform.y as i64 + ty as i64;
        if nx < i32::MIN as i64 || nx > i32::MAX as i64 || ny < i32::MIN as i64 || ny > i32::MAX as i64 {
            return false;
        }
        let nx = nx as i32;
        let ny = ny as i32;
        let mut cur = node.child_handle;
        let ghost mut k: int = 0;
        proof {
            assert(opt_view(cur) == m[handle@].child);
        }
        loop
            invariant
                self.wf(),
                witness_ok(m, root, c, d),
                m == self.live_links(),
                p == self.nodes(),
                root == self.root@,
                m.dom() == self.live@,
                m.dom().contains(handle@),
                cs == c(handle@),
                chain_ok(m, handle@, cs, d),
                nx == tx + pos_x(p.lookup(handle@)->0),
                ny == ty + pos_y(p.lookup(handle@)->0),
                0 <= k <= cs.len(),
                opt_view(cur) == (if k < cs.len() {
                    Some(cs[k])
                } else {
                    None::<(usize, u32)>
                }),
                forall|j: int| 0 <= j < k ==> #[trigger] sums_fit(p, m, cs[j], nx as int, ny as int),
            ensures
                k == cs.len(),
                forall|j: int| 0 <= j < k ==> #[trigger] sums_fit(p, m, cs[j], nx as int, ny as int),
            decreases cs.len() - k,
        {
            match cur {
                Some(h) => {
                    proof {
                        assert(m.dom().contains(cs[k]) && m[cs[k]].parent == Some(handle@));
                        lemma_desc_child_smaller(m, root, c, d, handle@, cs[k]);
                        assert(self.live_links()[cs[k]] == node_links(self.node(cs[k])));
                    }
                    if !self.positions_fit_below(h, nx, ny) {
                        proof {
                            assert(!sums_fit(p, m, cs[k], nx as int, ny as int));
                            lemma_sums_fit_split(p, m, root, c, d, handle@, tx as int, ty as int);
                        }
                        return false;
                    }
                    cur = self.object_pool.borrow(h).sibling_handle;
                    proof {
                        k = k + 1;
                    }
                },
                None => {
                    break;
                },
            }
        }
        true
    }

    /// Whether the positions that `update_global_positions` sums fit in an
    /// `i32`, as it needs.
    pub fn global_positions_fit(&self) -> (b: bool)
        requires
            self.wf(),
        ensures
            b == sums_fit(self.nodes(), self.live_links(), self.root@,
                self.node(self.root@).transform.x as int, self.node(self.root@).transform.y as int),
    {
        proof {
            assert(self.live_links().dom().contains(self.root@)) by {
                let (c, d) = choose|c: spec_fn((usize, u32)) -> Seq<(usize, u32)>, d: spec_fn((usize, u32)) -> nat|
                    witness_ok(self.live_links(), self.root@, c, d);
            }
        }
        let root = self.object_pool.borrow(self.root);
        self.positions_fit_below(self.root, root.transform.x, root.transform.y)
    }
}

impl Hierarchy {
    /// Sets the global position and state of every node below the root: its
    /// position summed with those of all nodes above it, and whether it and
    /// all nodes above it are enabled. The sum starts from the root's own
    /// position and state, so the root counts twice.
    pub fn update_global_positions(&mut self)
        requires
            old(self).wf(),
            sums_fit(old(self).nodes(), old(self).live_links(), old(self).root@,
                old(self).node(old(self).root@).transform.x as int, old(self).node(old(self).root@).transform.y as int),
        ensures
            final(self).wf(),
            final(self).live_links() == old(self).live_links(),
            final(self).live == old(self).live,
            final(self).root == old(self).root,
            final(self).node_ext_pools == old(self).node_ext_pools,
            final(self).to_start_stack == old(self).to_start_stack,
            final(self).to_destroy_stack == old(self).to_destroy_stack,
            final(self).game_data == old(self).game_data,
            forall|g: (usize, u32)| #[trigger] final(self).nodes().valid(g) <==> old(self).nodes().valid(g),
            forall|g: (usize, u32)| #[trigger] old(self).nodes().valid(g) ==> same_but_globals(old(self).node(g), final(self).node(g)),
            forall|g: (usize, u32)| !old(self).live@.contains(g) ==> #[trigger] final(self).nodes().lookup(g) == old(self).nodes().lookup(g),
            forall|y: (usize, u32), n: nat| #[trigger] crate::tree::ancestor_at(old(self).live_links(), y, n) == Some(old(self).root@)
                ==> globals_of(final(self).node(y)) == globals_from(old(self).nodes(), old(self).live_links(), y, n,
                    old(self).node(old(self).root@).transform.x as int, old(self).node(old(self).root@).transform.y as int,
                    old(self).node(old(self).root@).enabled),
            forall|y: (usize, u32)| #[trigger] old(self).live@.contains(y) && y != old(self).root@ ==> {
                let q = old(self).live_links()[y].parent->0;
                &&& final(self).node(y).global_transform.x == final(self).node(y).transform.x + final(self).node(q).global_transform.x
                &&& final(self).node(y).global_transform.y == final(self).node(y).transform.y + final(self).node(q).global_transform.y
                &&& final(self).node(y).global_enabled == (final(self).node(y).enabled && final(self).node(q).global_enabled)
            },
            final(self).node(old(self).root@).global_transform.x == 2 * final(self).node(old(self).root@).transform.x,
            final(self).node(old(self).root@).global_transform.y == 2 * final(self).node(old(self).root@).transform.y,
            final(self).node(old(self).root@).global_enabled == final(self).node(old(self).root@).enabled,
    {
        proof {
            assert(self.live_links().dom().contains(self.root@)) by {
                let (c, d) = choose|c: spec_fn((usize, u32)) -> Seq<(usize, u32)>, d: spec_fn((usize, u32)) -> nat|
                    witness_ok(self.live_links(), self.root@, c, d);
            }
        }
        let root_handle = self.root;
        let root = self.object_pool.borrow(root_handle);
        let transform = root.transform;
        let enabled = root.enabled;
        self.update_global_position_recursive(root_handle, transform, enabled);
        proof {
            let m = old(self).live_links();
            let r = old(self).root@;
            let p0 = old(self).nodes();
            let (c, d) = choose|c: spec_fn((usize, u32)) -> Seq<(usize, u32)>, d: spec_fn((usize, u32)) -> nat|
                witness_ok(m, r, c, d);
            assert(witness_ok(m, r, c, d));
            assert(m.dom() =~= old(self).live@);
            assert(crate::tree::ancestor_at(m, r, 0) == Some(r));
            assert(p0.valid(r));
            assert forall|y: (usize, u32)| #[trigger] old(self).live@.contains(y) && y != r implies {
                let q = m[y].parent->0;
                &&& self.node(y).global_transform.x == self.node(y).transform.x + self.node(q).global_transform.x
                &&& self.node(y).global_transform.y == self.node(y).transform.y + self.node(q).global_transform.y
                &&& self.node(y).global_enabled == (self.node(y).enabled && self.node(q).global_enabled)
            } by {
                let q = m[y].parent->0;
                crate::tree::lemma_all_below_root(m, r, c, d, y);
                reveal(crate::tree::is_desc);
                let n = choose|n: nat| n >= 1 && #[trigger] crate::tree::ancestor_at(m, y, n) == Some(r);
                assert(crate::tree::ancestor_at(m, q, (n - 1) as nat) == Some(r));
                assert(p0.valid(y));
                assert(m.dom().contains(q));
                assert(p0.valid(q));
                assert(same_but_globals(p0.lookup(y)->0, self.node(y)));
            }
        }
        proof {
            assert forall|g: (usize, u32)| !old(self).live@.contains(g)
                implies #[trigger] self.nodes().lookup(g) == old(self).nodes().lookup(g) by {
                if crate::tree::is_desc(old(self).live_links(), old(self).root@, g) {
                    crate::tree::lemma_desc_parent(old(self).live_links(), old(self).root@, g);
                }
            }
        }
    }
}

/// The links of the nodes of a saved graph, by position.
pub open spec fn saved_links(nodes: Seq<SavedNode>) -> Map<u32, Links<u32>> {
    Map::new(
        |i: u32| i < nodes.len(),
        |i: u32| Links { child: nodes[i as int].child_index, sibling: nodes[i as int].sibling_index, parent: nodes[i as int].parent_index },
    )
}

/// The nodes of a saved graph form a tree.
pub open spec fn spawnable(nodes: Seq<SavedNode>) -> bool {
    &&& nodes.len() <= u32::MAX
    &&& exists|r: u32| tree_wf(saved_links(nodes), r)
}

/// The position of the root of a saved graph whose nodes form a tree.
pub open spec fn saved_root(nodes: Seq<SavedNode>) -> u32 {
    choose|r: u32| tree_wf(saved_links(nodes), r)
}

/// The tree of the nodes of a saved graph, under the handles `hs` they got.
pub open spec fn spawned_tree(nodes: Seq<SavedNode>, hs: Seq<(usize, u32)>) -> Map<(usize, u32), Links<(usize, u32)>> {
    crate::tree::rename(saved_links(nodes), |i: u32| hs[i as int], |h: (usize, u32)| hs.index_of(h) as u32)
}

/// The node `n` carries the fields of the saved node `s`, and no global
/// position or state yet.
pub open spec fn spawned_payload_ok(s: SavedNode, n: Node) -> bool {
    &&& n.name == s.name
    &&& n.transform == (Transform { x: s.transform.x, y: s.transform.y })
    &&& n.script_data == (match s.script_type_id {
        Some(id) => Some(NodeScriptData { type_id: id }),
        None => None,
    })
    &&& n.enabled == s.enabled
    &&& n.global_transform == (Transform { x: 0, y: 0 })
    &&& !n.global_enabled
}

/// The extension `e` of the node `h` is what the saved extension `se`
/// describes, as the pools `exts` hold it.
pub open spec fn ext_from_saved_ok(se: SavedNodeExtension, e: NodeExtensionHandle, h: (usize, u32), exts: NodeExtensionPools) -> bool {
    match se {
        SavedNodeExtension::Nothing => e is Nothing,
        SavedNodeExtension::Sprite(s) => e matches NodeExtensionHandle::Sprite(eh)
            && exts.sprite_pool@.lookup(eh@) matches Some(x)
            && x.node_handle@ == h && x.graphic_asset == s.graphic_asset && x.sprite_type == s.sprite_type,
        SavedNodeExtension::Camera(c) => e matches NodeExtensionHandle::Camera(eh)
            && exts.camera_pool@.lookup(eh@) matches Some(x)
            && x.node_handle@ == h && x.active_main == c.active_main && x.active_sub == c.active_sub,
        SavedNodeExtension::RectCollider(c) => e matches NodeExtensionHandle::RectCollider(eh)
            && exts.rect_collider_pool@.lookup(eh@) matches Some(x)
            && x.node_handle@ == h && x.width == c.width && x.height == c.height && x.intersect_list@.len() == 0,
    }
}

/// The extension with this key is held by `exts`.
pub open spec fn ext_key_valid(exts: NodeExtensionPools, k: (int, (usize, u32))) -> bool {
    if k.0 == 0 {
        exts.sprite_pool@.valid(k.1)
    } else if k.0 == 1 {
        exts.camera_pool@.valid(k.1)
    } else {
        exts.rect_collider_pool@.valid(k.1)
    }
}

/// Every extension that `a` holds, `b` holds with the same value.
pub open spec fn exts_grown(a: NodeExtensionPools, b: NodeExtensionPools) -> bool {
    &&& forall|v: (usize, u32)| #[trigger] a.sprite_pool@.valid(v) ==> b.sprite_pool@.lookup(v) == a.sprite_pool@.lookup(v)
    &&& forall|v: (usize, u32)| #[trigger] a.camera_pool@.valid(v) ==> b.camera_pool@.lookup(v) == a.camera_pool@.lookup(v)
    &&& forall|v: (usize, u32)| #[trigger] a.rect_collider_pool@.valid(v) ==> b.rect_collider_pool@.lookup(v) == a.rect_collider_pool@.lookup(v)
}

/// Each of the extension pools has room for `n` more.
pub open spec fn exts_have_room(e: NodeExtensionPools, n: nat) -> bool {
    &&& e.sprite_pool@.has_room(n)
    &&& e.camera_pool@.has_room(n)
    &&& e.rect_collider_pool@.has_room(n)
}

/// Every extension that `b` holds, `a` held, or it is the extension of one
/// of the nodes of `p` with the handles `hv`.
pub open spec fn exts_new_or_old(a: NodeExtensionPools, b: NodeExtensionPools, p: PoolModel<Node>, hv: Seq<(usize, u32)>) -> bool {
    forall|k: (int, (usize, u32))| 0 <= k.0 <= 2 && #[trigger] ext_key_valid(b, k) ==> ext_key_valid(a, k)
        || exists|j: int| 0 <= j < hv.len() && ext_key(p.lookup(hv[j])->0.node_extension) == Some(k)
}

/// The node that the saved extension made an extension for is its owner.
proof fn lemma_ext_ok_owner(se: SavedNodeExtension, e: NodeExtensionHandle, h: (usize, u32), exts: NodeExtensionPools, k: (int, (usize, u32)))
    requires
        ext_from_saved_ok(se, e, h, exts),
        ext_key(e) == Some(k),
    ensures
        k.0 == 0 ==> exts.sprite_pool@.valid(k.1) && exts.sprite_pool@.lookup(k.1)->0.node_handle@ == h,
        k.0 == 1 ==> exts.camera_pool@.valid(k.1) && exts.camera_pool@.lookup(k.1)->0.node_handle@ == h,
        k.0 == 2 ==> exts.rect_collider_pool@.valid(k.1) && exts.rect_collider_pool@.lookup(k.1)->0.node_handle@ == h,
{
}

/// A node holds the extension with key `k` exactly when `holds` says so.
proof fn lemma_holds_key(exts: NodeExtensionPools, e: NodeExtensionHandle)
    ensures
        ext_key(e) is Some ==> (exts.holds(e) == ext_key_valid(exts, ext_key(e)->0)),
        ext_key(e) is None ==> exts.holds(e),
{
}

/// Adding the extension of one saved node.
proof fn lemma_add_ext_step(e1: NodeExtensionPools, e2: NodeExtensionPools, se: SavedNodeExtension, e: NodeExtensionHandle, h: Handle<Node>, n: nat)
    requires
        e1.wf(),
        exts_have_room(e1, n + 1),
        match se {
            SavedNodeExtension::Nothing => e is Nothing && e2 == e1,
            SavedNodeExtension::Sprite(s) => e matches NodeExtensionHandle::Sprite(eh)
                && (e2.sprite_pool@, eh@) == e1.sprite_pool@.add(
                    SpriteExtension { node_handle: h, graphic_asset: s.graphic_asset, sprite_type: s.sprite_type },
                )
                && e2.camera_pool == e1.camera_pool
                && e2.rect_collider_pool == e1.rect_collider_pool,
            SavedNodeExtension::Camera(c) => e matches NodeExtensionHandle::Camera(eh)
                && (e2.camera_pool@, eh@) == e1.camera_pool@.add(
                    CameraExtension { node_handle: h, active_main: c.active_main, active_sub: c.active_sub },
                )
                && e2.sprite_pool == e1.sprite_pool
                && e2.rect_collider_pool == e1.rect_collider_pool,
            SavedNodeExtension::RectCollider(c) => e matches NodeExtensionHandle::RectCollider(eh)
                && (e2.rect_collider_pool@, eh@) == e1.rect_collider_pool@.add(
                    e2.rect_collider_pool@.lookup(eh@)->0,
                )
                && e2.rect_collider_pool@.lookup(eh@)->0.node_handle == h
                && e2.rect_collider_pool@.lookup(eh@)->0.width == c.width
                && e2.rect_collider_pool@.lookup(eh@)->0.height == c.height
                && e2.rect_collider_pool@.lookup(eh@)->0.intersect_list@.len() == 0
                && e2.sprite_pool == e1.sprite_pool
                && e2.camera_pool == e1.camera_pool,
        },
    ensures
        exts_have_room(e2, n),
        exts_grown(e1, e2),
        ext_from_saved_ok(se, e, h@, e2),
        e2.holds(e),
        ext_key(e) is Some ==> !ext_key_valid(e1, ext_key(e)->0),
        forall|k: (int, (usize, u32))| 0 <= k.0 <= 2 && #[trigger] ext_key_valid(e2, k) ==> ext_key_valid(e1, k) || ext_key(e) == Some(k),
{
    crate::pool::lemma_room_less(e1.sprite_pool@, n + 1, n);
    crate::pool::lemma_room_less(e1.camera_pool@, n + 1, n);
    crate::pool::lemma_room_less(e1.rect_collider_pool@, n + 1, n);
    match se {
        SavedNodeExtension::Nothing => {},
        SavedNodeExtension::Sprite(s) => {
            let x = SpriteExtension { node_handle: h, graphic_asset: s.graphic_asset, sprite_type: s.sprite_type };
            crate::pool::lemma_room_add(e1.sprite_pool@, x, n);
            crate::pool::lemma_add_fresh(e1.sprite_pool@, x);
        },
        SavedNodeExtension::Camera(c) => {
            let x = CameraExtension { node_handle: h, active_main: c.active_main, active_sub: c.active_sub };
            crate::pool::lemma_room_add(e1.camera_pool@, x, n);
            crate::pool::lemma_add_fresh(e1.camera_pool@, x);
        },
        SavedNodeExtension::RectCollider(c) => {
            let eh = e->RectCollider_0;
            let x = e2.rect_collider_pool@.lookup(eh@)->0;
            crate::pool::lemma_room_add(e1.rect_collider_pool@, x, n);
            crate::pool::lemma_add_fresh(e1.rect_collider_pool@, x);
        },
    }
}

/// The nodes that no link has been set on yet.
pub open spec fn no_links() -> Links<(usize, u32)> {
    Links { child: None, sibling: None, parent: None }
}

/// Adds a node for each saved node, with its extension, but no links yet;
/// gives their handles, in the order of the saved nodes.
fn add_saved_nodes(pool: &mut Pool<Node>, exts: &mut NodeExtensionPools, nodes: &Vec<SavedNode>) -> (hs: Vec<Handle<Node>>)
    requires
        old(pool)@.wf(),
        old(exts).wf(),
        old(pool)@.has_room(nodes@.len()),
        exts_have_room(*old(exts), nodes@.len()),
    ensures
        final(pool)@.wf(),
        final(exts).wf(),
        hs@.len() == nodes@.len(),
        handle_views(hs@).no_duplicates(),
        forall|k: int| 0 <= k < hs@.len() ==> !old(pool)@.valid(#[trigger] hs@[k]@),
        forall|g: (usize, u32)| #[trigger] final(pool)@.valid(g) <==> (old(pool)@.valid(g) || handle_views(hs@).contains(g)),
        forall|g: (usize, u32)| #[trigger] old(pool)@.valid(g) ==> final(pool)@.lookup(g) == old(pool)@.lookup(g),
        forall|k: int| 0 <= k < hs@.len() ==> {
            &&& spawned_payload_ok(nodes@[k], #[trigger] final(pool)@.lookup(hs@[k]@)->0)
            &&& ext_from_saved_ok(nodes@[k].node_extension, final(pool)@.lookup(hs@[k]@)->0.node_extension, hs@[k]@, *final(exts))
            &&& node_links(final(pool)@.lookup(hs@[k]@)->0) == no_links()
            &&& ext_key(final(pool)@.lookup(hs@[k]@)->0.node_extension) is Some
                ==> !ext_key_valid(*old(exts), ext_key(final(pool)@.lookup(hs@[k]@)->0.node_extension)->0)
        },
        forall|k: int, j: int| 0 <= k < hs@.len() && 0 <= j < hs@.len() && k != j
            && ext_key(#[trigger] final(pool)@.lookup(hs@[k]@)->0.node_extension) is Some
            ==> ext_key(final(pool)@.lookup(hs@[k]@)->0.node_extension) != ext_key(#[trigger] final(pool)@.lookup(hs@[j]@)->0.node_extension),
        exts_grown(*old(exts), *final(exts)),
        exts_new_or_old(*old(exts), *final(exts), final(pool)@, handle_views(hs@)),
        handle_views(hs@) == crate::pool::added_handles(old(pool)@, nodes@.len()),
{
    let n = nodes.len();
    let mut hs: Vec<Handle<Node>> = Vec::new();
    let mut i: usize = 0;
    proof {
        assert(handle_views(hs@) =~= Seq::<(usize, u32)>::empty());
    }
    while i < n
        invariant
            n == nodes@.len(),
            0 <= i <= n,
            handle_views(hs@) == crate::pool::adds_from(crate::pool::gens(old(pool)@), old(pool)@.free, i as nat).0,
            crate::pool::gens(pool@) == crate::pool::adds_from(crate::pool::gens(old(pool)@), old(pool)@.free, i as nat).1,
            pool@.free == crate::pool::adds_from(crate::pool::gens(old(pool)@), old(pool)@.free, i as nat).2,
            pool@.wf(),
            exts.wf(),
            pool@.has_room((n - i) as nat),
            exts_have_room(*exts, (n - i) as nat),
            hs@.len() == i,
            handle_views(hs@).no_duplicates(),
            forall|k: int| 0 <= k < hs@.len() ==> !old(pool)@.valid(#[trigger] hs@[k]@),
            forall|g: (usize, u32)| #[trigger] pool@.valid(g) <==> (old(pool)@.valid(g) || handle_views(hs@).contains(g)),
            forall|g: (usize, u32)| #[trigger] old(pool)@.valid(g) ==> pool@.lookup(g) == old(pool)@.lookup(g),
            forall|k: int| 0 <= k < hs@.len() ==> {
                &&& spawned_payload_ok(nodes@[k], #[trigger] pool@.lookup(hs@[k]@)->0)
                &&& ext_from_saved_ok(nodes@[k].node_extension, pool@.lookup(hs@[k]@)->0.node_extension, hs@[k]@, *exts)
                &&& node_links(pool@.lookup(hs@[k]@)->0) == no_links()
                &&& ext_key(pool@.lookup(hs@[k]@)->0.node_extension) is Some
                    ==> !ext_key_valid(*old(exts), ext_key(pool@.lookup(hs@[k]@)->0.node_extension)->0)
                &&& ext_key(pool@.lookup(hs@[k]@)->0.node_extension) is Some
                    ==> ext_key_valid(*exts, ext_key(pool@.lookup(hs@[k]@)->0.node_extension)->0)
            },
            forall|k: int, j: int| 0 <= k < hs@.len() && 0 <= j < hs@.len() && k != j
                && ext_key(#[trigger] pool@.lookup(hs@[k]@)->0.node_extension) is Some
                ==> ext_key(pool@.lookup(hs@[k]@)->0.node_extension) != ext_key(#[trigger] pool@.lookup(hs@[j]@)->0.node_extension),
            exts_grown(*old(exts), *exts),
            exts_new_or_old(*old(exts), *exts, pool@, handle_views(hs@)),
        decreases n - i,
    {
        let ghost hs0 = hs@;
        let node = &nodes[i];
        let script_data = match node.script_type_id {
            Some(id) => Some(NodeScriptData { type_id: id }),
            None => None,
        };
        let new_node = Node {
            child_handle: None,
            parent_handle: None,
            sibling_handle: None,
            name: node.name.clone(),
            transform: Transform { x: node.transform.x, y: node.transform.y },
            node_extension: NodeExtensionHandle::Nothing,
            script_data,
            enabled: node.enabled,
            global_transform: Transform { x: 0, y: 0 },
            global_enabled: false,
        };
        let ghost p1 = pool@;
        let ghost e1 = *exts;
        let ghost nn = new_node;
        proof {
            crate::pool::lemma_room_add(p1, nn, (n - i - 1) as nat);
            crate::pool::lemma_add_fresh(p1, nn);
        }
        let handle = pool.add(new_node);
        proof {
            crate::pool::lemma_room_less(e1.sprite_pool@, (n - i) as nat, (n - i) as nat);
        }
        let e = exts.add_from_saved(handle, &node.node_extension);
        proof {
            lemma_add_ext_step(e1, *exts, node.node_extension, e, handle, (n - i - 1) as nat);
        }
        let ghost p2 = pool@;
        proof {
            crate::pool::lemma_valid_not_free(p2, handle@);
            crate::pool::lemma_set_wf(p2, handle@.0);
        }
        pool.borrow_mut(handle).node_extension = e;
        let ghost p3 = pool@;
        proof {
            assert forall|g: (usize, u32)| g != handle@ implies #[trigger] p3.lookup(g) == p1.lookup(g) by {
                assert(p2.lookup(g) == p1.lookup(g));
                if p2.valid(g) {
                    crate::pool::lemma_write_keeps_others(p2, handle@, g, p3.lookup(handle@)->0);
                }
            }
        }
        hs.push(handle);
        proof {
            lemma_add_saved_step(*old(pool), *old(exts), p1, p3, e1, *exts, hs0, handle, e, nodes@, i as int);
            assert(hs@ == hs0.push(handle));
            crate::pool::lemma_adds_step(old(pool)@, p1, i as nat, nn);
            crate::pool::lemma_set_keeps_gens(p2, handle@.0, Some(p3.lookup(handle@)->0));
            assert(handle_views(hs@) =~= handle_views(hs0).push(handle@));
        }
        i = i + 1;
    }
    hs
}

/// The links that node `k` of a saved graph gets once its nodes have the
/// handles `hv`; the root gets `parent` as its parent.
pub open spec fn wired_links(nodes: Seq<SavedNode>, hv: Seq<(usize, u32)>, parent: (usize, u32), k: int) -> Links<(usize, u32)> {
    let f = |i: u32| hv[i as int];
    Links {
        child: crate::tree::rename_opt(nodes[k].child_index, f),
        sibling: crate::tree::rename_opt(nodes[k].sibling_index, f),
        parent: match nodes[k].parent_index {
            Some(p) => Some(f(p)),
            None => Some(parent),
        },
    }
}

/// The links of a saved graph that forms a tree stay among its nodes, and
/// only its root has no parent.
proof fn lemma_saved_links_in_range(nodes: Seq<SavedNode>)
    requires
        spawnable(nodes),
    ensures
        tree_wf(saved_links(nodes), saved_root(nodes)),
        saved_root(nodes) < nodes.len(),
        forall|k: int| 0 <= k < nodes.len() ==> {
            &&& (#[trigger] nodes[k]).child_index matches Some(c) ==> c < nodes.len()
            &&& nodes[k].sibling_index matches Some(c) ==> c < nodes.len()
            &&& nodes[k].parent_index matches Some(c) ==> c < nodes.len()
            &&& (nodes[k].parent_index is None <==> k == saved_root(nodes))
        },
{
    let m = saved_links(nodes);
    let r = saved_root(nodes);
    assert(tree_wf(m, r));
    let (c, d) = choose|c: spec_fn(u32) -> Seq<u32>, d: spec_fn(u32) -> nat| witness_ok(m, r, c, d);
    assert forall|k: int| 0 <= k < nodes.len() implies {
        &&& (#[trigger] nodes[k]).child_index matches Some(c) ==> c < nodes.len()
        &&& nodes[k].sibling_index matches Some(c) ==> c < nodes.len()
        &&& nodes[k].parent_index matches Some(c) ==> c < nodes.len()
        &&& (nodes[k].parent_index is None <==> k == r)
    } by {
        let x = k as u32;
        assert(m.dom().contains(x));
        assert(m[x] == Links { child: nodes[k].child_index, sibling: nodes[k].sibling_index, parent: nodes[k].parent_index });
        assert(chain_ok(m, x, c(x), d));
        if c(x).len() > 0 {
            assert(m.dom().contains(c(x)[0]));
        }
        if x != r {
            let p = m[x].parent->0;
            assert(m.dom().contains(p) && c(p).contains(x));
            let j = c(p).index_of(x);
            assert(c(p)[j] == x);
            assert(chain_ok(m, p, c(p), d));
            if j + 1 < c(p).len() {
                assert(m.dom().contains(c(p)[j + 1]));
            }
        }
    }
}

/// Sets the links of the nodes added for a saved graph, by the handles
/// `hs` they got, and queues them to be started; gives the handle of the
/// graph's root, which gets `parent` as its parent.
fn wire_saved_nodes(
    pool: &mut Pool<Node>,
    nodes: &Vec<SavedNode>,
    hs: &Vec<Handle<Node>>,
    parent: Handle<Node>,
    to_start: &mut Vec<Handle<Node>>,
) -> (root: Handle<Node>)
    requires
        old(pool)@.wf(),
        spawnable(nodes@),
        hs@.len() == nodes@.len(),
        handle_views(hs@).no_duplicates(),
        forall|k: int| 0 <= k < hs@.len() ==> old(pool)@.valid(#[trigger] hs@[k]@),
    ensures
        final(pool)@.wf(),
        root@ == hs@[saved_root(nodes@) as int]@,
        forall|g: (usize, u32)| #[trigger] final(pool)@.valid(g) <==> old(pool)@.valid(g),
        forall|g: (usize, u32)| !handle_views(hs@).contains(g) ==> #[trigger] final(pool)@.lookup(g) == old(pool)@.lookup(g),
        forall|k: int| 0 <= k < hs@.len() ==> {
            &&& same_payload(old(pool)@.lookup(hs@[k]@)->0, #[trigger] final(pool)@.lookup(hs@[k]@)->0)
            &&& node_links(final(pool)@.lookup(hs@[k]@)->0) == wired_links(nodes@, handle_views(hs@), parent@, k)
        },
        handle_views(final(to_start)@) == handle_views(old(to_start)@) + handle_views(hs@),
{
    let ghost hv = handle_views(hs@);
    let ghost r = saved_root(nodes@);
    proof {
        lemma_saved_links_in_range(nodes@);
    }
    let n = nodes.len();
    let mut new_obj_root: Option<Handle<Node>> = None;
    let mut i: usize = 0;
    while i < n
        invariant
            n == nodes@.len(),
            n == hs@.len(),
            0 <= i <= n,
            hv == handle_views(hs@),
            hv.no_duplicates(),
            r == saved_root(nodes@),
            r < n,
            forall|k: int| 0 <= k < nodes@.len() ==> {
                &&& (#[trigger] nodes@[k]).child_index matches Some(c) ==> c < nodes@.len()
                &&& nodes@[k].sibling_index matches Some(c) ==> c < nodes@.len()
                &&& nodes@[k].parent_index matches Some(c) ==> c < nodes@.len()
                &&& (nodes@[k].parent_index is None <==> k == r)
            },
            forall|k: int| 0 <= k < hs@.len() ==> old(pool)@.valid(#[trigger] hs@[k]@),
            pool@.wf(),
            forall|g: (usize, u32)| #[trigger] pool@.valid(g) <==> old(pool)@.valid(g),
            forall|g: (usize, u32)| !hv.contains(g) ==> #[trigger] pool@.lookup(g) == old(pool)@.lookup(g),
            forall|k: int| i <= k < hv.len() ==> #[trigger] pool@.lookup(hv[k]) == old(pool)@.lookup(hv[k]),
            forall|k: int| 0 <= k < i ==> {
                &&& same_payload(old(pool)@.lookup(hv[k])->0, #[trigger] pool@.lookup(hv[k])->0)
                &&& node_links(pool@.lookup(hv[k])->0) == wired_links(nodes@, hv, parent@, k)
            },
            handle_views(to_start@) == handle_views(old(to_start)@) + hv.take(i as int),
            new_obj_root == (if r < i {
                Some(hs@[r as int])
            } else {
                None::<Handle<Node>>
            }),
        decreases n - i,
    {
        let snode = &nodes[i];
        let h = hs[i];
        let child = match snode.child_index {
            Some(idx) => Some(hs[idx as usize]),
            None => None,
        };
        let sibling = match snode.sibling_index {
            Some(idx) => Some(hs[idx as usize]),
            None => None,
        };
        let parent_link = match snode.parent_index {
            Some(idx) => Some(hs[idx as usize]),
            None => {
                new_obj_root = Some(h);
                Some(parent)
            },
        };
        let ghost p1 = pool@;
        proof {
            assert(hv[i as int] == h@);
            assert(old(pool)@.valid(hs@[i as int]@));
            assert(p1.lookup(hv[i as int]) == old(pool)@.lookup(hv[i as int]));
            crate::pool::lemma_valid_not_free(p1, h@);
            crate::pool::lemma_set_wf(p1, h@.0);
        }
        let node = pool.borrow_mut(h);
        node.child_handle = child;
        node.sibling_handle = sibling;
        node.parent_handle = parent_link;
        let ghost ts0 = to_start@;
        to_start.push(h);
        proof {
            let p2 = pool@;
            assert(handle_views(to_start@) =~= handle_views(ts0).push(h@));
            assert forall|g: (usize, u32)| g != h@ implies #[trigger] p2.lookup(g) == p1.lookup(g) by {
                if p1.valid(g) {
                    crate::pool::lemma_write_keeps_others(p1, h@, g, p2.lookup(h@)->0);
                }
            }
            assert forall|k: int| i + 1 <= k < hv.len() implies #[trigger] p2.lookup(hv[k]) == old(pool)@.lookup(hv[k]) by {
                assert(hv[k] != hv[i as int]);
            }
            assert forall|k: int| 0 <= k < i + 1 implies {
                &&& same_payload(old(pool)@.lookup(hv[k])->0, #[trigger] p2.lookup(hv[k])->0)
                &&& node_links(p2.lookup(hv[k])->0) == wired_links(nodes@, hv, parent@, k)
            } by {
                if k < i {
                    assert(hv[k] != hv[i as int]);
                }
            }
            assert forall|g: (usize, u32)| !hv.contains(g) implies #[trigger] p2.lookup(g) == old(pool)@.lookup(g) by {
                assert(hv[i as int] == h@);
            }
            assert forall|g: (usize, u32)| #[trigger] p2.valid(g) <==> old(pool)@.valid(g) by {
                assert(p1.valid(g) == old(pool)@.valid(g));
                if g != h@ {
                    assert(p2.lookup(g) == p1.lookup(g));
                } else {
                    assert(old(pool)@.valid(hs@[i as int]@));
                }
            }
            assert(hv.take(i + 1) =~= hv.take(i as int).push(h@));
            assert(handle_views(to_start@) =~= handle_views(old(to_start)@) + hv.take(i + 1));
        }
        i = i + 1;
    }
    proof {
        assert(hv.take(n as int) =~= hv);
    }
    new_obj_root.unwrap()
}

/// One step of `add_saved_nodes`: the node of position `i` was added with
/// the handle `handle` and the extension `e`.
#[verifier::rlimit(50)]
proof fn lemma_add_saved_step(
    p0: Pool<Node>,
    e0: NodeExtensionPools,
    p1: PoolModel<Node>,
    p3: PoolModel<Node>,
    e1: NodeExtensionPools,
    e2: NodeExtensionPools,
    hs0: Seq<Handle<Node>>,
    handle: Handle<Node>,
    e: NodeExtensionHandle,
    nodes: Seq<SavedNode>,
    i: int,
)
    requires
        0 <= i < nodes.len(),
        hs0.len() == i,
        handle_views(hs0).no_duplicates(),
        forall|k: int| 0 <= k < hs0.len() ==> !p0@.valid(#[trigger] hs0[k]@),
        forall|g: (usize, u32)| #[trigger] p1.valid(g) <==> (p0@.valid(g) || handle_views(hs0).contains(g)),
        forall|g: (usize, u32)| #[trigger] p0@.valid(g) ==> p1.lookup(g) == p0@.lookup(g),
        forall|k: int| 0 <= k < hs0.len() ==> {
            &&& spawned_payload_ok(nodes[k], #[trigger] p1.lookup(hs0[k]@)->0)
            &&& ext_from_saved_ok(nodes[k].node_extension, p1.lookup(hs0[k]@)->0.node_extension, hs0[k]@, e1)
            &&& node_links(p1.lookup(hs0[k]@)->0) == no_links()
            &&& ext_key(p1.lookup(hs0[k]@)->0.node_extension) is Some
                ==> !ext_key_valid(e0, ext_key(p1.lookup(hs0[k]@)->0.node_extension)->0)
            &&& ext_key(p1.lookup(hs0[k]@)->0.node_extension) is Some
                ==> ext_key_valid(e1, ext_key(p1.lookup(hs0[k]@)->0.node_extension)->0)
        },
        forall|k: int, j: int| 0 <= k < hs0.len() && 0 <= j < hs0.len() && k != j
            && ext_key(#[trigger] p1.lookup(hs0[k]@)->0.node_extension) is Some
            ==> ext_key(p1.lookup(hs0[k]@)->0.node_extension) != ext_key(#[trigger] p1.lookup(hs0[j]@)->0.node_extension),
        exts_grown(e0, e1),
        exts_new_or_old(e0, e1, p1, handle_views(hs0)),
        forall|k: (int, (usize, u32))| 0 <= k.0 <= 2 && #[trigger] ext_key_valid(e2, k) ==> ext_key_valid(e1, k) || ext_key(e) == Some(k),
        // the step
        !p1.valid(handle@),
        p3.lookup(handle@) matches Some(nd) && spawned_payload_ok(nodes[i], nd) && nd.node_extension == e
            && node_links(nd) == no_links(),
        forall|g: (usize, u32)| g != handle@ ==> #[trigger] p3.lookup(g) == p1.lookup(g),
        exts_grown(e1, e2),
        ext_from_saved_ok(nodes[i].node_extension, e, handle@, e2),
        e2.holds(e),
        ext_key(e) is Some ==> !ext_key_valid(e1, ext_key(e)->0),
    ensures
        handle_views(hs0.push(handle)).no_duplicates(),
        forall|k: int| 0 <= k < hs0.push(handle).len() ==> !p0@.valid(#[trigger] hs0.push(handle)[k]@),
        forall|g: (usize, u32)| #[trigger] p3.valid(g) <==> (p0@.valid(g) || handle_views(hs0.push(handle)).contains(g)),
        forall|g: (usize, u32)| #[trigger] p0@.valid(g) ==> p3.lookup(g) == p0@.lookup(g),
        forall|k: int| 0 <= k < hs0.push(handle).len() ==> {
            &&& spawned_payload_ok(nodes[k], #[trigger] p3.lookup(hs0.push(handle)[k]@)->0)
            &&& ext_from_saved_ok(nodes[k].node_extension, p3.lookup(hs0.push(handle)[k]@)->0.node_extension, hs0.push(handle)[k]@, e2)
            &&& node_links(p3.lookup(hs0.push(handle)[k]@)->0) == no_links()
            &&& ext_key(p3.lookup(hs0.push(handle)[k]@)->0.node_extension) is Some
                ==> !ext_key_valid(e0, ext_key(p3.lookup(hs0.push(handle)[k]@)->0.node_extension)->0)
            &&& ext_key(p3.lookup(hs0.push(handle)[k]@)->0.node_extension) is Some
                ==> ext_key_valid(e2, ext_key(p3.lookup(hs0.push(handle)[k]@)->0.node_extension)->0)
        },
        forall|k: int, j: int| 0 <= k < hs0.push(handle).len() && 0 <= j < hs0.push(handle).len() && k != j
            && ext_key(#[trigger] p3.lookup(hs0.push(handle)[k]@)->0.node_extension) is Some
            ==> ext_key(p3.lookup(hs0.push(handle)[k]@)->0.node_extension) != ext_key(#[trigger] p3.lookup(hs0.push(handle)[j]@)->0.node_extension),
        exts_grown(e0, e2),
        exts_new_or_old(e0, e2, p3, handle_views(hs0.push(handle))),
{
    let hs = hs0.push(handle);
    let hv0 = handle_views(hs0);
    let hv = handle_views(hs);
    assert(hv =~= hv0.push(handle@));
    assert forall|k: int| 0 <= k < i implies #[trigger] hs[k] == hs0[k] && p1.valid(hv0[k]) && hv0[k] == hs0[k]@ by {
        assert(hv0.contains(hv0[k]));
    }
    assert(!hv0.contains(handle@)) by {
        if hv0.contains(handle@) {
            let k = hv0.index_of(handle@);
            assert(hv0[k] == handle@);
            assert(hs[k] == hs0[k] && p1.valid(hv0[k]));
        }
    }
    assert forall|g: (usize, u32)| #[trigger] p3.valid(g) <==> (p0@.valid(g) || hv.contains(g)) by {
        if g == handle@ {
            assert(hv[hv.len() - 1] == g);
        } else {
            assert(p3.lookup(g) == p1.lookup(g));
            assert(p1.valid(g) <==> (p0@.valid(g) || hv0.contains(g)));
            if hv.contains(g) {
                let k = hv.index_of(g);
                assert(hv[k] == g);
                assert(hv0[k] == g);
            }
            if hv0.contains(g) {
                let k = hv0.index_of(g);
                assert(hv0[k] == g);
                assert(hv[k] == g);
            }
        }
    }
    assert forall|g: (usize, u32)| #[trigger] p0@.valid(g) implies p3.lookup(g) == p0@.lookup(g) by {
        assert(p1.valid(g));
    }
    assert forall|k: int| 0 <= k < hs.len() implies !p0@.valid(#[trigger] hs[k]@) by {
        if k < i {
            assert(hs[k] == hs0[k]);
        } else {
            assert(hs[k] == handle);
        }
    }
    assert forall|k: int| 0 <= k < hs.len() implies {
        &&& spawned_payload_ok(nodes[k], #[trigger] p3.lookup(hs[k]@)->0)
        &&& ext_from_saved_ok(nodes[k].node_extension, p3.lookup(hs[k]@)->0.node_extension, hs[k]@, e2)
        &&& node_links(p3.lookup(hs[k]@)->0) == no_links()
        &&& ext_key(p3.lookup(hs[k]@)->0.node_extension) is Some
            ==> !ext_key_valid(e0, ext_key(p3.lookup(hs[k]@)->0.node_extension)->0)
        &&& ext_key(p3.lookup(hs[k]@)->0.node_extension) is Some
            ==> ext_key_valid(e2, ext_key(p3.lookup(hs[k]@)->0.node_extension)->0)
    } by {
        if k < i {
            let hk = hs0[k]@;
            assert(hs[k] == hs0[k]);
            assert(hv0[k] == hk);
            assert(hk != handle@);
            assert(p3.lookup(hk) == p1.lookup(hk));
            lemma_ext_ok_grown(nodes[k].node_extension, p1.lookup(hk)->0.node_extension, hk, e1, e2);
        } else {
            assert(hs[k] == handle);
            lemma_fresh_ext_not_old(e0, e1, e);
            lemma_holds_key(e2, e);
        }
    }
    assert forall|k: int, j: int| 0 <= k < hs.len() && 0 <= j < hs.len() && k != j
        && ext_key(#[trigger] p3.lookup(hs[k]@)->0.node_extension) is Some
        implies ext_key(p3.lookup(hs[k]@)->0.node_extension) != ext_key(#[trigger] p3.lookup(hs[j]@)->0.node_extension) by {
        if k < i && j < i {
            assert(hs[k] == hs0[k] && hs[j] == hs0[j]);
            assert(hv0[k] != handle@ && hv0[j] != handle@);
        } else if k < i {
            assert(hs[k] == hs0[k] && hs[j] == handle);
            assert(hv0[k] != handle@);
            assert(p3.lookup(hs[k]@) == p1.lookup(hs0[k]@));
            assert(spawned_payload_ok(nodes[k], p1.lookup(hs0[k]@)->0));
            assert(ext_key_valid(e1, ext_key(p1.lookup(hs0[k]@)->0.node_extension)->0));
            assert(p3.lookup(hs[j]@)->0.node_extension == e);
        } else {
            assert(hs[j] == hs0[j] && hs[k] == handle);
            assert(hv0[j] != handle@);
            assert(p3.lookup(hs[j]@) == p1.lookup(hs0[j]@));
            assert(p3.lookup(hs[k]@)->0.node_extension == e);
            assert(spawned_payload_ok(nodes[j], p1.lookup(hs0[j]@)->0));
            if ext_key(p1.lookup(hs0[j]@)->0.node_extension) is Some {
                assert(ext_key_valid(e1, ext_key(p1.lookup(hs0[j]@)->0.node_extension)->0));
            }
        }
    }
    lemma_exts_grown_trans(e0, e1, e2);
    assert forall|k: (int, (usize, u32))| 0 <= k.0 <= 2 && #[trigger] ext_key_valid(e2, k) implies ext_key_valid(e0, k)
        || exists|j: int| 0 <= j < hv.len() && ext_key(p3.lookup(hv[j])->0.node_extension) == Some(k) by {
        if ext_key(e) == Some(k) {
            assert(hv[i] == handle@);
            assert(p3.lookup(hv[i])->0.node_extension == e);
        } else {
            assert(ext_key_valid(e1, k));
            if !ext_key_valid(e0, k) {
                let j = choose|j: int| 0 <= j < hv0.len() && ext_key(p1.lookup(hv0[j])->0.node_extension) == Some(k);
                assert(hv[j] == hv0[j]);
                assert(hv0[j] != handle@);
                assert(p3.lookup(hv0[j]) == p1.lookup(hv0[j]));
            }
        }
    }
}

/// An extension described by a saved one stays so while the pools grow.
proof fn lemma_ext_ok_grown(se: SavedNodeExtension, e: NodeExtensionHandle, h: (usize, u32), a: NodeExtensionPools, b: NodeExtensionPools)
    requires
        ext_from_saved_ok(se, e, h, a),
        exts_grown(a, b),
    ensures
        ext_from_saved_ok(se, e, h, b),
        ext_key(e) is Some ==> ext_key_valid(b, ext_key(e)->0),
{
    match e {
        NodeExtensionHandle::Nothing => {},
        NodeExtensionHandle::Sprite(eh) => { assert(a.sprite_pool@.valid(eh@)); },
        NodeExtensionHandle::Camera(eh) => { assert(a.camera_pool@.valid(eh@)); },
        NodeExtensionHandle::RectCollider(eh) => { assert(a.rect_collider_pool@.valid(eh@)); },
    }
}

/// An extension not held before the last additions was not held at first.
proof fn lemma_fresh_ext_not_old(a: NodeExtensionPools, b: NodeExtensionPools, e: NodeExtensionHandle)
    requires
        exts_grown(a, b),
        ext_key(e) is Some ==> !ext_key_valid(b, ext_key(e)->0),
    ensures
        ext_key(e) is Some ==> !ext_key_valid(a, ext_key(e)->0),
{
}

/// Growing pools twice is growing them.
proof fn lemma_exts_grown_trans(a: NodeExtensionPools, b: NodeExtensionPools, c: NodeExtensionPools)
    requires
        exts_grown(a, b),
        exts_grown(b, c),
    ensures
        exts_grown(a, c),
{
    assert forall|v: (usize, u32)| #[trigger] a.sprite_pool@.valid(v) implies c.sprite_pool@.lookup(v) == a.sprite_pool@.lookup(v) by {
        assert(b.sprite_pool@.valid(v));
    }
    assert forall|v: (usize, u32)| #[trigger] a.camera_pool@.valid(v) implies c.camera_pool@.lookup(v) == a.camera_pool@.lookup(v) by {
        assert(b.camera_pool@.valid(v));
    }
    assert forall|v: (usize, u32)| #[trigger] a.rect_collider_pool@.valid(v) implies c.rect_collider_pool@.lookup(v) == a.rect_collider_pool@.lookup(v) by {
        assert(b.rect_collider_pool@.valid(v));
    }
}

/// What spawning a saved graph under `parent` did, with `hv` the handles
/// its nodes got, in the order of the saved nodes.
pub open spec fn spawned_with(h0: Hierarchy, h1: Hierarchy, nodes: Seq<SavedNode>, parent: (usize, u32), hv: Seq<(usize, u32)>) -> bool {
    let rk = saved_root(nodes) as int;
    let r = hv[rk];
    &&& hv.len() == nodes.len()
    &&& hv.no_duplicates()
    &&& forall|k: int| 0 <= k < hv.len() ==> !h0.nodes().valid(#[trigger] hv[k])
    &&& forall|g: (usize, u32)| #[trigger] h1.nodes().valid(g) <==> (h0.nodes().valid(g) || hv.contains(g))
    &&& forall|g: (usize, u32)| h0.nodes().valid(g) && g != parent ==> #[trigger] h1.nodes().lookup(g) == h0.nodes().lookup(g)
    &&& same_payload(h0.node(parent), h1.node(parent))
    &&& node_links(h1.node(parent)) == node_links(h0.node(parent)).with_child(Some(r))
    &&& forall|k: int| 0 <= k < hv.len() ==> {
        &&& spawned_payload_ok(nodes[k], #[trigger] h1.node(hv[k]))
        &&& ext_from_saved_ok(nodes[k].node_extension, h1.node(hv[k]).node_extension, hv[k], h1.node_ext_pools)
        &&& node_links(h1.node(hv[k])) == (if k == rk {
            wired_links(nodes, hv, parent, k).with_sibling(node_links(h0.node(parent)).child)
        } else {
            wired_links(nodes, hv, parent, k)
        })
    }
    &&& exts_grown(h0.node_ext_pools, h1.node_ext_pools)
    &&& handle_views(h1.to_start_stack@) == handle_views(h0.to_start_stack@) + hv
    &&& if h0.live@.contains(parent) {
        &&& h1.live@ == h0.live@ + hv.to_set()
        &&& h1.live_links() == link(h0.live_links().union_prefer_right(spawned_tree(nodes, hv)), r, parent)
    } else {
        h1.live == h0.live
    }
}

/// The position of a handle among distinct handles.
proof fn lemma_index_of_distinct<A>(s: Seq<A>, k: int)
    requires
        s.no_duplicates(),
        0 <= k < s.len(),
    ensures
        s.index_of(s[k]) == k,
{
    assert(s.contains(s[k]));
    let i = s.index_of(s[k]);
    assert(s[i] == s[k]);
}

/// The extension that a saved extension describes is held.
proof fn lemma_ext_ok_holds(se: SavedNodeExtension, e: NodeExtensionHandle, h: (usize, u32), exts: NodeExtensionPools)
    requires
        ext_from_saved_ok(se, e, h, exts),
    ensures
        exts.holds(e),
        ext_key(e) is Some ==> ext_key_valid(exts, ext_key(e)->0),
{
}

/// What `spawn_object` leaves: the three steps put together.
#[verifier::rlimit(100)]
proof fn lemma_spawn_done(h0: Hierarchy, ha: Hierarchy, hw: Hierarchy, h1: Hierarchy, nodes: Seq<SavedNode>, parent: (usize, u32), hv: Seq<(usize, u32)>)
    requires
        h0.wf(),
        spawnable(nodes),
        h0.nodes().valid(parent),
        // adding the nodes
        ha.nodes().wf(),
        ha.node_ext_pools.wf(),
        ha.live == h0.live,
        ha.root == h0.root,
        ha.to_start_stack == h0.to_start_stack,
        hv.len() == nodes.len(),
        hv.no_duplicates(),
        forall|k: int| 0 <= k < hv.len() ==> !h0.nodes().valid(#[trigger] hv[k]),
        forall|g: (usize, u32)| #[trigger] ha.nodes().valid(g) <==> (h0.nodes().valid(g) || hv.contains(g)),
        forall|g: (usize, u32)| #[trigger] h0.nodes().valid(g) ==> ha.nodes().lookup(g) == h0.nodes().lookup(g),
        forall|k: int| 0 <= k < hv.len() ==> {
            &&& spawned_payload_ok(nodes[k], #[trigger] ha.nodes().lookup(hv[k])->0)
            &&& ext_from_saved_ok(nodes[k].node_extension, ha.nodes().lookup(hv[k])->0.node_extension, hv[k], ha.node_ext_pools)
            &&& ext_key(ha.nodes().lookup(hv[k])->0.node_extension) is Some
                ==> !ext_key_valid(h0.node_ext_pools, ext_key(ha.nodes().lookup(hv[k])->0.node_extension)->0)
        },
        forall|k: int, j: int| 0 <= k < hv.len() && 0 <= j < hv.len() && k != j
            && ext_key(#[trigger] ha.nodes().lookup(hv[k])->0.node_extension) is Some
            ==> ext_key(ha.nodes().lookup(hv[k])->0.node_extension) != ext_key(#[trigger] ha.nodes().lookup(hv[j])->0.node_extension),
        exts_grown(h0.node_ext_pools, ha.node_ext_pools),
        exts_new_or_old(h0.node_ext_pools, ha.node_ext_pools, ha.nodes(), hv),
        // wiring them
        hw.nodes().wf(),
        hw.node_ext_pools == ha.node_ext_pools,
        hw.live == h0.live,
        hw.root == h0.root,
        forall|g: (usize, u32)| #[trigger] hw.nodes().valid(g) <==> ha.nodes().valid(g),
        forall|g: (usize, u32)| !hv.contains(g) ==> #[trigger] hw.nodes().lookup(g) == ha.nodes().lookup(g),
        forall|k: int| 0 <= k < hv.len() ==> {
            &&& same_payload(ha.nodes().lookup(hv[k])->0, #[trigger] hw.nodes().lookup(hv[k])->0)
            &&& node_links(hw.nodes().lookup(hv[k])->0) == wired_links(nodes, hv, parent, k)
        },
        handle_views(hw.to_start_stack@) == handle_views(h0.to_start_stack@) + hv,
        // linking the root below `parent`
        h1.nodes().wf(),
        forall|g: (usize, u32)| #[trigger] h1.nodes().valid(g) <==> hw.nodes().valid(g),
        forall|g: (usize, u32)| g != parent && g != hv[saved_root(nodes) as int] ==> #[trigger] h1.nodes().lookup(g) == hw.nodes().lookup(g),
        same_payload(hw.node(parent), h1.node(parent)),
        node_links(h1.node(parent)) == node_links(hw.node(parent)).with_child(Some(hv[saved_root(nodes) as int])),
        same_payload(hw.node(hv[saved_root(nodes) as int]), h1.node(hv[saved_root(nodes) as int])),
        node_links(h1.node(hv[saved_root(nodes) as int])) == node_links(hw.node(hv[saved_root(nodes) as int])).with_sibling(node_links(hw.node(parent)).child),
        h1.root == h0.root,
        h1.node_ext_pools == ha.node_ext_pools,
        h1.to_start_stack == hw.to_start_stack,
        h1.live@ == (if h0.live@.contains(parent) {
            h0.live@ + hv.to_set()
        } else {
            h0.live@
        }),
    ensures
        h1.wf(),
        spawned_with(h0, h1, nodes, parent, hv),
{
    let rk = saved_root(nodes) as int;
    let r = hv[rk];
    let m = h0.live_links();
    let root = h0.root@;
    let e0 = h0.node_ext_pools;
    let e1 = h1.node_ext_pools;
    let f = |i: u32| hv[i as int];
    let g = |h: (usize, u32)| hv.index_of(h) as u32;
    let sl = saved_links(nodes);
    let t = spawned_tree(nodes, hv);
    lemma_saved_links_in_range(nodes);
    assert(h0.live_links().dom() =~= h0.live@);
    assert forall|k: int| 0 <= k < hv.len() implies #[trigger] hv.contains(hv[k]) && hv.index_of(hv[k]) == k by {
        lemma_index_of_distinct(hv, k);
    }
    assert forall|k: u32| #[trigger] sl.dom().contains(k) implies g(f(k)) == k by {
        lemma_index_of_distinct(hv, k as int);
    }
    crate::tree::lemma_rename_keeps_tree(sl, saved_root(nodes), f, g);
    assert(r != parent);
    assert(!h0.nodes().valid(r));
    // what the nodes of `h0` and the new nodes hold in `h1`
    assert forall|x: (usize, u32)| h0.nodes().valid(x) && x != parent implies #[trigger] h1.nodes().lookup(x) == h0.nodes().lookup(x) by {
        if hv.contains(x) {
            let k = hv.index_of(x);
            assert(hv[k] == x);
        }
        assert(x != r);
    }
    assert(hw.node(parent) == h0.node(parent)) by {
        if hv.contains(parent) {
            let k = hv.index_of(parent);
            assert(hv[k] == parent);
        }
    }
    assert forall|k: int| 0 <= k < hv.len() implies {
        &&& spawned_payload_ok(nodes[k], #[trigger] h1.node(hv[k]))
        &&& ext_from_saved_ok(nodes[k].node_extension, h1.node(hv[k]).node_extension, hv[k], h1.node_ext_pools)
        &&& node_links(h1.node(hv[k])) == (if k == rk {
            wired_links(nodes, hv, parent, k).with_sibling(node_links(h0.node(parent)).child)
        } else {
            wired_links(nodes, hv, parent, k)
        })
        &&& same_payload(ha.nodes().lookup(hv[k])->0, h1.node(hv[k]))
    } by {
        assert(hv[k] != parent);
        assert(same_payload(ha.nodes().lookup(hv[k])->0, hw.nodes().lookup(hv[k])->0));
        if k != rk {
            assert(hv[k] != r);
        }
    }
    assert forall|x: (usize, u32)| #[trigger] h1.nodes().valid(x) <==> (h0.nodes().valid(x) || hv.contains(x)) by {
        assert(hw.nodes().valid(x) == ha.nodes().valid(x));
    }
    // the tree
    if h0.live@.contains(parent) {
        let big = link(m.union_prefer_right(t), r, parent);
        assert(t.dom() =~= hv.to_set()) by {
            assert forall|x: (usize, u32)| t.dom().contains(x) implies hv.to_set().contains(x) by {
                let k = g(x);
                assert(sl.dom().contains(k));
                assert(f(k) == x);
                assert(hv[k as int] == x);
            }
            assert forall|x: (usize, u32)| hv.to_set().contains(x) implies t.dom().contains(x) by {
                let k = hv.index_of(x);
                assert(hv[k] == x);
                assert(sl.dom().contains(k as u32));
            }
        }
        assert(m.dom().disjoint(t.dom())) by {
            assert forall|x: (usize, u32)| m.dom().contains(x) implies !t.dom().contains(x) by {
                assert(h0.nodes().valid(x));
                if hv.to_set().contains(x) {
                    let k = hv.index_of(x);
                    assert(hv[k] == x);
                }
            }
        }
        crate::tree::lemma_graft_keeps_tree(m, root, t, r, parent);
        assert(big.dom() =~= h1.live@);
        assert forall|x: (usize, u32)| #[trigger] h1.live@.contains(x) implies node_links(h1.node(x)) == big[x] by {
            if hv.contains(x) {
                let k = hv.index_of(x);
                assert(hv[k] == x);
                let ku = k as u32;
                assert(sl.dom().contains(ku));
                assert(t[f(ku)] == crate::tree::rename_links(sl[ku], f));
                assert(sl[ku] == Links { child: nodes[k].child_index, sibling: nodes[k].sibling_index, parent: nodes[k].parent_index });
                assert(!m.dom().contains(x)) by {
                    assert(!h0.nodes().valid(x));
                }
            } else {
                assert(h0.live@.contains(x));
                assert(h0.nodes().valid(x));
                if x != parent {
                    assert(!t.dom().contains(x));
                }
            }
        }
        assert(h1.live@.subset_of(h1.nodes().handles()));
        lemma_live_links(h1.nodes(), h1.live@, big);
    } else {
        assert forall|x: (usize, u32)| #[trigger] h1.live@.contains(x) implies node_links(h1.node(x)) == m[x] by {
            assert(h0.nodes().valid(x));
        }
        lemma_live_links(h1.nodes(), h1.live@, m);
    }
    // extensions
    assert forall|x: (usize, u32)| #[trigger] h1.nodes().valid(x) implies e1.holds(h1.node(x).node_extension) by {
        if hv.contains(x) {
            let k = hv.index_of(x);
            assert(hv[k] == x);
            lemma_ext_ok_holds(nodes[k].node_extension, h1.node(x).node_extension, x, e1);
        } else {
            assert(h0.nodes().valid(x));
            assert(h0.node(x).node_extension == h1.node(x).node_extension);
            assert(e0.holds(h0.node(x).node_extension));
            lemma_ext_ok_grown_any(h0.node(x).node_extension, e0, e1);
        }
    }
    assert forall|x: (usize, u32), y: (usize, u32)|
        #[trigger] h1.nodes().valid(x) && #[trigger] h1.nodes().valid(y) && x != y && ext_key(h1.node(x).node_extension) is Some
        implies ext_key(h1.node(x).node_extension) != ext_key(h1.node(y).node_extension) by {
        if hv.contains(x) && hv.contains(y) {
            let k = hv.index_of(x);
            let j = hv.index_of(y);
            assert(hv[k] == x && hv[j] == y);
            assert(same_payload(ha.nodes().lookup(hv[k])->0, h1.node(hv[k])));
            assert(same_payload(ha.nodes().lookup(hv[j])->0, h1.node(hv[j])));
        } else if hv.contains(x) {
            let k = hv.index_of(x);
            assert(hv[k] == x);
            assert(same_payload(ha.nodes().lookup(hv[k])->0, h1.node(hv[k])));
            assert(h0.nodes().valid(y));
            assert(h0.node(y).node_extension == h1.node(y).node_extension);
            assert(e0.holds(h0.node(y).node_extension));
            lemma_holds_key(e0, h0.node(y).node_extension);
        } else if hv.contains(y) {
            let j = hv.index_of(y);
            assert(hv[j] == y);
            assert(same_payload(ha.nodes().lookup(hv[j])->0, h1.node(hv[j])));
            assert(h0.nodes().valid(x));
            assert(h0.node(x).node_extension == h1.node(x).node_extension);
            assert(e0.holds(h0.node(x).node_extension));
            lemma_holds_key(e0, h0.node(x).node_extension);
        } else {
            assert(h0.nodes().valid(x) && h0.nodes().valid(y));
            assert(h0.node(x).node_extension == h1.node(x).node_extension);
            assert(h0.node(y).node_extension == h1.node(y).node_extension);
        }
    }
    assert(h1.live@.subset_of(h1.nodes().handles()));
    // every extension belongs to its node
    assert forall|k: (int, (usize, u32)), n: (usize, u32)| 0 <= k.0 <= 2 && ext_key_valid(e1, k)
        && ext_key_valid(e0, k) && #[trigger] h0.owns_ext(n, k) implies h1.owns_ext(n, k) by {
        if n == parent {
            assert(same_payload(hw.node(parent), h1.node(parent)));
        } else {
            assert(h1.nodes().lookup(n) == h0.nodes().lookup(n));
        }
    }
    assert forall|k: (int, (usize, u32))| 0 <= k.0 <= 2 && #[trigger] ext_key_valid(e1, k) && !ext_key_valid(e0, k)
        implies (k.0 == 0 ==> h1.owns_ext(e1.sprite_pool@.lookup(k.1)->0.node_handle@, k))
            && (k.0 == 1 ==> h1.owns_ext(e1.camera_pool@.lookup(k.1)->0.node_handle@, k))
            && (k.0 == 2 ==> h1.owns_ext(e1.rect_collider_pool@.lookup(k.1)->0.node_handle@, k)) by {
        let j = choose|j: int| 0 <= j < hv.len() && ext_key(ha.nodes().lookup(hv[j])->0.node_extension) == Some(k);
        assert(spawned_payload_ok(nodes[j], ha.nodes().lookup(hv[j])->0));
        lemma_ext_ok_owner(nodes[j].node_extension, ha.nodes().lookup(hv[j])->0.node_extension, hv[j], e1, k);
        assert(same_payload(ha.nodes().lookup(hv[j])->0, h1.node(hv[j])));
    }
    assert forall|v: (usize, u32)| #[trigger] e1.sprite_pool@.valid(v)
        implies h1.owns_ext(e1.sprite_pool@.lookup(v)->0.node_handle@, (0int, v)) by {
        assert(ext_key_valid(e1, (0int, v)));
        if ext_key_valid(e0, (0int, v)) {
            assert(e0.sprite_pool@.valid(v));
            assert(h0.owns_ext(e0.sprite_pool@.lookup(v)->0.node_handle@, (0int, v)));
        }
    }
    assert forall|v: (usize, u32)| #[trigger] e1.camera_pool@.valid(v)
        implies h1.owns_ext(e1.camera_pool@.lookup(v)->0.node_handle@, (1int, v)) by {
        assert(ext_key_valid(e1, (1int, v)));
        if ext_key_valid(e0, (1int, v)) {
            assert(e0.camera_pool@.valid(v));
            assert(h0.owns_ext(e0.camera_pool@.lookup(v)->0.node_handle@, (1int, v)));
        }
    }
    assert forall|v: (usize, u32)| #[trigger] e1.rect_collider_pool@.valid(v)
        implies h1.owns_ext(e1.rect_collider_pool@.lookup(v)->0.node_handle@, (2int, v)) by {
        assert(ext_key_valid(e1, (2int, v)));
        if ext_key_valid(e0, (2int, v)) {
            assert(e0.rect_collider_pool@.valid(v));
            assert(h0.owns_ext(e0.rect_collider_pool@.lookup(v)->0.node_handle@, (2int, v)));
        }
    }
}

/// A held extension stays held while the pools grow.
proof fn lemma_ext_ok_grown_any(e: NodeExtensionHandle, a: NodeExtensionPools, b: NodeExtensionPools)
    requires
        a.holds(e),
        exts_grown(a, b),
    ensures
        b.holds(e),
{
    match e {
        NodeExtensionHandle::Nothing => {},
        NodeExtensionHandle::Sprite(eh) => { assert(a.sprite_pool@.valid(eh@)); },
        NodeExtensionHandle::Camera(eh) => { assert(a.camera_pool@.valid(eh@)); },
        NodeExtensionHandle::RectCollider(eh) => { assert(a.rect_collider_pool@.valid(eh@)); },
    }
}

impl Hierarchy {
    /// Makes `child` the first child of `parent`; the former first child
    /// becomes its next sibling.
    fn link_new_child(&mut self, parent: Handle<Node>, child: Handle<Node>)
        requires
            old(self).nodes().wf(),
            old(self).nodes().valid(parent@),
            old(self).nodes().valid(child@),
            parent@ != child@,
        ensures
            final(self).nodes().wf(),
            forall|g: (usize, u32)| #[trigger] final(self).nodes().valid(g) <==> old(self).nodes().valid(g),
            forall|g: (usize, u32)| g != parent@ && g != child@ ==> #[trigger] final(self).nodes().lookup(g) == old(self).nodes().lookup(g),
            same_payload(old(self).node(parent@), final(self).node(parent@)),
            node_links(final(self).node(parent@)) == node_links(old(self).node(parent@)).with_child(Some(child@)),
            same_payload(old(self).node(child@), final(self).node(child@)),
            node_links(final(self).node(child@)) == node_links(old(self).node(child@)).with_sibling(node_links(old(self).node(parent@)).child),
            final(self).root == old(self).root,
            final(self).live == old(self).live,
            final(self).node_ext_pools == old(self).node_ext_pools,
            final(self).to_start_stack == old(self).to_start_stack,
            final(self).to_destroy_stack == old(self).to_destroy_stack,
            final(self).game_data == old(self).game_data,
    {
        let ghost p0 = self.nodes();
        proof {
            crate::pool::lemma_valid_not_free(p0, parent@);
            crate::pool::lemma_set_wf(p0, parent@.0);
        }
        let parent_obj = self.object_pool.borrow_mut(parent);
        let old_child = parent_obj.child_handle;
        parent_obj.child_handle = Some(child);
        let ghost p1 = self.nodes();
        proof {
            assert forall|g: (usize, u32)| g != parent@ implies #[trigger] p1.lookup(g) == p0.lookup(g) by {
                if p0.valid(g) {
                    crate::pool::lemma_write_keeps_others(p0, parent@, g, p1.lookup(parent@)->0);
                }
            }
            crate::pool::lemma_valid_not_free(p1, child@);
            crate::pool::lemma_set_wf(p1, child@.0);
        }
        self.object_pool.borrow_mut(child).sibling_handle = old_child;
        proof {
            let p2 = self.nodes();
            assert forall|g: (usize, u32)| g != child@ implies #[trigger] p2.lookup(g) == p1.lookup(g) by {
                if p1.valid(g) {
                    crate::pool::lemma_write_keeps_others(p1, child@, g, p2.lookup(child@)->0);
                }
            }
            assert forall|g: (usize, u32)| #[trigger] p2.valid(g) <==> p0.valid(g) by {
                if g != child@ {
                    assert(p2.lookup(g) == p1.lookup(g));
                }
                if g != parent@ {
                    assert(p1.lookup(g) == p0.lookup(g));
                }
            }
        }
    }

    /// Adds the nodes of the saved graph `graph_name`, below `parent` as its
    /// first child, and queues them to be started; gives the handle of the
    /// graph's root.
    pub fn spawn_object(&mut self, graph_name: &str, parent: Handle<Node>) -> (r: Handle<Node>)
        requires
            old(self).wf(),
            graph_table(old(self).game_data.graphs).dom().contains(graph_name@),
            spawnable(graph_table(old(self).game_data.graphs)[graph_name@].nodes@),
            old(self).nodes().valid(parent@),
            old(self).nodes().has_room(graph_table(old(self).game_data.graphs)[graph_name@].nodes@.len()),
            exts_have_room(old(self).node_ext_pools, graph_table(old(self).game_data.graphs)[graph_name@].nodes@.len()),
        ensures
            final(self).wf(),
            final(self).root == old(self).root,
            final(self).game_data == old(self).game_data,
            final(self).to_destroy_stack == old(self).to_destroy_stack,
            exists|hv: Seq<(usize, u32)>| spawned_with(*old(self), *final(self), graph_table(old(self).game_data.graphs)[graph_name@].nodes@, parent@, hv)
                && r@ == hv[saved_root(graph_table(old(self).game_data.graphs)[graph_name@].nodes@) as int]
                && hv == crate::pool::added_handles(old(self).nodes(), graph_table(old(self).game_data.graphs)[graph_name@].nodes@.len()),
    {
        let ghost h0 = *self;
        let saved_graph = self.game_data.graphs.get(graph_name).unwrap();
        let ghost nodes = saved_graph.nodes@;
        let new_handles = add_saved_nodes(&mut self.object_pool, &mut self.node_ext_pools, &saved_graph.nodes);
        let ghost h_added = *self;
        proof {
            assert forall|k: int| 0 <= k < new_handles@.len() implies self.nodes().valid(#[trigger] new_handles@[k]@) by {
                assert(handle_views(new_handles@)[k] == new_handles@[k]@);
            }
            lemma_saved_links_in_range(nodes);
        }
        let new_obj_root = wire_saved_nodes(&mut self.object_pool, &saved_graph.nodes, &new_handles, parent, &mut self.to_start_stack);
        let ghost h_wired = *self;
        proof {
            assert(h_wired.nodes().valid(parent@));
            assert(h_wired.nodes().valid(new_obj_root@));
            assert(parent@ != new_obj_root@) by {
                let rk = saved_root(nodes) as int;
                assert(!h0.nodes().valid(new_handles@[rk]@));
            }
        }
        self.link_new_child(parent, new_obj_root);
        proof {
            let hv = handle_views(new_handles@);
            if h0.live@.contains(parent@) {
                self.live = Ghost(h0.live@ + hv.to_set());
            }
            lemma_spawn_done(h0, h_added, h_wired, *self, nodes, parent@, hv);
        }
        new_obj_root
    }
}

/// The graph `name` can be set as the scene of `h`: it is a graph of the
/// game data, it forms a tree, and the pools have room for its nodes.
pub open spec fn scene_settable(h: Hierarchy, name: Seq<char>) -> bool {
    &&& h.wf()
    &&& graph_table(h.game_data.graphs).dom().contains(name)
    &&& spawnable(graph_table(h.game_data.graphs)[name].nodes@)
    &&& h.nodes().has_room(graph_table(h.game_data.graphs)[name].nodes@.len())
    &&& exts_have_room(h.node_ext_pools, graph_table(h.game_data.graphs)[name].nodes@.len())
}

/// `h1` is `h0` with the graph `name` set as the scene: the root's first
/// child, if any, is queued to be destroyed and the graph is spawned below
/// the root.
pub open spec fn scene_set_to(h0: Hierarchy, h1: Hierarchy, name: Seq<char>) -> bool {
    &&& h1.wf()
    &&& h1.root == h0.root
    &&& h1.game_data == h0.game_data
    &&& handle_views(h1.to_destroy_stack@) == match h0.node(h0.root@).child_handle {
        Some(c) => handle_views(h0.to_destroy_stack@).push(c@),
        None => handle_views(h0.to_destroy_stack@),
    }
    &&& exists|hv: Seq<(usize, u32)>| spawned_with(h0, h1, graph_table(h0.game_data.graphs)[name].nodes@, h0.root@, hv)
        && hv == crate::pool::added_handles(h0.nodes(), graph_table(h0.game_data.graphs)[name].nodes@.len())
}

/// Two nodes agree on everything but the handle of their extension.
pub open spec fn same_but_extension(a: Node, b: Node) -> bool {
    &&& node_links(a) == node_links(b)
    &&& a.name == b.name
    &&& a.transform == b.transform
    &&& a.script_data == b.script_data
    &&& a.enabled == b.enabled
    &&& a.global_transform == b.global_transform
    &&& a.global_enabled == b.global_enabled
}

/// `set_scene_main` and `set_scene` with the main graph's name, called on
/// the same hierarchy, have the same effect on the scene: the same nodes
/// are in the pool under the same handles, the nodes that were there stay
/// as they were, each new node has the same contents but for the handle of
/// its extension, and the tree and the queues are the same.
pub proof fn lemma_set_scene_main_as_set_scene(h0: Hierarchy, h_main: Hierarchy, h_named: Hierarchy, s: Seq<char>)
    requires
        s == h0.game_data.main_graph@,
        scene_set_to(h0, h_main, h0.game_data.main_graph@),
        scene_set_to(h0, h_named, s),
    ensures
        forall|g: (usize, u32)| #[trigger] h_main.nodes().valid(g) <==> h_named.nodes().valid(g),
        forall|g: (usize, u32)| #[trigger] h_main.nodes().valid(g) ==> same_but_extension(h_main.node(g), h_named.node(g)),
        forall|g: (usize, u32)| #[trigger] h0.nodes().valid(g) ==> h_main.node(g) == h_named.node(g),
        h_main.live@ == h_named.live@,
        h_main.live_links() == h_named.live_links(),
        handle_views(h_main.to_start_stack@) == handle_views(h_named.to_start_stack@),
        handle_views(h_main.to_destroy_stack@) == handle_views(h_named.to_destroy_stack@),
        h_main.game_data == h_named.game_data,
        h_main.root == h_named.root,
{
    let nodes = graph_table(h0.game_data.graphs)[s].nodes@;
    let hv = crate::pool::added_handles(h0.nodes(), nodes.len());
    let r = h0.root@;
    assert(spawned_with(h0, h_main, nodes, r, hv));
    assert(spawned_with(h0, h_named, nodes, r, hv));
    assert forall|g: (usize, u32)| #[trigger] h0.nodes().valid(g) implies h_main.node(g) == h_named.node(g) by {
        if g == r {
            let a = h_main.node(g);
            let b = h_named.node(g);
            assert(same_payload(h0.node(r), a));
            assert(same_payload(h0.node(r), b));
            assert(node_links(a) == node_links(b));
            lemma_node_links_eq(a, b);
        }
    }
    assert forall|g: (usize, u32)| #[trigger] h_main.nodes().valid(g) implies same_but_extension(h_main.node(g), h_named.node(g)) by {
        if !h0.nodes().valid(g) {
            assert(hv.contains(g));
            let k = hv.index_of(g);
            assert(hv[k] == g);
            assert(spawned_payload_ok(nodes[k], h_main.node(hv[k])));
            assert(spawned_payload_ok(nodes[k], h_named.node(hv[k])));
        }
    }
}

/// Two nodes with the same payload and links are the same.
proof fn lemma_node_links_eq(a: Node, b: Node)
    requires
        same_payload(a, b),
        node_links(a) == node_links(b),
    ensures
        a == b,
{
    if a.child_handle is Some {
        crate::pool::lemma_handle_view_eq(a.child_handle->0, b.child_handle->0);
    }
    if a.sibling_handle is Some {
        crate::pool::lemma_handle_view_eq(a.sibling_handle->0, b.sibling_handle->0);
    }
    if a.parent_handle is Some {
        crate::pool::lemma_handle_view_eq(a.parent_handle->0, b.parent_handle->0);
    }
}

impl Hierarchy {
    /// Queues the current scene, the root's first child, to be destroyed,
    /// and spawns the graph `name` below the root. Until the queued destroys
    /// run, both scenes are there.
    pub fn set_scene(&mut self, name: &str)
        requires
            scene_settable(*old(self), name@),
        ensures
            scene_set_to(*old(self), *final(self), name@),
    {
        proof {
            assert(self.live_links().dom().contains(self.root@)) by {
                let (c, d) = choose|c: spec_fn((usize, u32)) -> Seq<(usize, u32)>, d: spec_fn((usize, u32)) -> nat|
                    witness_ok(self.live_links(), self.root@, c, d);
            }
        }
        let root = self.root;
        if let Some(old_scene_root) = self.object_pool.borrow(root).child_handle {
            self.destroy_node(old_scene_root);
            proof {
                assert(handle_views(self.to_destroy_stack@) =~= handle_views(old(self).to_destroy_stack@).push(old_scene_root@));
            }
        }
        let ghost h_mid = *self;
        let _ = self.spawn_object(name, root);
        proof {
            let hv = choose|hv: Seq<(usize, u32)>| spawned_with(h_mid, *self, graph_table(old(self).game_data.graphs)[name@].nodes@, root@, hv)
                && hv[saved_root(graph_table(old(self).game_data.graphs)[name@].nodes@) as int] == hv[saved_root(graph_table(old(self).game_data.graphs)[name@].nodes@) as int]
                && hv == crate::pool::added_handles(h_mid.nodes(), graph_table(old(self).game_data.graphs)[name@].nodes@.len());
            assert(spawned_with(*old(self), *self, graph_table(old(self).game_data.graphs)[name@].nodes@, root@, hv));
        }
    }

    /// `set_scene` for the game's main graph: it demands what `set_scene`
    /// demands of the main graph's name and ensures what `set_scene`
    /// ensures of it.
    pub fn set_scene_main(&mut self)
        requires
            scene_settable(*old(self), old(self).game_data.main_graph@),
        ensures
            scene_set_to(*old(self), *final(self), old(self).game_data.main_graph@),
    {
        let main = self.game_data.main_graph.clone();
        self.set_scene(main.as_str());
    }

    /// Takes the last node queued to be started; gives it, and whether it is
    /// still there with a script to start.
    pub fn pop_pending_start(&mut self) -> (r: Option<(Handle<Node>, bool)>)
        ensures
            match r {
                Some((h, runs)) => old(self).to_start_stack@.len() > 0
                    && h == old(self).to_start_stack@.last()
                    && final(self).to_start_stack@ == old(self).to_start_stack@.drop_last()
                    && runs == (old(self).nodes().valid(h@) && old(self).node(h@).script_data is Some),
                None => old(self).to_start_stack@.len() == 0 && final(self).to_start_stack@ == old(self).to_start_stack@,
            },
            final(self).root == old(self).root,
            final(self).object_pool == old(self).object_pool,
            final(self).node_ext_pools == old(self).node_ext_pools,
            final(self).to_destroy_stack == old(self).to_destroy_stack,
            final(self).game_data == old(self).game_data,
            final(self).live == old(self).live,
    {
        match self.to_start_stack.pop() {
            Some(handle) => {
                let runs = match self.object_pool.try_borrow(handle) {
                    Some(item) => item.script_data.is_some(),
                    None => false,
                };
                Some((handle, runs))
            },
            None => None,
        }
    }

    /// The node in slot `index`, if it is there, enabled with all nodes
    /// above it, and has a script to update.
    pub fn script_update_target(&self, index: usize) -> (r: Option<Handle<Node>>)
        ensures
            r is Some <==> (index < self.nodes().slots.len() && self.nodes().slots[index as int].1 is Some
                && self.nodes().slots[index as int].1->0.global_enabled
                && self.nodes().slots[index as int].1->0.script_data is Some),
            r is Some ==> r->0@ == (index, self.nodes().slots[index as int].0),
    {
        match occupied_handle(&self.object_pool, index) {
            Some(handle) => {
                let item = self.object_pool.borrow(handle);
                if item.global_enabled && item.script_data.is_some() {
                    Some(handle)
                } else {
                    None
                }
            },
            None => None,
        }
    }
}

/// Access to the items of one of the pools of a hierarchy by handle.
pub trait HierarchyPoolTrait<T> {
    /// The pool that handles of type `T` refer to.
    spec fn pool_view(&self) -> PoolModel<T>;

    fn borrow(&self, handle: Handle<T>) -> (r: &T)
        requires
            self.pool_view().valid(handle@),
        ensures
            Some(*r) == self.pool_view().lookup(handle@),
    ;

    fn try_borrow(&self, handle: Handle<T>) -> (r: Option<&T>)
        ensures
            match self.pool_view().lookup(handle@) {
                Some(v) => r is Some && *r->0 == v,
                None => r is None,
            },
    ;

    fn borrow_mut(&mut self, handle: Handle<T>) -> (r: &mut T)
        requires
            old(self).pool_view().valid(handle@),
        ensures
            Some(*r) == old(self).pool_view().lookup(handle@),
            final(self).pool_view() == old(self).pool_view().set(handle@.0, Some(*final(r))),
    ;

    fn try_borrow_mut(&mut self, handle: Handle<T>) -> (r: Option<&mut T>)
        ensures
            match old(self).pool_view().lookup(handle@) {
                Some(v) => r is Some && *r->0 == v
                    && final(self).pool_view() == old(self).pool_view().set(handle@.0, Some(*final(r->0))),
                None => r is None && final(self).pool_view() == old(self).pool_view(),
            },
    ;

    /// The handle of the item in slot `index`, if the slot holds one.
    fn handle_from_index(&self, index: usize) -> (r: Option<Handle<T>>)
        ensures
            r is Some <==> index < self.pool_view().slots.len() && self.pool_view().slots[index as int].1 is Some,
            r is Some ==> r->0@ == (index, self.pool_view().slots[index as int].0),
    ;
}

/// The handle of the item in slot `index` of a pool, if the slot holds one.
fn occupied_handle<T>(pool: &Pool<T>, index: usize) -> (r: Option<Handle<T>>)
    ensures
        r is Some <==> index < pool@.slots.len() && pool@.slots[index as int].1 is Some,
        r is Some ==> r->0@ == (index, pool@.slots[index as int].0),
{
    if index < pool.vec_len() {
        let h = pool.handle_from_index(index);
        if pool.try_borrow(h).is_some() {
            Some(h)
        } else {
            None
        }
    } else {
        None
    }
}

impl HierarchyPoolTrait<Node> for Hierarchy {
    open spec fn pool_view(&self) -> PoolModel<Node> {
        self.object_pool@
    }

    fn borrow(&self, handle: Handle<Node>) -> (r: &Node) {
        self.object_pool.borrow(handle)
    }

    fn try_borrow(&self, handle: Handle<Node>) -> (r: Option<&Node>) {
        self.object_pool.try_borrow(handle)
    }

    fn borrow_mut(&mut self, handle: Handle<Node>) -> (r: &mut Node) {
        self.object_pool.borrow_mut(handle)
    }

    fn try_borrow_mut(&mut self, handle: Handle<Node>) -> (r: Option<&mut Node>) {
        self.object_pool.try_borrow_mut(handle)
    }

    fn handle_from_index(&self, index: usize) -> (r: Option<Handle<Node>>) {
        occupied_handle(&self.object_pool, index)
    }
}

impl HierarchyPoolTrait<SpriteExtension> for Hierarchy {
    open spec fn pool_view(&self) -> PoolModel<SpriteExtension> {
        self.node_ext_pools.sprite_pool@
    }

    fn borrow(&self, handle: Handle<SpriteExtension>) -> (r: &SpriteExtension) {
        self.node_ext_pools.sprite_pool.borrow(handle)
    }

    fn try_borrow(&self, handle: Handle<SpriteExtension>) -> (r: Option<&SpriteExtension>) {
        self.node_ext_pools.sprite_pool.try_borrow(handle)
    }

    fn borrow_mut(&mut self, handle: Handle<SpriteExtension>) -> (r: &mut SpriteExtension) {
        self.node_ext_pools.sprite_pool.borrow_mut(handle)
    }

    fn try_borrow_mut(&mut self, handle: Handle<SpriteExtension>) -> (r: Option<&mut SpriteExtension>) {
        self.node_ext_pools.sprite_pool.try_borrow_mut(handle)
    }

    fn handle_from_index(&self, index: usize) -> (r: Option<Handle<SpriteExtension>>) {
        occupied_handle(&self.node_ext_pools.sprite_pool, index)
    }
}

impl HierarchyPoolTrait<CameraExtension> for Hierarchy {
    open spec fn pool_view(&self) -> PoolModel<CameraExtension> {
        self.node_ext_pools.camera_pool@
    }

    fn borrow(&self, handle: Handle<CameraExtension>) -> (r: &CameraExtension) {
        self.node_ext_pools.camera_pool.borrow(handle)
    }

    fn try_borrow(&self, handle: Handle<CameraExtension>) -> (r: Option<&CameraExtension>) {
        self.node_ext_pools.camera_pool.try_borrow(handle)
    }

    fn borrow_mut(&mut self, handle: Handle<CameraExtension>) -> (r: &mut CameraExtension) {
        self.node_ext_pools.camera_pool.borrow_mut(handle)
    }

    fn try_borrow_mut(&mut self, handle: Handle<CameraExtension>) -> (r: Option<&mut CameraExtension>) {
        self.node_ext_pools.camera_pool.try_borrow_mut(handle)
    }

    fn handle_from_index(&self, index: usize) -> (r: Option<Handle<CameraExtension>>) {
        occupied_handle(&self.node_ext_pools.camera_pool, index)
    }
}

impl HierarchyPoolTrait<RectColliderExtension> for Hierarchy {
    open spec fn pool_view(&self) -> PoolModel<RectColliderExtension> {
        self.node_ext_pools.rect_collider_pool@
    }

    fn borrow(&self, handle: Handle<RectColliderExtension>) -> (r: &RectColliderExtension) {
        self.node_ext_pools.rect_collider_pool.borrow(handle)
    }

    fn try_borrow(&self, handle: Handle<RectColliderExtension>) -> (r: Option<&RectColliderExtension>) {
        self.node_ext_pools.rect_collider_pool.try_borrow(handle)
    }

    fn borrow_mut(&mut self, handle: Handle<RectColliderExtension>) -> (r: &mut RectColliderExtension) {
        self.node_ext_pools.rect_collider_pool.borrow_mut(handle)
    }

    fn try_borrow_mut(&mut self, handle: Handle<RectColliderExtension>) -> (r: Option<&mut RectColliderExtension>) {
        self.node_ext_pools.rect_collider_pool.try_borrow_mut(handle)
    }

    fn handle_from_index(&self, index: usize) -> (r: Option<Handle<RectColliderExtension>>) {
        occupied_handle(&self.node_ext_pools.rect_collider_pool, index)
    }
}

} // verus!
