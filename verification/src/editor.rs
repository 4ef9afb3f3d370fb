use vstd::prelude::*;
use stable_vec::StableVec;
use crate::saved::{SavedNodeExtension, SavedSpriteExtension, SavedSpriteType, SavedAffineSpriteData, SavedCameraExtension, SavedRectColliderExtension, SavedNode, SavedNodeGraph, SavedTransform};
use crate::text::{node_label, format_node_label, lemma_node_label_injective};
use crate::tree::{Links, tree_wf, witness_ok, chain_ok, link, unlink, desc_set, is_desc, children_of, lemma_children_of, lemma_sibling_pred, lemma_closed_contains_desc, lemma_desc_finite, lemma_desc_facts, lemma_child_is_desc};

verus! {

/// Position of a node, as the raw bits of a fixed-point number with 12
/// fractional bits.
#[derive(Clone, Copy, Debug, PartialEq, Eq)]
pub struct Transform {
    pub x: i32,
    pub y: i32,
}

/// Rotation and scale of an affine sprite, as raw fixed-point bits with 12
/// fractional bits.
#[derive(Clone, Copy, Debug, PartialEq, Eq)]
pub struct AffineSpriteData {
    pub rotation: i32,
    pub scale_x: i32,
    pub scale_y: i32,
}

impl Default for AffineSpriteData {
    /// No rotation and a scale of one.
    fn default() -> (r: Self)
        ensures
            r.rotation == 0,
            r.scale_x == 4096,
            r.scale_y == 4096,
    {
        AffineSpriteData { rotation: 0, scale_x: 4096, scale_y: 4096 }
    }
}

#[derive(Clone, Copy, Debug, PartialEq, Eq)]
pub enum SpriteType {
    Normal,
    Affine(AffineSpriteData),
}

#[derive(Debug)]
pub struct SpriteExtension {
    pub graphic_asset: String,
    pub sprite_type: SpriteType,
}

#[derive(Clone, Copy, Debug, PartialEq, Eq)]
pub struct CameraExtension {
    pub active_main: bool,
    pub active_sub: bool,
}

/// Size of a rectangle collider, as raw fixed-point bits with 12 fractional
/// bits.
#[derive(Clone, Copy, Debug, PartialEq, Eq)]
pub struct RectColliderExtension {
    pub width: i32,
    pub height: i32,
}

#[derive(Debug)]
pub enum NodeExtension {
    Nothing,
    Sprite(SpriteExtension),
    Camera(CameraExtension),
    RectCollider(RectColliderExtension),
}

impl NodeExtension {
    /// The name under which the extension is shown.
    pub fn label(&self) -> (s: &'static str)
        ensures
            s@ == (match self {
                NodeExtension::Nothing => "None"@,
                NodeExtension::Sprite(_) => "Sprite"@,
                NodeExtension::Camera(_) => "Camera"@,
                NodeExtension::RectCollider(_) => "Rect Collider"@,
            }),
    {
        match self {
            NodeExtension::Nothing => "None",
            NodeExtension::Sprite(_) => "Sprite",
            NodeExtension::Camera(_) => "Camera",
            NodeExtension::RectCollider(_) => "Rect Collider",
        }
    }
}

/// The saved form of an extension.
pub open spec fn ext_to_saved(e: NodeExtension) -> SavedNodeExtension {
    match e {
        NodeExtension::Nothing => SavedNodeExtension::Nothing,
        NodeExtension::Sprite(s) => SavedNodeExtension::Sprite(SavedSpriteExtension {
            graphic_asset: s.graphic_asset,
            sprite_type: match s.sprite_type {
                SpriteType::Normal => SavedSpriteType::Normal,
                SpriteType::Affine(a) => SavedSpriteType::Affine(SavedAffineSpriteData {
                    rotation: a.rotation,
                    scale_x: a.scale_x,
                    scale_y: a.scale_y,
                }),
            },
        }),
        NodeExtension::Camera(c) => SavedNodeExtension::Camera(SavedCameraExtension { active_main: c.active_main, active_sub: c.active_sub }),
        NodeExtension::RectCollider(c) => SavedNodeExtension::RectCollider(SavedRectColliderExtension { width: c.width, height: c.height }),
    }
}

/// The extension that a saved extension stands for.
pub open spec fn ext_from_saved(e: SavedNodeExtension) -> NodeExtension {
    match e {
        SavedNodeExtension::Nothing => NodeExtension::Nothing,
        SavedNodeExtension::Sprite(s) => NodeExtension::Sprite(SpriteExtension {
            graphic_asset: s.graphic_asset,
            sprite_type: match s.sprite_type {
                SavedSpriteType::Normal => SpriteType::Normal,
                SavedSpriteType::Affine(a) => SpriteType::Affine(AffineSpriteData {
                    rotation: a.rotation,
                    scale_x: a.scale_x,
                    scale_y: a.scale_y,
                }),
            },
        }),
        SavedNodeExtension::Camera(c) => NodeExtension::Camera(CameraExtension { active_main: c.active_main, active_sub: c.active_sub }),
        SavedNodeExtension::RectCollider(c) => NodeExtension::RectCollider(RectColliderExtension { width: c.width, height: c.height }),
    }
}

impl NodeExtension {
    pub fn from_saved(saved_extension: SavedNodeExtension) -> (r: Self)
        ensures
            r == ext_from_saved(saved_extension),
    {
        match saved_extension {
            SavedNodeExtension::Nothing => NodeExtension::Nothing,
            SavedNodeExtension::Sprite(s) => NodeExtension::Sprite(SpriteExtension {
                graphic_asset: s.graphic_asset,
                sprite_type: match s.sprite_type {
                    SavedSpriteType::Normal => SpriteType::Normal,
                    SavedSpriteType::Affine(a) => SpriteType::Affine(AffineSpriteData {
                        rotation: a.rotation,
                        scale_x: a.scale_x,
                        scale_y: a.scale_y,
                    }),
                },
            }),
            SavedNodeExtension::Camera(c) => NodeExtension::Camera(CameraExtension { active_main: c.active_main, active_sub: c.active_sub }),
            SavedNodeExtension::RectCollider(c) => NodeExtension::RectCollider(RectColliderExtension { width: c.width, height: c.height }),
        }
    }

    pub fn to_saved(&self) -> (r: SavedNodeExtension)
        ensures
            r == ext_to_saved(*self),
    {
        match self {
            NodeExtension::Nothing => SavedNodeExtension::Nothing,
            NodeExtension::Sprite(s) => SavedNodeExtension::Sprite(SavedSpriteExtension {
                graphic_asset: s.graphic_asset.clone(),
                sprite_type: match s.sprite_type {
                    SpriteType::Normal => SavedSpriteType::Normal,
                    SpriteType::Affine(a) => SavedSpriteType::Affine(SavedAffineSpriteData {
                        rotation: a.rotation,
                        scale_x: a.scale_x,
                        scale_y: a.scale_y,
                    }),
                },
            }),
            NodeExtension::Camera(c) => SavedNodeExtension::Camera(SavedCameraExtension { active_main: c.active_main, active_sub: c.active_sub }),
            NodeExtension::RectCollider(c) => SavedNodeExtension::RectCollider(SavedRectColliderExtension { width: c.width, height: c.height }),
        }
    }
}

/// Saving an extension keeps its kind and every field by name: a
/// collider's width and height, a camera's two flags, a sprite's graphic,
/// and whether it is affine with its rotation and scales.
pub proof fn lemma_saving_keeps_extension_fields(e: NodeExtension)
    ensures
        (e is Nothing) == (ext_to_saved(e) is Nothing),
        (e is Sprite) == (ext_to_saved(e) is Sprite),
        (e is Camera) == (ext_to_saved(e) is Camera),
        (e is RectCollider) == (ext_to_saved(e) is RectCollider),
        e is RectCollider ==> ext_to_saved(e)->RectCollider_0.width == e->RectCollider_0.width
            && ext_to_saved(e)->RectCollider_0.height == e->RectCollider_0.height,
        e is Camera ==> ext_to_saved(e)->Camera_0.active_main == e->Camera_0.active_main
            && ext_to_saved(e)->Camera_0.active_sub == e->Camera_0.active_sub,
        e is Sprite ==> ext_to_saved(e)->Sprite_0.graphic_asset == e->Sprite_0.graphic_asset
            && (ext_to_saved(e)->Sprite_0.sprite_type is Normal) == (e->Sprite_0.sprite_type is Normal),
        e is Sprite && e->Sprite_0.sprite_type is Affine ==> {
            let a = e->Sprite_0.sprite_type->Affine_0;
            let b = ext_to_saved(e)->Sprite_0.sprite_type->Affine_0;
            b.rotation == a.rotation && b.scale_x == a.scale_x && b.scale_y == a.scale_y
        },
{
}

/// Loading a saved extension keeps its kind and every field by name, as
/// saving does.
pub proof fn lemma_loading_keeps_extension_fields(e: SavedNodeExtension)
    ensures
        (e is Nothing) == (ext_from_saved(e) is Nothing),
        (e is Sprite) == (ext_from_saved(e) is Sprite),
        (e is Camera) == (ext_from_saved(e) is Camera),
        (e is RectCollider) == (ext_from_saved(e) is RectCollider),
        e is RectCollider ==> ext_from_saved(e)->RectCollider_0.width == e->RectCollider_0.width
            && ext_from_saved(e)->RectCollider_0.height == e->RectCollider_0.height,
        e is Camera ==> ext_from_saved(e)->Camera_0.active_main == e->Camera_0.active_main
            && ext_from_saved(e)->Camera_0.active_sub == e->Camera_0.active_sub,
        e is Sprite ==> ext_from_saved(e)->Sprite_0.graphic_asset == e->Sprite_0.graphic_asset
            && (ext_from_saved(e)->Sprite_0.sprite_type is Normal) == (e->Sprite_0.sprite_type is Normal),
        e is Sprite && e->Sprite_0.sprite_type is Affine ==> {
            let a = e->Sprite_0.sprite_type->Affine_0;
            let b = ext_from_saved(e)->Sprite_0.sprite_type->Affine_0;
            b.rotation == a.rotation && b.scale_x == a.scale_x && b.scale_y == a.scale_y
        },
{
}

/// Converting an extension to its saved form and back gives it back.
pub proof fn lemma_ext_round_trip(e: NodeExtension)
    ensures
        ext_from_saved(ext_to_saved(e)) == e,
{
}

#[derive(Debug)]
pub struct Node {
    pub child_index: Option<usize>,
    pub parent_index: Option<usize>,
    pub sibling_index: Option<usize>,
    pub name: String,
    pub transform: Transform,
    pub node_extension: NodeExtension,
    pub script_type_id: Option<u32>,
    pub enabled: bool,
}

/// A node with the given name, no links, no extension and no script.
pub open spec fn is_fresh_node(n: Node, name: Seq<char>) -> bool {
    &&& n.child_index is None
    &&& n.parent_index is None
    &&& n.sibling_index is None
    &&& n.name@ == name
    &&& n.transform == Transform { x: 0, y: 0 }
    &&& n.node_extension is Nothing
    &&& n.script_type_id is None
    &&& n.enabled
}

/// A stable vector of nodes: indices of stored nodes never change.
#[verifier::external_body]
pub struct NodeStore {
    inner: StableVec<Node>,
}

/// The nodes that a stable vector of nodes holds, by index.
pub uninterp spec fn stable_vec_nodes(v: NodeStore) -> Map<usize, Node>;

/// The index that the next push into a stable vector of nodes uses.
pub uninterp spec fn stable_vec_next_index(v: NodeStore) -> usize;

/// `StableVec::new`: an empty stable vector whose first push goes to index 0.
#[verifier::external_body]
fn sv_new() -> (v: NodeStore)
    ensures
        stable_vec_nodes(v).dom().is_empty(),
        stable_vec_next_index(v) == 0,
        stable_vec_nodes(v).dom().finite(),
{
    NodeStore { inner: StableVec::new() }
}

/// `StableVec::push`: stores the node at the next push index, returns that
/// index and moves the next push index one up.
#[verifier::external_body]
fn sv_push(v: &mut NodeStore, node: Node) -> (i: usize)
    requires
        stable_vec_next_index(*old(v)) < usize::MAX,
    ensures
        i == stable_vec_next_index(*old(v)),
        stable_vec_nodes(*final(v)) == stable_vec_nodes(*old(v)).insert(i, node),
        stable_vec_next_index(*final(v)) == i + 1,
{
    v.inner.push(node)
}


/// The stable vector's own facts: finitely many elements, all below the next
/// push index.
pub open spec fn store_ok(v: NodeStore) -> bool {
    &&& stable_vec_nodes(v).dom().finite()
    &&& forall|k: usize| #[trigger] stable_vec_nodes(v).dom().contains(k) ==> k < stable_vec_next_index(v)
}

/// `StableVec::index`: the node at an index that holds one.
#[verifier::external_body]
pub(crate) fn sv_index(v: &NodeStore, i: usize) -> (r: &Node)
    requires
        stable_vec_nodes(*v).dom().contains(i),
    ensures
        *r == stable_vec_nodes(*v)[i],
{
    &v.inner[i]
}

/// `StableVec::index_mut`: the node at an index that holds one, to change in
/// place.
#[verifier::external_body]
pub(crate) fn sv_index_mut(v: &mut NodeStore, i: usize) -> (r: &mut Node)
    requires
        stable_vec_nodes(*old(v)).dom().contains(i),
    ensures
        *r == stable_vec_nodes(*old(v))[i],
        stable_vec_nodes(*final(v)) == stable_vec_nodes(*old(v)).insert(i, *final(r)),
        stable_vec_next_index(*final(v)) == stable_vec_next_index(*old(v)),
{
    &mut v.inner[i]
}

/// `StableVec::get`: the node at an index, if it holds one.
#[verifier::external_body]
fn sv_get(v: &NodeStore, i: usize) -> (r: Option<&Node>)
    ensures
        match r {
            Some(n) => stable_vec_nodes(*v).dom().contains(i) && *n == stable_vec_nodes(*v)[i],
            None => !stable_vec_nodes(*v).dom().contains(i),
        },
{
    v.inner.get(i)
}

/// `StableVec::remove`: empties the slot at an index below the next push
/// index and returns what it held.
#[verifier::external_body]
fn sv_remove(v: &mut NodeStore, i: usize) -> (r: Option<Node>)
    requires
        i < stable_vec_next_index(*old(v)),
    ensures
        r == (if stable_vec_nodes(*old(v)).dom().contains(i) {
            Some(stable_vec_nodes(*old(v))[i])
        } else {
            None
        }),
        stable_vec_nodes(*final(v)) == stable_vec_nodes(*old(v)).remove(i),
        stable_vec_next_index(*final(v)) == stable_vec_next_index(*old(v)),
{
    v.inner.remove(i)
}

/// `StableVec::num_elements`: how many slots hold a node.
#[verifier::external_body]
fn sv_num_elements(v: &NodeStore) -> (n: usize)
    ensures
        n == stable_vec_nodes(*v).dom().len(),
{
    v.inner.num_elements()
}

/// `StableVec::next_push_index`: the index that the next push uses.
#[verifier::external_body]
fn sv_next_push_index(v: &NodeStore) -> (n: usize)
    ensures
        n == stable_vec_next_index(*v),
{
    v.inner.next_push_index()
}

/// `StableVec::find_last_index`: the highest index that holds a node.
#[verifier::external_body]
fn sv_find_last_index(v: &NodeStore) -> (r: Option<usize>)
    ensures
        match r {
            Some(k) => stable_vec_nodes(*v).dom().contains(k) && forall|j: usize|
                #[trigger] stable_vec_nodes(*v).dom().contains(j) ==> j <= k,
            None => stable_vec_nodes(*v).dom().is_empty(),
        },
{
    v.inner.find_last_index()
}

/// The links of a node.
pub open spec fn node_links(n: Node) -> Links<usize> {
    Links { child: n.child_index, sibling: n.sibling_index, parent: n.parent_index }
}

/// The links of all nodes of a graph.
pub open spec fn links_of(m: Map<usize, Node>) -> Map<usize, Links<usize>> {
    m.map_values(|n: Node| node_links(n))
}

/// The node with its links replaced.
pub open spec fn with_links(n: Node, l: Links<usize>) -> Node {
    Node { child_index: l.child, sibling_index: l.sibling, parent_index: l.parent, ..n }
}

/// The nodes with their links replaced by those of `l`.
pub open spec fn apply_links(m: Map<usize, Node>, l: Map<usize, Links<usize>>) -> Map<usize, Node> {
    Map::new(|k: usize| m.dom().contains(k), |k: usize| with_links(m[k], l[k]))
}

/// A graph of nodes; node 0 is its root.
pub struct NodeGraph(pub NodeStore);

impl NodeGraph {
    pub open spec fn nodes(&self) -> Map<usize, Node> {
        stable_vec_nodes(self.0)
    }

    pub open spec fn next_index(&self) -> usize {
        stable_vec_next_index(self.0)
    }

    /// The nodes form one tree rooted at node 0.
    pub open spec fn wf(&self) -> bool {
        &&& store_ok(self.0)
        &&& tree_wf(links_of(self.nodes()), 0)
    }

    pub fn new() -> (g: Self)
        ensures
            g.nodes().dom().is_empty(),
            g.next_index() == 0,
            store_ok(g.0),
    {
        NodeGraph(sv_new())
    }

    pub fn next_index_exec(&self) -> (n: usize)
        ensures
            n == self.next_index(),
    {
        sv_next_push_index(&self.0)
    }

    /// How many nodes the graph holds.
    pub fn num_elements(&self) -> (n: usize)
        ensures
            n == self.nodes().dom().len(),
    {
        sv_num_elements(&self.0)
    }

    /// The node at an index, if there is one.
    pub fn get(&self, index: usize) -> (r: Option<&Node>)
        ensures
            match r {
                Some(n) => self.nodes().dom().contains(index) && *n == self.nodes()[index],
                None => !self.nodes().dom().contains(index),
            },
    {
        sv_get(&self.0, index)
    }
}

/// The ids of the children of a node, in sibling order.
pub fn children(graph: &NodeGraph, idx: usize) -> (r: Vec<usize>)
    requires
        graph.wf(),
        graph.nodes().dom().contains(idx),
    ensures
        r@ == children_of(links_of(graph.nodes()), 0, idx),
{
    let ghost m = links_of(graph.nodes());
    let ghost (c, d) = choose|c: spec_fn(usize) -> Seq<usize>, d: spec_fn(usize) -> nat| witness_ok(m, 0, c, d);
    let ghost cs = c(idx);
    proof {
        lemma_children_of(m, 0, c, d);
        assert(chain_ok(m, idx, cs, d));
    }
    let mut r: Vec<usize> = Vec::new();
    let mut cur = sv_index(&graph.0, idx).child_index;
    loop
        invariant
            graph.wf(),
            m == links_of(graph.nodes()),
            chain_ok(m, idx, cs, d),
            r.len() <= cs.len(),
            r@ == cs.take(r.len() as int),
            cur == (if r.len() < cs.len() {
                Some(cs[r.len() as int])
            } else {
                None::<usize>
            }),
        ensures
            r@ == cs,
        decreases cs.len() - r.len(),
    {
        match cur {
            Some(ch) => {
                assert(m.dom().contains(ch));
                r.push(ch);
                assert(r@ =~= cs.take(r.len() as int));
                cur = sv_index(&graph.0, ch).sibling_index;
            },
            None => {
                assert(cs.take(r.len() as int) =~= cs);
                break;
            },
        }
    }
    r
}

/// Makes `node_idx` the first child of `parent`.
fn link_node(graph: &mut NodeGraph, node_idx: usize, parent: usize)
    requires
        old(graph).nodes().dom().contains(node_idx),
        old(graph).nodes().dom().contains(parent),
        node_idx != parent,
    ensures
        final(graph).nodes() == apply_links(old(graph).nodes(), link(links_of(old(graph).nodes()), node_idx, parent)),
        final(graph).next_index() == old(graph).next_index(),
{
    let ghost m0 = old(graph).nodes();
    let p = sv_index_mut(&mut graph.0, parent);
    let old_child = p.child_index;
    p.child_index = Some(node_idx);
    let n = sv_index_mut(&mut graph.0, node_idx);
    n.sibling_index = old_child;
    n.parent_index = Some(parent);
    assert(graph.nodes() =~= apply_links(m0, link(links_of(m0), node_idx, parent)));
}

/// Takes `node_idx` out of the list of children of its parent; its own links
/// are left as they were.
fn unlink_node(graph: &mut NodeGraph, node_idx: usize)
    requires
        old(graph).wf(),
        old(graph).nodes().dom().contains(node_idx),
        node_idx != 0,
    ensures
        final(graph).nodes() == apply_links(old(graph).nodes(), unlink(links_of(old(graph).nodes()), node_idx)),
        final(graph).next_index() == old(graph).next_index(),
        store_ok(final(graph).0),
{
    let ghost n0 = old(graph).nodes();
    let ghost m = links_of(n0);
    let ghost (c, d) = choose|c: spec_fn(usize) -> Seq<usize>, d: spec_fn(usize) -> nat| witness_ok(m, 0, c, d);
    proof {
        assert(witness_ok(m, 0, c, d));
        assert(m.dom().contains(node_idx));
        assert(m[node_idx].parent is Some);
    }
    let node_sibling_idx = sv_index(&graph.0, node_idx).sibling_index;
    let node_parent_idx = sv_index(&graph.0, node_idx).parent_index.unwrap();
    let ghost p = node_parent_idx;
    let ghost cp = c(p);
    proof {
        assert(m.dom().contains(node_idx));
        assert(c(p).contains(node_idx));
        assert(chain_ok(m, p, cp, d));
        let i = cp.index_of(node_idx);
        assert(cp[i] == node_idx);
    }
    let ghost i = cp.index_of(node_idx);
    let parent_child = sv_index(&graph.0, node_parent_idx).child_index.unwrap();
    if parent_child == node_idx {
        let pn = sv_index_mut(&mut graph.0, node_parent_idx);
        pn.child_index = node_sibling_idx;
        assert(graph.nodes() =~= apply_links(n0, unlink(m, node_idx)));
    } else {
        proof {
            if i == 0 {
                assert(cp[0] == node_idx);
            }
        }
        let ghost pred = cp[i - 1];
        let ghost n1 = n0.insert(pred, Node { sibling_index: node_sibling_idx, ..n0[pred] });
        let mut cur = Some(parent_child);
        let ghost mut k: int = 0;
        loop
            invariant
                store_ok(graph.0) == store_ok(old(graph).0),
                old(graph).wf(),
                graph.next_index() == old(graph).next_index(),
                witness_ok(m, 0, c, d),
                chain_ok(m, p, cp, d),
                m == links_of(n0),
                n0 == old(graph).nodes(),
                0 < i < cp.len(),
                cp[i] == node_idx,
                pred == cp[i - 1],
                node_sibling_idx == m[node_idx].sibling,
                p == m[node_idx].parent->0,
                n1 == n0.insert(pred, Node { sibling_index: node_sibling_idx, ..n0[pred] }),
                0 <= k <= cp.len(),
                k != i,
                cur == (if k < cp.len() {
                    Some(cp[k])
                } else {
                    None::<usize>
                }),
                graph.nodes() == (if k > i {
                    n1
                } else {
                    n0
                }),
            ensures
                graph.nodes() == n1,
                graph.next_index() == old(graph).next_index(),
            decreases cp.len() - k,
        {
            match cur {
                Some(ch) => {
                    assert(m.dom().contains(ch));
                    let ghost before = graph.nodes();
                    let n = sv_index_mut(&mut graph.0, ch);
                    if n.sibling_index == Some(node_idx) {
                        n.sibling_index = node_sibling_idx;
                        proof {
                            if k != i - 1 {
                                lemma_sibling_pred(m, 0, c, d, node_idx, ch);
                            }
                            assert(graph.nodes() =~= n1);
                        }
                    } else {
                        proof {
                            assert(graph.nodes() =~= before);
                        }
                    }
                    cur = sv_index(&graph.0, ch).sibling_index;
                    proof {
                        if k == i - 1 {
                            k = i + 1;
                        } else {
                            k = k + 1;
                        }
                    }
                },
                None => {
                    break;
                },
            }
        }
        proof {
            assert forall|q: usize| #[trigger] n0.dom().contains(q) && m[q].sibling == Some(node_idx) implies q == pred by {
                lemma_sibling_pred(m, 0, c, d, node_idx, q);
            }
            assert(graph.nodes() =~= apply_links(n0, unlink(m, node_idx)));
        }
    }
}

/// One step of the search for the nodes below `x`: `cur` was taken off the
/// stack and its children were put on both the stack and the output.
proof fn lemma_dfs_step(
    m: Map<usize, Links<usize>>,
    c: spec_fn(usize) -> Seq<usize>,
    d: spec_fn(usize) -> nat,
    x: usize,
    dset: Set<usize>,
    out0: Seq<usize>,
    stack0: Seq<usize>,
    stack_prev: Seq<usize>,
    ch: Seq<usize>,
    cur: usize,
)
    requires
        ch == c(cur),
        stack_prev == stack0.push(cur),
        cur == x || out0.contains(cur),
        !stack0.contains(cur),
        forall|w: usize| #[trigger] out0.contains(w) ==> dset.contains(w),
        forall|z: usize| #[trigger] stack_prev.contains(z) ==> z == x || out0.contains(z),
        forall|w: usize| #[trigger] out0.contains(w) ==> (m[w].parent == Some(x) || out0.contains(m[w].parent->0)) && !stack_prev.contains(m[w].parent->0),
        !stack_prev.contains(x) ==> forall|w: usize| #[trigger] c(x).contains(w) ==> out0.contains(w),
        forall|z: usize, w: usize| #[trigger] out0.contains(z) && !stack_prev.contains(z) && #[trigger] c(z).contains(w) ==> out0.contains(w),
        forall|w: usize| #[trigger] ch.contains(w) ==> !out0.contains(w) && w != x && !stack0.contains(w) && w != cur && m[w].parent == Some(cur) && dset.contains(w),
    ensures
        ({
            let out = out0 + ch;
            let stack = stack0 + ch;
            &&& forall|w: usize| #[trigger] out.contains(w) ==> dset.contains(w)
            &&& forall|z: usize| #[trigger] stack.contains(z) ==> z == x || out.contains(z)
            &&& forall|w: usize| #[trigger] out.contains(w) ==> (m[w].parent == Some(x) || out.contains(m[w].parent->0)) && !stack.contains(m[w].parent->0)
            &&& !stack.contains(x) ==> forall|w: usize| #[trigger] c(x).contains(w) ==> out.contains(w)
            &&& forall|z: usize, w: usize| #[trigger] out.contains(z) && !stack.contains(z) && #[trigger] c(z).contains(w) ==> out.contains(w)
        }),
{
    let out = out0 + ch;
    let stack = stack0 + ch;
    assert forall|w: usize| #[trigger] out.contains(w) implies out0.contains(w) || ch.contains(w) by {
        let k = out.index_of(w);
        if k >= out0.len() {
            assert(out[k] == ch[k - out0.len()]);
        } else {
            assert(out[k] == out0[k]);
        }
    }
    assert forall|w: usize| #[trigger] stack.contains(w) implies stack0.contains(w) || ch.contains(w) by {
        let k = stack.index_of(w);
        if k >= stack0.len() {
            assert(stack[k] == ch[k - stack0.len()]);
        } else {
            assert(stack[k] == stack0[k]);
        }
    }
    assert forall|w: usize| #[trigger] out0.contains(w) implies out.contains(w) by {
        let k = out0.index_of(w);
        assert(out[k] == w);
    }
    assert forall|w: usize| #[trigger] ch.contains(w) implies out.contains(w) && stack.contains(w) by {
        let k = ch.index_of(w);
        assert(out[out0.len() + k] == w);
        assert(stack[stack0.len() + k] == w);
    }
    assert forall|z: usize| #[trigger] stack0.contains(z) implies stack_prev.contains(z) && stack.contains(z) by {
        let k = stack0.index_of(z);
        assert(stack_prev[k] == z);
        assert(stack[k] == z);
    }
    assert forall|z: usize| #[trigger] stack_prev.contains(z) implies stack0.contains(z) || z == cur by {
        let k = stack_prev.index_of(z);
        if k < stack0.len() {
            assert(stack0[k] == z);
        }
    }
    assert(!ch.contains(cur));
    assert(!stack.contains(cur));
    assert forall|w: usize| #[trigger] out.contains(w) implies (m[w].parent == Some(x) || out.contains(m[w].parent->0)) && !stack.contains(m[w].parent->0) by {
        let pw = m[w].parent->0;
        if out0.contains(w) {
            assert(!ch.contains(pw)) by {
                if ch.contains(pw) {
                    assert(!out0.contains(pw) && pw != x);
                }
            }
        }
    }
    assert forall|z: usize, w: usize| #[trigger] out.contains(z) && !stack.contains(z) && #[trigger] c(z).contains(w) implies out.contains(w) by {
        if z != cur {
            assert(!ch.contains(z));
            assert(out0.contains(z));
            assert(!stack0.contains(z));
            assert(!stack_prev.contains(z));
        }
    }
    assert(!stack.contains(x) ==> forall|w: usize| #[trigger] c(x).contains(w) ==> out.contains(w)) by {
        if !stack.contains(x) && x != cur {
            assert(!stack_prev.contains(x));
        }
    }
}

/// The ids of all nodes below `node_idx`, each once.
fn descendants(graph: &NodeGraph, node_idx: usize) -> (r: Vec<usize>)
    requires
        graph.wf(),
        graph.nodes().dom().contains(node_idx),
    ensures
        r@.no_duplicates(),
        r@.to_set() == desc_set(links_of(graph.nodes()), node_idx),
{
    let ghost m = links_of(graph.nodes());
    let ghost (c, d) = choose|c: spec_fn(usize) -> Seq<usize>, d: spec_fn(usize) -> nat| witness_ok(m, 0, c, d);
    let ghost x = node_idx;
    let ghost dset = desc_set(m, x);
    proof {
        lemma_children_of(m, 0, c, d);
        lemma_desc_finite(m, x);
    }
    let mut out: Vec<usize> = Vec::new();
    let mut stack: Vec<usize> = Vec::new();
    stack.push(node_idx);
    assert(stack@[0] == x);
    loop
        invariant
            graph.wf(),
            m == links_of(graph.nodes()),
            witness_ok(m, 0, c, d),
            forall|z: usize| #[trigger] m.dom().contains(z) ==> children_of(m, 0, z) == c(z),
            m.dom().contains(x),
            dset == desc_set(m, x),
            dset.finite(),
            out@.no_duplicates(),
            stack@.no_duplicates(),
            forall|w: usize| #[trigger] out@.contains(w) ==> dset.contains(w),
            forall|z: usize| #[trigger] stack@.contains(z) ==> z == x || out@.contains(z),
            forall|w: usize| #[trigger] out@.contains(w) ==> (m[w].parent == Some(x) || out@.contains(m[w].parent->0)) && !stack@.contains(m[w].parent->0),
            !stack@.contains(x) ==> forall|w: usize| #[trigger] c(x).contains(w) ==> out@.contains(w),
            forall|z: usize, w: usize| #[trigger] out@.contains(z) && !stack@.contains(z) && #[trigger] c(z).contains(w) ==> out@.contains(w),
        ensures
            stack@.len() == 0,
        decreases 2 * (dset.len() - out@.len()) + stack@.len(),
    {
        proof {
            out@.unique_seq_to_set();
            assert(out@.to_set().subset_of(dset));
            vstd::set_lib::lemma_len_subset(out@.to_set(), dset);
        }
        let ghost stack_prev = stack@;
        match stack.pop() {
            Some(cur) => {
                let ghost stack0 = stack@;
                let ghost out0 = out@;
                assert(stack_prev == stack0.push(cur));
                assert(stack_prev.contains(cur)) by {
                    assert(stack_prev[stack0.len() as int] == cur);
                }
                assert forall|z: usize| #[trigger] stack0.contains(z) implies stack_prev.contains(z) by {
                    let k = stack0.index_of(z);
                    assert(stack_prev[k] == z);
                }
                assert(m.dom().contains(cur)) by {
                    if cur != x {
                        assert(out0.contains(cur));
                        assert(dset.contains(cur));
                    }
                }
                let ch = children(graph, cur);
                proof {
                    assert(chain_ok(m, cur, c(cur), d));
                    assert(!stack0.contains(cur)) by {
                        assert(stack0.push(cur).no_duplicates());
                        if stack0.contains(cur) {
                            let k = stack0.index_of(cur);
                            assert(stack0.push(cur)[k] == stack0.push(cur)[stack0.len() as int]);
                        }
                    }
                }
                proof {
                    assert forall|w: usize| #[trigger] ch@.contains(w) implies !out0.contains(w) && w != x && !stack0.contains(w) && w != cur && m[w].parent == Some(cur) && dset.contains(w) by {
                        let k = ch@.index_of(w);
                        assert(c(cur)[k] == w);
                        assert(m[w].parent == Some(cur));
                        lemma_child_is_desc(m, x, cur, w);
                        lemma_desc_facts(m, 0, c, d, x, w);
                        if out0.contains(w) {
                            assert(!stack_prev.contains(m[w].parent->0));
                        }
                        if stack0.contains(w) {
                            assert(stack_prev.contains(w));
                        }
                        assert(d(w) == d(cur) + 1);
                    }
                }
                let mut j: usize = 0;
                while j < ch.len()
                    invariant
                        graph.wf(),
                        m == links_of(graph.nodes()),
                        witness_ok(m, 0, c, d),
                        m.dom().contains(cur),
                        ch@ == c(cur),
                        chain_ok(m, cur, c(cur), d),
                        cur == x || out0.contains(cur),
                        !stack0.contains(cur),
                        j <= ch.len(),
                        out@ == out0 + ch@.take(j as int),
                        stack@ == stack0 + ch@.take(j as int),
                        out0.no_duplicates(),
                        stack0.no_duplicates(),
                        forall|w: usize| #[trigger] out0.contains(w) ==> dset.contains(w),
                        forall|z: usize| #[trigger] stack0.contains(z) ==> z == x || out0.contains(z),
                        forall|w: usize| #[trigger] out0.contains(w) ==> (m[w].parent == Some(x) || out0.contains(m[w].parent->0)) && !stack0.contains(m[w].parent->0) || m[w].parent == Some(cur),
                        dset == desc_set(m, x),
                        out@.no_duplicates(),
                        stack@.no_duplicates(),
                        forall|w: usize| #[trigger] ch@.contains(w) ==> !out0.contains(w) && w != x && !stack0.contains(w) && w != cur && m[w].parent == Some(cur) && dset.contains(w),
                    decreases ch.len() - j,
                {
                    let w = ch[j];
                    proof {
                        assert(ch@.contains(w));
                        assert(!ch@.take(j as int).contains(w)) by {
                            if ch@.take(j as int).contains(w) {
                                let k = ch@.take(j as int).index_of(w);
                                assert(ch@[k] == ch@[j as int]);
                            }
                        }
                        assert(!out@.contains(w));
                        assert(!stack@.contains(w));
                    }
                    stack.push(w);
                    out.push(w);
                    proof {
                        assert(ch@.take(j + 1) =~= ch@.take(j as int).push(w));
                        assert(out@ =~= out0 + ch@.take(j + 1));
                        assert(stack@ =~= stack0 + ch@.take(j + 1));
                    }
                    j = j + 1;
                }
                proof {
                    assert(ch@.take(j as int) =~= ch@);
                    lemma_dfs_step(m, c, d, x, dset, out0, stack0, stack_prev, ch@, cur);
                    assert(out@.len() == out0.len() + ch@.len());
                    assert(stack@.len() == stack0.len() + ch@.len());
                    assert(stack_prev.len() == stack0.len() + 1);
                    out@.unique_seq_to_set();
                    assert(out@.to_set().subset_of(dset));
                    vstd::set_lib::lemma_len_subset(out@.to_set(), dset);
                }
            },
            None => {
                break;
            },
        }
    }
    proof {
        let s = out@.to_set().insert(x);
        assert forall|z: usize, w: usize| #[trigger] s.contains(z) && #[trigger] c(z).contains(w) implies s.contains(w) by {
            if z != x {
                assert(out@.contains(z));
            }
        }
        assert forall|y: usize| #[trigger] dset.contains(y) implies out@.to_set().contains(y) by {
            lemma_closed_contains_desc(m, 0, c, d, x, s, y);
            lemma_desc_facts(m, 0, c, d, x, y);
        }
        assert(out@.to_set() =~= dset);
    }
    out
}

/// How many nodes of `m` have an index below `k`: the position of node `k`
/// in the saved list of nodes.
pub open spec fn rank(m: Map<usize, Node>, k: usize) -> nat {
    Set::new(|j: usize| m.dom().contains(j) && j < k).len()
}

/// The position that a link to `x` is saved as: the rank of `x` if it is a
/// node, else 0.
pub open spec fn export_pos(m: Map<usize, Node>, x: usize) -> nat {
    if m.dom().contains(x) {
        rank(m, x)
    } else {
        0
    }
}

pub open spec fn saved_link(m: Map<usize, Node>, o: Option<usize>) -> Option<u32> {
    match o {
        Some(x) => Some(export_pos(m, x) as u32),
        None => None,
    }
}

/// The saved form of node `k` of `m`.
pub open spec fn saved_node_of(m: Map<usize, Node>, k: usize) -> SavedNode {
    let n = m[k];
    SavedNode {
        child_index: saved_link(m, n.child_index),
        parent_index: saved_link(m, n.parent_index),
        sibling_index: saved_link(m, n.sibling_index),
        name: n.name,
        transform: SavedTransform { x: n.transform.x, y: n.transform.y },
        node_extension: ext_to_saved(n.node_extension),
        script_type_id: n.script_type_id,
        enabled: n.enabled,
    }
}

/// `s` lists the nodes of `m` in index order, in saved form.
pub open spec fn is_export_of(m: Map<usize, Node>, s: Seq<SavedNode>) -> bool {
    &&& s.len() == m.dom().len()
    &&& forall|k: usize| #[trigger] m.dom().contains(k) ==> s[rank(m, k) as int] == saved_node_of(m, k)
}

/// The graphs can be saved: positions fit in 32 bits, child and sibling
/// links reach nodes other than the first, and parent links do not reach
/// past the last node.
pub open spec fn export_ok(m: Map<usize, Node>) -> bool {
    &&& m.dom().finite()
    &&& m.dom().len() <= u32::MAX + 1
    &&& forall|k: usize| #[trigger] m.dom().contains(k) ==> {
        &&& (m[k].child_index matches Some(c) ==> m.dom().contains(c) && rank(m, c) >= 1)
        &&& (m[k].sibling_index matches Some(c) ==> m.dom().contains(c) && rank(m, c) >= 1)
        &&& (m[k].parent_index matches Some(p) ==> exists|j: usize| #[trigger] m.dom().contains(j) && p <= j)
    }
}

proof fn lemma_rank_step(m: Map<usize, Node>, k: usize)
    requires
        m.dom().finite(),
        k < usize::MAX,
    ensures
        rank(m, (k + 1) as usize) == rank(m, k) + (if m.dom().contains(k) { 1nat } else { 0nat }),
        Set::new(|j: usize| m.dom().contains(j) && j < k).finite(),
{
    let s0 = Set::new(|j: usize| m.dom().contains(j) && j < k);
    let s1 = Set::new(|j: usize| m.dom().contains(j) && j < (k + 1) as usize);
    vstd::set_lib::lemma_set_subset_finite(m.dom(), s0);
    if m.dom().contains(k) {
        assert(s1 =~= s0.insert(k));
    } else {
        assert(s1 =~= s0);
    }
}

proof fn lemma_rank_bounds(m: Map<usize, Node>, j: usize, k: usize)
    requires
        m.dom().finite(),
    ensures
        rank(m, k) <= m.dom().len(),
        m.dom().contains(k) ==> rank(m, k) < m.dom().len(),
        j < k && m.dom().contains(j) ==> rank(m, j) < rank(m, k),
        (forall|x: usize| #[trigger] m.dom().contains(x) ==> x < k) ==> rank(m, k) == m.dom().len(),
{
    let sk = Set::new(|x: usize| m.dom().contains(x) && x < k);
    let sj = Set::new(|x: usize| m.dom().contains(x) && x < j);
    vstd::set_lib::lemma_set_subset_finite(m.dom(), sk);
    vstd::set_lib::lemma_set_subset_finite(m.dom(), sj);
    vstd::set_lib::lemma_len_subset(sk, m.dom());
    if m.dom().contains(k) {
        vstd::set_lib::lemma_len_subset(sk.insert(k), m.dom());
    }
    if j < k && m.dom().contains(j) {
        vstd::set_lib::lemma_len_subset(sj.insert(j), sk);
    }
    if forall|x: usize| #[trigger] m.dom().contains(x) ==> x < k {
        assert(sk =~= m.dom());
    }
}

/// A tree rooted at node 0 with at most 2^32 nodes can be saved.
pub proof fn lemma_wf_export_ok(g: NodeGraph)
    requires
        g.wf(),
        g.nodes().dom().len() <= u32::MAX + 1,
    ensures
        export_ok(g.nodes()),
{
    let m = g.nodes();
    let l = links_of(m);
    let (c, d) = choose|c: spec_fn(usize) -> Seq<usize>, d: spec_fn(usize) -> nat| witness_ok(l, 0, c, d);
    assert(witness_ok(l, 0, c, d));
    assert forall|k: usize| #[trigger] m.dom().contains(k) implies {
        &&& (m[k].child_index matches Some(x) ==> m.dom().contains(x) && rank(m, x) >= 1)
        &&& (m[k].sibling_index matches Some(x) ==> m.dom().contains(x) && rank(m, x) >= 1)
        &&& (m[k].parent_index matches Some(p) ==> exists|j: usize| #[trigger] m.dom().contains(j) && p <= j)
    } by {
        assert(l.dom().contains(k));
        assert(chain_ok(l, k, c(k), d));
        if let Some(x) = m[k].child_index {
            assert(c(k)[0] == x);
            assert(l[x].parent == Some(k));
            lemma_rank_bounds(m, 0, x);
        }
        if let Some(x) = m[k].sibling_index {
            assert(k != 0);
            let p = l[k].parent->0;
            assert(c(p).contains(k));
            let i = c(p).index_of(k);
            assert(chain_ok(l, p, c(p), d));
            assert(c(p)[i] == k);
            assert(c(p)[i + 1] == x);
            assert(l[x].parent == Some(p));
            lemma_rank_bounds(m, 0, x);
        }
        if let Some(p) = m[k].parent_index {
            assert(k != 0);
            assert(m.dom().contains(p));
        }
    }
}

/// The saved form of node `k` before its links are filled in.
pub open spec fn placeholder_of(m: Map<usize, Node>, k: usize) -> SavedNode {
    SavedNode { child_index: None, parent_index: None, sibling_index: None, ..saved_node_of(m, k) }
}

/// The saved form of a graph: its nodes in index order, the links turned
/// into positions in that order.
fn export_graph(graph: &NodeGraph) -> (r: SavedNodeGraph)
    requires
        store_ok(graph.0),
        export_ok(graph.nodes()),
    ensures
        is_export_of(graph.nodes(), r.nodes@),
{
    let ghost m = graph.nodes();
    let last = sv_find_last_index(&graph.0);
    let len: usize = match last {
        Some(x) => x + 1,
        None => 0,
    };
    proof {
        assert forall|x: usize| #[trigger] m.dom().contains(x) implies x < len by {}
        lemma_rank_bounds(m, 0, len);
        assert(Set::new(|j: usize| m.dom().contains(j) && j < 0) =~= Set::<usize>::empty());
        lemma_dom_len_bound(m, graph.next_index());
    }
    let mut old_indices: Vec<usize> = Vec::new();
    let mut i: usize = 0;
    while i < len
        invariant
            i <= len,
            old_indices@.len() == i,
            forall|j: int| 0 <= j < i ==> old_indices@[j] == 0,
        decreases len - i,
    {
        old_indices.push(0);
        i = i + 1;
    }
    let mut saved: Vec<SavedNode> = Vec::new();
    let mut k: usize = 0;
    while k < len
        invariant
            store_ok(graph.0),
            m == graph.nodes(),
            export_ok(m),
            k <= len,
            forall|x: usize| #[trigger] m.dom().contains(x) ==> x < len,
            old_indices@.len() == len,
            saved@.len() == rank(m, k),
            forall|j: usize| j < k ==> #[trigger] old_indices@[j as int] == export_pos(m, j),
            forall|j: usize| k <= j < len ==> #[trigger] old_indices@[j as int] == 0,
            forall|j: usize| j < k && #[trigger] m.dom().contains(j) ==> saved@[rank(m, j) as int] == placeholder_of(m, j),
            m.dom().len() <= usize::MAX,
        decreases len - k,
    {
        proof {
            lemma_rank_step(m, k);
        }
        if let Some(node) = sv_get(&graph.0, k) {
            proof {
                lemma_rank_bounds(m, k, k);
            }
            old_indices.set(k, saved.len());
            saved.push(SavedNode {
                child_index: None,
                parent_index: None,
                sibling_index: None,
                name: node.name.clone(),
                transform: SavedTransform { x: node.transform.x, y: node.transform.y },
                node_extension: node.node_extension.to_saved(),
                script_type_id: node.script_type_id,
                enabled: node.enabled,
            });
            proof {
                assert forall|j: usize| j < k + 1 && #[trigger] m.dom().contains(j) implies saved@[rank(m, j) as int] == placeholder_of(m, j) by {
                    if j < k {
                        lemma_rank_bounds(m, j, k);
                    }
                }
            }
        }
        k = k + 1;
    }
    let mut pos: usize = 0;
    let mut k: usize = 0;
    while k < len
        invariant
            store_ok(graph.0),
            m == graph.nodes(),
            export_ok(m),
            k <= len,
            forall|x: usize| #[trigger] m.dom().contains(x) ==> x < len,
            old_indices@.len() == len,
            saved@.len() == m.dom().len(),
            pos == rank(m, k),
            m.dom().len() <= usize::MAX,
            forall|j: usize| j < len ==> #[trigger] old_indices@[j as int] == export_pos(m, j),
            forall|j: usize| j < k && #[trigger] m.dom().contains(j) ==> saved@[rank(m, j) as int] == saved_node_of(m, j),
            forall|j: usize| k <= j && #[trigger] m.dom().contains(j) ==> saved@[rank(m, j) as int] == placeholder_of(m, j),
        decreases len - k,
    {
        proof {
            lemma_rank_step(m, k);
        }
        if let Some(node) = sv_get(&graph.0, k) {
            proof {
                lemma_rank_bounds(m, k, k);
                assert(saved@[pos as int] == placeholder_of(m, k));
            }
            proof {
                if let Some(x) = node.child_index {
                    lemma_rank_bounds(m, x, x);
                }
                if let Some(x) = node.sibling_index {
                    lemma_rank_bounds(m, x, x);
                }
                if let Some(p) = node.parent_index {
                    let j = choose|j: usize| #[trigger] m.dom().contains(j) && p <= j;
                    if m.dom().contains(p) {
                        lemma_rank_bounds(m, p, p);
                    }
                }
            }
            let child = match node.child_index {
                Some(x) => Some(old_indices[x] as u32),
                None => None,
            };
            let parent = match node.parent_index {
                Some(x) => Some(old_indices[x] as u32),
                None => None,
            };
            let sibling = match node.sibling_index {
                Some(x) => Some(old_indices[x] as u32),
                None => None,
            };
            saved[pos].child_index = child;
            saved[pos].parent_index = parent;
            saved[pos].sibling_index = sibling;
            proof {
                assert forall|j: usize| j < k + 1 && #[trigger] m.dom().contains(j) implies saved@[rank(m, j) as int] == saved_node_of(m, j) by {
                    if j < k {
                        lemma_rank_bounds(m, j, k);
                    }
                }
                assert forall|j: usize| k + 1 <= j && #[trigger] m.dom().contains(j) implies saved@[rank(m, j) as int] == placeholder_of(m, j) by {
                    lemma_rank_bounds(m, k, j);
                }
            }
            pos = pos + 1;
        }
        k = k + 1;
    }
    SavedNodeGraph { nodes: saved }
}

/// Setting the links of every node and reading them back gives those links.
proof fn lemma_links_of_apply(m: Map<usize, Node>, l: Map<usize, Links<usize>>)
    requires
        m.dom() == l.dom(),
    ensures
        links_of(apply_links(m, l)) == l,
        apply_links(m, l).dom() == m.dom(),
{
    assert(links_of(apply_links(m, l)) =~= l);
}

/// A graph has at most as many nodes as its next index.
proof fn lemma_dom_len_bound(m: Map<usize, Node>, n: usize)
    requires
        m.dom().finite(),
        forall|k: usize| #[trigger] m.dom().contains(k) ==> k < n,
    ensures
        m.dom().len() <= n,
{
    lemma_usize_range_len(n);
    vstd::set_lib::lemma_len_subset(m.dom(), Set::new(|k: usize| k < n));
}

proof fn lemma_usize_range_len(n: usize)
    ensures
        Set::new(|k: usize| k < n).finite(),
        Set::new(|k: usize| k < n).len() == n,
    decreases n,
{
    if n == 0 {
        assert(Set::new(|k: usize| k < n) =~= Set::<usize>::empty());
    } else {
        lemma_usize_range_len((n - 1) as usize);
        assert(Set::new(|k: usize| k < n) =~= Set::new(|k: usize| k < (n - 1) as usize).insert((n - 1) as usize));
    }
}

/// The number in the name of a node added to `m`: the least one whose
/// label no node has yet.
pub open spec fn fresh_label_number(m: Map<usize, Node>) -> nat {
    choose|n: nat| (forall|j: nat| j < n ==> #[trigger] name_taken(m, node_label(j))) && !name_taken(m, node_label(n))
}

/// The links after a fresh node `i` is added as the first child of the root.
pub open spec fn links_after_add(m: Map<usize, Node>, i: usize) -> Map<usize, Links<usize>> {
    link(links_of(m).insert(i, Links { child: None, sibling: None, parent: None }), i, 0)
}

/// Some node of `m` is named `name`.
pub open spec fn name_taken(m: Map<usize, Node>, name: Seq<char>) -> bool {
    exists|k: usize| #[trigger] m.dom().contains(k) && m[k].name@ == name
}

/// When the labels of the numbers below `n` are all taken, there are at
/// least `n` nodes.
proof fn lemma_labels_bound(m: Map<usize, Node>, n: nat)
    requires
        m.dom().finite(),
        forall|j: nat| j < n ==> #[trigger] name_taken(m, node_label(j)),
    ensures
        n <= m.dom().len(),
{
    let r = vstd::set_lib::set_int_range(0, n as int);
    vstd::set_lib::lemma_int_range(0, n as int);
    let f = |j: int| choose|k: usize| #[trigger] m.dom().contains(k) && m[k].name@ == node_label(j as nat);
    assert forall|j: int| #[trigger] r.contains(j) implies m.dom().contains(f(j)) && m[f(j)].name@ == node_label(j as nat) by {
        assert(name_taken(m, node_label(j as nat)));
    }
    assert(vstd::relations::injective_on(f, r)) by {
        assert forall|a: int, b: int| r.contains(a) && r.contains(b) && #[trigger] f(a) == #[trigger] f(b) implies a == b by {
            lemma_node_label_injective(a as nat, b as nat);
        }
    }
    vstd::set_lib::lemma_map_size(r, r.map(f), f);
    assert(r.map(f).subset_of(m.dom()));
    vstd::set_lib::lemma_len_subset(r.map(f), m.dom());
}

/// Whether some node of the graph is named `name`.
fn has_name(graph: &NodeGraph, name: &String) -> (b: bool)
    requires
        store_ok(graph.0),
    ensures
        b == name_taken(graph.nodes(), name@),
{
    let n = graph.next_index_exec();
    let mut i: usize = 0;
    while i < n
        invariant
            store_ok(graph.0),
            n == graph.next_index(),
            i <= n,
            forall|k: usize| #[trigger] graph.nodes().dom().contains(k) && k < i ==> graph.nodes()[k].name@ != name@,
        decreases n - i,
    {
        if let Some(node) = sv_get(&graph.0, i) {
            if node.name == *name {
                return true;
            }
        }
        i = i + 1;
    }
    false
}

/// What is selected in the editor.
pub enum Selected {
    Nothing,
    Node(usize),
    File(String),
    Graph(usize),
}

/// The graphs of a project and which of them the game starts with.
pub struct ProjectData {
    pub name: String,
    pub graphs: Vec<NodeGraph>,
    pub main_graph: Option<u32>,
}

impl ProjectData {
    pub fn new() -> (p: Self)
        ensures
            p.name@ == Seq::<char>::empty(),
            p.graphs@.len() == 0,
            p.main_graph is None,
    {
        ProjectData { name: String::new(), graphs: Vec::new(), main_graph: None }
    }
}

/// A request to make `node_idx` a child of `new_parent_idx`.
#[derive(Clone, Copy, Debug)]
pub struct NodeMove {
    pub node_idx: usize,
    pub new_parent_idx: usize,
}

/// Whether a move keeps the graph a tree: the new parent is neither the
/// node nor below it.
pub open spec fn move_is_valid(m: Map<usize, Links<usize>>, mv: NodeMove) -> bool {
    mv.node_idx != mv.new_parent_idx && !desc_set(m, mv.node_idx).contains(mv.new_parent_idx)
}

/// The nodes after a move: unchanged when the move is not valid.
pub open spec fn moved_nodes(n: Map<usize, Node>, mv: NodeMove) -> Map<usize, Node> {
    if move_is_valid(links_of(n), mv) {
        apply_links(n, link(unlink(links_of(n), mv.node_idx), mv.node_idx, mv.new_parent_idx))
    } else {
        n
    }
}

/// The nodes after `i` and everything below it are deleted.
pub open spec fn deleted_nodes(n: Map<usize, Node>, i: usize) -> Map<usize, Node> {
    apply_links(n, unlink(links_of(n), i)).remove_keys(desc_set(links_of(n), i).insert(i))
}

/// The nodes after the moves are carried out, the last one first.
pub open spec fn apply_moves(n: Map<usize, Node>, mvs: Seq<NodeMove>) -> Map<usize, Node>
    decreases mvs.len(),
{
    if mvs.len() == 0 {
        n
    } else {
        apply_moves(moved_nodes(n, mvs.last()), mvs.drop_last())
    }
}

/// A move keeps the set of nodes.
proof fn lemma_moved_dom(n: Map<usize, Node>, mv: NodeMove)
    ensures
        moved_nodes(n, mv).dom() == n.dom(),
{
    assert(moved_nodes(n, mv).dom() =~= n.dom());
}

/// The editor's view of the graph being edited.
pub struct Hierarchy {
    pub current_graph_idx: usize,
    pub new_graph_name_buffer: String,
    pub pending_node_moves: Vec<NodeMove>,
}

impl Hierarchy {
    pub open spec fn pending(&self) -> Seq<NodeMove> {
        self.pending_node_moves@
    }

    pub fn new() -> (h: Self)
        ensures
            h.current_graph_idx == 0,
            h.new_graph_name_buffer@ == Seq::<char>::empty(),
            h.pending().len() == 0,
    {
        Hierarchy { current_graph_idx: 0, new_graph_name_buffer: String::new(), pending_node_moves: Vec::new() }
    }

    /// Adds a graph whose one node is named after the name buffer, makes it
    /// the current and selected graph, and the main graph if it is the
    /// first; empties the name buffer.
    pub fn add_graph(&mut self, project_data: &mut ProjectData, selected: &mut Selected)
        ensures
            final(project_data).graphs@.len() == old(project_data).graphs@.len() + 1,
            final(project_data).graphs@.drop_last() == old(project_data).graphs@,
            final(project_data).graphs@.last().nodes().dom() == set![0usize],
            is_fresh_node(final(project_data).graphs@.last().nodes()[0], old(self).new_graph_name_buffer@),
            final(project_data).graphs@.last().next_index() == 1,
            final(project_data).graphs@.last().wf(),
            final(project_data).main_graph == (if old(project_data).graphs@.len() == 0 {
                Some(0u32)
            } else {
                old(project_data).main_graph
            }),
            final(project_data).name == old(project_data).name,
            final(self).current_graph_idx == old(project_data).graphs@.len(),
            *final(selected) == Selected::Graph(old(project_data).graphs@.len() as usize),
            final(self).new_graph_name_buffer@ == Seq::<char>::empty(),
            final(self).pending() == old(self).pending(),
    {
        let mut new_graph = NodeGraph::new();
        let root = Node {
            child_index: None,
            parent_index: None,
            sibling_index: None,
            name: self.new_graph_name_buffer.clone(),
            transform: Transform { x: 0, y: 0 },
            node_extension: NodeExtension::Nothing,
            script_type_id: None,
            enabled: true,
        };
        let ghost root_spec = root;
        sv_push(&mut new_graph.0, root);
        self.current_graph_idx = project_data.graphs.len();
        if project_data.graphs.len() == 0 {
            project_data.main_graph = Some(0u32);
        }
        *selected = Selected::Graph(self.current_graph_idx);
        proof {
            let m = links_of(new_graph.nodes());
            crate::tree::lemma_single_is_tree(0usize);
            assert(m =~= crate::tree::single(0usize));
        }
        project_data.graphs.push(new_graph);
        self.new_graph_name_buffer = String::new();
        proof {
            assert(project_data.graphs@.drop_last() =~= old(project_data).graphs@);
            assert(project_data.graphs@.last().nodes().dom() =~= set![0usize]);
        }
    }

    /// Adds a node to the current graph, named "Node n" for the least n
    /// whose name no node has, as the first child of the root, and selects
    /// it. Does nothing when there is no current graph.
    pub fn add_node(&mut self, project_data: &mut ProjectData, selected: &mut Selected)
        requires
            old(self).current_graph_idx < old(project_data).graphs@.len() ==> {
                &&& old(project_data).graphs@[old(self).current_graph_idx as int].wf()
                &&& old(project_data).graphs@[old(self).current_graph_idx as int].next_index() < usize::MAX
            },
        ensures
            *final(self) == *old(self),
            final(project_data).name == old(project_data).name,
            final(project_data).main_graph == old(project_data).main_graph,
            final(project_data).graphs@.len() == old(project_data).graphs@.len(),
            forall|j: int| 0 <= j < old(project_data).graphs@.len() && j != old(self).current_graph_idx ==> #[trigger] final(project_data).graphs@[j] == old(project_data).graphs@[j],
            old(self).current_graph_idx >= old(project_data).graphs@.len() ==> *final(selected) == *old(selected),
            old(self).current_graph_idx < old(project_data).graphs@.len() ==> ({
                let g0 = old(project_data).graphs@[old(self).current_graph_idx as int];
                let g1 = final(project_data).graphs@[old(self).current_graph_idx as int];
                let i = g0.next_index();
                let n = g1.nodes()[i];
                &&& g1.nodes() == apply_links(g0.nodes().insert(i, n), links_after_add(g0.nodes(), i))
                &&& n.name@ == node_label(fresh_label_number(g0.nodes()))
                &&& n.transform == Transform { x: 0, y: 0 }
                &&& n.node_extension is Nothing
                &&& n.script_type_id is None
                &&& n.enabled
                &&& g1.next_index() == i + 1
                &&& g1.wf()
                &&& *final(selected) == Selected::Node(i)
            }),
    {
        if self.current_graph_idx < project_data.graphs.len() {
            let ghost g0 = project_data.graphs@[self.current_graph_idx as int];
            let ghost n0 = g0.nodes();
            let graph = &mut project_data.graphs[self.current_graph_idx];
            let mut node_number: usize = 0;
            let mut node_name = format_node_label(0);
            loop
                invariant
                    graph.nodes() == n0,
                    store_ok(graph.0),
                    node_name@ == node_label(node_number as nat),
                    forall|j: nat| j < node_number ==> #[trigger] name_taken(n0, node_label(j)),
                    node_number <= n0.dom().len(),
                    graph.next_index() < usize::MAX,
                ensures
                    node_name@ == node_label(node_number as nat),
                    forall|j: nat| j < node_number ==> #[trigger] name_taken(n0, node_label(j)),
                    !name_taken(n0, node_label(node_number as nat)),
                decreases n0.dom().len() - node_number,
            {
                if !has_name(graph, &node_name) {
                    break;
                }
                proof {
                    assert forall|j: nat| j < node_number + 1 implies #[trigger] name_taken(n0, node_label(j)) by {}
                    lemma_labels_bound(n0, (node_number + 1) as nat);
                    lemma_dom_len_bound(n0, graph.next_index());
                }
                node_number = node_number + 1;
                node_name = format_node_label(node_number);
            }
            proof {
                let n = node_number as nat;
                let f = fresh_label_number(n0);
                assert((forall|j: nat| j < n ==> #[trigger] name_taken(n0, node_label(j))) && !name_taken(n0, node_label(n)));
                assert((forall|j: nat| j < f ==> #[trigger] name_taken(n0, node_label(j))) && !name_taken(n0, node_label(f)));
                if f < n {
                    assert(name_taken(n0, node_label(f)));
                } else if n < f {
                    assert(name_taken(n0, node_label(n)));
                }
            }
            let new_node = Node {
                child_index: None,
                parent_index: None,
                sibling_index: None,
                name: node_name,
                transform: Transform { x: 0, y: 0 },
                node_extension: NodeExtension::Nothing,
                script_type_id: None,
                enabled: true,
            };
            let ghost nn = new_node;
            let new_index = sv_push(&mut graph.0, new_node);
            proof {
                assert(!n0.dom().contains(new_index));
                assert(links_of(n0.insert(new_index, nn)) =~= links_of(n0).insert(new_index, Links { child: None, sibling: None, parent: None }));
                assert(tree_wf(links_of(n0), 0));
                crate::tree::lemma_add_leaf_keeps_tree(links_of(n0), 0, new_index, 0);
                assert(n0.dom().contains(0usize)) by {
                    let (c, d) = choose|c: spec_fn(usize) -> Seq<usize>, d: spec_fn(usize) -> nat| witness_ok(links_of(n0), 0, c, d);
                }
            }
            link_node(graph, new_index, 0);
            proof {
                let l = links_after_add(n0, new_index);
                assert(links_of(n0.insert(new_index, nn)).dom() =~= n0.insert(new_index, nn).dom());
                assert(l.dom() =~= n0.insert(new_index, nn).dom());
                lemma_links_of_apply(n0.insert(new_index, nn), l);
                assert(graph.nodes()[new_index] == with_links(nn, l[new_index]));
                assert(n0.insert(new_index, graph.nodes()[new_index]).insert(new_index, nn) =~= n0.insert(new_index, nn));
                assert(apply_links(n0.insert(new_index, graph.nodes()[new_index]), l) =~= apply_links(n0.insert(new_index, nn), l));
                assert forall|k: usize| #[trigger] graph.nodes().dom().contains(k) implies k < graph.next_index() by {
                    if k != new_index {
                        assert(n0.dom().contains(k));
                    }
                }
            }
            *selected = Selected::Node(new_index);
        }
    }

    /// Makes `node_move.node_idx` the first child of `node_move.new_parent_idx`
    /// in the current graph, unless the new parent is the node itself or lies
    /// below it; then nothing changes.
    pub fn move_node(&mut self, project_data: &mut ProjectData, node_move: NodeMove)
        requires
            old(self).current_graph_idx < old(project_data).graphs@.len() ==> ({
                let g = old(project_data).graphs@[old(self).current_graph_idx as int];
                &&& g.wf()
                &&& g.nodes().dom().contains(node_move.node_idx)
                &&& move_is_valid(links_of(g.nodes()), node_move) ==> g.nodes().dom().contains(node_move.new_parent_idx)
            }),
        ensures
            *final(self) == *old(self),
            final(project_data).name == old(project_data).name,
            final(project_data).main_graph == old(project_data).main_graph,
            final(project_data).graphs@.len() == old(project_data).graphs@.len(),
            forall|j: int| 0 <= j < old(project_data).graphs@.len() && j != old(self).current_graph_idx ==> #[trigger] final(project_data).graphs@[j] == old(project_data).graphs@[j],
            old(self).current_graph_idx < old(project_data).graphs@.len() ==> ({
                let g0 = old(project_data).graphs@[old(self).current_graph_idx as int];
                let g1 = final(project_data).graphs@[old(self).current_graph_idx as int];
                &&& g1.nodes() == moved_nodes(g0.nodes(), node_move)
                &&& g1.next_index() == g0.next_index()
                &&& g1.wf()
            }),
    {
        if self.current_graph_idx < project_data.graphs.len() {
            let graph = &mut project_data.graphs[self.current_graph_idx];
            let ghost n0 = graph.nodes();
            let ghost m = links_of(n0);
            let mut valid_move = true;
            if node_move.node_idx == node_move.new_parent_idx {
                valid_move = false;
            }
            let below = descendants(graph, node_move.node_idx);
            let mut k: usize = 0;
            while k < below.len()
                invariant
                    k <= below.len(),
                    valid_move == (node_move.node_idx != node_move.new_parent_idx && forall|j: int| 0 <= j < k ==> below@[j] != node_move.new_parent_idx),
                decreases below.len() - k,
            {
                if below[k] == node_move.new_parent_idx {
                    valid_move = false;
                }
                k = k + 1;
            }
            proof {
                assert(below@.contains(node_move.new_parent_idx) <==> exists|j: int| 0 <= j < below@.len() && below@[j] == node_move.new_parent_idx);
                assert(valid_move == move_is_valid(m, node_move));
            }
            if valid_move {
                proof {
                    let (c, d) = choose|c: spec_fn(usize) -> Seq<usize>, d: spec_fn(usize) -> nat| witness_ok(m, 0, c, d);
                    if node_move.node_idx == 0 {
                        assert(node_move.new_parent_idx != 0);
                        crate::tree::lemma_all_below_root(m, 0, c, d, node_move.new_parent_idx);
                        assert(desc_set(m, 0).contains(node_move.new_parent_idx));
                    }
                    crate::tree::lemma_move_keeps_tree(m, 0, node_move.node_idx, node_move.new_parent_idx);
                    crate::tree::lemma_unlink_fixed(m, 0, c, d, node_move.node_idx);
                }
                unlink_node(graph, node_move.node_idx);
                let ghost n1 = graph.nodes();
                proof {
                    assert(m.dom() =~= n0.dom());
                    lemma_links_of_apply(n0, unlink(m, node_move.node_idx));
                }
                link_node(graph, node_move.node_idx, node_move.new_parent_idx);
                proof {
                    let l = link(unlink(m, node_move.node_idx), node_move.node_idx, node_move.new_parent_idx);
                    assert(l.dom() =~= n0.dom());
                    assert(graph.nodes() =~= apply_links(n0, l));
                    lemma_links_of_apply(n0, l);
                }
            }
        }
    }

    /// Deselects, then takes `node_idx` out of the current graph together
    /// with every node below it.
    pub fn delete_node(&mut self, project_data: &mut ProjectData, selected: &mut Selected, node_idx: usize)
        requires
            node_idx != 0,
            old(self).current_graph_idx < old(project_data).graphs@.len() ==> ({
                let g = old(project_data).graphs@[old(self).current_graph_idx as int];
                &&& g.wf()
                &&& g.nodes().dom().contains(node_idx)
            }),
        ensures
            *final(self) == *old(self),
            *final(selected) == Selected::Nothing,
            final(project_data).name == old(project_data).name,
            final(project_data).main_graph == old(project_data).main_graph,
            final(project_data).graphs@.len() == old(project_data).graphs@.len(),
            forall|j: int| 0 <= j < old(project_data).graphs@.len() && j != old(self).current_graph_idx ==> #[trigger] final(project_data).graphs@[j] == old(project_data).graphs@[j],
            old(self).current_graph_idx < old(project_data).graphs@.len() ==> ({
                let g0 = old(project_data).graphs@[old(self).current_graph_idx as int];
                let g1 = final(project_data).graphs@[old(self).current_graph_idx as int];
                &&& g1.nodes() == deleted_nodes(g0.nodes(), node_idx)
                &&& g1.next_index() == g0.next_index()
                &&& g1.wf()
            }),
    {
        *selected = Selected::Nothing;
        if self.current_graph_idx < project_data.graphs.len() {
            let graph = &mut project_data.graphs[self.current_graph_idx];
            let ghost n0 = graph.nodes();
            let ghost m = links_of(n0);
            let below = descendants(graph, node_idx);
            proof {
                let (c, d) = choose|c: spec_fn(usize) -> Seq<usize>, d: spec_fn(usize) -> nat| witness_ok(m, 0, c, d);
                crate::tree::lemma_unlink_fixed(m, 0, c, d, node_idx);
                crate::tree::lemma_delete_keeps_tree(m, 0, node_idx);
                assert(m.dom() =~= n0.dom());
            }
            unlink_node(graph, node_idx);
            let ghost n1 = graph.nodes();
            let ghost next0 = graph.next_index();
            let mut to_delete: Vec<usize> = Vec::new();
            to_delete.push(node_idx);
            let mut k: usize = 0;
            while k < below.len()
                invariant
                    k <= below.len(),
                    to_delete@ == seq![node_idx] + below@.take(k as int),
                decreases below.len() - k,
            {
                to_delete.push(below[k]);
                proof {
                    assert(below@.take(k + 1) =~= below@.take(k as int).push(below@[k as int]));
                    assert(to_delete@ =~= seq![node_idx] + below@.take(k + 1));
                }
                k = k + 1;
            }
            proof {
                assert(below@.take(k as int) =~= below@);
                assert forall|y: usize| #[trigger] to_delete@.contains(y) implies n0.dom().contains(y) by {
                    if y != node_idx {
                        let j = to_delete@.index_of(y);
                        assert(to_delete@[j] == below@[j - 1]);
                        assert(below@.to_set().contains(y));
                    }
                }
            }
            let mut i: usize = 0;
            while i < to_delete.len()
                invariant
                    i <= to_delete.len(),
                    graph.nodes() == n1.remove_keys(to_delete@.take(i as int).to_set()),
                    graph.next_index() == next0,
                    n1.dom() == n0.dom(),
                    forall|k2: usize| #[trigger] n0.dom().contains(k2) ==> k2 < next0,
                    forall|y: usize| #[trigger] to_delete@.contains(y) ==> n0.dom().contains(y),
                decreases to_delete.len() - i,
            {
                let y = to_delete[i];
                proof {
                    assert(to_delete@.contains(y));
                }
                sv_remove(&mut graph.0, y);
                proof {
                    assert(to_delete@.take(i + 1) =~= to_delete@.take(i as int).push(y));
                    to_delete@.take(i as int).lemma_push_to_set_commute(y);
                    assert(to_delete@.take(i + 1).to_set() =~= to_delete@.take(i as int).to_set().insert(y));
                    assert(graph.nodes() =~= n1.remove_keys(to_delete@.take(i + 1).to_set()));
                }
                i = i + 1;
            }
            proof {
                assert(to_delete@.take(i as int) =~= to_delete@);
                assert(to_delete@.to_set() =~= desc_set(m, node_idx).insert(node_idx)) by {
                    assert forall|y: usize| #[trigger] to_delete@.to_set().contains(y) <==> desc_set(m, node_idx).insert(node_idx).contains(y) by {
                        if to_delete@.contains(y) && y != node_idx {
                            let j = to_delete@.index_of(y);
                            assert(to_delete@[j] == below@[j - 1]);
                            assert(below@.contains(y));
                        }
                        if below@.to_set().contains(y) {
                            let j = below@.index_of(y);
                            assert(to_delete@[j + 1] == y);
                        }
                        assert(to_delete@[0] == node_idx);
                    }
                }
                let l = unlink(m, node_idx);
                lemma_links_of_apply(n0, l);
                let del = desc_set(m, node_idx).insert(node_idx);
                assert(links_of(graph.nodes()) =~= l.remove_keys(del));
                assert forall|k2: usize| #[trigger] graph.nodes().dom().contains(k2) implies k2 < graph.next_index() by {
                    assert(n0.dom().contains(k2));
                }
            }
        }
    }

    /// Records a move to carry out once the hierarchy has been drawn.
    pub fn queue_node_move(&mut self, node_idx: usize, new_parent_idx: usize)
        ensures
            final(self).current_graph_idx == old(self).current_graph_idx,
            final(self).new_graph_name_buffer == old(self).new_graph_name_buffer,
            final(self).pending() == old(self).pending().push(NodeMove { node_idx, new_parent_idx }),
    {
        self.pending_node_moves.push(NodeMove { node_idx, new_parent_idx });
    }

    /// Carries out the recorded moves, the last recorded first, and forgets
    /// them.
    pub fn process_pending_node_moves(&mut self, project_data: &mut ProjectData)
        requires
            old(self).current_graph_idx < old(project_data).graphs@.len() ==> ({
                let g = old(project_data).graphs@[old(self).current_graph_idx as int];
                &&& g.wf()
                &&& forall|k: int| 0 <= k < old(self).pending().len() ==> g.nodes().dom().contains(#[trigger] old(self).pending()[k].node_idx)
                    && g.nodes().dom().contains(old(self).pending()[k].new_parent_idx)
            }),
        ensures
            final(self).current_graph_idx == old(self).current_graph_idx,
            final(self).new_graph_name_buffer == old(self).new_graph_name_buffer,
            final(self).pending().len() == 0,
            final(project_data).name == old(project_data).name,
            final(project_data).main_graph == old(project_data).main_graph,
            final(project_data).graphs@.len() == old(project_data).graphs@.len(),
            forall|j: int| 0 <= j < old(project_data).graphs@.len() && j != old(self).current_graph_idx ==> #[trigger] final(project_data).graphs@[j] == old(project_data).graphs@[j],
            old(self).current_graph_idx < old(project_data).graphs@.len() ==> ({
                let g0 = old(project_data).graphs@[old(self).current_graph_idx as int];
                let g1 = final(project_data).graphs@[old(self).current_graph_idx as int];
                &&& g1.nodes() == apply_moves(g0.nodes(), old(self).pending())
                &&& g1.next_index() == g0.next_index()
                &&& g1.wf()
            }),
    {
        let ghost idx = self.current_graph_idx as int;
        let ghost all = self.pending();
        let ghost has = idx < project_data.graphs@.len();
        let ghost n0 = if has { project_data.graphs@[idx].nodes() } else { Map::empty() };
        let ghost next0 = if has { project_data.graphs@[idx].next_index() } else { 0 };
        loop
            invariant
                self.current_graph_idx == idx,
                self.new_graph_name_buffer == old(self).new_graph_name_buffer,
                has == (idx < old(project_data).graphs@.len()),
                project_data.name == old(project_data).name,
                project_data.main_graph == old(project_data).main_graph,
                project_data.graphs@.len() == old(project_data).graphs@.len(),
                forall|j: int| 0 <= j < old(project_data).graphs@.len() && j != idx ==> #[trigger] project_data.graphs@[j] == old(project_data).graphs@[j],
                has ==> ({
                    let g = project_data.graphs@[idx];
                    &&& g.wf()
                    &&& g.next_index() == next0
                    &&& g.nodes().dom() == n0.dom()
                    &&& apply_moves(g.nodes(), self.pending()) == apply_moves(n0, all)
                    &&& forall|k: int| 0 <= k < self.pending().len() ==> n0.dom().contains(#[trigger] self.pending()[k].node_idx)
                        && n0.dom().contains(self.pending()[k].new_parent_idx)
                }),
                has ==> old(project_data).graphs@[idx].nodes() == n0,
                has ==> old(project_data).graphs@[idx].next_index() == next0,
            ensures
                self.pending().len() == 0,
            decreases self.pending().len(),
        {
            let ghost before = self.pending();
            match self.pending_node_moves.pop() {
                Some(mv) => {
                    proof {
                        assert(self.pending() == before.drop_last());
                        assert(mv == before.last());
                        if has {
                            assert(n0.dom().contains(before[before.len() - 1].node_idx));
                            lemma_moved_dom(project_data.graphs@[idx].nodes(), mv);
                        }
                    }
                    self.move_node(project_data, mv);
                },
                None => {
                    break;
                },
            }
        }
    }
}
impl ProjectData {
    /// The saved form of every graph, in order.
    pub fn export_saved_graph(&self) -> (r: Vec<SavedNodeGraph>)
        requires
            forall|i: int| 0 <= i < self.graphs@.len() ==> store_ok(#[trigger] self.graphs@[i].0) && export_ok(self.graphs@[i].nodes()),
        ensures
            r@.len() == self.graphs@.len(),
            forall|i: int| 0 <= i < self.graphs@.len() ==> is_export_of(#[trigger] self.graphs@[i].nodes(), r@[i].nodes@),
    {
        let mut all_saved_graphs: Vec<SavedNodeGraph> = Vec::new();
        let mut i: usize = 0;
        while i < self.graphs.len()
            invariant
                i <= self.graphs@.len(),
                all_saved_graphs@.len() == i,
                forall|i: int| 0 <= i < self.graphs@.len() ==> store_ok(#[trigger] self.graphs@[i].0) && export_ok(self.graphs@[i].nodes()),
                forall|j: int| 0 <= j < i ==> is_export_of(#[trigger] self.graphs@[j].nodes(), all_saved_graphs@[j].nodes@),
            decreases self.graphs@.len() - i,
        {
            let saved = export_graph(&self.graphs[i]);
            all_saved_graphs.push(saved);
            i = i + 1;
        }
        all_saved_graphs
    }
}

/// The node that a saved node stands for, its links as indices.
pub open spec fn node_of_saved(s: SavedNode) -> Node {
    Node {
        child_index: match s.child_index { Some(x) => Some(x as usize), None => None },
        parent_index: match s.parent_index { Some(x) => Some(x as usize), None => None },
        sibling_index: match s.sibling_index { Some(x) => Some(x as usize), None => None },
        name: s.name,
        transform: Transform { x: s.transform.x, y: s.transform.y },
        node_extension: ext_from_saved(s.node_extension),
        script_type_id: s.script_type_id,
        enabled: s.enabled,
    }
}

impl NodeGraph {
    /// The graph that a saved graph stands for: its nodes at their
    /// positions in the saved list.
    pub fn from_saved(graph: SavedNodeGraph) -> (r: NodeGraph)
        ensures
            store_ok(r.0),
            r.next_index() == graph.nodes@.len(),
            r.nodes().dom() == Set::new(|k: usize| k < graph.nodes@.len()),
            forall|k: usize| k < graph.nodes@.len() ==> #[trigger] r.nodes()[k] == node_of_saved(graph.nodes@[k as int]),
    {
        let ghost saved = graph.nodes@;
        let total = graph.nodes.len();
        let mut new_graph = NodeGraph::new();
        let mut k: usize = 0;
        for node in it: graph.nodes
            invariant
                store_ok(new_graph.0),
                saved.len() == total,
                k <= total,
                it.seq() == saved,
                k == it.index(),
                new_graph.next_index() == k,
                new_graph.nodes().dom() == Set::new(|j: usize| j < k),
                forall|j: usize| j < k ==> #[trigger] new_graph.nodes()[j] == node_of_saved(saved[j as int]),
        {
            proof {
                assert(node == saved[k as int]);
                assert(k < total);
            }
            let new_node = Node {
                child_index: match node.child_index { Some(x) => Some(x as usize), None => None },
                parent_index: match node.parent_index { Some(x) => Some(x as usize), None => None },
                sibling_index: match node.sibling_index { Some(x) => Some(x as usize), None => None },
                name: node.name,
                transform: Transform { x: node.transform.x, y: node.transform.y },
                node_extension: NodeExtension::from_saved(node.node_extension),
                script_type_id: node.script_type_id,
                enabled: node.enabled,
            };
            sv_push(&mut new_graph.0, new_node);
            proof {
                assert(new_graph.nodes().dom() =~= Set::new(|j: usize| j < k + 1));
            }
            k = k + 1;
        }
        new_graph
    }
}

/// A link renamed by rank, as saving stores it.
pub open spec fn renamed_link(m: Map<usize, Node>, o: Option<usize>) -> Option<usize> {
    match o {
        Some(x) => Some(export_pos(m, x) as usize),
        None => None,
    }
}

/// A node of `m` with its links renamed by rank.
pub open spec fn renamed_node(m: Map<usize, Node>, n: Node) -> Node {
    Node {
        child_index: renamed_link(m, n.child_index),
        parent_index: renamed_link(m, n.parent_index),
        sibling_index: renamed_link(m, n.sibling_index),
        ..n
    }
}

/// Saving a graph and loading it again puts each node at its rank, the
/// number of nodes at lower indices, and gives it back with its links
/// renamed by rank: the indices are compacted in increasing order.
pub proof fn lemma_save_load_compacts(m: Map<usize, Node>, s: Seq<SavedNode>)
    requires
        export_ok(m),
        is_export_of(m, s),
    ensures
        s.len() == m.dom().len(),
        forall|k: usize| #[trigger] m.dom().contains(k) ==> rank(m, k) < s.len()
            && node_of_saved(s[rank(m, k) as int]) == renamed_node(m, m[k]),
{
    assert forall|k: usize| #[trigger] m.dom().contains(k) implies rank(m, k) < s.len()
        && node_of_saved(s[rank(m, k) as int]) == renamed_node(m, m[k]) by {
        lemma_rank_bounds(m, k, k);
        let nd = m[k];
        assert forall|x: usize| true implies export_pos(m, x) <= u32::MAX by {
            lemma_rank_bounds(m, x, x);
        }
        lemma_ext_round_trip(nd.node_extension);
    }
}

/// Saving a graph whose nodes sit at indices 0 to n - 1 and loading it again
/// gives back the same nodes at the same indices.
pub proof fn lemma_save_load_round_trip(m: Map<usize, Node>, s: Seq<SavedNode>, n: usize)
    requires
        m.dom() == Set::new(|k: usize| k < n),
        export_ok(m),
        is_export_of(m, s),
    ensures
        s.len() == n,
        forall|k: usize| k < n ==> node_of_saved(#[trigger] s[k as int]) == m[k],
{
    lemma_usize_range_len(n);
    assert forall|k: usize| k <= n implies #[trigger] rank(m, k) == k by {
        lemma_usize_range_len(k);
        assert(Set::new(|j: usize| m.dom().contains(j) && j < k) =~= Set::new(|j: usize| j < k));
    }
    assert forall|k: usize| k < n implies node_of_saved(#[trigger] s[k as int]) == m[k] by {
        assert(m.dom().contains(k));
        assert(rank(m, k) == k);
        let nd = m[k];
        if let Some(x) = nd.child_index {
            assert(rank(m, x) == x);
        }
        if let Some(x) = nd.sibling_index {
            assert(rank(m, x) == x);
        }
        if let Some(p) = nd.parent_index {
            let j = choose|j: usize| #[trigger] m.dom().contains(j) && p <= j;
            assert(m.dom().contains(p));
            assert(rank(m, p) == p);
        }
        lemma_ext_round_trip(nd.node_extension);
    }
}

} // verus!
