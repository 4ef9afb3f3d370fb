use vstd::prelude::*;
use crate::editor::{Node, NodeGraph, NodeExtension, Selected, Hierarchy, ProjectData, links_of, children, sv_index};
use crate::fixed_math::{floor_fixed, fixed_to_int};
use crate::tree::{Links, witness_ok, chain_ok, desc_set, is_desc, ancestor_at, children_of, lemma_children_of, lemma_desc_finite, lemma_desc_facts, lemma_child_is_desc};

verus! {

/// Width of a DS screen in pixels: what a camera sees across.
pub const DS_SCREEN_X: u32 = 256;

/// Height of a DS screen in pixels.
pub const DS_SCREEN_Y: u32 = 192;

/// What the world view draws for a node.
#[derive(Debug)]
pub enum WorldShape {
    /// The node's sprite, by the name of its graphic.
    Sprite(String),
    /// The outline of what a camera at the node sees: one DS screen.
    Camera,
    /// The outline of a rectangle collider; width and height as raw
    /// fixed-point bits with 12 fractional bits.
    RectCollider(i32, i32),
    /// Nothing to draw but a dot, and only while the node is selected.
    Marker,
}

/// One node as the world view draws it.
#[derive(Debug)]
pub struct WorldItem {
    pub node: usize,
    /// The node that the offset is taken from; `None` for the root.
    pub parent: Option<usize>,
    /// The node's position relative to its parent in whole pixels: the
    /// integer part of its fixed-point position, rounded down.
    pub dx: i32,
    pub dy: i32,
    pub shape: WorldShape,
    pub selected: bool,
}

/// What is drawn for a node with this extension.
pub open spec fn shape_of(e: NodeExtension) -> WorldShape {
    match e {
        NodeExtension::Sprite(s) => WorldShape::Sprite(s.graphic_asset),
        NodeExtension::Camera(_) => WorldShape::Camera,
        NodeExtension::RectCollider(c) => WorldShape::RectCollider(c.width, c.height),
        NodeExtension::Nothing => WorldShape::Marker,
    }
}

/// The node `idx` is the selected one.
pub open spec fn is_selected_node(sel: Selected, idx: usize) -> bool {
    sel matches Selected::Node(i) && i == idx
}

/// The item that the world view draws for node `idx`.
pub open spec fn world_item(n: Node, idx: usize, sel: Selected) -> WorldItem {
    WorldItem {
        node: idx,
        parent: n.parent_index,
        dx: floor_fixed(n.transform.x) as i32,
        dy: floor_fixed(n.transform.y) as i32,
        shape: shape_of(n.node_extension),
        selected: is_selected_node(sel, idx),
    }
}

/// What the world view draws for a node, field by field: its index and
/// its parent, its position in whole pixels rounded down, whether it is the
/// selected node, and the shape of its extension: a sprite by its graphic,
/// a camera's screen, a collider's width and height in that order, and a
/// marker for a node without extension.
pub proof fn lemma_world_item_fields(n: Node, idx: usize, sel: Selected)
    ensures
        world_item(n, idx, sel).node == idx,
        world_item(n, idx, sel).parent == n.parent_index,
        world_item(n, idx, sel).dx as int * 4096 <= n.transform.x < (world_item(n, idx, sel).dx as int + 1) * 4096,
        world_item(n, idx, sel).dy as int * 4096 <= n.transform.y < (world_item(n, idx, sel).dy as int + 1) * 4096,
        world_item(n, idx, sel).selected <==> sel == Selected::Node(idx),
        n.node_extension is Sprite ==> world_item(n, idx, sel).shape == WorldShape::Sprite(n.node_extension->Sprite_0.graphic_asset),
        n.node_extension is Camera ==> world_item(n, idx, sel).shape is Camera,
        n.node_extension is RectCollider ==> world_item(n, idx, sel).shape == WorldShape::RectCollider(
            n.node_extension->RectCollider_0.width, n.node_extension->RectCollider_0.height),
        n.node_extension is Nothing ==> world_item(n, idx, sel).shape is Marker,
{
    let x = n.transform.x as int;
    let y = n.transform.y as int;
    assert(floor_fixed(n.transform.x) * 4096 <= x < (floor_fixed(n.transform.x) + 1) * 4096) by (nonlinear_arith)
        requires floor_fixed(n.transform.x) == x / 4096;
    assert(floor_fixed(n.transform.y) * 4096 <= y < (floor_fixed(n.transform.y) + 1) * 4096) by (nonlinear_arith)
        requires floor_fixed(n.transform.y) == y / 4096;
}

/// The items of `x` and of the nodes below it, depth first: a node comes
/// before the nodes below it, and the subtrees of its children follow one
/// another in sibling order. `fuel` bounds the depth that is walked.
pub open spec fn subtree_items(nodes: Map<usize, Node>, x: usize, sel: Selected, fuel: nat) -> Seq<WorldItem>
    decreases fuel, 0int,
{
    if fuel == 0 {
        Seq::empty()
    } else {
        seq![world_item(nodes[x], x, sel)] + forest_items(
            nodes,
            children_of(links_of(nodes), 0, x),
            0,
            sel,
            (fuel - 1) as nat,
        )
    }
}

/// The items of the subtrees of `xs[i]`, `xs[i + 1]`, ... one after the
/// other.
pub open spec fn forest_items(nodes: Map<usize, Node>, xs: Seq<usize>, i: int, sel: Selected, fuel: nat) -> Seq<WorldItem>
    decreases fuel, xs.len() - i,
{
    if 0 <= i < xs.len() {
        subtree_items(nodes, xs[i], sel, fuel) + forest_items(nodes, xs, i + 1, sel, fuel)
    } else {
        Seq::empty()
    }
}

/// What the world view draws of a graph: every node, the root first; the
/// walk may go as deep as the graph has nodes.
pub open spec fn graph_items(nodes: Map<usize, Node>, sel: Selected) -> Seq<WorldItem> {
    subtree_items(nodes, 0, sel, nodes.dom().len())
}

/// One step up from the ancestor at distance `n` is the ancestor at
/// distance `n + 1`.
proof fn lemma_ancestor_step(m: Map<usize, Links<usize>>, z: usize, n: nat, a: usize, p: usize)
    requires
        ancestor_at(m, z, n) == Some(a),
        m.dom().contains(a),
        m[a].parent == Some(p),
    ensures
        ancestor_at(m, z, n + 1) == Some(p),
    decreases n,
{
    if n == 0 {
        assert(ancestor_at(m, p, 0) == Some(p));
    } else {
        let q = m[z].parent->0;
        lemma_ancestor_step(m, q, (n - 1) as nat, a, p);
    }
}

/// A child and the nodes below it lie below its parent.
proof fn lemma_child_subtree_below(m: Map<usize, Links<usize>>, x: usize, y: usize)
    requires
        m.dom().contains(y),
        m[y].parent == Some(x),
    ensures
        subtree_set(m, y).subset_of(desc_set(m, x)),
{
    assert forall|z: usize| #[trigger] desc_set(m, y).contains(z) implies desc_set(m, x).contains(z) by {
        reveal(is_desc);
        let n = choose|n: nat| n >= 1 && #[trigger] ancestor_at(m, z, n) == Some(y);
        lemma_ancestor_step(m, z, n, y, x);
        assert(ancestor_at(m, z, n + 1) == Some(x));
    }
    lemma_child_is_desc(m, x, x, y);
}

/// A child has fewer nodes below it than its parent.
proof fn lemma_child_fewer_below(m: Map<usize, Links<usize>>, root: usize, x: usize, y: usize)
    requires
        exists|c: spec_fn(usize) -> Seq<usize>, d: spec_fn(usize) -> nat| witness_ok(m, root, c, d),
        m.dom().contains(y),
        m[y].parent == Some(x),
    ensures
        desc_set(m, y).len() < desc_set(m, x).len(),
{
    let (c, d) = choose|c: spec_fn(usize) -> Seq<usize>, d: spec_fn(usize) -> nat| witness_ok(m, root, c, d);
    lemma_desc_finite(m, x);
    lemma_desc_finite(m, y);
    lemma_child_subtree_below(m, x, y);
    assert forall|z: usize| #[trigger] desc_set(m, y).contains(z) implies desc_set(m, x).remove(y).contains(z) by {
        assert(subtree_set(m, y).contains(z));
        if z == y {
            lemma_desc_facts(m, root, c, d, y, z);
        }
    }
    vstd::set_lib::lemma_len_subset(desc_set(m, y), desc_set(m, x).remove(y));
}

/// The root has fewer nodes below it than the graph has nodes.
proof fn lemma_root_fewer_below(m: Map<usize, Links<usize>>)
    requires
        exists|c: spec_fn(usize) -> Seq<usize>, d: spec_fn(usize) -> nat| witness_ok(m, 0, c, d),
    ensures
        desc_set(m, 0).len() < m.dom().len(),
{
    let (c, d) = choose|c: spec_fn(usize) -> Seq<usize>, d: spec_fn(usize) -> nat| witness_ok(m, 0, c, d);
    lemma_desc_finite(m, 0);
    assert forall|z: usize| #[trigger] desc_set(m, 0).contains(z) implies m.dom().remove(0).contains(z) by {
        lemma_desc_facts(m, 0, c, d, 0, z);
    }
    vstd::set_lib::lemma_len_subset(desc_set(m, 0), m.dom().remove(0));
}

/// The shape drawn for an extension.
fn shape_for(e: &NodeExtension) -> (r: WorldShape)
    ensures
        r == shape_of(*e),
{
    match e {
        NodeExtension::Sprite(s) => WorldShape::Sprite(s.graphic_asset.clone()),
        NodeExtension::Camera(_) => WorldShape::Camera,
        NodeExtension::RectCollider(c) => WorldShape::RectCollider(c.width, c.height),
        NodeExtension::Nothing => WorldShape::Marker,
    }
}

/// Appends the items of `x` and of the nodes below it.
fn push_subtree(graph: &NodeGraph, x: usize, sel: &Selected, out: &mut Vec<WorldItem>, Ghost(fuel): Ghost<nat>)
    requires
        graph.wf(),
        graph.nodes().dom().contains(x),
        fuel > desc_set(links_of(graph.nodes()), x).len(),
    ensures
        final(out)@ == old(out)@ + subtree_items(graph.nodes(), x, *sel, fuel),
    decreases fuel,
{
    let ghost nodes = graph.nodes();
    let ghost m = links_of(nodes);
    let node = sv_index(&graph.0, x);
    let selected = match sel {
        Selected::Node(i) => *i == x,
        _ => false,
    };
    let item = WorldItem {
        node: x,
        parent: node.parent_index,
        dx: fixed_to_int(node.transform.x),
        dy: fixed_to_int(node.transform.y),
        shape: shape_for(&node.node_extension),
        selected,
    };
    let ghost out0 = out@;
    out.push(item);
    let cs = children(graph, x);
    let ghost (c, d) = choose|c: spec_fn(usize) -> Seq<usize>, d: spec_fn(usize) -> nat| witness_ok(m, 0, c, d);
    proof {
        lemma_children_of(m, 0, c, d);
        assert(chain_ok(m, x, c(x), d));
        assert(out@ == out0 + seq![world_item(nodes[x], x, *sel)]);
    }
    let mut k: usize = 0;
    while k < cs.len()
        invariant
            graph.wf(),
            nodes == graph.nodes(),
            m == links_of(nodes),
            nodes.dom().contains(x),
            fuel > desc_set(m, x).len(),
            cs@ == children_of(m, 0, x),
            chain_ok(m, x, cs@, d),
            witness_ok(m, 0, c, d),
            k <= cs.len(),
            out@ + forest_items(nodes, cs@, k as int, *sel, (fuel - 1) as nat) == out0 + subtree_items(nodes, x, *sel, fuel),
        decreases cs.len() - k,
    {
        let y = cs[k];
        proof {
            assert(m.dom().contains(cs@[k as int]));
            lemma_child_fewer_below(m, 0, x, y);
        }
        let ghost before = out@;
        push_subtree(graph, y, sel, out, Ghost((fuel - 1) as nat));
        proof {
            let rest = forest_items(nodes, cs@, k + 1, *sel, (fuel - 1) as nat);
            assert(forest_items(nodes, cs@, k as int, *sel, (fuel - 1) as nat)
                == subtree_items(nodes, y, *sel, (fuel - 1) as nat) + rest);
            assert(out@ + rest =~= before + (subtree_items(nodes, y, *sel, (fuel - 1) as nat) + rest));
        }
        k = k + 1;
    }
    proof {
        assert(forest_items(nodes, cs@, k as int, *sel, (fuel - 1) as nat) =~= Seq::<WorldItem>::empty());
        assert(out@ =~= out@ + Seq::<WorldItem>::empty());
    }
}

/// What the world view draws of the current graph, in drawing order: every
/// node, each before the nodes below it, children in sibling order; with
/// the position relative to the parent, the shape and whether the node is
/// the selected one. Nothing when there is no current graph.
pub fn world_items(hierarchy: &Hierarchy, project_data: &ProjectData, selected: &Selected) -> (r: Vec<WorldItem>)
    requires
        hierarchy.current_graph_idx < project_data.graphs@.len()
            ==> project_data.graphs@[hierarchy.current_graph_idx as int].wf(),
    ensures
        r@ == (if hierarchy.current_graph_idx < project_data.graphs@.len() {
            graph_items(project_data.graphs@[hierarchy.current_graph_idx as int].nodes(), *selected)
        } else {
            Seq::empty()
        }),
{
    let mut out: Vec<WorldItem> = Vec::new();
    if hierarchy.current_graph_idx < project_data.graphs.len() {
        let graph = &project_data.graphs[hierarchy.current_graph_idx];
        let ghost nodes = graph.nodes();
        proof {
            let m = links_of(nodes);
            lemma_root_fewer_below(m);
            assert(m.dom() =~= nodes.dom());
            let (c, d) = choose|c: spec_fn(usize) -> Seq<usize>, d: spec_fn(usize) -> nat| witness_ok(m, 0, c, d);
            assert(m.dom().contains(0));
        }
        push_subtree(graph, 0, selected, &mut out, Ghost(nodes.dom().len()));
        assert(out@ =~= graph_items(nodes, *selected));
    }
    out
}


/// The node ids of a list of items, in order.
pub open spec fn item_nodes(s: Seq<WorldItem>) -> Seq<usize> {
    s.map_values(|i: WorldItem| i.node)
}

/// `y` and the nodes below it.
pub open spec fn subtree_set(m: Map<usize, Links<usize>>, y: usize) -> Set<usize> {
    desc_set(m, y).insert(y)
}

/// The nodes of the subtrees of `cs[i]`, `cs[i + 1]`, ...
pub open spec fn forest_set(m: Map<usize, Links<usize>>, cs: Seq<usize>, i: int) -> Set<usize> {
    Set::new(|z: usize| exists|j: int| i <= j < cs.len() && #[trigger] subtree_set(m, cs[j]).contains(z))
}

proof fn lemma_item_nodes_concat(a: Seq<WorldItem>, b: Seq<WorldItem>)
    ensures
        item_nodes(a + b) == item_nodes(a) + item_nodes(b),
{
    assert(item_nodes(a + b) =~= item_nodes(a) + item_nodes(b));
}

/// The subtrees of two different children of a node share no node.
proof fn lemma_sibling_subtrees_disjoint(
    m: Map<usize, Links<usize>>,
    c: spec_fn(usize) -> Seq<usize>,
    d: spec_fn(usize) -> nat,
    x: usize,
    i1: int,
    i2: int,
    z: usize,
)
    requires
        witness_ok(m, 0, c, d),
        m.dom().contains(x),
        0 <= i1 < c(x).len(),
        0 <= i2 < c(x).len(),
        i1 != i2,
        subtree_set(m, c(x)[i1]).contains(z),
    ensures
        !subtree_set(m, c(x)[i2]).contains(z),
{
    let (y1, y2) = (c(x)[i1], c(x)[i2]);
    assert(chain_ok(m, x, c(x), d));
    assert(d(y1) == d(x) + 1 && d(y2) == d(x) + 1);
    assert(y1 != y2);
    if subtree_set(m, y2).contains(z) {
        if z == y1 {
            lemma_desc_facts(m, 0, c, d, y2, z);
        } else if z == y2 {
            lemma_desc_facts(m, 0, c, d, y1, z);
        } else {
            reveal(is_desc);
            let n1 = choose|n: nat| n >= 1 && #[trigger] ancestor_at(m, z, n) == Some(y1);
            let n2 = choose|n: nat| n >= 1 && #[trigger] ancestor_at(m, z, n) == Some(y2);
            crate::tree::lemma_depth(m, 0, c, d, z, y1, n1);
            crate::tree::lemma_depth(m, 0, c, d, z, y2, n2);
        }
    }
}

/// A node `n` levels below `x` lies in the subtree of a child of `x`.
proof fn lemma_below_some_child(
    m: Map<usize, Links<usize>>,
    c: spec_fn(usize) -> Seq<usize>,
    d: spec_fn(usize) -> nat,
    x: usize,
    z: usize,
    n: nat,
)
    requires
        witness_ok(m, 0, c, d),
        n >= 1,
        ancestor_at(m, z, n) == Some(x),
    ensures
        exists|j: int| 0 <= j < c(x).len() && #[trigger] subtree_set(m, c(x)[j]).contains(z),
    decreases n,
{
    let p = m[z].parent->0;
    if z == 0 {
        assert(m[0].parent is None);
    }
    assert(c(p).contains(z));
    if n == 1 {
        assert(ancestor_at(m, p, 0) == Some(p));
        let j = c(x).index_of(z);
        assert(c(x)[j] == z);
        assert(subtree_set(m, c(x)[j]).contains(z));
    } else {
        lemma_below_some_child(m, c, d, x, p, (n - 1) as nat);
        let j = choose|j: int| 0 <= j < c(x).len() && #[trigger] subtree_set(m, c(x)[j]).contains(p);
        let y = c(x)[j];
        lemma_child_is_desc(m, y, p, z);
        assert(subtree_set(m, c(x)[j]).contains(z));
    }
}

/// The nodes below `x` are those of the subtrees of its children.
proof fn lemma_desc_is_forest(m: Map<usize, Links<usize>>, c: spec_fn(usize) -> Seq<usize>, d: spec_fn(usize) -> nat, x: usize)
    requires
        witness_ok(m, 0, c, d),
        m.dom().contains(x),
    ensures
        desc_set(m, x) == forest_set(m, c(x), 0),
{
    assert(chain_ok(m, x, c(x), d));
    assert forall|z: usize| #[trigger] desc_set(m, x).contains(z) implies forest_set(m, c(x), 0).contains(z) by {
        reveal(is_desc);
        let n = choose|n: nat| n >= 1 && #[trigger] ancestor_at(m, z, n) == Some(x);
        lemma_below_some_child(m, c, d, x, z, n);
    }
    assert forall|z: usize| #[trigger] forest_set(m, c(x), 0).contains(z) implies desc_set(m, x).contains(z) by {
        let j = choose|j: int| 0 <= j < c(x).len() && #[trigger] subtree_set(m, c(x)[j]).contains(z);
        lemma_child_subtree_below(m, x, c(x)[j]);
    }
    assert(desc_set(m, x) =~= forest_set(m, c(x), 0));
}

/// The items of a subtree hold each node of the subtree once.
proof fn lemma_subtree_items_cover(
    nodes: Map<usize, Node>,
    c: spec_fn(usize) -> Seq<usize>,
    d: spec_fn(usize) -> nat,
    x: usize,
    sel: Selected,
    fuel: nat,
)
    requires
        witness_ok(links_of(nodes), 0, c, d),
        nodes.dom().contains(x),
        fuel > desc_set(links_of(nodes), x).len(),
    ensures
        item_nodes(subtree_items(nodes, x, sel, fuel)).no_duplicates(),
        item_nodes(subtree_items(nodes, x, sel, fuel)).to_set() == subtree_set(links_of(nodes), x),
    decreases fuel, 0int,
{
    let m = links_of(nodes);
    lemma_children_of(m, 0, c, d);
    assert(m.dom().contains(x));
    let cs = c(x);
    assert(chain_ok(m, x, cs, d));
    assert forall|j: int| 0 <= j < cs.len() implies (fuel - 1) as nat > #[trigger] desc_set(m, cs[j]).len() by {
        lemma_child_fewer_below(m, 0, x, cs[j]);
    }
    lemma_forest_items_cover(nodes, c, d, x, 0, sel, (fuel - 1) as nat);
    let f = forest_items(nodes, cs, 0, sel, (fuel - 1) as nat);
    let head = seq![world_item(nodes[x], x, sel)];
    lemma_item_nodes_concat(head, f);
    assert(item_nodes(head) =~= seq![x]);
    lemma_desc_is_forest(m, c, d, x);
    if desc_set(m, x).contains(x) {
        lemma_desc_facts(m, 0, c, d, x, x);
    }
    assert forall|i: int, j: int| 0 <= i < 1 && 0 <= j < item_nodes(f).len() implies seq![x][i] != item_nodes(f)[j] by {
        assert(item_nodes(f).to_set().contains(item_nodes(f)[j]));
    }
    vstd::seq_lib::lemma_no_dup_in_concat(seq![x], item_nodes(f));
    vstd::seq_lib::seq_to_set_distributes_over_add(seq![x], item_nodes(f));
    assert forall|z: usize| #[trigger] seq![x].to_set().contains(z) <==> z == x by {
        if z == x {
            assert(seq![x][0] == z);
        }
    }
    assert(seq![x].to_set() =~= set![x]);
    assert(item_nodes(subtree_items(nodes, x, sel, fuel)).to_set() =~= subtree_set(m, x));
}

/// The items of the subtrees of `c(x)[i]`, `c(x)[i + 1]`, ... hold each of
/// their nodes once.
proof fn lemma_forest_items_cover(
    nodes: Map<usize, Node>,
    c: spec_fn(usize) -> Seq<usize>,
    d: spec_fn(usize) -> nat,
    x: usize,
    i: int,
    sel: Selected,
    fuel: nat,
)
    requires
        witness_ok(links_of(nodes), 0, c, d),
        nodes.dom().contains(x),
        0 <= i <= c(x).len(),
        forall|j: int| i <= j < c(x).len() ==> fuel > #[trigger] desc_set(links_of(nodes), c(x)[j]).len(),
    ensures
        item_nodes(forest_items(nodes, c(x), i, sel, fuel)).no_duplicates(),
        item_nodes(forest_items(nodes, c(x), i, sel, fuel)).to_set() == forest_set(links_of(nodes), c(x), i),
    decreases fuel, c(x).len() - i,
{
    let m = links_of(nodes);
    let cs = c(x);
    assert(m.dom().contains(x));
    assert(chain_ok(m, x, cs, d));
    if i == cs.len() {
        assert(item_nodes(forest_items(nodes, cs, i, sel, fuel)) =~= Seq::<usize>::empty());
        assert(forest_set(m, cs, i) =~= Set::<usize>::empty());
    } else {
        assert(m.dom().contains(cs[i]));
        lemma_subtree_items_cover(nodes, c, d, cs[i], sel, fuel);
        lemma_forest_items_cover(nodes, c, d, x, i + 1, sel, fuel);
        let sa = subtree_items(nodes, cs[i], sel, fuel);
        let sb = forest_items(nodes, cs, i + 1, sel, fuel);
        lemma_item_nodes_concat(sa, sb);
        let a = item_nodes(sa);
        let b = item_nodes(sb);
        assert forall|k: int, l: int| 0 <= k < a.len() && 0 <= l < b.len() implies a[k] != b[l] by {
            assert(a.to_set().contains(a[k]));
            assert(b.to_set().contains(b[l]));
            if a[k] == b[l] {
                let j = choose|j: int| i + 1 <= j < cs.len() && #[trigger] subtree_set(m, cs[j]).contains(b[l]);
                lemma_sibling_subtrees_disjoint(m, c, d, x, i, j, a[k]);
            }
        }
        vstd::seq_lib::lemma_no_dup_in_concat(a, b);
        vstd::seq_lib::seq_to_set_distributes_over_add(a, b);
        assert forall|z: usize| #[trigger] forest_set(m, cs, i).contains(z) <==> (subtree_set(m, cs[i]).contains(z) || forest_set(m, cs, i + 1).contains(z)) by {
            if forest_set(m, cs, i).contains(z) {
                let j = choose|j: int| i <= j < cs.len() && #[trigger] subtree_set(m, cs[j]).contains(z);
                if j != i {
                    assert(forest_set(m, cs, i + 1).contains(z));
                }
            }
            if forest_set(m, cs, i + 1).contains(z) {
                let j = choose|j: int| i + 1 <= j < cs.len() && #[trigger] subtree_set(m, cs[j]).contains(z);
                assert(forest_set(m, cs, i).contains(z));
            }
        }
        assert(item_nodes(forest_items(nodes, cs, i, sel, fuel)).to_set() =~= forest_set(m, cs, i));
    }
}

/// The world view draws every node of a graph, and each node once.
pub proof fn lemma_world_items_cover(graph: NodeGraph, sel: Selected)
    requires
        graph.wf(),
    ensures
        item_nodes(graph_items(graph.nodes(), sel)).no_duplicates(),
        item_nodes(graph_items(graph.nodes(), sel)).to_set() == graph.nodes().dom(),
{
    let nodes = graph.nodes();
    let m = links_of(nodes);
    let (c, d) = choose|c: spec_fn(usize) -> Seq<usize>, d: spec_fn(usize) -> nat| witness_ok(m, 0, c, d);
    assert(m.dom() =~= nodes.dom());
    lemma_root_fewer_below(m);
    assert(m.dom().contains(0));
    lemma_subtree_items_cover(nodes, c, d, 0, sel, nodes.dom().len());
    lemma_desc_finite(m, 0);
    assert forall|y: usize| #[trigger] nodes.dom().contains(y) implies subtree_set(m, 0).contains(y) by {
        if y != 0 {
            crate::tree::lemma_all_below_root(m, 0, c, d, y);
        }
    }
    assert(subtree_set(m, 0) =~= nodes.dom());
}


/// The first item is `x`'s, and every later item names a parent whose item
/// comes before it.
pub open spec fn parents_first(s: Seq<WorldItem>, x: usize) -> bool {
    &&& s.len() >= 1
    &&& s[0].node == x
    &&& forall|k: int| 0 < k < s.len() ==> (#[trigger] s[k].parent) is Some
        && exists|j: int| 0 <= j < k && s[j].node == s[k].parent->0
}

/// Every item of a forest below `x` has a parent, which is `x` or has its
/// item earlier in the forest.
pub open spec fn forest_parents_first(s: Seq<WorldItem>, x: usize) -> bool {
    forall|k: int| 0 <= k < s.len() ==> (#[trigger] s[k].parent) is Some
        && (s[k].parent->0 == x || exists|j: int| 0 <= j < k && s[j].node == s[k].parent->0)
}

proof fn lemma_subtree_parents_first(
    nodes: Map<usize, Node>,
    c: spec_fn(usize) -> Seq<usize>,
    d: spec_fn(usize) -> nat,
    x: usize,
    sel: Selected,
    fuel: nat,
)
    requires
        witness_ok(links_of(nodes), 0, c, d),
        nodes.dom().contains(x),
        fuel > desc_set(links_of(nodes), x).len(),
    ensures
        parents_first(subtree_items(nodes, x, sel, fuel), x),
    decreases fuel, 0int,
{
    let m = links_of(nodes);
    lemma_children_of(m, 0, c, d);
    assert(m.dom().contains(x));
    let cs = c(x);
    assert(chain_ok(m, x, cs, d));
    assert forall|j: int| 0 <= j < cs.len() implies (fuel - 1) as nat > #[trigger] desc_set(m, cs[j]).len() by {
        lemma_child_fewer_below(m, 0, x, cs[j]);
    }
    lemma_forest_parents_first(nodes, c, d, x, 0, sel, (fuel - 1) as nat);
    let f = forest_items(nodes, cs, 0, sel, (fuel - 1) as nat);
    let s = subtree_items(nodes, x, sel, fuel);
    assert(s == seq![world_item(nodes[x], x, sel)] + f);
    assert forall|k: int| 0 < k < s.len() implies (#[trigger] s[k].parent) is Some
        && exists|j: int| 0 <= j < k && s[j].node == s[k].parent->0 by {
        assert(s[k] == f[k - 1]);
        if f[k - 1].parent->0 == x {
            assert(s[0].node == x);
        } else {
            let j = choose|j: int| 0 <= j < k - 1 && f[j].node == f[k - 1].parent->0;
            assert(s[j + 1] == f[j]);
        }
    }
}

proof fn lemma_forest_parents_first(
    nodes: Map<usize, Node>,
    c: spec_fn(usize) -> Seq<usize>,
    d: spec_fn(usize) -> nat,
    x: usize,
    i: int,
    sel: Selected,
    fuel: nat,
)
    requires
        witness_ok(links_of(nodes), 0, c, d),
        nodes.dom().contains(x),
        0 <= i <= c(x).len(),
        forall|j: int| i <= j < c(x).len() ==> fuel > #[trigger] desc_set(links_of(nodes), c(x)[j]).len(),
    ensures
        forest_parents_first(forest_items(nodes, c(x), i, sel, fuel), x),
    decreases fuel, c(x).len() - i,
{
    let m = links_of(nodes);
    let cs = c(x);
    assert(m.dom().contains(x));
    assert(chain_ok(m, x, cs, d));
    if i < cs.len() {
        assert(m.dom().contains(cs[i]));
        assert(nodes[cs[i]].parent_index == m[cs[i]].parent);
        lemma_subtree_parents_first(nodes, c, d, cs[i], sel, fuel);
        lemma_forest_parents_first(nodes, c, d, x, i + 1, sel, fuel);
        let a = subtree_items(nodes, cs[i], sel, fuel);
        let b = forest_items(nodes, cs, i + 1, sel, fuel);
        let s = forest_items(nodes, cs, i, sel, fuel);
        assert(s == a + b);
        assert(a[0] == world_item(nodes[cs[i]], cs[i], sel));
        assert forall|k: int| 0 <= k < s.len() implies (#[trigger] s[k].parent) is Some
            && (s[k].parent->0 == x || exists|j: int| 0 <= j < k && s[j].node == s[k].parent->0) by {
            if k < a.len() {
                assert(s[k] == a[k]);
                if k > 0 {
                    let j = choose|j: int| 0 <= j < k && a[j].node == a[k].parent->0;
                    assert(s[j] == a[j]);
                }
            } else {
                assert(s[k] == b[k - a.len()]);
                if b[k - a.len()].parent->0 != x {
                    let j = choose|j: int| 0 <= j < k - a.len() && b[j].node == b[k - a.len()].parent->0;
                    assert(s[j + a.len()] == b[j]);
                }
            }
        }
    }
}

/// The world view draws the root first and every other node after its
/// parent, so each node can be placed relative to a parent already drawn.
pub proof fn lemma_world_items_parents_first(graph: NodeGraph, sel: Selected)
    requires
        graph.wf(),
    ensures
        parents_first(graph_items(graph.nodes(), sel), 0),
{
    let nodes = graph.nodes();
    let m = links_of(nodes);
    let (c, d) = choose|c: spec_fn(usize) -> Seq<usize>, d: spec_fn(usize) -> nat| witness_ok(m, 0, c, d);
    assert(m.dom() =~= nodes.dom());
    lemma_root_fewer_below(m);
    assert(m.dom().contains(0));
    lemma_subtree_parents_first(nodes, c, d, 0, sel, nodes.dom().len());
}

} // verus!
