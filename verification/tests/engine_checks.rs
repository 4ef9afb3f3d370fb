use sandstone::game_data::{graph_keys, GraphTable, GraphicTable, SavedGameData};
use sandstone::hierarchy::{Hierarchy, HierarchyPoolTrait};
use sandstone::node::{Node, NodeExtensionHandle, RectColliderExtension};
use sandstone::rect_collider::colliders_fit;
use sandstone::saved::{SavedNode, SavedNodeExtension, SavedNodeGraph, SavedRectColliderExtension, SavedTransform};

fn node(name: &str, child: Option<u32>, parent: Option<u32>, sibling: Option<u32>, x: i32, ext: SavedNodeExtension) -> SavedNode {
    SavedNode {
        child_index: child,
        parent_index: parent,
        sibling_index: sibling,
        name: name.to_string(),
        transform: SavedTransform { x, y: 0 },
        node_extension: ext,
        script_type_id: None,
        enabled: true,
    }
}

fn collider() -> SavedNodeExtension {
    SavedNodeExtension::RectCollider(SavedRectColliderExtension { width: 16 << 12, height: 16 << 12 })
}

/// Three levels: Top, its child Mid, and Mid's child Leaf, which has a
/// collider; Side, a second child of Top, has one too.
fn nested() -> SavedNodeGraph {
    SavedNodeGraph {
        nodes: vec![
            node("Top", Some(1), None, None, 0, SavedNodeExtension::Nothing),
            node("Mid", Some(2), Some(0), Some(3), 0, SavedNodeExtension::Nothing),
            node("Leaf", None, Some(1), None, 0, collider()),
            node("Side", None, Some(0), None, 4 << 12, collider()),
        ],
    }
}

fn data() -> SavedGameData {
    let mut graphs = GraphTable::new();
    graphs.insert("Nested".to_string(), nested());
    SavedGameData { graphs, graphics: GraphicTable::new(), main_graph: "Nested".to_string() }
}

fn collider_of(h: &Hierarchy, n: sandstone::pool::Handle<Node>) -> sandstone::pool::Handle<RectColliderExtension> {
    match HierarchyPoolTrait::<Node>::borrow(h, n).node_extension {
        NodeExtensionHandle::RectCollider(c) => c,
        _ => panic!("the node has a collider"),
    }
}

#[test]
fn new_hierarchy_pool_holds_one_slot() {
    let h = Hierarchy::new(data());
    assert_eq!(h.object_pool.vec_len(), 1);
}

#[test]
fn destroy_takes_every_node_below() {
    let mut h = Hierarchy::new(data());
    let root = h.root;
    let top = h.spawn_object("Nested", root);
    let mid = h.find_by_name(top, "Mid").unwrap();
    let leaf = h.find_by_name(mid, "Leaf").unwrap();
    let leaf_collider = collider_of(&h, leaf);
    h.destroy_node(top);
    h.process_pending_destroys();
    assert!(HierarchyPoolTrait::<Node>::try_borrow(&h, top).is_none());
    assert!(HierarchyPoolTrait::<Node>::try_borrow(&h, mid).is_none());
    assert!(HierarchyPoolTrait::<Node>::try_borrow(&h, leaf).is_none());
    assert!(HierarchyPoolTrait::<RectColliderExtension>::try_borrow(&h, leaf_collider).is_none());
    assert!(HierarchyPoolTrait::<Node>::borrow(&h, root).child_handle.is_none());
}

#[test]
fn destroying_a_middle_node_keeps_its_siblings() {
    let mut h = Hierarchy::new(data());
    let root = h.root;
    let top = h.spawn_object("Nested", root);
    let mid = h.find_by_name(top, "Mid").unwrap();
    let leaf = h.find_by_name(mid, "Leaf").unwrap();
    let side = h.find_by_name(top, "Side").unwrap();
    h.destroy_node(mid);
    h.process_pending_destroys();
    assert!(HierarchyPoolTrait::<Node>::try_borrow(&h, leaf).is_none());
    assert!(HierarchyPoolTrait::<Node>::try_borrow(&h, side).is_some());
    assert!(HierarchyPoolTrait::<Node>::borrow(&h, top).child_handle == Some(side));
    assert!(HierarchyPoolTrait::<RectColliderExtension>::try_borrow(&h, collider_of(&h, side)).is_some());
}

#[test]
fn global_positions_fit_until_a_sum_overflows() {
    let mut h = Hierarchy::new(data());
    let root = h.root;
    let top = h.spawn_object("Nested", root);
    assert!(h.global_positions_fit());
    HierarchyPoolTrait::<Node>::borrow_mut(&mut h, top).transform.x = i32::MAX - 10;
    // Side adds 4 << 12 below Top
    assert!(!h.global_positions_fit());
    HierarchyPoolTrait::<Node>::borrow_mut(&mut h, top).transform.x = i32::MAX - (4 << 12);
    assert!(h.global_positions_fit());
}

#[test]
fn colliders_fit_until_an_extent_overflows() {
    let mut h = Hierarchy::new(data());
    let root = h.root;
    let top = h.spawn_object("Nested", root);
    h.update_global_positions();
    assert!(colliders_fit(&h));
    let side = h.find_by_name(top, "Side").unwrap();
    HierarchyPoolTrait::<Node>::borrow_mut(&mut h, side).global_transform.x = i32::MAX - 10;
    assert!(!colliders_fit(&h));
    // with one active collider nothing is compared
    let mid = h.find_by_name(top, "Mid").unwrap();
    let leaf = h.find_by_name(mid, "Leaf").unwrap();
    HierarchyPoolTrait::<Node>::borrow_mut(&mut h, leaf).global_enabled = false;
    assert!(colliders_fit(&h));
}

#[test]
fn graphs_are_named_by_their_first_node() {
    let empty = SavedNodeGraph { nodes: vec![] };
    let (names, main) = graph_keys(&vec![nested(), empty], Some(0));
    assert_eq!(names, vec!["Top".to_string(), String::new()]);
    assert_eq!(main, "Top");
    let (_, none) = graph_keys(&vec![nested()], Some(3));
    assert_eq!(none, "");
    let (_, unset) = graph_keys(&vec![nested()], None);
    assert_eq!(unset, "");
}

#[test]
fn spawned_nodes_take_the_next_slots() {
    let mut h = Hierarchy::new(data());
    let root = h.root;
    // the root holds slot 0; Top is the first of the four saved nodes
    let top = h.spawn_object("Nested", root);
    assert_eq!(top.to_debug_string(), "Handle { index: 1, generation: 1 }");
    let top2 = h.spawn_object("Nested", root);
    assert_eq!(top2.to_debug_string(), "Handle { index: 5, generation: 1 }");
    assert_eq!(h.object_pool.vec_len(), 9);
}
