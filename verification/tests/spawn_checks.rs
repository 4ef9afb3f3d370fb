use sandstone::game_data::{GraphTable, GraphicTable, SavedGameData};
use sandstone::hierarchy::Hierarchy;
use sandstone::pool::Pool;
use sandstone::saved::{SavedNode, SavedNodeExtension, SavedNodeGraph, SavedTransform};
use sandstone::spawn_check::graph_spawnable;

fn node(child: Option<u32>, parent: Option<u32>, sibling: Option<u32>) -> SavedNode {
    SavedNode {
        child_index: child,
        parent_index: parent,
        sibling_index: sibling,
        name: "n".to_string(),
        transform: SavedTransform { x: 0, y: 0 },
        node_extension: SavedNodeExtension::Nothing,
        script_type_id: None,
        enabled: true,
    }
}

#[test]
fn a_tree_is_spawnable() {
    // 1 is the root; 0 and 2 are its children, 3 is below 2
    let nodes = vec![node(None, Some(1), Some(2)), node(Some(0), None, None), node(Some(3), Some(1), None), node(None, Some(2), None)];
    assert!(graph_spawnable(&nodes));
    assert!(graph_spawnable(&vec![node(None, None, None)]));
}

#[test]
fn graphs_that_are_no_tree_are_refused() {
    // no node at all, hence no root
    assert!(!graph_spawnable(&vec![]));
    // two nodes without a parent
    assert!(!graph_spawnable(&vec![node(None, None, None), node(None, None, None)]));
    // the root has a sibling
    assert!(!graph_spawnable(&vec![node(None, None, Some(1)), node(None, Some(0), None)]));
    // a node its parent does not list as a child
    assert!(!graph_spawnable(&vec![node(None, None, None), node(None, Some(0), None)]));
    // a child link out of range
    assert!(!graph_spawnable(&vec![node(Some(5), None, None)]));
    // a child whose parent link names another node
    assert!(!graph_spawnable(&vec![node(Some(1), None, None), node(None, Some(1), None)]));
    // siblings in a cycle
    assert!(!graph_spawnable(&vec![node(Some(1), None, None), node(None, Some(0), Some(2)), node(None, Some(0), Some(1))]));
    // two nodes whose parents are each other, apart from the root
    assert!(!graph_spawnable(&vec![node(None, None, None), node(Some(2), Some(2), None), node(Some(1), Some(1), None)]));
}

#[test]
fn scenes_are_settable_only_when_they_exist_and_form_a_tree() {
    let mut graphs = GraphTable::new();
    graphs.insert("Good".to_string(), SavedNodeGraph { nodes: vec![node(None, None, None)] });
    graphs.insert("Bad".to_string(), SavedNodeGraph { nodes: vec![node(None, None, None), node(None, None, None)] });
    let h = Hierarchy::new(SavedGameData { graphs, graphics: GraphicTable::new(), main_graph: "Good".to_string() });
    assert!(h.scene_settable_check("Good"));
    assert!(!h.scene_settable_check("Bad"));
    assert!(!h.scene_settable_check("Missing"));
}

#[test]
fn pools_have_room_below_the_generation_limit() {
    let mut p: Pool<u32> = Pool::new();
    assert!(p.has_room_for(10));
    p.add(1);
    assert!(p.has_room_for(1000));
    assert!(!p.has_room_for(u32::MAX as usize));
}
