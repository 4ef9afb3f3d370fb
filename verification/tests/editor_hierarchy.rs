use sandstone::editor::{Hierarchy, NodeExtension, NodeGraph, NodeMove, ProjectData, Selected, Transform};
use sandstone::saved::{SavedNode, SavedNodeExtension, SavedNodeGraph, SavedTransform};

#[test]
fn add_graph() {
    const TEST_GRAPH_NAME: &str = "TestGraph";
    let mut h = Hierarchy::new();
    let mut project_data = ProjectData::new();
    let mut selected = Selected::Nothing;
    h.new_graph_name_buffer = TEST_GRAPH_NAME.to_string();
    h.add_graph(&mut project_data, &mut selected);
    assert_eq!(project_data.graphs.len(), 1);
    assert_eq!(project_data.graphs[0].get(0).unwrap().name, TEST_GRAPH_NAME);
}

#[test]
fn add_node() {
    let mut h = Hierarchy::new();
    let mut project_data = ProjectData::new();
    let mut selected = Selected::Nothing;
    h.add_graph(&mut project_data, &mut selected);
    h.add_node(&mut project_data, &mut selected);
    assert_eq!(project_data.graphs[0].num_elements(), 2);
    assert_eq!(project_data.graphs[0].get(1).unwrap().name, "Node 0");
}

#[test]
fn move_node() {
    let (mut h, mut project_data, mut selected) = (Hierarchy::new(), ProjectData::new(), Selected::Nothing);
    h.add_graph(&mut project_data, &mut selected);
    h.add_node(&mut project_data, &mut selected);
    h.add_node(&mut project_data, &mut selected);
    h.add_node(&mut project_data, &mut selected);
    h.move_node(&mut project_data, NodeMove { node_idx: 2, new_parent_idx: 1 });
    let graph = &project_data.graphs[0];
    assert_eq!(graph.get(1).unwrap().child_index, Some(2));
    assert_eq!(graph.get(2).unwrap().parent_index, Some(1));
    h.move_node(&mut project_data, NodeMove { node_idx: 3, new_parent_idx: 1 });
    let graph = &project_data.graphs[0];
    assert_eq!(graph.get(1).unwrap().child_index, Some(3));
    assert_eq!(graph.get(3).unwrap().sibling_index, Some(2));
    assert_eq!(graph.get(3).unwrap().parent_index, Some(1));
    assert_eq!(graph.get(2).unwrap().parent_index, Some(1));
}

#[test]
fn delete_node() {
    let (mut h, mut project_data, mut selected) = (Hierarchy::new(), ProjectData::new(), Selected::Nothing);
    h.add_graph(&mut project_data, &mut selected);
    h.add_node(&mut project_data, &mut selected);
    h.add_node(&mut project_data, &mut selected);
    h.add_node(&mut project_data, &mut selected);

    h.move_node(&mut project_data, NodeMove { node_idx: 3, new_parent_idx: 2 });
    h.delete_node(&mut project_data, &mut selected, 2);
    assert_eq!(project_data.graphs[0].num_elements(), 2);
}

#[test]
fn added_nodes_get_fresh_labels() {
    let (mut h, mut project_data, mut selected) = (Hierarchy::new(), ProjectData::new(), Selected::Nothing);
    h.add_graph(&mut project_data, &mut selected);
    h.add_node(&mut project_data, &mut selected);
    h.add_node(&mut project_data, &mut selected);
    h.add_node(&mut project_data, &mut selected);
    let graph = &project_data.graphs[0];
    assert_eq!(graph.get(1).unwrap().name, "Node 0");
    assert_eq!(graph.get(2).unwrap().name, "Node 1");
    assert_eq!(graph.get(3).unwrap().name, "Node 2");
    // new nodes go first among the root's children
    assert_eq!(graph.get(0).unwrap().child_index, Some(3));
    assert_eq!(graph.get(3).unwrap().sibling_index, Some(2));
    assert_eq!(graph.get(2).unwrap().sibling_index, Some(1));
    assert_eq!(graph.get(1).unwrap().sibling_index, None);
}

#[test]
fn add_graph_selects_it_and_makes_first_main() {
    let (mut h, mut project_data, mut selected) = (Hierarchy::new(), ProjectData::new(), Selected::Nothing);
    h.new_graph_name_buffer = "A".to_string();
    h.add_graph(&mut project_data, &mut selected);
    h.new_graph_name_buffer = "B".to_string();
    h.add_graph(&mut project_data, &mut selected);
    assert_eq!(project_data.main_graph, Some(0));
    assert_eq!(h.current_graph_idx, 1);
    assert!(matches!(selected, Selected::Graph(1)));
    assert_eq!(h.new_graph_name_buffer, "");
}

#[test]
fn move_below_itself_is_refused() {
    let (mut h, mut project_data, mut selected) = (Hierarchy::new(), ProjectData::new(), Selected::Nothing);
    h.add_graph(&mut project_data, &mut selected);
    h.add_node(&mut project_data, &mut selected);
    h.add_node(&mut project_data, &mut selected);
    h.move_node(&mut project_data, NodeMove { node_idx: 2, new_parent_idx: 1 });
    // 1 lies above 2: making 1 a child of 2 would make a cycle
    h.move_node(&mut project_data, NodeMove { node_idx: 1, new_parent_idx: 2 });
    let graph = &project_data.graphs[0];
    assert_eq!(graph.get(1).unwrap().parent_index, Some(0));
    assert_eq!(graph.get(2).unwrap().parent_index, Some(1));
}

#[test]
fn queued_moves_run_in_order() {
    let (mut h, mut project_data, mut selected) = (Hierarchy::new(), ProjectData::new(), Selected::Nothing);
    h.add_graph(&mut project_data, &mut selected);
    h.add_node(&mut project_data, &mut selected);
    h.add_node(&mut project_data, &mut selected);
    h.add_node(&mut project_data, &mut selected);
    h.queue_node_move(2, 1);
    h.queue_node_move(3, 2);
    h.process_pending_node_moves(&mut project_data);
    let graph = &project_data.graphs[0];
    assert_eq!(graph.get(2).unwrap().parent_index, Some(1));
    assert_eq!(graph.get(3).unwrap().parent_index, Some(2));
    assert_eq!(h.pending_node_moves.len(), 0);
}

#[test]
fn delete_takes_the_subtree_and_keeps_the_rest() {
    let (mut h, mut project_data, mut selected) = (Hierarchy::new(), ProjectData::new(), Selected::Nothing);
    h.add_graph(&mut project_data, &mut selected);
    h.add_node(&mut project_data, &mut selected);
    h.add_node(&mut project_data, &mut selected);
    h.add_node(&mut project_data, &mut selected);
    h.move_node(&mut project_data, NodeMove { node_idx: 3, new_parent_idx: 2 });
    h.delete_node(&mut project_data, &mut selected, 2);
    let graph = &project_data.graphs[0];
    assert!(graph.get(2).is_none());
    assert!(graph.get(3).is_none());
    assert_eq!(graph.get(0).unwrap().child_index, Some(1));
    assert!(matches!(selected, Selected::Nothing));
}

#[test]
fn export_and_load_give_the_same_graph() {
    let (mut h, mut project_data, mut selected) = (Hierarchy::new(), ProjectData::new(), Selected::Nothing);
    h.new_graph_name_buffer = "Scene".to_string();
    h.add_graph(&mut project_data, &mut selected);
    h.add_node(&mut project_data, &mut selected);
    h.add_node(&mut project_data, &mut selected);
    h.move_node(&mut project_data, NodeMove { node_idx: 2, new_parent_idx: 1 });
    let saved = project_data.export_saved_graph();
    assert_eq!(saved.len(), 1);
    let nodes = &saved[0].nodes;
    assert_eq!(nodes.len(), 3);
    assert_eq!(nodes[0].name, "Scene");
    assert_eq!(nodes[0].parent_index, None);
    // links in the saved graph point at positions of the list
    assert_eq!(nodes[1].parent_index, Some(0));
    assert_eq!(nodes[1].child_index, Some(2));
    assert_eq!(nodes[2].parent_index, Some(1));
    let loaded = NodeGraph::from_saved(SavedNodeGraph { nodes: clone_nodes(nodes) });
    assert_eq!(loaded.num_elements(), 3);
    assert_eq!(loaded.get(1).unwrap().child_index, Some(2));
    assert_eq!(loaded.get(2).unwrap().name, "Node 1");
}

fn clone_nodes(nodes: &Vec<SavedNode>) -> Vec<SavedNode> {
    nodes
        .iter()
        .map(|n| SavedNode {
            child_index: n.child_index,
            parent_index: n.parent_index,
            sibling_index: n.sibling_index,
            name: n.name.clone(),
            transform: SavedTransform { x: n.transform.x, y: n.transform.y },
            node_extension: SavedNodeExtension::Nothing,
            script_type_id: n.script_type_id,
            enabled: n.enabled,
        })
        .collect()
}

#[test]
fn extension_round_trip() {
    let e = NodeExtension::Nothing;
    let back = NodeExtension::from_saved(e.to_saved());
    assert!(matches!(back, NodeExtension::Nothing));
    let t = Transform { x: 3, y: -4 };
    assert_eq!(t.x, 3);
}

#[test]
fn saving_after_a_delete_compacts_the_indices() {
    let (mut h, mut project_data, mut selected) = (Hierarchy::new(), ProjectData::new(), Selected::Nothing);
    h.add_graph(&mut project_data, &mut selected);
    h.add_node(&mut project_data, &mut selected);
    h.add_node(&mut project_data, &mut selected);
    h.add_node(&mut project_data, &mut selected);
    // the root's children are 3, 2, 1; deleting 2 leaves a gap at index 2
    h.delete_node(&mut project_data, &mut selected, 2);
    let saved = project_data.export_saved_graph();
    let nodes = &saved[0].nodes;
    assert_eq!(nodes.len(), 3);
    // node 3 is saved at its rank, 2, and the links are renamed by rank
    assert_eq!(nodes[2].name, "Node 2");
    assert_eq!(nodes[0].child_index, Some(2));
    assert_eq!(nodes[2].sibling_index, Some(1));
    assert_eq!(nodes[2].parent_index, Some(0));
    let loaded = NodeGraph::from_saved(SavedNodeGraph { nodes: clone_nodes(nodes) });
    assert_eq!(loaded.num_elements(), 3);
    assert_eq!(loaded.get(0).unwrap().child_index, Some(2));
    assert_eq!(loaded.get(2).unwrap().name, "Node 2");
    assert_eq!(loaded.get(1).unwrap().name, "Node 0");
}
