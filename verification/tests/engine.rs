use sandstone::camera::CameraExtensionHandler;
use sandstone::game_data::{GraphTable, GraphicTable, SavedGameData};
use sandstone::hierarchy::{Hierarchy, HierarchyPoolTrait};
use sandstone::node::{Node, NodeExtensionHandle, RectColliderExtension};
use sandstone::rect_collider::check_collisions;
use sandstone::saved::{
    SavedCameraExtension, SavedNode, SavedNodeExtension, SavedNodeGraph, SavedRectColliderExtension, SavedTransform,
};

fn node(
    name: &str,
    child: Option<u32>,
    parent: Option<u32>,
    sibling: Option<u32>,
    x: i32,
    y: i32,
    ext: SavedNodeExtension,
) -> SavedNode {
    SavedNode {
        child_index: child,
        parent_index: parent,
        sibling_index: sibling,
        name: name.to_string(),
        transform: SavedTransform { x, y },
        node_extension: ext,
        script_type_id: None,
        enabled: true,
    }
}

/// A scene: a root with a player and an enemy below it; both have a
/// collider of 16 by 16 pixels, and the camera sits on the root.
fn game_scene() -> SavedNodeGraph {
    let one = 1 << 12;
    SavedNodeGraph {
        nodes: vec![
            node("Scene", Some(1), None, None, 10 * one, 20 * one,
                SavedNodeExtension::Camera(SavedCameraExtension { active_main: true, active_sub: false })),
            node("Player", None, Some(0), Some(2), one, one,
                SavedNodeExtension::RectCollider(SavedRectColliderExtension { width: 16 * one, height: 16 * one })),
            node("Enemy", None, Some(0), None, 8 * one, 8 * one,
                SavedNodeExtension::RectCollider(SavedRectColliderExtension { width: 16 * one, height: 16 * one })),
        ],
    }
}

fn game_data() -> SavedGameData {
    let mut graphs = GraphTable::new();
    graphs.insert("GameScene".to_string(), game_scene());
    SavedGameData { graphs, graphics: GraphicTable::new(), main_graph: "GameScene".to_string() }
}

fn child_names(h: &Hierarchy, parent: sandstone::pool::Handle<Node>) -> Vec<String> {
    let mut out = Vec::new();
    let mut cur = HierarchyPoolTrait::<Node>::borrow(h, parent).child_handle;
    while let Some(c) = cur {
        let n = HierarchyPoolTrait::<Node>::borrow(h, c);
        out.push(n.name.clone());
        cur = n.sibling_handle;
    }
    out
}

#[test]
fn new_hierarchy_has_a_bare_root() {
    let h = Hierarchy::new(game_data());
    let root = HierarchyPoolTrait::<Node>::borrow(&h, h.root);
    assert!(root.child_handle.is_none());
    assert!(root.parent_handle.is_none());
    assert_eq!(root.name, "");
    assert!(root.enabled);
    assert!(!root.global_enabled);
}

#[test]
fn spawn_hangs_the_graph_below_the_parent() {
    let mut h = Hierarchy::new(game_data());
    let root = h.root;
    let scene = h.spawn_object("GameScene", root);
    assert!(HierarchyPoolTrait::<Node>::borrow(&h, root).child_handle == Some(scene));
    assert_eq!(HierarchyPoolTrait::<Node>::borrow(&h, scene).name, "Scene");
    assert!(HierarchyPoolTrait::<Node>::borrow(&h, scene).parent_handle == Some(root));
    assert_eq!(child_names(&h, scene), vec!["Player".to_string(), "Enemy".to_string()]);
    // a second copy goes first among the children of the root
    let scene2 = h.spawn_object("GameScene", root);
    assert!(HierarchyPoolTrait::<Node>::borrow(&h, root).child_handle == Some(scene2));
    assert!(HierarchyPoolTrait::<Node>::borrow(&h, scene2).sibling_handle == Some(scene));
}

#[test]
fn spawned_nodes_are_started_last_first() {
    let mut h = Hierarchy::new(game_data());
    let root = h.root;
    h.spawn_object("GameScene", root);
    let mut started = Vec::new();
    while let Some((handle, _runs)) = h.pop_pending_start() {
        started.push(HierarchyPoolTrait::<Node>::borrow(&h, handle).name.clone());
    }
    assert_eq!(started, vec!["Enemy".to_string(), "Player".to_string(), "Scene".to_string()]);
}

#[test]
fn find_by_name_looks_at_direct_children() {
    let mut h = Hierarchy::new(game_data());
    let root = h.root;
    let scene = h.spawn_object("GameScene", root);
    let enemy = h.find_by_name(scene, "Enemy").unwrap();
    assert_eq!(HierarchyPoolTrait::<Node>::borrow(&h, enemy).name, "Enemy");
    assert!(h.find_by_name(scene, "Scene").is_none());
    assert!(h.find_by_name(root, "Player").is_none());
    assert!(h.find_by_name(root, "Scene") == Some(scene));
}

#[test]
fn global_positions_sum_down_the_tree() {
    let one = 1 << 12;
    let mut h = Hierarchy::new(game_data());
    let root = h.root;
    let scene = h.spawn_object("GameScene", root);
    h.update_global_positions();
    let s = HierarchyPoolTrait::<Node>::borrow(&h, scene);
    assert_eq!((s.global_transform.x, s.global_transform.y), (10 * one, 20 * one));
    assert!(s.global_enabled);
    let player = h.find_by_name(scene, "Player").unwrap();
    let p = HierarchyPoolTrait::<Node>::borrow(&h, player);
    assert_eq!((p.global_transform.x, p.global_transform.y), (11 * one, 21 * one));
    // a disabled node disables what lies below it
    HierarchyPoolTrait::<Node>::borrow_mut(&mut h, scene).enabled = false;
    h.update_global_positions();
    assert!(!HierarchyPoolTrait::<Node>::borrow(&h, player).global_enabled);
    assert!(HierarchyPoolTrait::<Node>::borrow(&h, player).enabled);
}

#[test]
fn destroy_takes_the_node_and_its_children() {
    let mut h = Hierarchy::new(game_data());
    let root = h.root;
    let scene = h.spawn_object("GameScene", root);
    let player = h.find_by_name(scene, "Player").unwrap();
    h.destroy_node(scene);
    // nothing happens until the queued destroys run
    assert!(HierarchyPoolTrait::<Node>::try_borrow(&h, scene).is_some());
    h.process_pending_destroys();
    assert!(HierarchyPoolTrait::<Node>::try_borrow(&h, scene).is_none());
    assert!(HierarchyPoolTrait::<Node>::try_borrow(&h, player).is_none());
    assert!(HierarchyPoolTrait::<Node>::borrow(&h, root).child_handle.is_none());
}

#[test]
fn destroying_a_middle_child_relinks_its_siblings() {
    let mut h = Hierarchy::new(game_data());
    let root = h.root;
    let a = h.spawn_object("GameScene", root);
    let b = h.spawn_object("GameScene", root);
    let c = h.spawn_object("GameScene", root);
    // children of the root: c, b, a
    h.destroy_node(b);
    h.process_pending_destroys();
    assert!(HierarchyPoolTrait::<Node>::borrow(&h, root).child_handle == Some(c));
    assert!(HierarchyPoolTrait::<Node>::borrow(&h, c).sibling_handle == Some(a));
    assert!(HierarchyPoolTrait::<Node>::try_borrow(&h, b).is_none());
}

#[test]
fn set_scene_queues_the_old_scene() {
    let mut h = Hierarchy::new(game_data());
    h.set_scene_main();
    let root = h.root;
    let first = HierarchyPoolTrait::<Node>::borrow(&h, root).child_handle.unwrap();
    h.set_scene("GameScene");
    let second = HierarchyPoolTrait::<Node>::borrow(&h, root).child_handle.unwrap();
    assert!(first != second);
    h.process_pending_destroys();
    assert!(HierarchyPoolTrait::<Node>::try_borrow(&h, first).is_none());
    assert!(HierarchyPoolTrait::<Node>::borrow(&h, root).child_handle == Some(second));
}

#[test]
fn colliders_report_what_they_touch() {
    let mut h = Hierarchy::new(game_data());
    let root = h.root;
    let scene = h.spawn_object("GameScene", root);
    h.update_global_positions();
    check_collisions(&mut h);
    let player = h.find_by_name(scene, "Player").unwrap();
    let enemy = h.find_by_name(scene, "Enemy").unwrap();
    let pc = match HierarchyPoolTrait::<Node>::borrow(&h, player).node_extension {
        NodeExtensionHandle::RectCollider(c) => c,
        _ => panic!("the player has a collider"),
    };
    let ec = match HierarchyPoolTrait::<Node>::borrow(&h, enemy).node_extension {
        NodeExtensionHandle::RectCollider(c) => c,
        _ => panic!("the enemy has a collider"),
    };
    let pcol: &RectColliderExtension = HierarchyPoolTrait::<RectColliderExtension>::borrow(&h, pc);
    assert_eq!(pcol.intersect_list.len(), 1);
    assert!(pcol.intersect_list[0] == enemy);
    let ecol: &RectColliderExtension = HierarchyPoolTrait::<RectColliderExtension>::borrow(&h, ec);
    assert!(ecol.intersect_list[0] == player);
    // moved apart, they touch nothing
    HierarchyPoolTrait::<Node>::borrow_mut(&mut h, enemy).transform.x = 100 << 12;
    h.update_global_positions();
    check_collisions(&mut h);
    let pcol: &RectColliderExtension = HierarchyPoolTrait::<RectColliderExtension>::borrow(&h, pc);
    assert_eq!(pcol.intersect_list.len(), 0);
}

#[test]
fn the_last_active_camera_draws() {
    let mut h = Hierarchy::new(game_data());
    let root = h.root;
    h.spawn_object("GameScene", root);
    let cams = CameraExtensionHandler::new().get_active_cameras(&h);
    assert!(cams.main.is_some());
    assert!(cams.sub.is_none());
    let second = h.spawn_object("GameScene", root);
    let cams = CameraExtensionHandler::new().get_active_cameras(&h);
    let cam_of_second = match HierarchyPoolTrait::<Node>::borrow(&h, second).node_extension {
        NodeExtensionHandle::Camera(c) => c,
        _ => panic!("the scene node has a camera"),
    };
    assert!(cams.main == Some(cam_of_second));
}

#[test]
fn script_update_targets_need_a_script_and_enabled_node() {
    let mut h = Hierarchy::new(game_data());
    let root = h.root;
    let scene = h.spawn_object("GameScene", root);
    h.update_global_positions();
    HierarchyPoolTrait::<Node>::borrow_mut(&mut h, scene).script_data = Some(sandstone::node::NodeScriptData { type_id: 6 });
    let mut targets = Vec::new();
    for i in 0..h.object_pool.vec_len() {
        if let Some(t) = h.script_update_target(i) {
            targets.push(t);
        }
    }
    assert_eq!(targets.len(), 1);
    assert!(targets[0] == scene);
    assert!(h.find_by_script_id(root, 6) == Some(scene));
    assert!(h.find_by_script_id(root, 7).is_none());
}
