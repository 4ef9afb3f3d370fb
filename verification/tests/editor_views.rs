use sandstone::editor::{children, Hierarchy, NodeExtension, NodeMove, ProjectData, Selected, SpriteType};
use sandstone::inspector::{
    edit_selected_graph, is_main_graph, offered_sprite_sizes, ExtensionKind, GraphEdit, NodeEdit,
};
use sandstone::project_loader::{FileDialogReturnInfo, ProjectLoader};
use sandstone::saved::SpriteSize;
use sandstone::world_editor::{world_items, WorldShape};

/// A graph whose root has children 3 and 1, with 2 below 1.
fn small_scene() -> (Hierarchy, ProjectData, Selected) {
    let (mut h, mut project_data, mut selected) = (Hierarchy::new(), ProjectData::new(), Selected::Nothing);
    h.add_graph(&mut project_data, &mut selected);
    h.add_node(&mut project_data, &mut selected);
    h.add_node(&mut project_data, &mut selected);
    h.add_node(&mut project_data, &mut selected);
    h.move_node(&mut project_data, NodeMove { node_idx: 2, new_parent_idx: 1 });
    (h, project_data, selected)
}

#[test]
fn children_come_in_sibling_order() {
    let (_h, project_data, _selected) = small_scene();
    assert_eq!(children(&project_data.graphs[0], 0), vec![3, 1]);
    assert_eq!(children(&project_data.graphs[0], 1), vec![2]);
    assert_eq!(children(&project_data.graphs[0], 2), Vec::<usize>::new());
}

#[test]
fn world_view_draws_each_node_after_its_parent() {
    let (mut h, mut project_data, _) = small_scene();
    let mut selected = Selected::Node(1);
    h.edit_selected_node(&mut project_data, &mut selected, NodeEdit::SetPosition(10 * 4096 + 100, -1));
    h.edit_selected_node(&mut project_data, &mut selected, NodeEdit::SetExtensionKind(ExtensionKind::Camera));
    let mut selected = Selected::Node(2);
    h.edit_selected_node(&mut project_data, &mut selected, NodeEdit::SetExtensionKind(ExtensionKind::RectCollider));
    h.edit_selected_node(&mut project_data, &mut selected, NodeEdit::SetColliderSize(8 * 4096, 4 * 4096));

    let items = world_items(&h, &project_data, &selected);
    let order: Vec<usize> = items.iter().map(|i| i.node).collect();
    assert_eq!(order, vec![0, 3, 1, 2]);
    assert_eq!(items[0].parent, None);
    assert_eq!(items[2].parent, Some(0));
    assert_eq!(items[3].parent, Some(1));
    // the integer part is rounded down
    assert_eq!((items[2].dx, items[2].dy), (10, -1));
    assert!(matches!(items[2].shape, WorldShape::Camera));
    assert!(matches!(items[3].shape, WorldShape::RectCollider(32768, 16384)));
    assert!(matches!(items[1].shape, WorldShape::Marker));
    assert!(items[3].selected);
    assert!(!items[2].selected);
}

#[test]
fn world_view_is_empty_without_a_graph() {
    let h = Hierarchy::new();
    let project_data = ProjectData::new();
    assert!(world_items(&h, &project_data, &Selected::Nothing).is_empty());
}

#[test]
fn inspector_edits_the_selected_node() {
    let (mut h, mut project_data, _) = small_scene();
    let mut selected = Selected::Node(3);
    h.edit_selected_node(&mut project_data, &mut selected, NodeEdit::Rename("Ship".to_string()));
    h.edit_selected_node(&mut project_data, &mut selected, NodeEdit::SetEnabled(false));
    h.edit_selected_node(&mut project_data, &mut selected, NodeEdit::SetScriptId(7));
    // a graphic only goes to a sprite
    h.edit_selected_node(&mut project_data, &mut selected, NodeEdit::SetGraphic("ship".to_string()));
    let node = project_data.graphs[0].get(3).unwrap();
    assert_eq!(node.name, "Ship");
    assert!(!node.enabled);
    assert_eq!(node.script_type_id, Some(7));
    assert!(matches!(node.node_extension, NodeExtension::Nothing));

    h.edit_selected_node(&mut project_data, &mut selected, NodeEdit::SetExtensionKind(ExtensionKind::Sprite));
    h.edit_selected_node(&mut project_data, &mut selected, NodeEdit::SetGraphic("ship".to_string()));
    h.edit_selected_node(&mut project_data, &mut selected, NodeEdit::SetAffine(true));
    h.edit_selected_node(&mut project_data, &mut selected, NodeEdit::SetAffineData(100, 2048, 8192));
    h.edit_selected_node(&mut project_data, &mut selected, NodeEdit::SetScriptId(0));
    let node = project_data.graphs[0].get(3).unwrap();
    match &node.node_extension {
        NodeExtension::Sprite(s) => {
            assert_eq!(s.graphic_asset, "ship");
            match s.sprite_type {
                SpriteType::Affine(a) => assert_eq!((a.rotation, a.scale_x, a.scale_y), (100, 2048, 8192)),
                SpriteType::Normal => panic!("sprite is not affine"),
            }
        }
        _ => panic!("node has no sprite"),
    }
    assert_eq!(node.script_type_id, None);
    assert!(matches!(selected, Selected::Node(3)));
}

#[test]
fn inspector_deletes_all_but_the_root() {
    let (mut h, mut project_data, _) = small_scene();
    let mut selected = Selected::Node(0);
    h.edit_selected_node(&mut project_data, &mut selected, NodeEdit::Delete);
    assert_eq!(project_data.graphs[0].num_elements(), 4);
    assert!(matches!(selected, Selected::Node(0)));

    let mut selected = Selected::Node(1);
    h.edit_selected_node(&mut project_data, &mut selected, NodeEdit::Delete);
    assert_eq!(project_data.graphs[0].num_elements(), 2);
    assert!(project_data.graphs[0].get(2).is_none());
    assert!(matches!(selected, Selected::Nothing));
    assert_eq!(children(&project_data.graphs[0], 0), vec![3]);
}

#[test]
fn inspector_does_nothing_without_a_selected_node() {
    let (mut h, mut project_data, _) = small_scene();
    let mut selected = Selected::Graph(0);
    h.edit_selected_node(&mut project_data, &mut selected, NodeEdit::Rename("x".to_string()));
    assert_eq!(project_data.graphs[0].get(0).unwrap().name, "");
}

#[test]
fn graph_inspector_renames_and_sets_main() {
    let (mut h, mut project_data, mut selected) = (Hierarchy::new(), ProjectData::new(), Selected::Nothing);
    h.add_graph(&mut project_data, &mut selected);
    h.add_graph(&mut project_data, &mut selected);
    assert!(is_main_graph(&project_data, 0));
    assert!(!is_main_graph(&project_data, 1));
    let selected = Selected::Graph(1);
    edit_selected_graph(&mut project_data, &selected, GraphEdit::Rename("Level".to_string()));
    edit_selected_graph(&mut project_data, &selected, GraphEdit::SetAsMain);
    assert_eq!(project_data.graphs[1].get(0).unwrap().name, "Level");
    assert!(is_main_graph(&project_data, 1));
    assert_eq!(project_data.main_graph, Some(1));
}

#[test]
fn file_inspector_offers_every_size() {
    let sizes = offered_sprite_sizes();
    assert_eq!(sizes.len(), 12);
    assert_eq!(sizes[0], SpriteSize::_8x8);
    assert_eq!(sizes[11], SpriteSize::_32x64);
}

#[test]
fn project_loader_reacts_to_dialogs() {
    let mut loader = ProjectLoader::new();
    assert!(loader.take_open_request("/home/me".to_string()));
    assert_eq!(loader.new_project_path_buffer, "/home/me");
    assert!(!loader.take_open_request("/elsewhere".to_string()));
    assert_eq!(loader.new_project_path_buffer, "/home/me");

    assert_eq!(loader.folder_chosen(FileDialogReturnInfo::NewProject(Some("/games".to_string()))), None);
    assert_eq!(loader.new_project_path_buffer, "/games");
    assert!(!loader.take_close_request());
    assert_eq!(loader.folder_chosen(FileDialogReturnInfo::OpenProject(None)), None);
    assert_eq!(
        loader.folder_chosen(FileDialogReturnInfo::OpenProject(Some("/games/pong".to_string()))),
        Some("/games/pong".to_string())
    );
    assert!(loader.take_close_request());
    assert!(!loader.take_close_request());
}
