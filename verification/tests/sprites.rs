use sandstone::camera::CameraExtensionHandler;
use sandstone::game_data::{GraphTable, GraphicTable, SavedGameData};
use sandstone::hierarchy::Hierarchy;
use sandstone::saved::{
    SavedAffineSpriteData, SavedCameraExtension, SavedGraphic, SavedNode, SavedNodeExtension, SavedNodeGraph,
    SavedSpriteExtension, SavedSpriteType, SavedTransform, SpriteSize,
};
use sandstone::sprite::{SpriteEntry, SpriteExtensionHandler};

fn node(name: &str, child: Option<u32>, parent: Option<u32>, sibling: Option<u32>, x: i32, y: i32, ext: SavedNodeExtension) -> SavedNode {
    SavedNode {
        child_index: child,
        parent_index: parent,
        sibling_index: sibling,
        name: name.to_string(),
        transform: SavedTransform { x: x << 12, y: y << 12 },
        node_extension: ext,
        script_type_id: None,
        enabled: true,
    }
}

fn sprite(kind: SavedSpriteType) -> SavedNodeExtension {
    SavedNodeExtension::Sprite(SavedSpriteExtension { graphic_asset: "ball".to_string(), sprite_type: kind })
}

fn data() -> SavedGameData {
    let scene = SavedNodeGraph {
        nodes: vec![
            node("Camera", Some(1), None, None, 0, 0,
                SavedNodeExtension::Camera(SavedCameraExtension { active_main: true, active_sub: false })),
            node("Ball", None, Some(0), Some(2), 10, 20, sprite(SavedSpriteType::Normal)),
            node("Spinner", None, Some(0), Some(3), 40, 30,
                sprite(SavedSpriteType::Affine(SavedAffineSpriteData { rotation: 0, scale_x: 1 << 12, scale_y: 1 << 12 }))),
            node("Far", None, Some(0), None, 300, 20, sprite(SavedSpriteType::Normal)),
        ],
    };
    let mut graphs = GraphTable::new();
    graphs.insert("Scene".to_string(), scene);
    let mut graphics = GraphicTable::new();
    graphics.insert("ball".to_string(), SavedGraphic { tiles: vec![0; 128], palette: vec![0; 32], size: SpriteSize::_16x16 });
    SavedGameData { graphs, graphics, main_graph: "Scene".to_string() }
}

#[test]
fn sprites_become_hardware_objects() {
    let mut h = Hierarchy::new(data());
    h.set_scene_main();
    h.update_global_positions();
    let mut handler = SpriteExtensionHandler::new();
    let placements = handler.sprite_init(&h.game_data).unwrap();
    assert_eq!(placements.len(), 1);
    assert_eq!(placements[0].name, "ball");
    let cams = CameraExtensionHandler::new().get_active_cameras(&h);
    let (main, sub) = handler.sprite_update(&h, cams);
    assert!(sub.is_none());
    let entries = main.unwrap();
    // the sprite far to the right is off screen
    assert_eq!(entries.len(), 2);
    assert_eq!(entries[0], SpriteEntry::Normal { x: 10, y: 20, shape: 0, size: 1, tile: 0, palette: 0 });
    match entries[1] {
        SpriteEntry::Affine { x, y, shape, size, affine_index, pa, pb, pc, pd, .. } => {
            // double-size affine sprites are moved by half their size
            assert_eq!((x, y), (32, 22));
            assert_eq!((shape, size, affine_index), (0, 1, 0));
            assert!(pa >= 250 && pa <= 260 && pd >= 250 && pd <= 260);
            assert!(pb.abs() <= 4 && pc.abs() <= 4);
        }
        _ => panic!("the spinner is affine"),
    }
}

#[test]
fn sprites_are_drawable_once_their_graphics_are_placed() {
    let mut h = Hierarchy::new(data());
    h.set_scene_main();
    h.update_global_positions();
    let mut handler = SpriteExtensionHandler::new();
    let camera = CameraExtensionHandler::new().get_active_cameras(&h).main.unwrap();
    // no graphic has a place in video memory yet
    assert!(!handler.sprites_drawable_from(&h, camera));
    handler.sprite_init(&h.game_data).unwrap();
    assert!(handler.sprites_drawable_from(&h, camera));
}

#[test]
fn affine_sprites_off_screen_need_no_usable_scale() {
    let flat = SavedAffineSpriteData { rotation: 0, scale_x: 0, scale_y: 1 << 12 };
    let scene_at = |x: i32| SavedNodeGraph {
        nodes: vec![
            node("Camera", Some(1), None, None, 0, 0,
                SavedNodeExtension::Camera(SavedCameraExtension { active_main: true, active_sub: false })),
            node("Flat", None, Some(0), None, x, 20, sprite(SavedSpriteType::Affine(flat))),
        ],
    };
    for (x, drawable) in [(300, true), (40, false)] {
        let mut graphs = GraphTable::new();
        graphs.insert("Scene".to_string(), scene_at(x));
        let mut graphics = GraphicTable::new();
        graphics.insert("ball".to_string(), SavedGraphic { tiles: vec![0; 128], palette: vec![0; 32], size: SpriteSize::_16x16 });
        let mut h = Hierarchy::new(SavedGameData { graphs, graphics, main_graph: "Scene".to_string() });
        h.set_scene_main();
        h.update_global_positions();
        let mut handler = SpriteExtensionHandler::new();
        handler.sprite_init(&h.game_data).unwrap();
        let camera = CameraExtensionHandler::new().get_active_cameras(&h).main.unwrap();
        assert_eq!(handler.sprites_drawable_from(&h, camera), drawable);
    }
}
