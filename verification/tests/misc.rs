use sandstone::project_loader::{file_name_char_filter, ProjectLoader};
use sandstone::random::{rand_i32_in_range, rand_u32, seed, Rng};
use sandstone::saved::SpriteSize;
use sandstone::scripts::{GameManagerAction, GameManagerScript, GameState, Obj1};
use sandstone::sprite::{plan_vram, sprite_size_to_shape_and_size, SpriteExtensionHandler};

#[test]
fn random_numbers_follow_the_pcg_stream() {
    let mut a = Rng::new();
    let mut b = Rng::new();
    let xs: Vec<u32> = (0..5).map(|_| rand_u32(&mut a)).collect();
    let ys: Vec<u32> = (0..5).map(|_| rand_u32(&mut b)).collect();
    assert_eq!(xs, ys);
    seed(&mut a, 1234);
    seed(&mut b, 1234);
    assert_eq!(rand_u32(&mut a), rand_u32(&mut b));
    // the generator for seed 0 and increment 0: increment 1, state 1 * mul + 1
    let z = Rng::new();
    assert_eq!(z.inc, 1);
    assert_eq!(z.state, 6364136223846793006);
}

#[test]
fn ranged_numbers_stay_in_range() {
    let mut r = Rng::new();
    for _ in 0..200 {
        let v = rand_i32_in_range(&mut r, -3, 4);
        assert!(-3 <= v && v < 4);
    }
    assert_eq!(rand_i32_in_range(&mut r, 7, 8), 7);
}

#[test]
fn obj1_counts_from_four() {
    let mut o = Obj1 { cntr: 0 };
    o.start();
    assert_eq!(o.cntr, 4);
    o.update();
    o.update();
    assert_eq!(o.cntr, 6);
}

#[test]
fn game_manager_scores_until_game_over() {
    let mut g = GameManagerScript::new();
    assert_eq!(g.start(), "Score: 0   ");
    assert_eq!(g.add_score(5).unwrap(), "Score: 5   ");
    assert_eq!(g.add_score(12345).unwrap(), "Score: 12350");
    assert!(g.game_over());
    assert!(!g.game_over());
    assert!(g.add_score(1).is_none());
    assert_eq!(g.score, 12350);
}

#[test]
fn game_manager_counts_down_then_waits_for_start() {
    let mut g = GameManagerScript::new();
    g.start();
    for _ in 0..119 {
        assert_eq!(g.update(false), GameManagerAction::Nothing);
    }
    assert_eq!(g.update(false), GameManagerAction::ClearStartMessage);
    assert_eq!(g.state, GameState::Playing);
    assert_eq!(g.update(true), GameManagerAction::Nothing);
    g.game_over();
    assert_eq!(g.update(false), GameManagerAction::Nothing);
    assert_eq!(g.update(true), GameManagerAction::Restart);
}

#[test]
fn sprite_sizes_map_to_shape_and_size() {
    assert_eq!(sprite_size_to_shape_and_size(SpriteSize::_8x8), (0, 0));
    assert_eq!(sprite_size_to_shape_and_size(SpriteSize::_64x32), (1, 3));
    assert_eq!(sprite_size_to_shape_and_size(SpriteSize::_16x32), (2, 2));
    assert_eq!(SpriteSize::_32x64.to_dimensions(), (32, 64));
}

#[test]
fn graphics_are_laid_out_on_32_byte_boundaries() {
    let sizes = vec![(40, 32), (64, 10), (1, 1)];
    let offsets = plan_vram(&sizes);
    assert_eq!(offsets, vec![(0, 0), (64, 32), (128, 64)]);
    let mut handler = SpriteExtensionHandler::new();
    let placements = handler.place_graphics(vec!["a".to_string(), "b".to_string(), "c".to_string()], &sizes);
    assert_eq!(placements[1].tile_offset, 64);
    assert_eq!(placements[1].mapping.tile_index, 2);
    assert_eq!(placements[2].mapping.pal_index, 2);
    assert_eq!(handler.mapping("b").unwrap().tile_index, 2);
    assert!(handler.mapping("d").is_none());
}

#[test]
fn file_names_drop_reserved_characters() {
    assert_eq!(file_name_char_filter('a'), Some('a'));
    assert_eq!(file_name_char_filter('/'), None);
    assert_eq!(file_name_char_filter('>'), None);
    assert_eq!(file_name_char_filter(' '), Some(' '));
}

#[test]
fn project_loader_starts_open() {
    let mut l = ProjectLoader::new();
    assert!(l.open_load_project_modal);
    l.open_load_project_modal = false;
    l.open_load_project_modal();
    assert!(l.open_load_project_modal);
    assert_eq!(l.new_project_name_buffer, "");
}

use sandstone::project_builder::{script_type_id_from_docs, script_type_id_text};

#[test]
fn script_ids_come_from_the_docs() {
    assert_eq!(script_type_id_from_docs("{script_type_id=6}"), Some(Some(6)));
    assert_eq!(script_type_id_from_docs("A script. {script_type_id=12} more"), Some(Some(12)));
    assert_eq!(script_type_id_from_docs("no id here"), None);
    assert_eq!(script_type_id_from_docs("{script_type_id=x}"), Some(None));
    assert_eq!(script_type_id_text("{script_type_id=42"), Some("42"));
    assert_eq!(script_type_id_text("{script_type_id=1}{script_type_id=2}"), Some("1"));
    assert_eq!(script_type_id_from_docs("{script_type_id=+7}"), Some(Some(7)));
    assert_eq!(script_type_id_from_docs("{script_type_id=}"), Some(None));
}
