use vstd::prelude::*;

pub mod pool;
pub mod tree;
pub mod editor;
pub mod text;
pub mod saved;
pub mod node;
pub mod game_data;
pub mod hierarchy;
pub mod rect_collider;
pub mod camera;
pub mod sprite;
pub mod random;
pub mod scripts;
pub mod project_loader;
pub mod project_builder;
pub mod world_editor;
pub mod inspector;
pub mod fixed_math;
pub mod pong;
pub mod image;
pub mod spawn_check;

verus! {

} // verus!
