use vstd::prelude::*;

verus! {

/// Rotation and scale of an affine sprite, as raw fixed-point bits with 12
/// fractional bits.
#[derive(Clone, Copy, Debug, PartialEq, Eq)]
pub struct SavedAffineSpriteData {
    pub rotation: i32,
    pub scale_x: i32,
    pub scale_y: i32,
}

#[derive(Clone, Copy, Debug, PartialEq, Eq)]
pub enum SavedSpriteType {
    Normal,
    Affine(SavedAffineSpriteData),
}

pub struct SavedSpriteExtension {
    pub graphic_asset: String,
    pub sprite_type: SavedSpriteType,
}

#[derive(Clone, Copy, Debug, PartialEq, Eq)]
pub struct SavedCameraExtension {
    pub active_main: bool,
    pub active_sub: bool,
}

/// Size of a rectangle collider, as raw fixed-point bits with 12 fractional
/// bits.
#[derive(Clone, Copy, Debug, PartialEq, Eq)]
pub struct SavedRectColliderExtension {
    pub width: i32,
    pub height: i32,
}

pub enum SavedNodeExtension {
    Nothing,
    Sprite(SavedSpriteExtension),
    Camera(SavedCameraExtension),
    RectCollider(SavedRectColliderExtension),
}

/// Position of a node, as raw fixed-point bits with 12 fractional bits.
#[derive(Clone, Copy, Debug, PartialEq, Eq)]
pub struct SavedTransform {
    pub x: i32,
    pub y: i32,
}

/// A node of a saved graph; the links are positions in the graph's list of
/// nodes.
pub struct SavedNode {
    pub child_index: Option<u32>,
    pub parent_index: Option<u32>,
    pub sibling_index: Option<u32>,
    pub name: String,
    pub transform: SavedTransform,
    pub node_extension: SavedNodeExtension,
    pub script_type_id: Option<u32>,
    pub enabled: bool,
}

pub struct SavedNodeGraph {
    pub nodes: Vec<SavedNode>,
}

/// The sizes a sprite can have on the hardware.
#[derive(Clone, Copy, Debug, PartialEq, Eq)]
pub enum SpriteSize {
    _8x8,
    _16x16,
    _32x32,
    _64x64,
    _16x8,
    _32x8,
    _32x16,
    _64x32,
    _8x16,
    _8x32,
    _16x32,
    _32x64,
}

impl SpriteSize {
    /// Width and height in pixels.
    pub open spec fn dimensions(self) -> (u32, u32) {
        match self {
            SpriteSize::_8x8 => (8, 8),
            SpriteSize::_16x16 => (16, 16),
            SpriteSize::_32x32 => (32, 32),
            SpriteSize::_64x64 => (64, 64),
            SpriteSize::_16x8 => (16, 8),
            SpriteSize::_32x8 => (32, 8),
            SpriteSize::_32x16 => (32, 16),
            SpriteSize::_64x32 => (64, 32),
            SpriteSize::_8x16 => (8, 16),
            SpriteSize::_8x32 => (8, 32),
            SpriteSize::_16x32 => (16, 32),
            SpriteSize::_32x64 => (32, 64),
        }
    }

    /// Width and height in pixels.
    pub fn to_dimensions(self) -> (r: (u32, u32))
        ensures
            r == self.dimensions(),
    {
        match self {
            SpriteSize::_8x8 => (8, 8),
            SpriteSize::_16x16 => (16, 16),
            SpriteSize::_32x32 => (32, 32),
            SpriteSize::_64x64 => (64, 64),
            SpriteSize::_16x8 => (16, 8),
            SpriteSize::_32x8 => (32, 8),
            SpriteSize::_32x16 => (32, 16),
            SpriteSize::_64x32 => (64, 32),
            SpriteSize::_8x16 => (8, 16),
            SpriteSize::_8x32 => (8, 32),
            SpriteSize::_16x32 => (16, 32),
            SpriteSize::_32x64 => (32, 64),
        }
    }

    /// The name under which the size is shown, width by height.
    pub fn label(self) -> (s: &'static str)
        ensures
            s@ == (match self {
                SpriteSize::_8x8 => "8x8"@,
                SpriteSize::_16x16 => "16x16"@,
                SpriteSize::_32x32 => "32x32"@,
                SpriteSize::_64x64 => "64x64"@,
                SpriteSize::_16x8 => "16x8"@,
                SpriteSize::_32x8 => "32x8"@,
                SpriteSize::_32x16 => "32x16"@,
                SpriteSize::_64x32 => "64x32"@,
                SpriteSize::_8x16 => "8x16"@,
                SpriteSize::_8x32 => "8x32"@,
                SpriteSize::_16x32 => "16x32"@,
                SpriteSize::_32x64 => "32x64"@,
            }),
    {
        match self {
            SpriteSize::_8x8 => "8x8",
            SpriteSize::_16x16 => "16x16",
            SpriteSize::_32x32 => "32x32",
            SpriteSize::_64x64 => "64x64",
            SpriteSize::_16x8 => "16x8",
            SpriteSize::_32x8 => "32x8",
            SpriteSize::_32x16 => "32x16",
            SpriteSize::_64x32 => "64x32",
            SpriteSize::_8x16 => "8x16",
            SpriteSize::_8x32 => "8x32",
            SpriteSize::_16x32 => "16x32",
            SpriteSize::_32x64 => "32x64",
        }
    }
}

/// Tiles and palette of a graphic, as they are copied to video memory.
pub struct SavedGraphic {
    pub tiles: Vec<u8>,
    pub palette: Vec<u8>,
    pub size: SpriteSize,
}

} // verus!
