use vstd::prelude::*;
use crate::saved::{SpriteSize, SavedSpriteType, SavedGraphic};
use crate::game_data::{SavedGameData, FxHashMap, graphic_table};
use crate::pool::{Handle, PoolModel};
use crate::node::{CameraExtension, SpriteExtension};
use crate::hierarchy::Hierarchy;
use crate::camera::ActiveCameras;
use crate::fixed_math::{cordic_sin_cos, sin_cos, div_toward_zero, fixed_wrapping_div, to_i8f8_wrapping};

verus! {

/// Bytes of one palette of 16 colours.
pub const SIZEOF_PALETTE: usize = 32;

/// Bytes of one 8x8 tile of 16 colours.
pub const SIZEOF_TILE: usize = 32;

/// Where a graphic lies in video memory: its first tile and its palette.
#[derive(Clone, Copy, Debug, PartialEq, Eq)]
pub struct SpriteVramMapping {
    pub tile_index: u16,
    pub pal_index: u8,
}

/// Shape and size code of a sprite size on the hardware.
pub open spec fn shape_and_size(ss: SpriteSize) -> (u8, u8) {
    match ss {
        SpriteSize::_8x8 => (0, 0),
        SpriteSize::_16x16 => (0, 1),
        SpriteSize::_32x32 => (0, 2),
        SpriteSize::_64x64 => (0, 3),
        SpriteSize::_16x8 => (1, 0),
        SpriteSize::_32x8 => (1, 1),
        SpriteSize::_32x16 => (1, 2),
        SpriteSize::_64x32 => (1, 3),
        SpriteSize::_8x16 => (2, 0),
        SpriteSize::_8x32 => (2, 1),
        SpriteSize::_16x32 => (2, 2),
        SpriteSize::_32x64 => (2, 3),
    }
}

/// The shape code follows the sprite's dimensions: 0 for a square, 1 for
/// one wider than tall, 2 for one taller than wide; the size code is at
/// most 3.
pub proof fn lemma_shape_follows_dimensions(ss: SpriteSize)
    ensures
        shape_and_size(ss).0 == 0 <==> ss.dimensions().0 == ss.dimensions().1,
        shape_and_size(ss).0 == 1 <==> ss.dimensions().0 > ss.dimensions().1,
        shape_and_size(ss).0 == 2 <==> ss.dimensions().0 < ss.dimensions().1,
        shape_and_size(ss).1 <= 3,
{
}

/// Among sizes of one shape, the size code grows with the area: a larger
/// sprite of the same shape has a larger code, and sizes of one shape with
/// one code are the same size.
pub proof fn lemma_size_code_follows_area(a: SpriteSize, b: SpriteSize)
    requires
        shape_and_size(a).0 == shape_and_size(b).0,
    ensures
        shape_and_size(a).1 < shape_and_size(b).1 <==> a.dimensions().0 * a.dimensions().1 < b.dimensions().0 * b.dimensions().1,
        shape_and_size(a).1 == shape_and_size(b).1 <==> a.dimensions() == b.dimensions(),
{
}

/// Shape and size code of a sprite size on the hardware.
pub fn sprite_size_to_shape_and_size(ss: SpriteSize) -> (r: (u8, u8))
    ensures
        r == shape_and_size(ss),
{
    match ss {
        SpriteSize::_8x8 => (0, 0),
        SpriteSize::_16x16 => (0, 1),
        SpriteSize::_32x32 => (0, 2),
        SpriteSize::_64x64 => (0, 3),
        SpriteSize::_16x8 => (1, 0),
        SpriteSize::_32x8 => (1, 1),
        SpriteSize::_32x16 => (1, 2),
        SpriteSize::_64x32 => (1, 3),
        SpriteSize::_8x16 => (2, 0),
        SpriteSize::_8x32 => (2, 1),
        SpriteSize::_16x32 => (2, 2),
        SpriteSize::_32x64 => (2, 3),
    }
}

/// `x` rounded up to a multiple of 32.
pub open spec fn align32(x: int) -> int {
    if x % 32 == 0 {
        x
    } else {
        x + (32 - x % 32)
    }
}

/// Byte offsets of tile and palette memory at which graphic `k` of a list
/// of `(tiles, palette)` sizes starts: each graphic starts where the one
/// before ends, rounded up to 32 bytes.
pub open spec fn vram_offsets(sizes: Seq<(usize, usize)>, k: int) -> (int, int)
    decreases k,
{
    if k <= 0 {
        (0, 0)
    } else {
        let prev = vram_offsets(sizes, k - 1);
        (align32(prev.0 + sizes[k - 1].0), align32(prev.1 + sizes[k - 1].1))
    }
}

/// The graphics of the list fit in the address space.
pub open spec fn vram_fits(sizes: Seq<(usize, usize)>) -> bool {
    &&& vram_offsets(sizes, sizes.len() as int).0 <= usize::MAX
    &&& vram_offsets(sizes, sizes.len() as int).1 <= usize::MAX
}

/// Where a graphic goes in video memory, as the placement of it says.
pub struct VramPlacement {
    pub name: String,
    pub tile_offset: usize,
    pub pal_offset: usize,
    pub mapping: SpriteVramMapping,
}

/// The mapping of a graphic placed at the given byte offsets.
pub open spec fn mapping_at(tile_offset: int, pal_offset: int) -> SpriteVramMapping {
    SpriteVramMapping { tile_index: (tile_offset / 32) as u16, pal_index: (pal_offset / 32) as u8 }
}

/// The table after the graphics `names[0..i]` were placed in turn, each at
/// its offsets, a later one of a name replacing an earlier.
pub open spec fn placed(
    m: Map<Seq<char>, SpriteVramMapping>,
    names: Seq<Seq<char>>,
    sizes: Seq<(usize, usize)>,
    i: int,
) -> Map<Seq<char>, SpriteVramMapping>
    decreases i,
{
    if i <= 0 {
        m
    } else {
        placed(m, names, sizes, i - 1).insert(
            names[i - 1],
            mapping_at(vram_offsets(sizes, i - 1).0, vram_offsets(sizes, i - 1).1),
        )
    }
}

/// The `(tiles, palette)` byte sizes of the graphics of the table named by
/// `names`, in that order.
pub open spec fn graphic_sizes(t: Map<Seq<char>, SavedGraphic>, names: Seq<Seq<char>>) -> Seq<(usize, usize)> {
    names.map_values(|n: Seq<char>| (t[n].tiles@.len() as usize, t[n].palette@.len() as usize))
}

/// The names of a list of placements, in order.
pub open spec fn placement_names(ps: Seq<VramPlacement>) -> Seq<Seq<char>> {
    ps.map_values(|p: VramPlacement| p.name@)
}

/// Offsets only grow.
proof fn lemma_offsets_grow(sizes: Seq<(usize, usize)>, j: int, k: int)
    requires
        0 <= j <= k <= sizes.len(),
    ensures
        vram_offsets(sizes, j).0 <= vram_offsets(sizes, k).0,
        vram_offsets(sizes, j).1 <= vram_offsets(sizes, k).1,
        vram_offsets(sizes, k).0 >= 0,
        vram_offsets(sizes, k).1 >= 0,
    decreases k,
{
    if k > 0 {
        lemma_offsets_grow(sizes, if j < k { j } else { k - 1 }, k - 1);
        let prev = vram_offsets(sizes, k - 1);
        assert(align32(prev.0 + sizes[k - 1].0) >= prev.0 + sizes[k - 1].0);
        assert(align32(prev.1 + sizes[k - 1].1) >= prev.1 + sizes[k - 1].1);
    }
}

/// `x` rounded up to a multiple of 32, for an `x` whose result fits.
fn align_to_32(x: usize) -> (r: usize)
    requires
        align32(x as int) <= usize::MAX,
    ensures
        r == align32(x as int),
{
    let rem = x % 32;
    if rem != 0 {
        x + (32 - rem)
    } else {
        x
    }
}

/// Lays out graphics of the given `(tiles, palette)` sizes one after the
/// other in video memory: each starts where the one before ended, rounded
/// up to 32 bytes; gives the byte offsets of each.
pub fn plan_vram(sizes: &Vec<(usize, usize)>) -> (r: Vec<(usize, usize)>)
    requires
        vram_fits(sizes@),
    ensures
        r@.len() == sizes@.len(),
        forall|k: int| 0 <= k < r@.len() ==> (#[trigger] r@[k]).0 == vram_offsets(sizes@, k).0 && r@[k].1 == vram_offsets(sizes@, k).1,
{
    let mut r: Vec<(usize, usize)> = Vec::new();
    let mut tile_off: usize = 0;
    let mut pal_off: usize = 0;
    let mut i: usize = 0;
    while i < sizes.len()
        invariant
            vram_fits(sizes@),
            0 <= i <= sizes@.len(),
            r@.len() == i,
            tile_off == vram_offsets(sizes@, i as int).0,
            pal_off == vram_offsets(sizes@, i as int).1,
            forall|k: int| 0 <= k < i ==> (#[trigger] r@[k]).0 == vram_offsets(sizes@, k).0 && r@[k].1 == vram_offsets(sizes@, k).1,
        decreases sizes@.len() - i,
    {
        r.push((tile_off, pal_off));
        proof {
            lemma_offsets_grow(sizes@, i + 1, sizes@.len() as int);
            let a = tile_off + sizes@[i as int].0;
            let b = pal_off + sizes@[i as int].1;
            assert(align32(a) >= a);
            assert(align32(b) >= b);
        }
        let (t, p) = sizes[i];
        tile_off = align_to_32(tile_off + t);
        pal_off = align_to_32(pal_off + p);
        i = i + 1;
    }
    r
}

/// The video memory places of graphics, by name.
#[verifier::external_body]
pub struct VramTable {
    map: FxHashMap<String, SpriteVramMapping>,
}

/// The mappings that a table holds, by name.
pub uninterp spec fn vram_table(t: VramTable) -> Map<Seq<char>, SpriteVramMapping>;

/// `HashMap::default`: an empty table.
#[verifier::external_body]
fn vram_table_default() -> (t: VramTable)
    ensures
        vram_table(t).dom().is_empty(),
{
    VramTable { map: FxHashMap::default() }
}

/// `HashMap::insert`: stores a mapping under a name, replacing what was
/// there.
#[verifier::external_body]
fn vram_table_insert(t: &mut VramTable, name: String, mapping: SpriteVramMapping)
    ensures
        vram_table(*final(t)) == vram_table(*old(t)).insert(name@, mapping),
{
    t.map.insert(name, mapping);
}

/// `HashMap::get`, copied: the mapping stored under a name, if any.
#[verifier::external_body]
fn vram_table_get(t: &VramTable, name: &str) -> (r: Option<SpriteVramMapping>)
    ensures
        match r {
            Some(m) => vram_table(*t).dom().contains(name@) && m == vram_table(*t)[name@],
            None => !vram_table(*t).dom().contains(name@),
        },
{
    t.map.get(name).copied()
}

/// Keeps where each graphic lies in video memory.
pub struct SpriteExtensionHandler {
    pub sprite_vram_map: VramTable,
}

impl SpriteExtensionHandler {
    pub fn new() -> (r: Self)
        ensures
            vram_table(r.sprite_vram_map).dom().is_empty(),
    {
        SpriteExtensionHandler { sprite_vram_map: vram_table_default() }
    }

    /// Where the graphic `name` lies in video memory, if it was placed.
    pub fn mapping(&self, name: &str) -> (r: Option<SpriteVramMapping>)
        ensures
            match r {
                Some(m) => vram_table(self.sprite_vram_map).dom().contains(name@) && m == vram_table(self.sprite_vram_map)[name@],
                None => !vram_table(self.sprite_vram_map).dom().contains(name@),
            },
    {
        vram_table_get(&self.sprite_vram_map, name)
    }

    /// Places the graphics of `names`, whose `(tiles, palette)` sizes are
    /// `sizes`, one after the other in video memory, and records where each
    /// went; gives the placements, for the tiles and palettes to be copied
    /// there.
    pub fn place_graphics(&mut self, names: Vec<String>, sizes: &Vec<(usize, usize)>) -> (r: Vec<VramPlacement>)
        requires
            names@.len() == sizes@.len(),
            vram_fits(sizes@),
        ensures
            r@.len() == names@.len(),
            forall|k: int| 0 <= k < r@.len() ==> {
                &&& (#[trigger] r@[k]).name@ == names@[k]@
                &&& r@[k].tile_offset == vram_offsets(sizes@, k).0
                &&& r@[k].pal_offset == vram_offsets(sizes@, k).1
                &&& r@[k].mapping == mapping_at(vram_offsets(sizes@, k).0, vram_offsets(sizes@, k).1)
            },
            forall|k: int| 0 <= k < names@.len() ==> vram_table(final(self).sprite_vram_map).dom().contains(#[trigger] names@[k]@),
            forall|s: Seq<char>| #[trigger] vram_table(final(self).sprite_vram_map).dom().contains(s)
                ==> vram_table(old(self).sprite_vram_map).dom().contains(s) || exists|k: int| 0 <= k < names@.len() && names@[k]@ == s,
            vram_table(final(self).sprite_vram_map) == placed(
                vram_table(old(self).sprite_vram_map),
                names@.map_values(|s: String| s@),
                sizes@,
                names@.len() as int,
            ),
    {
        let ghost ns = names@.map_values(|s: String| s@);
        let offsets = plan_vram(sizes);
        let mut r: Vec<VramPlacement> = Vec::new();
        let mut i: usize = 0;
        let n = names.len();
        while i < n
            invariant
                n == names@.len(),
                n == offsets@.len(),
                offsets@.len() == sizes@.len(),
                forall|k: int| 0 <= k < offsets@.len() ==> (#[trigger] offsets@[k]).0 == vram_offsets(sizes@, k).0 && offsets@[k].1 == vram_offsets(sizes@, k).1,
                0 <= i <= n,
                r@.len() == i,
                forall|k: int| 0 <= k < i ==> {
                    &&& (#[trigger] r@[k]).name@ == names@[k]@
                    &&& r@[k].tile_offset == vram_offsets(sizes@, k).0
                    &&& r@[k].pal_offset == vram_offsets(sizes@, k).1
                    &&& r@[k].mapping == mapping_at(vram_offsets(sizes@, k).0, vram_offsets(sizes@, k).1)
                },
                forall|k: int| 0 <= k < i ==> vram_table(self.sprite_vram_map).dom().contains(#[trigger] names@[k]@),
                forall|s: Seq<char>| #[trigger] vram_table(self.sprite_vram_map).dom().contains(s)
                    ==> vram_table(old(self).sprite_vram_map).dom().contains(s) || exists|k: int| 0 <= k < i && names@[k]@ == s,
                ns == names@.map_values(|s: String| s@),
                vram_table(self.sprite_vram_map) == placed(vram_table(old(self).sprite_vram_map), ns, sizes@, i as int),
            decreases n - i,
        {
            let (tile_offset, pal_offset) = offsets[i];
            let mapping = SpriteVramMapping {
                tile_index: (tile_offset / SIZEOF_TILE) as u16,
                pal_index: (pal_offset / SIZEOF_PALETTE) as u8,
            };
            let name = names[i].clone();
            vram_table_insert(&mut self.sprite_vram_map, name, mapping);
            r.push(VramPlacement { name: names[i].clone(), tile_offset, pal_offset, mapping });
            proof {
                assert forall|s: Seq<char>| #[trigger] vram_table(self.sprite_vram_map).dom().contains(s)
                    implies vram_table(old(self).sprite_vram_map).dom().contains(s) || exists|k: int| 0 <= k < i + 1 && names@[k]@ == s by {
                    if s == names@[i as int]@ {
                        assert(0 <= i < i + 1 && names@[i as int]@ == s);
                    }
                }
            }
            i = i + 1;
        }
        r
    }

    /// Places every graphic of the game in video memory, in the order in
    /// which its table of graphics gives them, which is not stated; `None`
    /// where they would not fit in the address space, nothing placed then.
    pub fn sprite_init(&mut self, game_data: &SavedGameData) -> (r: Option<Vec<VramPlacement>>)
        ensures
            r is Some ==> r->0@.len() == graphic_table(game_data.graphics).dom().len()
                && forall|k: int| 0 <= k < r->0@.len() ==> {
                    &&& graphic_table(game_data.graphics).dom().contains((#[trigger] r->0@[k]).name@)
                    &&& vram_table(final(self).sprite_vram_map).dom().contains(r->0@[k].name@)
                },
            r matches Some(ps) ==> ({
                let ns = placement_names(ps@);
                let sizes = graphic_sizes(graphic_table(game_data.graphics), ns);
                &&& ns.no_duplicates()
                &&& ns.to_set() == graphic_table(game_data.graphics).dom()
                &&& vram_fits(sizes)
                &&& forall|k: int| 0 <= k < ps@.len() ==> {
                    &&& (#[trigger] ps@[k]).tile_offset == vram_offsets(sizes, k).0
                    &&& ps@[k].pal_offset == vram_offsets(sizes, k).1
                    &&& ps@[k].mapping == mapping_at(vram_offsets(sizes, k).0, vram_offsets(sizes, k).1)
                }
                &&& vram_table(final(self).sprite_vram_map) == placed(vram_table(old(self).sprite_vram_map), ns, sizes, ns.len() as int)
            }),
            r is None ==> *final(self) == *old(self) && exists|ns: Seq<Seq<char>>|
                ns.no_duplicates() && ns.to_set() == graphic_table(game_data.graphics).dom()
                && !vram_fits(#[trigger] graphic_sizes(graphic_table(game_data.graphics), ns)),
    {
        let names = game_data.graphics.names();
        let ghost t = graphic_table(game_data.graphics);
        let ghost ns = names@.map_values(|s: String| s@);
        let mut sizes: Vec<(usize, usize)> = Vec::new();
        let mut i: usize = 0;
        while i < names.len()
            invariant
                0 <= i <= names@.len(),
                sizes@.len() == i,
                t == graphic_table(game_data.graphics),
                ns == names@.map_values(|s: String| s@),
                forall|k: int| 0 <= k < names@.len() ==> graphic_table(game_data.graphics).dom().contains(#[trigger] names@[k]@),
                forall|k: int| 0 <= k < i ==> #[trigger] sizes@[k] == graphic_sizes(t, ns)[k],
            decreases names@.len() - i,
        {
            let g = game_data.graphics.get(names[i].as_str()).unwrap();
            sizes.push((g.tiles.len(), g.palette.len()));
            i = i + 1;
        }
        proof {
            assert(sizes@ =~= graphic_sizes(t, ns));
            assert forall|a: int, b: int| 0 <= a < ns.len() && 0 <= b < ns.len() && a != b implies ns[a] != ns[b] by {
                if a < b {
                    assert(names@[a]@ != names@[b]@);
                } else {
                    assert(names@[b]@ != names@[a]@);
                }
            }
            assert forall|s: Seq<char>| #[trigger] ns.to_set().contains(s) <==> t.dom().contains(s) by {
                if t.dom().contains(s) {
                    let j = choose|j: int| 0 <= j < names@.len() && names@[j]@ == s;
                    assert(ns[j] == s);
                }
                if ns.contains(s) {
                    let j = choose|j: int| 0 <= j < ns.len() && ns[j] == s;
                    assert(names@[j]@ == s);
                }
            }
            assert(ns.to_set() =~= t.dom());
        }
        if !vram_fits_exec(&sizes) {
            return None;
        }
        let placements = self.place_graphics(names, &sizes);
        proof {
            assert(placement_names(placements@) =~= ns);
        }
        Some(placements)
    }
}

/// Whether the graphics of the list fit in the address space.
fn vram_fits_exec(sizes: &Vec<(usize, usize)>) -> (r: bool)
    ensures
        r == vram_fits(sizes@),
{
    let mut tile_off: usize = 0;
    let mut pal_off: usize = 0;
    let mut i: usize = 0;
    while i < sizes.len()
        invariant
            0 <= i <= sizes@.len(),
            tile_off == vram_offsets(sizes@, i as int).0,
            pal_off == vram_offsets(sizes@, i as int).1,
        decreases sizes@.len() - i,
    {
        let (t, p) = sizes[i];
        proof {
            lemma_offsets_grow(sizes@, i + 1, sizes@.len() as int);
            lemma_offsets_grow(sizes@, i as int, i + 1);
        }
        if t > usize::MAX - tile_off || p > usize::MAX - pal_off {
            proof {
                lemma_offsets_grow(sizes@, i + 1, sizes@.len() as int);
                let a = tile_off + t;
                let b = pal_off + p;
                assert(align32(a) >= a);
                assert(align32(b) >= b);
            }
            return false;
        }
        let a = tile_off + t;
        let b = pal_off + p;
        if a % 32 != 0 && a > usize::MAX - (32 - a % 32) {
            proof {
                lemma_offsets_grow(sizes@, i + 1, sizes@.len() as int);
            }
            return false;
        }
        if b % 32 != 0 && b > usize::MAX - (32 - b % 32) {
            proof {
                lemma_offsets_grow(sizes@, i + 1, sizes@.len() as int);
            }
            return false;
        }
        tile_off = align_to_32(a);
        pal_off = align_to_32(b);
        i = i + 1;
    }
    true
}

/// One object of the sprite hardware to draw: position on screen, shape
/// and size codes, first tile and palette; an affine one also has its
/// transformation slot and matrix, as raw 8.8 fixed-point bits.
#[derive(Clone, Copy, Debug, PartialEq, Eq)]
pub enum SpriteEntry {
    Normal { x: u16, y: u8, shape: u8, size: u8, tile: u16, palette: u8 },
    Affine {
        x: u16,
        y: u8,
        shape: u8,
        size: u8,
        tile: u16,
        palette: u8,
        affine_index: usize,
        pa: i16,
        pb: i16,
        pc: i16,
        pd: i16,
    },
}

/// The two's complement negation of `x`, which leaves the least `i32` as it is.
pub open spec fn wrapping_neg_i32(x: i32) -> i32 {
    if x == i32::MIN {
        x
    } else {
        (-x) as i32
    }
}

/// One entry of the matrix: `v / d` as the fixed-point division without
/// debug assertions gives it, converted to 8.8 fixed point with wrapping.
pub open spec fn matrix_entry(v: i32, d: i32) -> i16 {
    ((div_toward_zero(v as int * 4096, d as int) as i32) as int / 16) as i16
}

/// The rotation and scale matrix of an affine sprite, as 8.8 fixed-point
/// bits from raw 20.12 bits: with `(sin, cos)` of the angle `-rotation`,
/// `(cos / sx, -sin / sx, sin / sy, cos / sy)`.
pub open spec fn affine_matrix(rotation: i32, scale_x: i32, scale_y: i32) -> (i16, i16, i16, i16) {
    let (s, c) = cordic_sin_cos((-rotation) as i32);
    (matrix_entry(c, scale_x), matrix_entry(wrapping_neg_i32(s), scale_x), matrix_entry(s, scale_y), matrix_entry(c, scale_y))
}

/// The matrix of an affine sprite.
fn affine_params(rotation: i32, scale_x: i32, scale_y: i32) -> (r: (i16, i16, i16, i16))
    requires
        rotation != i32::MIN,
        scale_x != 0,
        scale_y != 0,
    ensures
        r == affine_matrix(rotation, scale_x, scale_y),
{
    let (sin, cos) = sin_cos(-rotation);
    let neg_sin = if sin == i32::MIN { sin } else { -sin };
    (
        to_i8f8_wrapping(fixed_wrapping_div(cos, scale_x)),
        to_i8f8_wrapping(fixed_wrapping_div(neg_sin, scale_x)),
        to_i8f8_wrapping(fixed_wrapping_div(sin, scale_y)),
        to_i8f8_wrapping(fixed_wrapping_div(cos, scale_y)),
    )
}

/// The sprite in slot `i` of `p`, if any.
pub open spec fn sprite_at(p: PoolModel<SpriteExtension>, i: int) -> Option<SpriteExtension> {
    if 0 <= i < p.slots.len() {
        p.slots[i].1
    } else {
        None
    }
}

/// The number of affine entries in a list.
pub open spec fn affine_count(s: Seq<SpriteEntry>) -> nat
    decreases s.len(),
{
    if s.len() == 0 {
        0
    } else {
        affine_count(s.drop_last()) + if s.last() is Affine {
            1nat
        } else {
            0nat
        }
    }
}

/// The position on screen, in raw 20.12 bits, is inside the area that can
/// show a sprite.
pub open spec fn on_screen(sx: int, sy: int) -> bool {
    &&& sy < 192 * 4096
    &&& sy > -64 * 4096
    &&& sx < 256 * 4096
    &&& sx > -128 * 4096
}

/// What the sprite `s` draws, if anything, with `aff` affine entries before
/// it, a camera at `cam` and the graphics placed as `vram` says.
pub open spec fn entry_for(h: Hierarchy, vram: Map<Seq<char>, SpriteVramMapping>, cam: (int, int), s: SpriteExtension, aff: nat) -> Option<SpriteEntry> {
    let node = h.node(s.node_handle@);
    let sx = node.global_transform.x - cam.0;
    let sy = node.global_transform.y - cam.1;
    if !node.global_enabled || !on_screen(sx, sy) {
        None
    } else {
        let mapping = vram[s.graphic_asset@];
        let size = graphic_table(h.game_data.graphics)[s.graphic_asset@].size;
        let (shape, sz) = shape_and_size(size);
        let x = ((sx / 4096) % 512) as u16;
        let y = ((sy / 4096) % 256) as u8;
        match s.sprite_type {
            SavedSpriteType::Normal => Some(SpriteEntry::Normal { x, y, shape, size: sz, tile: mapping.tile_index, palette: mapping.pal_index }),
            SavedSpriteType::Affine(a) => {
                let m = affine_matrix(a.rotation, a.scale_x, a.scale_y);
                Some(SpriteEntry::Affine {
                    x: ((x - size.dimensions().0 / 2) % 65536) as u16,
                    y: ((y - size.dimensions().1 / 2) % 256) as u8,
                    shape,
                    size: sz,
                    tile: mapping.tile_index,
                    palette: mapping.pal_index,
                    affine_index: aff as usize,
                    pa: m.0,
                    pb: m.1,
                    pc: m.2,
                    pd: m.3,
                })
            },
        }
    }
}

/// What the sprites in the slots below `i` draw, in slot order.
pub open spec fn entries_upto(h: Hierarchy, vram: Map<Seq<char>, SpriteVramMapping>, cam: (int, int), i: int) -> Seq<SpriteEntry>
    decreases i,
{
    if i <= 0 {
        Seq::empty()
    } else {
        let prev = entries_upto(h, vram, cam, i - 1);
        match sprite_at(h.node_ext_pools.sprite_pool@, i - 1) {
            Some(s) => match entry_for(h, vram, cam, s, affine_count(prev)) {
                Some(e) => prev.push(e),
                None => prev,
            },
            None => prev,
        }
    }
}

/// What a sprite draws: nothing where its node is disabled or its position
/// relative to the camera lies off screen (below -128 or from 256 pixels
/// across, below -64 or from 192 pixels down); otherwise an entry of the
/// sprite's kind whose tiles and palette are where its graphic was placed,
/// whose shape and size codes are those of its graphic's size, and whose
/// position is the on-screen position in whole pixels, wrapped to 9 bits
/// across and 8 bits down (an affine one moved up and left by half its
/// size and numbered by `aff`).
pub proof fn lemma_entry_fields(h: Hierarchy, vram: Map<Seq<char>, SpriteVramMapping>, cam: (int, int), s: SpriteExtension, aff: nat)
    ensures
        ({
            let node = h.node(s.node_handle@);
            let sx = node.global_transform.x - cam.0;
            let sy = node.global_transform.y - cam.1;
            entry_for(h, vram, cam, s, aff) is None <==> !node.global_enabled
                || !(sy < 192 * 4096 && sy > -64 * 4096 && sx < 256 * 4096 && sx > -128 * 4096)
        }),
        entry_for(h, vram, cam, s, aff) is Some ==> (entry_for(h, vram, cam, s, aff)->0 is Normal) == (s.sprite_type is Normal),
        entry_for(h, vram, cam, s, aff) matches Some(SpriteEntry::Normal { x, y, shape, size, tile, palette }) ==> ({
            let node = h.node(s.node_handle@);
            &&& tile == vram[s.graphic_asset@].tile_index
            &&& palette == vram[s.graphic_asset@].pal_index
            &&& (shape, size) == shape_and_size(graphic_table(h.game_data.graphics)[s.graphic_asset@].size)
            &&& x as int == ((node.global_transform.x - cam.0) / 4096) % 512
            &&& y as int == ((node.global_transform.y - cam.1) / 4096) % 256
        }),
        entry_for(h, vram, cam, s, aff) matches Some(SpriteEntry::Affine { x, y, shape, size, tile, palette, affine_index, .. }) ==> ({
            let node = h.node(s.node_handle@);
            let dims = graphic_table(h.game_data.graphics)[s.graphic_asset@].size.dimensions();
            &&& tile == vram[s.graphic_asset@].tile_index
            &&& palette == vram[s.graphic_asset@].pal_index
            &&& (shape, size) == shape_and_size(graphic_table(h.game_data.graphics)[s.graphic_asset@].size)
            &&& x as int == (((((node.global_transform.x - cam.0) / 4096) % 512) - dims.0 / 2) % 65536)
            &&& y as int == (((((node.global_transform.y - cam.1) / 4096) % 256) - dims.1 / 2) % 256)
            &&& (aff <= usize::MAX ==> affine_index == aff)
        }),
{
}

/// Every sprite whose node is enabled can be drawn: its graphic was placed
/// and is in the game, its screen position fits, and an affine one on
/// screen has a rotation that can be negated and scales that are not zero.
pub open spec fn sprites_drawable(h: Hierarchy, vram: Map<Seq<char>, SpriteVramMapping>, cam: (int, int)) -> bool {
    forall|i: int| #[trigger] sprite_at(h.node_ext_pools.sprite_pool@, i) is Some
        && h.node(sprite_at(h.node_ext_pools.sprite_pool@, i)->0.node_handle@).global_enabled ==> {
        let s = sprite_at(h.node_ext_pools.sprite_pool@, i)->0;
        let node = h.node(s.node_handle@);
        &&& vram.dom().contains(s.graphic_asset@)
        &&& graphic_table(h.game_data.graphics).dom().contains(s.graphic_asset@)
        &&& i32::MIN <= node.global_transform.x - cam.0 <= i32::MAX
        &&& i32::MIN <= node.global_transform.y - cam.1 <= i32::MAX
        &&& (on_screen(node.global_transform.x - cam.0, node.global_transform.y - cam.1)
            ==> (s.sprite_type matches SavedSpriteType::Affine(a) ==> a.rotation != i32::MIN && a.scale_x != 0 && a.scale_y != 0))
    }
}

/// What `sprites_drawable` says of the sprite in slot `i`.
proof fn lemma_drawable_at(h: Hierarchy, vram: Map<Seq<char>, SpriteVramMapping>, cam: (int, int), i: int)
    requires
        sprites_drawable(h, vram, cam),
        sprite_at(h.node_ext_pools.sprite_pool@, i) is Some,
        h.node(sprite_at(h.node_ext_pools.sprite_pool@, i)->0.node_handle@).global_enabled,
    ensures
        ({
            let s = sprite_at(h.node_ext_pools.sprite_pool@, i)->0;
            let node = h.node(s.node_handle@);
            &&& vram.dom().contains(s.graphic_asset@)
            &&& graphic_table(h.game_data.graphics).dom().contains(s.graphic_asset@)
            &&& i32::MIN <= node.global_transform.x - cam.0 <= i32::MAX
            &&& i32::MIN <= node.global_transform.y - cam.1 <= i32::MAX
            &&& (on_screen(node.global_transform.x - cam.0, node.global_transform.y - cam.1)
            ==> (s.sprite_type matches SavedSpriteType::Affine(a) ==> a.rotation != i32::MIN && a.scale_x != 0 && a.scale_y != 0))
        }),
{
}

/// The global position of the node of a camera.
pub open spec fn camera_position(h: Hierarchy, camera: (usize, u32)) -> (int, int) {
    let n = h.node(h.node_ext_pools.camera_pool@.lookup(camera)->0.node_handle@);
    (n.global_transform.x as int, n.global_transform.y as int)
}

/// The affine count grows by one with an affine entry.
proof fn lemma_affine_count_push(s: Seq<SpriteEntry>, e: SpriteEntry)
    ensures
        affine_count(s.push(e)) == affine_count(s) + if e is Affine {
            1nat
        } else {
            0nat
        },
{
    assert(s.push(e).drop_last() =~= s);
}

/// There are no more affine entries than entries.
proof fn lemma_affine_count_le(s: Seq<SpriteEntry>)
    ensures
        affine_count(s) <= s.len(),
    decreases s.len(),
{
    if s.len() > 0 {
        lemma_affine_count_le(s.drop_last());
    }
}

impl SpriteExtensionHandler {
    /// The objects that the sprites draw for one screen, seen by `camera`:
    /// in slot order, those whose node is enabled with all nodes above it
    /// and whose position lies in the area that can show a sprite.
    #[verifier::rlimit(60)]
    #[verifier::spinoff_prover]
    pub fn sprite_update_for_engine(&self, hierarchy: &Hierarchy, camera: Handle<CameraExtension>) -> (r: Vec<SpriteEntry>)
        requires
            hierarchy.wf(),
            hierarchy.node_ext_pools.camera_pool@.valid(camera@),
            sprites_drawable(*hierarchy, vram_table(self.sprite_vram_map), camera_position(*hierarchy, camera@)),
        ensures
            r@ == entries_upto(*hierarchy, vram_table(self.sprite_vram_map), camera_position(*hierarchy, camera@),
                hierarchy.node_ext_pools.sprite_pool@.slots.len() as int),
    {
        let ghost vram = vram_table(self.sprite_vram_map);
        let ghost h = *hierarchy;
        let cam_ext = hierarchy.node_ext_pools.camera_pool.borrow(camera);
        proof {
            assert(h.owns_ext(h.node_ext_pools.camera_pool@.lookup(camera@)->0.node_handle@, (1int, camera@)));
        }
        let camera_node = hierarchy.object_pool.borrow(cam_ext.node_handle);
        let cam_x = camera_node.global_transform.x;
        let cam_y = camera_node.global_transform.y;
        let ghost cam = (cam_x as int, cam_y as int);
        let pool = &hierarchy.node_ext_pools.sprite_pool;
        proof {
            pool.lemma_slots_bound();
        }
        let n = pool.vec_len();
        let mut out: Vec<SpriteEntry> = Vec::new();
        let mut cur_affine_index: usize = 0;
        let mut i: usize = 0;
        while i < n
            invariant
                h == *hierarchy,
                h.wf(),
                vram == vram_table(self.sprite_vram_map),
                cam == camera_position(h, camera@),
                cam == (cam_x as int, cam_y as int),
                sprites_drawable(h, vram, cam),
                n == pool@.slots.len(),
                pool == &hierarchy.node_ext_pools.sprite_pool,
                0 <= i <= n,
                out@ == entries_upto(h, vram, cam, i as int),
                cur_affine_index == affine_count(out@),
                out@.len() <= i,
            decreases n - i,
        {
            let handle = pool.handle_from_index(i);
            proof {
                lemma_affine_count_le(out@);
            }
            if let Some(sprite) = pool.try_borrow(handle) {
                let ghost s = *sprite;
                let ghost prev = out@;
                proof {
                    assert(sprite_at(pool@, i as int) == Some(s));
                    assert(sprite_at(h.node_ext_pools.sprite_pool@, i as int) == Some(s));
                    assert(h.node_ext_pools.sprite_pool@.valid(handle@));
                    assert(h.owns_ext(pool@.lookup(handle@)->0.node_handle@, (0int, handle@)));
                }
                let node = hierarchy.object_pool.borrow(sprite.node_handle);
                proof {
                    assert(*node == h.node(s.node_handle@));
                    assert(entries_upto(h, vram, cam, i + 1) == match entry_for(h, vram, cam, s, affine_count(prev)) {
                        Some(e) => prev.push(e),
                        None => prev,
                    });
                }
                if node.global_enabled {
                    proof {
                        lemma_drawable_at(h, vram, cam, i as int);
                    }
                    let screen_x = node.global_transform.x - cam_x;
                    let screen_y = node.global_transform.y - cam_y;
                    if screen_y < 192 * 4096 && screen_y > -64 * 4096 && screen_x < 256 * 4096 && screen_x > -128 * 4096 {
                        let vram_mapping = self.mapping(sprite.graphic_asset.as_str()).unwrap();
                        let graphic = hierarchy.game_data.graphics.get(sprite.graphic_asset.as_str()).unwrap();
                        let sprite_size = graphic.size;
                        let (shape, size) = sprite_size_to_shape_and_size(sprite_size);
                        proof {
                            assert(vram_mapping == vram[s.graphic_asset@]);
                            assert(sprite_size == graphic_table(h.game_data.graphics)[s.graphic_asset@].size);
                            assert(on_screen(screen_x as int, screen_y as int));
                        }
                        let sx = ((screen_x >> 12u32) & 0x1FF) as u16;
                        let sy = ((screen_y >> 12u32) & 0xFF) as u8;
                        proof {
                            assert(sx == ((screen_x / 4096) % 512) as u16) by (bit_vector)
                                requires screen_x >= -128 * 4096 && screen_x < 256 * 4096, sx == ((screen_x >> 12u32) & 0x1FF) as u16;
                            assert(sy == ((screen_y / 4096) % 256) as u8) by (bit_vector)
                                requires screen_y >= -64 * 4096 && screen_y < 192 * 4096, sy == ((screen_y >> 12u32) & 0xFF) as u8;
                        }
                        match sprite.sprite_type {
                            SavedSpriteType::Normal => {
                                out.push(SpriteEntry::Normal {
                                    x: sx,
                                    y: sy,
                                    shape,
                                    size,
                                    tile: vram_mapping.tile_index,
                                    palette: vram_mapping.pal_index,
                                });
                                proof {
                                    lemma_affine_count_push(entries_upto(h, vram, cam, i as int), out@.last());
                                    assert(out@ == entries_upto(h, vram, cam, i + 1));
                                }
                            },
                            SavedSpriteType::Affine(affine) => {
                                let (pa, pb, pc, pd) = affine_params(affine.rotation, affine.scale_x, affine.scale_y);
                                let (sz_x, sz_y) = sprite_size.to_dimensions();
                                out.push(SpriteEntry::Affine {
                                    x: sx.wrapping_sub((sz_x / 2) as u16),
                                    y: sy.wrapping_sub((sz_y / 2) as u8),
                                    shape,
                                    size,
                                    tile: vram_mapping.tile_index,
                                    palette: vram_mapping.pal_index,
                                    affine_index: cur_affine_index,
                                    pa,
                                    pb,
                                    pc,
                                    pd,
                                });
                                proof {
                                    lemma_affine_count_push(entries_upto(h, vram, cam, i as int), out@.last());
                                    assert(out@ == entries_upto(h, vram, cam, i + 1));
                                }
                                cur_affine_index = cur_affine_index + 1;
                            },
                        }
                    } else {
                        proof {
                            assert(out@ == entries_upto(h, vram, cam, i + 1));
                        }
                    }
                } else {
                    proof {
                        assert(out@ == entries_upto(h, vram, cam, i + 1));
                    }
                }
            } else {
                proof {
                    assert(out@ == entries_upto(h, vram, cam, i + 1));
                }
            }
            i = i + 1;
        }
        out
    }
}

/// The sprite in slot `i`, where there is one and its node is enabled, can
/// be drawn: its graphic was placed and is in the game data, its position
/// relative to the camera fits in an `i32`, and an affine sprite on screen
/// has a rotation that negates and scales that divide.
pub open spec fn sprite_drawable_at(h: Hierarchy, vram: Map<Seq<char>, SpriteVramMapping>, cam: (int, int), i: int) -> bool {
    sprite_at(h.node_ext_pools.sprite_pool@, i) is Some
        && h.node(sprite_at(h.node_ext_pools.sprite_pool@, i)->0.node_handle@).global_enabled ==> {
        let s = sprite_at(h.node_ext_pools.sprite_pool@, i)->0;
        let node = h.node(s.node_handle@);
        &&& vram.dom().contains(s.graphic_asset@)
        &&& graphic_table(h.game_data.graphics).dom().contains(s.graphic_asset@)
        &&& i32::MIN <= node.global_transform.x - cam.0 <= i32::MAX
        &&& i32::MIN <= node.global_transform.y - cam.1 <= i32::MAX
        &&& (on_screen(node.global_transform.x - cam.0, node.global_transform.y - cam.1)
            ==> (s.sprite_type matches SavedSpriteType::Affine(a) ==> a.rotation != i32::MIN && a.scale_x != 0 && a.scale_y != 0))
    }
}

impl SpriteExtensionHandler {
    /// Whether every sprite can be drawn as seen by `camera`, which
    /// `sprite_update_for_engine` needs of the sprites whose node is
    /// enabled.
    #[verifier::rlimit(40)]
    #[verifier::spinoff_prover]
    pub fn sprites_drawable_from(&self, hierarchy: &Hierarchy, camera: Handle<CameraExtension>) -> (b: bool)
        requires
            hierarchy.wf(),
            hierarchy.node_ext_pools.camera_pool@.valid(camera@),
        ensures
            b == sprites_drawable(*hierarchy, vram_table(self.sprite_vram_map), camera_position(*hierarchy, camera@)),
    {
        let ghost vram = vram_table(self.sprite_vram_map);
        let ghost h = *hierarchy;
        let cam_ext = hierarchy.node_ext_pools.camera_pool.borrow(camera);
        proof {
            assert(h.owns_ext(h.node_ext_pools.camera_pool@.lookup(camera@)->0.node_handle@, (1int, camera@)));
        }
        let camera_node = hierarchy.object_pool.borrow(cam_ext.node_handle);
        let cam_x = camera_node.global_transform.x;
        let cam_y = camera_node.global_transform.y;
        let ghost cam = (cam_x as int, cam_y as int);
        let pool = &hierarchy.node_ext_pools.sprite_pool;
        proof {
            pool.lemma_slots_bound();
        }
        let n = pool.vec_len();
        let mut i: usize = 0;
        while i < n
            invariant
                h == *hierarchy,
                h.wf(),
                vram == vram_table(self.sprite_vram_map),
                cam == camera_position(h, camera@),
                cam == (cam_x as int, cam_y as int),
                n == pool@.slots.len(),
                pool == &hierarchy.node_ext_pools.sprite_pool,
                0 <= i <= n,
                forall|j: int| 0 <= j < i ==> #[trigger] sprite_drawable_at(h, vram, cam, j),
            decreases n - i,
        {
            let handle = pool.handle_from_index(i);
            if let Some(sprite) = pool.try_borrow(handle) {
                proof {
                    assert(sprite_at(h.node_ext_pools.sprite_pool@, i as int) == Some(*sprite));
                    assert(h.node_ext_pools.sprite_pool@.valid(handle@));
                    assert(h.owns_ext(pool@.lookup(handle@)->0.node_handle@, (0int, handle@)));
                }
                let node = hierarchy.object_pool.borrow(sprite.node_handle);
                if node.global_enabled {
                    let dx = node.global_transform.x as i64 - cam_x as i64;
                    let dy = node.global_transform.y as i64 - cam_y as i64;
                    let shown = dy < 192 * 4096 && dy > -64 * 4096 && dx < 256 * 4096 && dx > -128 * 4096;
                    let affine_ok = match &sprite.sprite_type {
                        SavedSpriteType::Affine(a) => !shown || (a.rotation != i32::MIN && a.scale_x != 0 && a.scale_y != 0),
                        SavedSpriteType::Normal => true,
                    };
                    let ok = self.mapping(sprite.graphic_asset.as_str()).is_some()
                        && hierarchy.game_data.graphics.get(sprite.graphic_asset.as_str()).is_some()
                        && i32::MIN as i64 <= dx && dx <= i32::MAX as i64
                        && i32::MIN as i64 <= dy && dy <= i32::MAX as i64
                        && affine_ok;
                    if !ok {
                        proof {
                            if sprites_drawable(h, vram, cam) {
                                lemma_drawable_at(h, vram, cam, i as int);
                            }
                        }
                        return false;
                    }
                }
            }
            proof {
                assert(sprite_drawable_at(h, vram, cam, i as int));
            }
            i = i + 1;
        }
        proof {
            assert forall|k: int| #[trigger] sprite_at(h.node_ext_pools.sprite_pool@, k) is Some
                && h.node(sprite_at(h.node_ext_pools.sprite_pool@, k)->0.node_handle@).global_enabled implies {
                let s = sprite_at(h.node_ext_pools.sprite_pool@, k)->0;
                let node = h.node(s.node_handle@);
                &&& vram.dom().contains(s.graphic_asset@)
                &&& graphic_table(h.game_data.graphics).dom().contains(s.graphic_asset@)
                &&& i32::MIN <= node.global_transform.x - cam.0 <= i32::MAX
                &&& i32::MIN <= node.global_transform.y - cam.1 <= i32::MAX
                &&& (on_screen(node.global_transform.x - cam.0, node.global_transform.y - cam.1)
            ==> (s.sprite_type matches SavedSpriteType::Affine(a) ==> a.rotation != i32::MIN && a.scale_x != 0 && a.scale_y != 0))
            } by {
                assert(sprite_drawable_at(h, vram, cam, k));
            }
        }
        true
    }
}

impl SpriteExtensionHandler {
    /// The objects to draw on the main and the sub screen, for the screens
    /// that have an active camera.
    pub fn sprite_update(&self, hierarchy: &Hierarchy, cameras: ActiveCameras) -> (r: (Option<Vec<SpriteEntry>>, Option<Vec<SpriteEntry>>))
        requires
            hierarchy.wf(),
            cameras.main matches Some(c) ==> hierarchy.node_ext_pools.camera_pool@.valid(c@)
                && sprites_drawable(*hierarchy, vram_table(self.sprite_vram_map), camera_position(*hierarchy, c@)),
            cameras.sub matches Some(c) ==> hierarchy.node_ext_pools.camera_pool@.valid(c@)
                && sprites_drawable(*hierarchy, vram_table(self.sprite_vram_map), camera_position(*hierarchy, c@)),
        ensures
            r.0 is Some <==> cameras.main is Some,
            r.1 is Some <==> cameras.sub is Some,
            r.0 is Some ==> r.0->0@ == entries_upto(*hierarchy, vram_table(self.sprite_vram_map),
                camera_position(*hierarchy, cameras.main->0@), hierarchy.node_ext_pools.sprite_pool@.slots.len() as int),
            r.1 is Some ==> r.1->0@ == entries_upto(*hierarchy, vram_table(self.sprite_vram_map),
                camera_position(*hierarchy, cameras.sub->0@), hierarchy.node_ext_pools.sprite_pool@.slots.len() as int),
    {
        let main = match cameras.main {
            Some(camera) => Some(self.sprite_update_for_engine(hierarchy, camera)),
            None => None,
        };
        let sub = match cameras.sub {
            Some(camera) => Some(self.sprite_update_for_engine(hierarchy, camera)),
            None => None,
        };
        (main, sub)
    }
}

} // verus!
