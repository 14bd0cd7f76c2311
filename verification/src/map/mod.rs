//! Filled maps: their saved data, what is drawn on them and who sees it.
pub mod biome_preview;
pub mod cadence;
pub mod packet;
pub mod player_sync;
pub mod store;
pub mod stripes;
pub mod synchronization;
pub mod synchronize;
pub mod terrain;
pub mod tracking;

use vstd::prelude::*;

use crate::ident::{Id, Identifier};
use crate::loot_table::conditions::BlockPos;
use crate::loot_table::entries::floor_div;

verus! {

/// The number of pixels of a map.
pub const MAP_COLOR_COUNT: usize = 16384;

/// The persistent data of one filled map, as a mathematical value.
#[verifier::ext_equal]
pub ghost struct SavedMap {
    pub center_x: i32,
    pub center_z: i32,
    pub world: Id,
    pub dimension_type: Id,
    pub tracking_position: bool,
    pub unlimited_tracking: bool,
    pub scale: i8,
    pub colors: Seq<u8>,
    pub locked: bool,
}

/// Persistent data backing one filled map.
#[derive(Debug)]
pub struct MapItemSavedData {
    pub center_x: i32,
    pub center_z: i32,
    /// The loaded world that the map shows.
    pub world: Identifier,
    pub dimension_type: Identifier,
    pub tracking_position: bool,
    pub unlimited_tracking: bool,
    pub scale: i8,
    pub colors: Vec<u8>,
    pub locked: bool,
}

impl View for MapItemSavedData {
    type V = SavedMap;

    open spec fn view(&self) -> SavedMap {
        SavedMap {
            center_x: self.center_x,
            center_z: self.center_z,
            world: self.world@,
            dimension_type: self.dimension_type@,
            tracking_position: self.tracking_position,
            unlimited_tracking: self.unlimited_tracking,
            scale: self.scale,
            colors: self.colors@,
            locked: self.locked,
        }
    }
}

/// What a fresh map is made from, as a mathematical value.
#[verifier::ext_equal]
pub ghost struct NewMap {
    pub origin: BlockPos,
    pub scale: i8,
    pub tracking_position: bool,
    pub unlimited_tracking: bool,
    pub world: Id,
    pub dimension_type: Id,
    pub colors: Seq<u8>,
}

/// Data required to allocate one fresh filled map.
#[derive(Debug)]
pub struct NewMapData {
    pub origin: BlockPos,
    pub scale: i8,
    pub tracking_position: bool,
    pub unlimited_tracking: bool,
    pub world: Identifier,
    pub dimension_type: Identifier,
    pub colors: Vec<u8>,
}

impl View for NewMapData {
    type V = NewMap;

    open spec fn view(&self) -> NewMap {
        NewMap {
            origin: self.origin,
            scale: self.scale,
            tracking_position: self.tracking_position,
            unlimited_tracking: self.unlimited_tracking,
            world: self.world@,
            dimension_type: self.dimension_type@,
            colors: self.colors@,
        }
    }
}

/// The maps of a list.
pub open spec fn new_maps(maps: Seq<NewMapData>) -> Seq<NewMap> {
    Seq::new(maps.len(), |i: int| maps[i]@)
}

/// Colors of a map on which nothing is drawn.
pub open spec fn blank_colors() -> Seq<u8> {
    Seq::new(MAP_COLOR_COUNT as nat, |i: int| 0u8)
}

/// Colors of a map on which nothing is drawn.
pub fn no_colors() -> (colors: Vec<u8>)
    ensures
        colors@ == blank_colors(),
{
    let colors: Vec<u8> = vec![0u8; MAP_COLOR_COUNT];
    assert(colors@ =~= blank_colors());
    colors
}

impl NewMapData {
    /// Blank map data.
    pub fn blank(
        world: &Identifier,
        dimension_type: &Identifier,
        origin: BlockPos,
        scale: i8,
        tracking_position: bool,
        unlimited_tracking: bool,
    ) -> (map: Self)
        ensures
            map@ == (NewMap {
                origin,
                scale,
                tracking_position,
                unlimited_tracking,
                world: world@,
                dimension_type: dimension_type@,
                colors: blank_colors(),
            }),
    {
        NewMapData {
            origin,
            scale,
            tracking_position,
            unlimited_tracking,
            world: world.clone(),
            dimension_type: dimension_type.clone(),
            colors: no_colors(),
        }
    }
}

/// The powers of two.
pub open spec fn power(exponent: nat) -> int
    decreases exponent,
{
    if exponent == 0 {
        1
    } else {
        2 * power((exponent - 1) as nat)
    }
}

proof fn lemma_power_grows(low: nat, high: nat)
    requires
        low <= high,
    ensures
        1 <= power(low) <= power(high),
    decreases high,
{
    if low < high {
        lemma_power_grows(low, (high - 1) as nat);
    } else if low > 0 {
        lemma_power_grows((low - 1) as nat, (low - 1) as nat);
    }
}

/// The five bits of a scale that say how often a map is doubled.
pub open spec fn doublings(scale: i8) -> nat {
    (scale as int % 32) as nat
}

/// The blocks along one side of a pixel, in 32 bits.
pub open spec fn pixel_side(scale: i8) -> int {
    if doublings(scale) == 31 {
        i32::MIN as int
    } else {
        power(doublings(scale))
    }
}

/// The blocks along one side of a map, in 32 bits.
pub open spec fn map_side(scale: i8) -> int {
    if doublings(scale) < 24 {
        128 * power(doublings(scale))
    } else if doublings(scale) == 24 {
        i32::MIN as int
    } else {
        0
    }
}

/// The blocks along one side of a pixel.
pub fn pixel_size(scale: i8) -> (side: i32)
    ensures
        side == pixel_side(scale),
        side >= 1 || side == i32::MIN,
{
    let count: i32 = (scale as i32 + 128) % 32;
    assert(count == doublings(scale));
    proof {
        lemma_power_grows(doublings(scale), doublings(scale));
    }
    if count == 31 {
        return i32::MIN;
    }
    let mut side: i32 = 1;
    let mut i: i32 = 0;
    while i < count
        invariant
            0 <= i <= count <= 30,
            side >= 1,
            side == power(i as nat),
        decreases count - i,
    {
        proof {
            lemma_power_grows(i as nat, 29);
            assert(power(29) == 0x2000_0000) by {
                reveal_with_fuel(power, 30);
            }
        }
        side = side * 2;
        i = i + 1;
    }
    side
}

fn map_size(scale: i8) -> (side: i32)
    ensures
        side == map_side(scale),
{
    let count: i32 = (scale as i32 + 128) % 32;
    assert(count == doublings(scale));
    if count > 24 {
        0
    } else if count == 24 {
        i32::MIN
    } else {
        proof {
            lemma_power_grows(doublings(scale), 23);
            assert(power(23) == 0x80_0000) by {
                reveal_with_fuel(power, 24);
            }
        }
        pixel_size(scale) * 128
    }
}

/// The number of the grid cell that a coordinate lies in, for cells of a given size.
pub open spec fn grid_cell(coordinate: i32, side: int) -> int {
    if side > 0 {
        (coordinate + 64) / side
    } else if side < 0 {
        (-(coordinate + 64)) / (-side)
    } else {
        0
    }
}

/// The center, along one axis, of the map that shows a coordinate.
pub open spec fn center_of(coordinate: i32, scale: i8) -> i32 {
    let side = map_side(scale);
    (grid_cell(coordinate, side) as i32).wrapping_mul(side as i32).wrapping_add(
        (if side < 0 {
            -(-side / 2)
        } else {
            side / 2
        } - 64) as i32,
    )
}

fn center(coordinate: i32, scale: i8) -> (center: i32)
    ensures
        center == center_of(coordinate, scale),
{
    let side: i32 = map_size(scale);
    let from: i128 = coordinate as i128 + 64;
    proof {
        if doublings(scale) < 24 {
            lemma_power_grows(0, doublings(scale));
        }
    }
    let cell: i128 = if side > 0 {
        assert(side >= 128);
        let cell: i128 = floor_div(from, side as i128);
        assert(-0x8000_0000 <= cell <= 0x7fff_ffff) by (nonlinear_arith)
            requires
                side >= 128,
                cell == from as int / (side as int),
                -0x8000_0000 + 64 <= from <= 0x7fff_ffff + 64,
        ;
        cell
    } else if side < 0 {
        assert(side == i32::MIN);
        let size: i128 = 0x8000_0000;
        let cell: i128 = floor_div(0 - from, size);
        assert(-2 <= cell <= 1);
        cell
    } else {
        0
    };
    let half: i32 = if side < 0 {
        -0x4000_0000
    } else {
        side / 2
    };
    (cell as i32).wrapping_mul(side).wrapping_add(half - 64)
}

impl MapItemSavedData {
    /// The center of the fresh map that shows a position: maps of a scale lie on a grid.
    pub fn fresh_center(origin: BlockPos, scale: i8) -> (center: (i32, i32))
        ensures
            center.0 == center_of(origin.x, scale),
            center.1 == center_of(origin.z, scale),
    {
        (center(origin.x, scale), center(origin.z, scale))
    }

    /// A copy of this map.
    pub fn copy(&self) -> (map: Self)
        ensures
            map@ == self@,
    {
        let colors = self.colors.clone();
        assert(colors@ =~= self.colors@);
        MapItemSavedData {
            center_x: self.center_x,
            center_z: self.center_z,
            world: self.world.clone(),
            dimension_type: self.dimension_type.clone(),
            tracking_position: self.tracking_position,
            unlimited_tracking: self.unlimited_tracking,
            scale: self.scale,
            colors,
            locked: self.locked,
        }
    }
}

/// The map made for a position shows it, wherever its center fits into 32 bits.
pub proof fn law_fresh_map_shows_origin(coordinate: i32, scale: i8)
    requires
        doublings(scale) < 24,
        i32::MIN <= grid_cell(coordinate, map_side(scale)) * map_side(scale) <= i32::MAX,
        grid_cell(coordinate, map_side(scale)) * map_side(scale) + map_side(scale) / 2 - 64
            <= i32::MAX,
        grid_cell(coordinate, map_side(scale)) * map_side(scale) + map_side(scale) / 2 - 64
            >= i32::MIN,
    ensures
        center_of(coordinate, scale) - map_side(scale) / 2 <= coordinate < center_of(
            coordinate,
            scale,
        ) + map_side(scale) / 2,
{
    let side = map_side(scale);
    lemma_power_grows(0, doublings(scale));
    lemma_power_grows(doublings(scale), 23);
    assert(power(23) == 0x80_0000) by {
        reveal_with_fuel(power, 24);
    }
    let cell = grid_cell(coordinate, side);
    assert(128 <= side <= 0x4000_0000);
    assert(-0x8000_0000 <= cell <= 0x7fff_ffff) by (nonlinear_arith)
        requires
            side >= 128,
            cell == (coordinate + 64) / side,
            -0x8000_0000 <= coordinate <= 0x7fff_ffff,
    ;
    assert(cell * side <= coordinate + 64 < cell * side + side) by (nonlinear_arith)
        requires
            side >= 128,
            cell == (coordinate + 64) / side,
    ;
    assert(side % 2 == 0);
    assert((cell as i32).wrapping_mul(side as i32) == cell * side);
}

/// The blocks along one side of a pixel, at the scales that a map is given.
pub open spec fn blocks_per_pixel(scale: i8) -> int {
    if scale <= 0 {
        1
    } else if scale == 1 {
        2
    } else if scale == 2 {
        4
    } else if scale == 3 {
        8
    } else {
        16
    }
}

pub proof fn lemma_scale_sizes(scale: i8)
    requires
        0 <= scale <= 4,
    ensures
        pixel_side(scale) == blocks_per_pixel(scale),
        map_side(scale) == 128 * blocks_per_pixel(scale),
{
    reveal_with_fuel(power, 5);
}

/// The maps of a scale lie on a grid of their own size that has a corner 64 blocks
/// before the origin, and a fresh map is the one of them that shows its position: its
/// area reaches 64 pixels from its center, to either side.
pub proof fn law_fresh_maps_lie_on_a_grid(coordinate: i32, scale: i8)
    requires
        0 <= scale <= 4,
        -0x7fff_f000 <= coordinate <= 0x7fff_f000,
    ensures
        ({
            let center = center_of(coordinate, scale) as int;
            let size = blocks_per_pixel(scale);
            &&& (center - 64 * size + 64) % (128 * size) == 0
            &&& center - 64 * size <= coordinate < center + 64 * size
        }),
{
    lemma_scale_sizes(scale);
    let side = map_side(scale);
    let cell = grid_cell(coordinate, side);
    if scale == 0 {
        lemma_grid(coordinate, 128);
    } else if scale == 1 {
        lemma_grid(coordinate, 256);
    } else if scale == 2 {
        lemma_grid(coordinate, 512);
    } else if scale == 3 {
        lemma_grid(coordinate, 1024);
    } else {
        lemma_grid(coordinate, 2048);
    }
    assert((cell as i32).wrapping_mul(side as i32) == cell * side);
}

proof fn lemma_grid(coordinate: i32, side: int)
    requires
        128 <= side <= 2048,
        -0x7fff_f000 <= coordinate <= 0x7fff_f000,
    ensures
        ({
            let cell = grid_cell(coordinate, side);
            &&& -0x8000_0000 <= cell <= 0x7fff_ffff
            &&& -0x7fff_ff00 <= cell * side <= 0x7fff_f100
            &&& cell * side <= coordinate + 64 < cell * side + side
            &&& (cell * side) % side == 0
        }),
{
    let cell = grid_cell(coordinate, side);
    assert(cell * side <= coordinate + 64 < cell * side + side) by (nonlinear_arith)
        requires
            side >= 128,
            cell == (coordinate + 64) / side,
    ;
    assert(-0x8000_0000 <= cell <= 0x7fff_ffff) by (nonlinear_arith)
        requires
            side >= 128,
            cell == (coordinate + 64) / side,
            -0x8000_0000 <= coordinate <= 0x7fff_ffff,
    ;
    assert((cell * side) % side == 0) by (nonlinear_arith)
        requires
            side >= 128,
    ;
}

} // verus!
