//! Terrain sampling for unlocked maps that are held in a hand.
use rustc_hash::FxHashSet;

use vstd::prelude::*;

use crate::hashing::fx_hasher;
use crate::ident::Identifier;
use crate::map::store::clamped_scale;
use crate::map::{power, MapItemSavedData, SavedMap, MAP_COLOR_COUNT};
use crate::map_color::{MapBrightness, MapColor};

verus! {

/// The pixels along one side of a map.
pub const MAP_SIDE: i32 = 128;

/// A chunk position.
#[derive(Debug, Clone, Copy, PartialEq, Eq, Structural)]
pub struct ChunkPos {
    pub x: i32,
    pub z: i32,
}

/// A rectangle of pixels that have changed, with its edges.
#[derive(Debug, Clone, Copy, PartialEq, Eq, Structural)]
pub struct MapDirtyBounds {
    pub min_x: u8,
    pub min_y: u8,
    pub max_x: u8,
    pub max_y: u8,
}

pub open spec fn least(a: u8, b: u8) -> u8 {
    if a <= b {
        a
    } else {
        b
    }
}

pub open spec fn greatest(a: u8, b: u8) -> u8 {
    if a >= b {
        a
    } else {
        b
    }
}

impl MapDirtyBounds {
    /// A pixel lies in the rectangle.
    pub open spec fn covers(self, x: int, y: int) -> bool {
        self.min_x <= x <= self.max_x && self.min_y <= y <= self.max_y
    }

    /// The rectangle is not empty and lies on the map.
    pub open spec fn on_map(self) -> bool {
        self.min_x <= self.max_x <= 127 && self.min_y <= self.max_y <= 127
    }

    /// The smallest rectangle with this one and a pixel in it.
    pub open spec fn extended(self, x: u8, y: u8) -> MapDirtyBounds {
        MapDirtyBounds {
            min_x: least(self.min_x, x),
            min_y: least(self.min_y, y),
            max_x: greatest(self.max_x, x),
            max_y: greatest(self.max_y, y),
        }
    }

    /// The smallest rectangle with both in it.
    pub open spec fn merged(self, other: MapDirtyBounds) -> MapDirtyBounds {
        self.extended(other.min_x, other.min_y).extended(other.max_x, other.max_y)
    }

    /// The whole map.
    pub fn full() -> (bounds: Self)
        ensures
            bounds == (MapDirtyBounds { min_x: 0, min_y: 0, max_x: 127, max_y: 127 }),
    {
        MapDirtyBounds { min_x: 0, min_y: 0, max_x: 127, max_y: 127 }
    }

    /// One pixel.
    pub fn single(x: u8, y: u8) -> (bounds: Self)
        ensures
            bounds == (MapDirtyBounds { min_x: x, min_y: y, max_x: x, max_y: y }),
    {
        MapDirtyBounds { min_x: x, min_y: y, max_x: x, max_y: y }
    }

    /// Extends the rectangle to a pixel.
    pub fn extend(&mut self, x: u8, y: u8)
        ensures
            *final(self) == old(self).extended(x, y),
    {
        if x < self.min_x {
            self.min_x = x;
        }
        if y < self.min_y {
            self.min_y = y;
        }
        if x > self.max_x {
            self.max_x = x;
        }
        if y > self.max_y {
            self.max_y = y;
        }
    }

    /// Extends the rectangle to another one.
    pub fn merge(&mut self, other: MapDirtyBounds)
        ensures
            *final(self) == old(self).merged(other),
    {
        self.extend(other.min_x, other.min_y);
        self.extend(other.max_x, other.max_y);
    }
}

/// Merged rectangles cover every pixel that one of them covers, and stay on the map.
pub proof fn law_merged_bounds_cover_both(a: MapDirtyBounds, b: MapDirtyBounds)
    ensures
        forall|x: int, y: int|
            a.covers(x, y) || b.covers(x, y) ==> #[trigger] a.merged(b).covers(x, y),
        a.on_map() && b.on_map() ==> a.merged(b).on_map(),
{
}

/// What is seen of one pixel's area from above.
#[derive(Debug, Clone, Copy)]
pub struct TerrainSample {
    /// The sum of the heights of the area's columns.
    pub total_height: i64,
    pub water_depth: i32,
    pub color: MapColor,
}

/// One block of a column.
#[derive(Debug, Clone, Copy)]
pub struct ColumnBlock {
    pub color: MapColor,
    /// The block holds a fluid.
    pub fluid: bool,
    /// The block's upper face is sturdy.
    pub sturdy: bool,
    /// The color of the fluid that the block holds.
    pub fluid_color: MapColor,
}

/// One column of blocks.
#[derive(Debug)]
pub struct TerrainColumn {
    /// The height of the first free block above the surface.
    pub height: i32,
    /// The blocks below that height, from the top down to the lowest one.
    pub blocks: Vec<ColumnBlock>,
}

impl TerrainColumn {
    /// All blocks of the column are known.
    pub open spec fn complete(self, min_y: i32) -> bool {
        self.height > min_y ==> self.blocks@.len() == self.height - min_y
    }
}

/// The place of the block that gives a column its color: the first one with a color
/// of its own, or the lowest one.
pub open spec fn surface_place(blocks: Seq<ColumnBlock>) -> int
    decreases blocks.len(),
{
    if blocks.len() <= 1 || blocks[0].color.spec_id() != 0 {
        0
    } else {
        1 + surface_place(blocks.drop_first())
    }
}

/// The depth of the water whose surface block stands over the given ones, which end
/// with the lowest block.
pub open spec fn depth_below(blocks: Seq<ColumnBlock>) -> int
    decreases blocks.len(),
{
    if blocks.len() == 0 {
        0
    } else if blocks.len() <= 2 || !blocks[0].fluid {
        1
    } else {
        1 + depth_below(blocks.drop_first())
    }
}

/// What is seen of a column: its height, the depth of its water and its color.
pub ghost struct SeenColumn {
    pub height: int,
    pub depth: int,
    pub color: u8,
}

/// The color of bedrock, which shows where a column is empty.
pub open spec fn bedrock_color() -> u8 {
    11
}

impl TerrainColumn {
    /// What is seen of the column.
    pub open spec fn seen(self, min_y: i32) -> SeenColumn {
        if self.height <= min_y {
            SeenColumn { height: self.height as int, depth: 0, color: bedrock_color() }
        } else {
            let place = surface_place(self.blocks@);
            let block = self.blocks@[place];
            let height = self.height - 1 - place;
            if height > min_y && block.fluid {
                SeenColumn {
                    height,
                    depth: depth_below(self.blocks@.skip(place + 1)),
                    color: if block.sturdy {
                        block.color.spec_id()
                    } else {
                        block.fluid_color.spec_id()
                    },
                }
            } else {
                SeenColumn { height, depth: 0, color: block.color.spec_id() }
            }
        }
    }
}

proof fn lemma_surface_place(blocks: Seq<ColumnBlock>)
    requires
        blocks.len() > 0,
    ensures
        0 <= surface_place(blocks) < blocks.len(),
    decreases blocks.len(),
{
    if blocks.len() > 1 && blocks[0].color.spec_id() == 0 {
        lemma_surface_place(blocks.drop_first());
    }
}

proof fn lemma_depth(blocks: Seq<ColumnBlock>)
    ensures
        0 <= depth_below(blocks) <= blocks.len(),
    decreases blocks.len(),
{
    if blocks.len() > 2 && blocks[0].fluid {
        lemma_depth(blocks.drop_first());
    }
}

impl TerrainColumn {
    /// What is seen of the column: its height, the depth of its water and its color.
    fn see(&self, min_y: i32) -> (seen: (i32, i32, MapColor))
        requires
            self.complete(min_y),
            self.height > i32::MIN,
            self.blocks@.len() <= i32::MAX,
        ensures
            seen.0 == self.seen(min_y).height,
            seen.1 == self.seen(min_y).depth,
            seen.2.spec_id() == self.seen(min_y).color,
            0 <= seen.1 <= i32::MAX,
    {
        if self.height <= min_y {
            return (self.height, 0, MapColor::stone());
        }
        let blocks = &self.blocks;
        proof {
            lemma_surface_place(blocks@);
        }
        let mut place: usize = 0;
        assert(blocks@.skip(0) =~= blocks@);
        while place < blocks.len() - 1 && blocks[place].color.id() == 0
            invariant
                place < blocks@.len(),
                surface_place(blocks@) == place + surface_place(blocks@.skip(place as int)),
            decreases blocks@.len() - place,
        {
            assert(blocks@.skip(place as int).drop_first() =~= blocks@.skip(place + 1));
            place = place + 1;
        }
        assert(surface_place(blocks@) == place);
        let block = blocks[place];
        let height: i32 = self.height - 1 - place as i32;
        if height <= min_y || !block.fluid {
            return (height, 0, block.color);
        }
        let ghost below = blocks@.skip(place + 1);
        let mut depth: i32 = 1;
        let mut at: usize = place + 1;
        assert(below == blocks@.skip(at as int));
        while blocks.len() - at > 2 && blocks[at].fluid
            invariant
                place < at < blocks@.len(),
                blocks@.len() <= i32::MAX,
                depth == at - place,
                below == blocks@.skip(place + 1),
                depth_below(below) == depth - 1 + depth_below(blocks@.skip(at as int)),
            decreases blocks@.len() - at,
        {
            assert(blocks@.skip(at as int).drop_first() =~= blocks@.skip(at + 1));
            depth = depth + 1;
            at = at + 1;
        }
        assert(depth_below(blocks@.skip(at as int)) == 1);
        let color = if block.sturdy {
            block.color
        } else {
            block.fluid_color
        };
        (height, depth, color)
    }
}

/// Colors with how often they occur, in the order of their first occurrence, as
/// mathematical values.
pub open spec fn counted(colors: Seq<(MapColor, i32)>) -> Seq<(u8, int)> {
    Seq::new(colors.len(), |i: int| (colors[i].0.spec_id(), colors[i].1 as int))
}

/// The place of a color, or the number of colors where it does not occur.
pub open spec fn color_place(colors: Seq<(u8, int)>, color: u8) -> int
    decreases colors.len(),
{
    if colors.len() == 0 || colors[0].0 == color {
        0
    } else {
        1 + color_place(colors.drop_first(), color)
    }
}

/// Counted colors with one more.
pub open spec fn with_color(colors: Seq<(u8, int)>, color: u8) -> Seq<(u8, int)> {
    let place = color_place(colors, color);
    if 0 <= place < colors.len() {
        colors.update(place, (color, colors[place].1 + 1))
    } else {
        colors.push((color, 1))
    }
}

/// The most common color and how often it occurs; of several such the first one, and
/// the transparent one where there is none.
pub open spec fn most_common(colors: Seq<(u8, int)>) -> (u8, int)
    decreases colors.len(),
{
    if colors.len() == 0 {
        (0, 0)
    } else {
        let best = most_common(colors.drop_last());
        if colors.last().1 > best.1 {
            colors.last()
        } else {
            best
        }
    }
}

/// Counts one more color.
pub fn add_color(colors: &mut Vec<(MapColor, i32)>, color: MapColor)
    requires
        forall|i: int| 0 <= i < old(colors)@.len() ==> (#[trigger] old(colors)@[i]).1 < i32::MAX,
    ensures
        counted(final(colors)@) == with_color(counted(old(colors)@), color.spec_id()),
{
    let ghost before = counted(colors@);
    let id: u8 = color.id();
    let mut i: usize = 0;
    assert(before.skip(0) =~= before);
    while i < colors.len()
        invariant
            i <= colors@.len(),
            colors@ == old(colors)@,
            before == counted(colors@),
            id == color.spec_id(),
            color_place(before, id) == i + color_place(before.skip(i as int), id),
            forall|i: int| 0 <= i < old(colors)@.len() ==> (#[trigger] old(colors)@[i]).1
                < i32::MAX,
        decreases colors@.len() - i,
    {
        assert(before.skip(i as int).drop_first() =~= before.skip(i + 1));
        let (existing, count) = colors[i];
        if existing.id() == id {
            colors.set(i, (existing, count + 1));
            assert(counted(colors@) =~= with_color(before, id));
            return;
        }
        i = i + 1;
    }
    colors.push((color, 1));
    assert(counted(colors@) =~= with_color(before, id));
}

/// The most common color; of several such the first one.
pub fn most_common_color(colors: &Vec<(MapColor, i32)>) -> (color: MapColor)
    ensures
        color.spec_id() == most_common(counted(colors@)).0,
{
    let ghost all = counted(colors@);
    let mut best: (MapColor, i32) = (MapColor::none(), 0);
    let mut i: usize = 0;
    assert(all.take(0) =~= Seq::empty());
    while i < colors.len()
        invariant
            i <= colors@.len(),
            all == counted(colors@),
            best.0.spec_id() == most_common(all.take(i as int)).0,
            best.1 == most_common(all.take(i as int)).1,
        decreases colors@.len() - i,
    {
        assert(all.take(i + 1).drop_last() =~= all.take(i as int));
        let counted_color = colors[i];
        if counted_color.1 > best.1 {
            best = counted_color;
        }
        i = i + 1;
    }
    assert(all.take(i as int) =~= all);
    best.0
}

/// The brightness of water: it darkens with the depth, in a checkered pattern. The
/// limits are those of a tenth of the depth, with two tenths on every other pixel,
/// against one half and nine tenths in double precision.
pub open spec fn water_shade(depth: int, x: int, y: int) -> MapBrightness {
    let odd = (x + y) % 2 != 0;
    if depth < if odd {
        3int
    } else {
        5
    } {
        MapBrightness::High
    } else if depth > if odd {
        6int
    } else {
        9
    } {
        MapBrightness::Low
    } else {
        MapBrightness::Normal
    }
}

/// Whether a pixel is one of every other.
fn is_odd(x: i32, y: i32) -> (odd: bool)
    ensures
        odd == ((x + y) % 2 != 0),
{
    let sum: i64 = x as i64 + y as i64 + 0x1_0000_0000;
    assert(sum as int % 2 == (x + y) % 2);
    sum % 2 != 0
}

/// The brightness of water: it darkens with the depth, in a checkered pattern.
pub fn water_brightness(water_depth: i32, image_x: i32, image_y: i32) -> (brightness: MapBrightness)
    ensures
        brightness == water_shade(water_depth as int, image_x as int, image_y as int),
{
    let odd = is_odd(image_x, image_y);
    let high: i32 = if odd {
        3
    } else {
        5
    };
    let low: i32 = if odd {
        6
    } else {
        9
    };
    if water_depth < high {
        MapBrightness::High
    } else if water_depth > low {
        MapBrightness::Low
    } else {
        MapBrightness::Normal
    }
}

/// The brightness of land: slopes that rise are bright and slopes that fall are dark,
/// in a checkered pattern. A rise is the difference of two sums of the heights of
/// `scale * scale` columns. The limits are those of four times the mean rise, divided
/// by the scale plus four, with two tenths more or less on every other pixel, against
/// six tenths in double precision, where a rise at the limit is beyond it.
pub open spec fn land_shade(rise: int, scale: int, x: int, y: int) -> MapBrightness {
    let odd = (x + y) % 2 != 0;
    let limit = scale * scale * (scale + 4);
    if rise * if odd {
        10int
    } else {
        5
    } >= limit {
        MapBrightness::High
    } else if rise * if odd {
        5int
    } else {
        10
    } <= -limit {
        MapBrightness::Low
    } else {
        MapBrightness::Normal
    }
}

/// The brightness of land, from the sums of the heights of two pixels' columns.
pub fn terrain_brightness(
    total_height: i64,
    previous_total_height: i64,
    scale: i32,
    image_x: i32,
    image_y: i32,
) -> (brightness: MapBrightness)
    requires
        1 <= scale <= 16,
    ensures
        brightness == land_shade(
            total_height - previous_total_height,
            scale as int,
            image_x as int,
            image_y as int,
        ),
{
    let odd = is_odd(image_x, image_y);
    let rise: i128 = total_height as i128 - previous_total_height as i128;
    assert(0 <= scale * scale <= 256) by (nonlinear_arith)
        requires
            1 <= scale <= 16,
    ;
    assert(0 <= scale * scale * (scale + 4) <= 5120) by (nonlinear_arith)
        requires
            1 <= scale <= 16,
            0 <= scale * scale <= 256,
    ;
    let limit: i128 = (scale * scale * (scale + 4)) as i128;
    let up: i128 = if odd {
        10
    } else {
        5
    };
    let down: i128 = if odd {
        5
    } else {
        10
    };
    if rise * up >= limit {
        MapBrightness::High
    } else if rise * down <= -limit {
        MapBrightness::Low
    } else {
        MapBrightness::Normal
    }
}

/// The counted colors of the first `count` columns.
pub open spec fn seen_colors(columns: Seq<TerrainColumn>, min_y: i32) -> Seq<(u8, int)>
    decreases columns.len(),
{
    if columns.len() == 0 {
        Seq::empty()
    } else {
        with_color(
            seen_colors(columns.drop_last(), min_y),
            columns.last().seen(min_y).color,
        )
    }
}

/// The sum of the heights of columns.
pub open spec fn seen_height(columns: Seq<TerrainColumn>, min_y: i32) -> int
    decreases columns.len(),
{
    if columns.len() == 0 {
        0
    } else {
        seen_height(columns.drop_last(), min_y) + columns.last().seen(min_y).height
    }
}

/// The sum of the depths of columns.
pub open spec fn seen_depth(columns: Seq<TerrainColumn>, min_y: i32) -> int
    decreases columns.len(),
{
    if columns.len() == 0 {
        0
    } else {
        seen_depth(columns.drop_last(), min_y) + columns.last().seen(min_y).depth
    }
}

/// Columns of which all blocks are known, and that are no higher than worlds are.
pub open spec fn sampled(columns: Seq<TerrainColumn>, min_y: i32) -> bool {
    &&& 1 <= columns.len() <= 256
    &&& forall|i: int|
        0 <= i < columns.len() ==> {
            &&& (#[trigger] columns[i]).complete(min_y)
            &&& columns[i].height > i32::MIN
            &&& columns[i].blocks@.len() <= 0x7f_ffff
        }
}

proof fn lemma_counts(columns: Seq<TerrainColumn>, min_y: i32)
    ensures
        forall|i: int|
            0 <= i < seen_colors(columns, min_y).len() ==> 0 <= (#[trigger] seen_colors(
                columns,
                min_y,
            )[i]).1 <= columns.len(),
    decreases columns.len(),
{
    if columns.len() > 0 {
        lemma_counts(columns.drop_last(), min_y);
        let before = seen_colors(columns.drop_last(), min_y);
        let color = columns.last().seen(min_y).color;
        let after = with_color(before, color);
        let place = color_place(before, color);
        assert forall|i: int| 0 <= i < after.len() implies 0 <= (#[trigger] after[i]).1
            <= columns.len() by {
            if i < before.len() {
                assert(0 <= before[i].1 <= columns.len() - 1);
            }
        }
    }
}

/// Samples the area of one pixel: the sum of its heights, the mean depth of its water
/// and its most common color.
pub fn terrain_sample(columns: &Vec<TerrainColumn>, min_y: i32) -> (sample: TerrainSample)
    requires
        sampled(columns@, min_y),
    ensures
        sample.total_height == seen_height(columns@, min_y),
        sample.water_depth == seen_depth(columns@, min_y) / columns@.len() as int,
        sample.color.spec_id() == most_common(seen_colors(columns@, min_y)).0,
{
    let mut total: i64 = 0;
    let mut depth: i32 = 0;
    let mut colors: Vec<(MapColor, i32)> = Vec::new();
    let mut i: usize = 0;
    assert(columns@.take(0) =~= Seq::empty());
    assert(counted(colors@) =~= Seq::empty());
    while i < columns.len()
        invariant
            i <= columns@.len(),
            sampled(columns@, min_y),
            total == seen_height(columns@.take(i as int), min_y),
            -0x1_0000_0000 * i <= total <= 0x1_0000_0000 * i,
            depth == seen_depth(columns@.take(i as int), min_y),
            0 <= depth <= 0x7f_ffff * i,
            counted(colors@) == seen_colors(columns@.take(i as int), min_y),
        decreases columns@.len() - i,
    {
        assert(columns@.take(i + 1).drop_last() =~= columns@.take(i as int));
        assert(columns@.take(i + 1).last() == columns@[i as int]);
        proof {
            lemma_counts(columns@.take(i as int), min_y);
            assert forall|j: int| 0 <= j < colors@.len() implies (#[trigger] colors@[j]).1
                < i32::MAX by {
                assert(counted(colors@)[j].1 <= i);
            }
        }
        let column = &columns[i];
        let (height, water, color) = column.see(min_y);
        assert(water <= 0x7f_ffff) by {
            if column.height > min_y {
                lemma_surface_place(column.blocks@);
                lemma_depth(column.blocks@.skip(surface_place(column.blocks@) + 1));
            }
        }
        total = total + height as i64;
        depth = depth + water;
        add_color(&mut colors, color);
        i = i + 1;
    }
    assert(columns@.take(i as int) =~= columns@);
    let area: i32 = columns.len() as i32;
    TerrainSample {
        total_height: total,
        water_depth: depth / area,
        color: most_common_color(&colors),
    }
}

/// A number that looks random, from a position under a ceiling.
pub open spec fn ceiling_noise(x: i32, z: i32) -> i32 {
    let seed = x.wrapping_add(z.wrapping_mul(231_871));
    seed.wrapping_mul(seed).wrapping_mul(31_287_121).wrapping_add(seed.wrapping_mul(11))
}

/// The twenty-first bit of a number.
pub open spec fn noise_bit(noise: i32) -> bool {
    (noise as int / 0x10_0000) % 2 != 0
}

/// What is seen of one pixel's area in a world with a ceiling: a mix of dirt and stone.
pub fn ceiling_sample(area_min_x: i32, area_min_z: i32, scale: i32) -> (sample: TerrainSample)
    requires
        1 <= scale <= 16,
    ensures
        sample.total_height == 100 * (scale * scale),
        sample.water_depth == 0,
        sample.color.spec_id() == if noise_bit(ceiling_noise(area_min_x, area_min_z)) {
            11u8
        } else {
            10u8
        },
{
    let seed: i32 = area_min_x.wrapping_add(area_min_z.wrapping_mul(231_871));
    let noise: i32 = seed.wrapping_mul(seed).wrapping_mul(31_287_121).wrapping_add(
        seed.wrapping_mul(11),
    );
    let shifted: i64 = (noise as i64 + 0x8000_0000) / 0x10_0000;
    assert(shifted == noise as int / 0x10_0000 + 2048);
    assert(0 <= scale * scale <= 256) by (nonlinear_arith)
        requires
            1 <= scale <= 16,
    ;
    TerrainSample {
        total_height: 100 * (scale * scale) as i64,
        water_depth: 0,
        color: if shifted % 2 == 0 {
            MapColor::dirt()
        } else {
            MapColor::stone()
        },
    }
}

/// The columns of one pixel's area, and the lowest height of their world.
pub struct SampledColumns {
    pub columns: Vec<TerrainColumn>,
    pub min_y: i32,
}

/// Samples the area of one pixel: noise in a world with a ceiling, its columns in
/// another world, nothing where it is not loaded.
pub fn sample_area<C: FnOnce() -> SampledColumns>(
    loaded: bool,
    has_ceiling: bool,
    area_min_x: i32,
    area_min_z: i32,
    scale: i32,
    read: C,
) -> (sample: Option<TerrainSample>)
    requires
        1 <= scale <= 16,
        loaded && !has_ceiling ==> read.requires(()),
        forall|area: SampledColumns| #[trigger]
            read.ensures((), area) ==> sampled(area.columns@, area.min_y) && area.columns@.len()
                == scale * scale,
    ensures
        sample is Some == loaded,
        loaded && has_ceiling ==> {
            &&& sample->0.total_height == 100 * (scale * scale)
            &&& sample->0.water_depth == 0
            &&& sample->0.color.spec_id() == if noise_bit(ceiling_noise(area_min_x, area_min_z)) {
                11u8
            } else {
                10u8
            }
        },
        loaded && !has_ceiling ==> exists|area: SampledColumns| #[trigger]
            read.ensures((), area) && {
                &&& area.columns@.len() == scale * scale
                &&& sample->0.total_height == seen_height(area.columns@, area.min_y)
                &&& sample->0.water_depth == seen_depth(area.columns@, area.min_y)
                    / area.columns@.len() as int
                &&& sample->0.color.spec_id() == most_common(
                    seen_colors(area.columns@, area.min_y),
                ).0
            },
{
    if !loaded {
        return None;
    }
    if has_ceiling {
        return Some(ceiling_sample(area_min_x, area_min_z, scale));
    }
    let area = read();
    let sample = terrain_sample(&area.columns, area.min_y);
    assert(read.ensures((), area));
    Some(sample)
}

/// Division that rounds toward zero.
pub open spec fn truncated(value: int, divisor: int) -> int {
    if value >= 0 {
        value / divisor
    } else {
        -((-value) / divisor)
    }
}

fn truncate(value: i32, divisor: i32) -> (quotient: i32)
    requires
        1 <= divisor <= 16,
    ensures
        quotient == truncated(value as int, divisor as int),
        -0x8000_0000 <= quotient <= 0x7fff_ffff,
        quotient * divisor - 16 < value < quotient * divisor + 16,
{
    let wide: i64 = value as i64;
    let size: i64 = divisor as i64;
    let quotient: i64 = if wide >= 0 {
        wide / size
    } else {
        -((-wide) / size)
    };
    assert(-0x8000_0000 <= quotient <= 0x7fff_ffff && quotient * divisor - 16 < value < quotient
        * divisor + 16) by (nonlinear_arith)
        requires
            1 <= divisor <= 16,
            -0x8000_0000 <= value <= 0x7fff_ffff,
            quotient == if value >= 0 {
                value as int / (divisor as int)
            } else {
                -((-value) / (divisor as int))
            },
    ;
    quotient as i32
}

/// What a held map shows around its holder.
#[derive(Debug, Clone, Copy)]
pub struct SamplingArea {
    /// The blocks along one side of a pixel.
    pub scale: i32,
    /// The pixel of the holder.
    pub player_image_x: i32,
    pub player_image_y: i32,
    /// The pixels up to which the holder sees.
    pub radius: i32,
}

/// A distance from a map's center that leaves room for the pixels around it.
pub open spec fn fits_offset(offset: i32) -> bool {
    -0x7fff_ff00 <= offset <= 0x7fff_ff00
}

/// A map's center that leaves room for the blocks around it.
pub open spec fn fits_center(map: SavedMap) -> bool {
    -0x7fff_fb00 <= map.center_x <= 0x7fff_fb00 && -0x7fff_fb00 <= map.center_z <= 0x7fff_fb00
}

/// What a map shows around a holder at the given distance from its center, in a world
/// with or without a ceiling.
pub open spec fn area_around(map: SavedMap, has_ceiling: bool, offset_x: i32, offset_z: i32) -> SamplingArea {
    let scale = power(clamped_scale(map.scale) as nat);
    SamplingArea {
        scale: scale as i32,
        player_image_x: (truncated(offset_x as int, scale) + 64) as i32,
        player_image_y: (truncated(offset_z as int, scale) + 64) as i32,
        radius: if has_ceiling {
            (128int / scale / 2) as i32
        } else {
            (128int / scale) as i32
        },
    }
}

impl SamplingArea {
    /// The area's numbers leave room for its pixels.
    pub open spec fn sound(self) -> bool {
        &&& 1 <= self.scale <= 16
        &&& 4 <= self.radius <= 128
        &&& -0x7fff_ff50 <= self.player_image_x <= 0x7fff_ff50
        &&& -0x7fff_ff50 <= self.player_image_y <= 0x7fff_ff50
    }

    /// The first block, along one axis, of a pixel's area.
    pub open spec fn corner(self, center: i32, image: int) -> int {
        (truncated(center as int, self.scale as int) + image - 64) * self.scale
    }

    /// The chunk of a pixel's area.
    pub open spec fn chunk(self, map: SavedMap, x: int, y: int) -> ChunkPos {
        ChunkPos {
            x: (self.corner(map.center_x, x) / 16) as i32,
            z: (self.corner(map.center_z, y) / 16) as i32,
        }
    }

    /// What a map shows around a holder in a world; nothing where it is locked or
    /// shows another world.
    pub fn new(
        world: &Identifier,
        has_ceiling: bool,
        offset_x: i32,
        offset_z: i32,
        map: &MapItemSavedData,
    ) -> (area: Option<Self>)
        requires
            fits_offset(offset_x),
            fits_offset(offset_z),
        ensures
            match area {
                Some(area) => {
                    &&& !map@.locked && map@.world == world@
                    &&& area == area_around(map@, has_ceiling, offset_x, offset_z)
                    &&& area.sound()
                },
                None => map@.locked || map@.world != world@,
            },
    {
        if map.locked || !map.world.same(world) {
            return None;
        }
        proof {
            reveal_with_fuel(power, 6);
        }
        let scale: i32 = if map.scale <= 0 {
            1
        } else if map.scale == 1 {
            2
        } else if map.scale == 2 {
            4
        } else if map.scale == 3 {
            8
        } else {
            16
        };
        assert(scale == power(clamped_scale(map.scale) as nat));
        let image_x: i32 = truncate(offset_x, scale);
        let image_y: i32 = truncate(offset_z, scale);
        assert(-0x7fff_ff10 <= image_x <= 0x7fff_ff10) by (nonlinear_arith)
            requires
                1 <= scale <= 16,
                -0x7fff_ff00 <= offset_x <= 0x7fff_ff00,
                image_x * scale - 16 < offset_x < image_x * scale + 16,
        ;
        assert(-0x7fff_ff10 <= image_y <= 0x7fff_ff10) by (nonlinear_arith)
            requires
                1 <= scale <= 16,
                -0x7fff_ff00 <= offset_z <= 0x7fff_ff00,
                image_y * scale - 16 < offset_z < image_y * scale + 16,
        ;
        let radius: i32 = if has_ceiling {
            128 / scale / 2
        } else {
            128 / scale
        };
        Some(
            SamplingArea {
                scale,
                player_image_x: image_x + 64,
                player_image_y: image_y + 64,
                radius,
            },
        )
    }

    /// The first block, along one axis, of a pixel's area.
    fn corner_of(&self, center: i32, image: i32) -> (corner: i32)
        requires
            self.sound(),
            -0x7fff_fb00 <= center <= 0x7fff_fb00,
            -1 <= image < 128,
        ensures
            corner == self.corner(center, image as int),
    {
        let cell: i32 = truncate(center, self.scale);
        let scale: i32 = self.scale;
        assert(-0x7fff_ff00 <= cell <= 0x7fff_ff00 && -0x7fff_ffff <= (cell + image - 64) * scale
            <= 0x7fff_ffff) by (nonlinear_arith)
            requires
                1 <= scale <= 16,
                -1 <= image < 128,
                -0x7fff_fb00 <= center <= 0x7fff_fb00,
                cell * scale - 16 < center < cell * scale + 16,
        ;
        (cell + image - 64) * scale
    }
}

/// Chunks with one more, where it is not among them.
pub open spec fn with_chunk(chunks: Seq<ChunkPos>, chunk: ChunkPos) -> Seq<ChunkPos> {
    if chunks.contains(chunk) {
        chunks
    } else {
        chunks.push(chunk)
    }
}

/// Chunks with those of a column's pixels.
pub open spec fn with_column_chunks(
    chunks: Seq<ChunkPos>,
    area: SamplingArea,
    map: SavedMap,
    x: int,
    from: int,
    to: int,
) -> Seq<ChunkPos>
    decreases to - from,
{
    if from >= to {
        chunks
    } else {
        with_column_chunks(
            if -1 <= from < 128 {
                with_chunk(chunks, area.chunk(map, x, from))
            } else {
                chunks
            },
            area,
            map,
            x,
            from + 1,
            to,
        )
    }
}

/// Chunks with those of several columns' pixels.
pub open spec fn with_area_chunks(
    chunks: Seq<ChunkPos>,
    area: SamplingArea,
    map: SavedMap,
    from: int,
    to: int,
) -> Seq<ChunkPos>
    decreases to - from,
{
    if from >= to {
        chunks
    } else {
        with_area_chunks(
            if 0 <= from < 128 {
                with_column_chunks(
                    chunks,
                    area,
                    map,
                    from,
                    area.player_image_y - area.radius - 1,
                    area.player_image_y + area.radius,
                )
            } else {
                chunks
            },
            area,
            map,
            from + 1,
            to,
        )
    }
}

/// Every chunk of an area, in the order in which it is first met.
pub open spec fn area_chunks(area: SamplingArea, map: SavedMap) -> Seq<ChunkPos> {
    with_area_chunks(
        Seq::empty(),
        area,
        map,
        area.player_image_x - area.radius + 1,
        area.player_image_x + area.radius,
    )
}

/// A chunk position as one number.
spec fn packed(chunk: ChunkPos) -> int {
    chunk.x * 0x1_0000_0000 + chunk.z + 0x8000_0000
}

fn pack(chunk: ChunkPos) -> (number: i64)
    ensures
        number == packed(chunk),
{
    chunk.x as i64 * 0x1_0000_0000 + (chunk.z as i64 + 0x8000_0000)
}

/// The set tells which chunks are listed.
spec fn tells(seen: Set<i64>, chunks: Seq<ChunkPos>) -> bool {
    forall|chunk: ChunkPos|
        chunks.contains(chunk) <==> seen.contains(#[trigger] packed(chunk) as i64)
}

fn note_chunk(seen: &mut FxHashSet<i64>, chunks: &mut Vec<ChunkPos>, chunk: ChunkPos)
    requires
        tells(old(seen)@, old(chunks)@),
    ensures
        tells(final(seen)@, final(chunks)@),
        final(chunks)@ == with_chunk(old(chunks)@, chunk),
{
    let _hasher = fx_hasher();
    let number: i64 = pack(chunk);
    let ghost before = chunks@;
    if seen.insert(number) {
        assert(!before.contains(chunk));
        chunks.push(chunk);
        assert(chunks@.last() == chunk);
        assert forall|other: ChunkPos|
            chunks@.contains(other) <==> seen@.contains(#[trigger] packed(other) as i64) by {
            if before.contains(other) {
                let i = choose|i: int| 0 <= i < before.len() && before[i] == other;
                assert(chunks@[i] == other);
            }
            if chunks@.contains(other) && other != chunk {
                let i = choose|i: int| 0 <= i < chunks@.len() && chunks@[i] == other;
                assert(before[i] == other);
            }
        }
    } else {
        assert(before.contains(chunk));
        assert(seen@ =~= old(seen)@);
    }
}

/// Every chunk that is sampled around a holder at the given distance from a map's
/// center; none where the map is locked or shows another world.
pub fn sampling_chunks(
    world: &Identifier,
    has_ceiling: bool,
    offset_x: i32,
    offset_z: i32,
    map: &MapItemSavedData,
) -> (chunks: Vec<ChunkPos>)
    requires
        fits_offset(offset_x),
        fits_offset(offset_z),
        fits_center(map@),
    ensures
        chunks@ == if map@.locked || map@.world != world@ {
            Seq::empty()
        } else {
            area_chunks(area_around(map@, has_ceiling, offset_x, offset_z), map@)
        },
{
    let _hasher = fx_hasher();
    let mut chunks: Vec<ChunkPos> = Vec::new();
    let area = match SamplingArea::new(world, has_ceiling, offset_x, offset_z, map) {
        Some(area) => area,
        None => {
            return chunks;
        },
    };
    let mut seen: FxHashSet<i64> = FxHashSet::default();
    let end_x: i32 = area.player_image_x + area.radius;
    let end_y: i32 = area.player_image_y + area.radius;
    let start_y: i32 = area.player_image_y - area.radius - 1;
    let mut image_x: i32 = area.player_image_x - area.radius + 1;
    assert(tells(seen@, chunks@));
    while image_x < end_x
        invariant
            area.sound(),
            fits_center(map@),
            image_x <= end_x == area.player_image_x + area.radius,
            end_y == area.player_image_y + area.radius,
            start_y == area.player_image_y - area.radius - 1,
            tells(seen@, chunks@),
            area_chunks(area, map@) == with_area_chunks(
                chunks@,
                area,
                map@,
                image_x as int,
                end_x as int,
            ),
        decreases end_x - image_x,
    {
        if 0 <= image_x && image_x < MAP_SIDE {
            let ghost before = chunks@;
            let mut image_y: i32 = start_y;
            while image_y < end_y
                invariant
                    area.sound(),
                    fits_center(map@),
                    0 <= image_x < 128,
                    image_y <= end_y,
                    tells(seen@, chunks@),
                    with_column_chunks(
                        before,
                        area,
                        map@,
                        image_x as int,
                        start_y as int,
                        end_y as int,
                    ) == with_column_chunks(
                        chunks@,
                        area,
                        map@,
                        image_x as int,
                        image_y as int,
                        end_y as int,
                    ),
                decreases end_y - image_y,
            {
                if -1 <= image_y && image_y < MAP_SIDE {
                    let chunk = chunk_of(
                        area.corner_of(map.center_x, image_x),
                        area.corner_of(map.center_z, image_y),
                    );
                    note_chunk(&mut seen, &mut chunks, chunk);
                }
                image_y = image_y + 1;
            }
        }
        image_x = image_x + 1;
    }
    chunks
}

/// The chunk of a block.
fn chunk_of(x: i32, z: i32) -> (chunk: ChunkPos)
    ensures
        chunk.x == x as int / 16,
        chunk.z == z as int / 16,
{
    ChunkPos {
        x: ((x as i64 + 0x8000_0000) / 16 - 0x800_0000) as i32,
        z: ((z as i64 + 0x8000_0000) / 16 - 0x800_0000) as i32,
    }
}

/// The same question always has the same answer.
pub open spec fn consistent<F: Fn(i32, i32, i32) -> Option<TerrainSample>>(sample: F) -> bool {
    &&& forall|x: i32, z: i32, scale: i32| #[trigger] sample.requires((x, z, scale))
    &&& forall|x: i32, z: i32, scale: i32, a: Option<TerrainSample>, b: Option<TerrainSample>|
     #[trigger]
        sample.ensures((x, z, scale), a) && #[trigger] sample.ensures((x, z, scale), b) ==> a == b
}

/// The sample of the area that begins at a position and is that many blocks wide; none
/// where it is not loaded.
pub open spec fn answer<F: Fn(i32, i32, i32) -> Option<TerrainSample>>(
    sample: F,
    x: i32,
    z: i32,
    scale: i32,
) -> Option<TerrainSample> {
    choose|found: Option<TerrainSample>| sample.ensures((x, z, scale), found)
}

/// A map while it is being drawn.
pub ghost struct Drawing {
    pub colors: Seq<u8>,
    pub dirty: Option<MapDirtyBounds>,
    /// A pixel of the column has changed.
    pub changed: bool,
    /// The sum of the heights of the pixel before.
    pub previous: int,
}

/// The changed rectangle with one more pixel.
pub open spec fn with_pixel(dirty: Option<MapDirtyBounds>, x: u8, y: u8) -> Option<MapDirtyBounds> {
    match dirty {
        Some(bounds) => Some(bounds.extended(x, y)),
        None => Some(MapDirtyBounds { min_x: x, min_y: y, max_x: x, max_y: y }),
    }
}

/// The brightness of a sampled pixel.
pub open spec fn shade(sample: TerrainSample, previous: int, scale: int, x: int, y: int) -> MapBrightness {
    if sample.color.spec_id() == 12 {
        water_shade(sample.water_depth as int, x, y)
    } else {
        land_shade(sample.total_height - previous, scale, x, y)
    }
}

impl SamplingArea {
    /// The square of a pixel's distance from the holder.
    pub open spec fn distance(self, x: int, y: int) -> int {
        (x - self.player_image_x) * (x - self.player_image_x) + (y - self.player_image_y) * (y
            - self.player_image_y)
    }

    /// A pixel is drawn: it lies on the map and within the radius, and at the very
    /// edge it is one of every other.
    pub open spec fn draws(self, x: int, y: int) -> bool {
        &&& y >= 0
        &&& self.distance(x, y) < self.radius * self.radius
        &&& self.distance(x, y) <= (self.radius - 2) * (self.radius - 2) || (x + y) % 2 != 0
    }
}

impl SamplingArea {
    /// Whether a pixel is drawn.
    fn drawing(&self, image_x: i32, image_y: i32) -> (draws: bool)
        requires
            self.sound(),
            self.player_image_x - self.radius < image_x < self.player_image_x + self.radius,
            self.player_image_y - self.radius - 1 <= image_y < self.player_image_y + self.radius,
        ensures
            draws == self.draws(image_x as int, image_y as int),
    {
        let dx: i32 = image_x - self.player_image_x;
        let dy: i32 = image_y - self.player_image_y;
        let radius: i32 = self.radius;
        assert(0 <= dx * dx <= 16641 && 0 <= dy * dy <= 16641 && 0 <= radius * radius <= 16641 && 0
            <= (radius - 2) * (radius - 2) <= 16641) by (nonlinear_arith)
            requires
                -129 <= dx <= 129,
                -129 <= dy <= 129,
                4 <= radius <= 128,
        ;
        let distance: i32 = dx * dx + dy * dy;
        image_y >= 0 && distance < radius * radius && (distance <= (radius - 2) * (radius - 2)
            || is_odd(image_x, image_y))
    }
}

/// A drawing after one pixel was sampled.
pub open spec fn drawn_pixel<F: Fn(i32, i32, i32) -> Option<TerrainSample>>(
    sample: F,
    area: SamplingArea,
    map: SavedMap,
    x: int,
    y: int,
    drawing: Drawing,
) -> Drawing {
    if !(0 <= x < 128 && -1 <= y < 128) {
        drawing
    } else {
        match answer(
            sample,
            area.corner(map.center_x, x) as i32,
            area.corner(map.center_z, y) as i32,
            area.scale,
        ) {
            Some(found) => {
                let color = found.color.spec_packed_id(
                    shade(found, drawing.previous, area.scale as int, x, y),
                ) as u8;
                let noted = Drawing { previous: found.total_height as int, ..drawing };
                if area.draws(x, y) && drawing.colors[x + y * 128] != color {
                    Drawing {
                        colors: drawing.colors.update(x + y * 128, color),
                        dirty: with_pixel(drawing.dirty, x as u8, y as u8),
                        changed: true,
                        ..noted
                    }
                } else {
                    noted
                }
            },
            None => drawing,
        }
    }
}

/// A drawing after pixels of one column were sampled.
pub open spec fn drawn_column<F: Fn(i32, i32, i32) -> Option<TerrainSample>>(
    sample: F,
    area: SamplingArea,
    map: SavedMap,
    x: int,
    from: int,
    to: int,
    drawing: Drawing,
) -> Drawing
    decreases to - from,
{
    if from >= to {
        drawing
    } else {
        drawn_column(
            sample,
            area,
            map,
            x,
            from + 1,
            to,
            drawn_pixel(sample, area, map, x, from, drawing),
        )
    }
}

/// A drawing after columns were sampled: every sixteenth one, beginning with the
/// step's, and those that follow one that has changed.
pub open spec fn drawn_columns<F: Fn(i32, i32, i32) -> Option<TerrainSample>>(
    sample: F,
    area: SamplingArea,
    map: SavedMap,
    step: int,
    from: int,
    to: int,
    drawing: Drawing,
) -> Drawing
    decreases to - from,
{
    if from >= to {
        drawing
    } else {
        drawn_columns(
            sample,
            area,
            map,
            step,
            from + 1,
            to,
            if from % 16 != step % 16 && !drawing.changed {
                drawing
            } else {
                drawn_column(
                    sample,
                    area,
                    map,
                    from,
                    area.player_image_y - area.radius - 1,
                    area.player_image_y + area.radius,
                    Drawing { changed: false, previous: 0, ..drawing },
                )
            },
        )
    }
}

/// A map after the stripes of a step were drawn.
pub open spec fn drawn<F: Fn(i32, i32, i32) -> Option<TerrainSample>>(
    sample: F,
    area: SamplingArea,
    map: SavedMap,
    step: int,
) -> Drawing {
    drawn_columns(
        sample,
        area,
        map,
        step,
        area.player_image_x - area.radius + 1,
        area.player_image_x + area.radius,
        Drawing { colors: map.colors, dirty: None, changed: false, previous: 0 },
    )
}

/// Every pixel in which two colorings differ lies in the changed rectangle, which lies
/// on the map.
pub open spec fn accounts_for(dirty: Option<MapDirtyBounds>, before: Seq<u8>, after: Seq<u8>) -> bool {
    &&& before.len() == after.len()
    &&& match dirty {
        Some(bounds) => bounds.on_map() && forall|i: int|
            0 <= i < after.len() && #[trigger] after[i] != before[i] ==> bounds.covers(
                i % 128,
                i / 128,
            ),
        None => after == before,
    }
}

/// The remainder of a division by sixteen.
fn low_bits(value: i32) -> (bits: i64)
    ensures
        bits == value as int % 16,
{
    (value as i64 + 0x8000_0000) % 16
}

/// Draws one column, and tells which rectangle has changed by now and whether a pixel
/// of the column has.
fn update_column<F: Fn(i32, i32, i32) -> Option<TerrainSample>>(
    area: SamplingArea,
    image_x: i32,
    map: &mut MapItemSavedData,
    dirty: Option<MapDirtyBounds>,
    sample: &F,
    Ghost(given): Ghost<SavedMap>,
) -> (result: (Option<MapDirtyBounds>, bool))
    requires
        area.sound(),
        area.player_image_x - area.radius < image_x < area.player_image_x + area.radius,
        fits_center(given),
        consistent(*sample),
        old(map)@ == (SavedMap { colors: old(map)@.colors, ..given }),
        old(map)@.colors.len() == MAP_COLOR_COUNT,
        accounts_for(dirty, given.colors, old(map)@.colors),
    ensures
        ({
            let drawing = drawn_column(
                *sample,
                area,
                given,
                image_x as int,
                area.player_image_y - area.radius - 1,
                area.player_image_y + area.radius,
                Drawing { colors: old(map)@.colors, dirty, changed: false, previous: 0 },
            );
            &&& result.0 == drawing.dirty
            &&& result.1 == drawing.changed
            &&& final(map)@ == (SavedMap { colors: drawing.colors, ..given })
        }),
        final(map)@.colors.len() == MAP_COLOR_COUNT,
        accounts_for(result.0, given.colors, final(map)@.colors),
{
    let ghost whole = drawn_column(
        *sample,
        area,
        given,
        image_x as int,
        area.player_image_y - area.radius - 1,
        area.player_image_y + area.radius,
        Drawing { colors: map@.colors, dirty, changed: false, previous: 0 },
    );
    let mut dirty: Option<MapDirtyBounds> = dirty;
    let mut changed: bool = false;
    let mut previous: i64 = 0;
    let end_y: i32 = area.player_image_y + area.radius;
    let mut image_y: i32 = area.player_image_y - area.radius - 1;
    while image_y < end_y
        invariant
            area.sound(),
            area.player_image_x - area.radius < image_x < area.player_image_x + area.radius,
            area.player_image_y - area.radius - 1 <= image_y,
            fits_center(given),
            consistent(*sample),
            image_y <= end_y == area.player_image_y + area.radius,
            map@ == (SavedMap { colors: map@.colors, ..given }),
            map@.colors.len() == MAP_COLOR_COUNT,
            accounts_for(dirty, given.colors, map@.colors),
            whole == drawn_column(
                *sample,
                area,
                given,
                image_x as int,
                image_y as int,
                end_y as int,
                Drawing { colors: map@.colors, dirty, changed, previous: previous as int },
            ),
        decreases end_y - image_y,
    {
        if 0 <= image_x && image_x < MAP_SIDE && -1 <= image_y && image_y < MAP_SIDE {
            let corner_x: i32 = area.corner_of(map.center_x, image_x);
            let corner_z: i32 = area.corner_of(map.center_z, image_y);
            let found = (*sample)(corner_x, corner_z, area.scale);
            assert(found == answer(*sample, corner_x, corner_z, area.scale));
            if let Some(found) = found {
                let brightness = if found.color.id() == 12 {
                    water_brightness(found.water_depth, image_x, image_y)
                } else {
                    terrain_brightness(
                        found.total_height,
                        previous,
                        area.scale,
                        image_x,
                        image_y,
                    )
                };
                let color: u8 = found.color.packed_id(brightness);
                previous = found.total_height;
                if area.drawing(image_x, image_y) {
                    let index: usize = (image_x + image_y * MAP_SIDE) as usize;
                    if map.colors[index] != color {
                        let ghost before = map@.colors;
                        map.colors.set(index, color);
                        changed = true;
                        let ghost old_dirty = dirty;
                        let x: u8 = image_x as u8;
                        let y: u8 = image_y as u8;
                        dirty =
                        match dirty {
                            Some(mut bounds) => {
                                bounds.extend(x, y);
                                Some(bounds)
                            },
                            None => Some(MapDirtyBounds::single(x, y)),
                        };
                        assert(dirty == with_pixel(old_dirty, x, y));
                        assert(map@.colors == before.update(index as int, color));
                        assert(index as int % 128 == x && index as int / 128 == y);
                        assert(accounts_for(dirty, given.colors, map@.colors));
                    }
                }
            }
        }
        image_y = image_y + 1;
    }
    (dirty, changed)
}

/// Draws the stripes that a step selects, and tells which rectangle has changed.
/// `sample` samples the area that begins at a position and has that many blocks along
/// each side.
pub fn update_map<F: Fn(i32, i32, i32) -> Option<TerrainSample>>(
    world: &Identifier,
    has_ceiling: bool,
    offset_x: i32,
    offset_z: i32,
    step: i32,
    map: &mut MapItemSavedData,
    sample: &F,
) -> (dirty: Option<MapDirtyBounds>)
    requires
        fits_offset(offset_x),
        fits_offset(offset_z),
        fits_center(old(map)@),
        old(map)@.colors.len() == MAP_COLOR_COUNT,
        consistent(*sample),
    ensures
        if old(map)@.locked || old(map)@.world != world@ {
            dirty is None && final(map)@ == old(map)@
        } else {
            let drawing = drawn(
                *sample,
                area_around(old(map)@, has_ceiling, offset_x, offset_z),
                old(map)@,
                step as int,
            );
            dirty == drawing.dirty && final(map)@ == (SavedMap {
                colors: drawing.colors,
                ..old(map)@
            })
        },
        accounts_for(dirty, old(map)@.colors, final(map)@.colors),
{
    let area = match SamplingArea::new(world, has_ceiling, offset_x, offset_z, map) {
        Some(area) => area,
        None => {
            return None;
        },
    };
    let ghost given = map@;
    let ghost whole = drawn(*sample, area, given, step as int);
    let mut dirty: Option<MapDirtyBounds> = None;
    let mut changed: bool = false;
    let selected: i64 = low_bits(step);
    let end_x: i32 = area.player_image_x + area.radius;
    let mut image_x: i32 = area.player_image_x - area.radius + 1;
    let ghost mut drawing = Drawing { colors: given.colors, dirty: None, changed: false, previous: 0 };
    while image_x < end_x
        invariant
            area.sound(),
            fits_center(given),
            consistent(*sample),
            area.player_image_x - area.radius < image_x,
            image_x <= end_x == area.player_image_x + area.radius,
            selected == step as int % 16,
            map@ == (SavedMap { colors: drawing.colors, ..given }),
            drawing.colors.len() == MAP_COLOR_COUNT,
            dirty == drawing.dirty,
            changed == drawing.changed,
            accounts_for(dirty, given.colors, drawing.colors),
            whole == drawn_columns(
                *sample,
                area,
                given,
                step as int,
                image_x as int,
                end_x as int,
                drawing,
            ),
        decreases end_x - image_x,
    {
        if low_bits(image_x) == selected || changed {
            let (now_dirty, now_changed) = update_column(
                area,
                image_x,
                map,
                dirty,
                sample,
                Ghost(given),
            );
            proof {
                drawing =
                drawn_column(
                    *sample,
                    area,
                    given,
                    image_x as int,
                    area.player_image_y - area.radius - 1,
                    area.player_image_y + area.radius,
                    Drawing { changed: false, previous: 0, ..drawing },
                );
            }
            dirty = now_dirty;
            changed = now_changed;
        }
        image_x = image_x + 1;
    }
    dirty
}

/// A column shows its topmost block that has a color, or its lowest one where none has.
pub proof fn law_topmost_colored_block_shows(blocks: Seq<ColumnBlock>)
    requires
        blocks.len() > 0,
    ensures
        ({
            let place = surface_place(blocks);
            &&& 0 <= place < blocks.len()
            &&& forall|above: int|
                0 <= above < place ==> (#[trigger] blocks[above]).color.spec_id() == 0
            &&& blocks[place].color.spec_id() != 0 || place == blocks.len() - 1
        }),
    decreases blocks.len(),
{
    if blocks.len() > 1 && blocks[0].color.spec_id() == 0 {
        let rest = blocks.drop_first();
        law_topmost_colored_block_shows(rest);
        let place = surface_place(rest);
        assert forall|above: int| 0 <= above < place + 1 implies (
        #[trigger] blocks[above]).color.spec_id() == 0 by {
            if above > 0 {
                assert(rest[above - 1] == blocks[above]);
            }
        }
        assert(rest[place] == blocks[place + 1]);
    }
}

/// Water is one deeper than the blocks of fluid that follow below its surface without a
/// gap; the lowest two blocks of the world are not looked into.
pub proof fn law_depth_counts_the_fluid_below(below: Seq<ColumnBlock>)
    requires
        below.len() > 0,
    ensures
        ({
            let depth = depth_below(below);
            &&& 1 <= depth <= below.len()
            &&& forall|i: int| 0 <= i < depth - 1 ==> (#[trigger] below[i]).fluid
            &&& !below[depth - 1].fluid || below.len() - depth <= 1
            &&& depth > 1 ==> below.len() - depth >= 1
        }),
    decreases below.len(),
{
    if below.len() > 2 && below[0].fluid {
        let rest = below.drop_first();
        law_depth_counts_the_fluid_below(rest);
        let depth = depth_below(rest);
        assert forall|i: int| 0 <= i < depth implies (#[trigger] below[i]).fluid by {
            if i > 0 {
                assert(rest[i - 1] == below[i]);
            }
        }
        assert(rest[depth - 1] == below[depth]);
    }
}

/// How many columns show a color.
pub open spec fn columns_showing(columns: Seq<TerrainColumn>, min_y: i32, color: u8) -> int
    decreases columns.len(),
{
    if columns.len() == 0 {
        0
    } else {
        columns_showing(columns.drop_last(), min_y, color) + if columns.last().seen(min_y).color
            == color {
            1int
        } else {
            0
        }
    }
}

/// The colors of a list stand in it once each.
spec fn once_each(colors: Seq<(u8, int)>) -> bool {
    forall|i: int, j: int|
        0 <= i < j < colors.len() ==> (#[trigger] colors[i]).0 != (#[trigger] colors[j]).0
}

proof fn lemma_color_place(colors: Seq<(u8, int)>, color: u8)
    ensures
        ({
            let place = color_place(colors, color);
            &&& 0 <= place <= colors.len()
            &&& place < colors.len() ==> colors[place].0 == color
            &&& forall|i: int| 0 <= i < place ==> (#[trigger] colors[i]).0 != color
        }),
    decreases colors.len(),
{
    if colors.len() > 0 && colors[0].0 != color {
        let rest = colors.drop_first();
        lemma_color_place(rest, color);
        let place = color_place(rest, color);
        assert forall|i: int| 0 <= i < place + 1 implies (#[trigger] colors[i]).0 != color by {
            if i > 0 {
                assert(rest[i - 1] == colors[i]);
            }
        }
    }
}

/// The counts of the colors are the numbers of columns that show them.
proof fn lemma_colors_are_counted(columns: Seq<TerrainColumn>, min_y: i32)
    ensures
        ({
            let colors = seen_colors(columns, min_y);
            &&& once_each(colors)
            &&& forall|i: int|
                0 <= i < colors.len() ==> (#[trigger] colors[i]).1 == columns_showing(
                    columns,
                    min_y,
                    colors[i].0,
                ) && colors[i].1 > 0
            &&& forall|color: u8|
                (#[trigger] columns_showing(columns, min_y, color)) != 0 ==> color_place(
                    colors,
                    color,
                ) < colors.len()
        }),
    decreases columns.len(),
{
    if columns.len() > 0 {
        let earlier = columns.drop_last();
        let before = seen_colors(earlier, min_y);
        let color = columns.last().seen(min_y).color;
        let after = seen_colors(columns, min_y);
        let place = color_place(before, color);
        lemma_colors_are_counted(earlier, min_y);
        lemma_color_place(before, color);
        assert(after == with_color(before, color));
        assert(columns_showing(earlier, min_y, color) != 0 ==> place < before.len());
        assert forall|i: int| 0 <= i < after.len() implies (#[trigger] after[i]).1
            == columns_showing(columns, min_y, after[i].0) && after[i].1 > 0 by {
            if i < before.len() {
                assert(before[i].1 == columns_showing(earlier, min_y, before[i].0));
                if place < before.len() && i != place {
                    assert(before[i].0 != before[place].0);
                }
            }
        }
        assert(once_each(after)) by {
            assert forall|i: int, j: int| 0 <= i < j < after.len() implies (
            #[trigger] after[i]).0 != (#[trigger] after[j]).0 by {
                if j < before.len() {
                    assert(before[i].0 != before[j].0);
                } else {
                    assert(before[i].0 != color);
                }
            }
        }
        assert forall|other: u8|
            (#[trigger] columns_showing(columns, min_y, other)) != 0 implies color_place(
            after,
            other,
        ) < after.len() by {
            lemma_color_place(after, other);
            lemma_color_place(before, other);
            if other == color {
                if place < before.len() {
                    assert(after[place].0 == other);
                } else {
                    assert(after[before.len() as int].0 == other);
                }
            } else {
                assert(columns_showing(earlier, min_y, other) != 0);
                let there = color_place(before, other);
                assert(before[there].0 == other);
                assert(after[there].0 == other);
            }
        }
    }
}

proof fn lemma_most_common(colors: Seq<(u8, int)>)
    ensures
        ({
            let best = most_common(colors);
            &&& best.1 >= 0
            &&& forall|i: int| 0 <= i < colors.len() ==> (#[trigger] colors[i]).1 <= best.1
            &&& best.1 > 0 ==> colors.contains(best)
            &&& best.1 == 0 ==> best.0 == 0
        }),
    decreases colors.len(),
{
    if colors.len() > 0 {
        let earlier = colors.drop_last();
        lemma_most_common(earlier);
        let before = most_common(earlier);
        let best = most_common(colors);
        assert forall|i: int| 0 <= i < colors.len() implies (#[trigger] colors[i]).1 <= best.1 by {
            if i < earlier.len() {
                assert(earlier[i] == colors[i]);
            }
        }
        if best == before && best.1 > 0 {
            let k = choose|k: int| 0 <= k < earlier.len() && earlier[k] == before;
            assert(colors[k] == best);
        } else if best.1 > 0 {
            assert(colors[colors.len() - 1] == best);
        }
    }
}

/// The color of an area is one that a column of it shows, and no color is shown by more
/// of its columns.
pub proof fn law_area_has_its_most_common_color(
    columns: Seq<TerrainColumn>,
    min_y: i32,
    color: u8,
)
    requires
        columns.len() > 0,
    ensures
        ({
            let chosen = most_common(seen_colors(columns, min_y)).0;
            &&& columns_showing(columns, min_y, chosen) > 0
            &&& columns_showing(columns, min_y, color) <= columns_showing(columns, min_y, chosen)
        }),
{
    let colors = seen_colors(columns, min_y);
    lemma_colors_are_counted(columns, min_y);
    lemma_most_common(colors);
    let best = most_common(colors);
    let last = columns.last().seen(min_y).color;
    lemma_showing_not_negative(columns.drop_last(), min_y, last);
    assert(columns_showing(columns, min_y, last) > 0);
    lemma_color_place(colors, last);
    assert(colors[color_place(colors, last)].1 > 0);
    let k = choose|k: int| 0 <= k < colors.len() && colors[k] == best;
    assert(colors[k].1 == columns_showing(columns, min_y, colors[k].0));
    if columns_showing(columns, min_y, color) != 0 {
        lemma_color_place(colors, color);
        assert(colors[color_place(colors, color)].1 <= best.1);
    }
}

proof fn lemma_showing_not_negative(columns: Seq<TerrainColumn>, min_y: i32, color: u8)
    ensures
        columns_showing(columns, min_y, color) >= 0,
    decreases columns.len(),
{
    if columns.len() > 0 {
        lemma_showing_not_negative(columns.drop_last(), min_y, color);
    }
}

/// The heights and depths of an area add up over its parts, and those of one column are
/// its own.
pub proof fn law_area_adds_up(
    first: Seq<TerrainColumn>,
    second: Seq<TerrainColumn>,
    min_y: i32,
)
    ensures
        seen_height(first + second, min_y) == seen_height(first, min_y) + seen_height(
            second,
            min_y,
        ),
        seen_depth(first + second, min_y) == seen_depth(first, min_y) + seen_depth(second, min_y),
        second.len() == 1 ==> seen_height(second, min_y) == second[0].seen(min_y).height
            && seen_depth(second, min_y) == second[0].seen(min_y).depth,
    decreases second.len(),
{
    if second.len() == 0 {
        assert(first + second =~= first);
    } else {
        assert((first + second).drop_last() =~= first + second.drop_last());
        assert((first + second).last() == second.last());
        law_area_adds_up(first, second.drop_last(), min_y);
        if second.len() == 1 {
            assert(second.drop_last() =~= Seq::<TerrainColumn>::empty());
            assert(seen_height(second.drop_last(), min_y) == 0);
            assert(seen_depth(second.drop_last(), min_y) == 0);
        }
    }
}

/// A column is as high as the block that shows: one below its surface, and one lower for
/// each block above without a color. Only a fluid there has a depth.
pub proof fn law_seen_height_is_that_of_the_shown_block(column: TerrainColumn, min_y: i32)
    requires
        column.complete(min_y),
    ensures
        ({
            let seen = column.seen(min_y);
            &&& column.height <= min_y ==> seen.height == column.height && seen.depth == 0
                && seen.color == 11
            &&& column.height > min_y ==> {
                let place = column.height - 1 - seen.height;
                let block = column.blocks@[place];
                &&& min_y <= seen.height < column.height
                &&& forall|above: int|
                    0 <= above < place ==> (#[trigger] column.blocks@[above]).color.spec_id() == 0
                &&& block.color.spec_id() != 0 || seen.height == min_y
                &&& seen.depth > 0 ==> block.fluid && seen.height > min_y
                &&& seen.depth == 0 || block.sturdy ==> seen.color == block.color.spec_id()
                &&& seen.depth > 0 && !block.sturdy ==> seen.color == block.fluid_color.spec_id()
                &&& block.fluid && seen.height > min_y ==> seen.depth > 0
            }
        }),
{
    if column.height > min_y {
        law_topmost_colored_block_shows(column.blocks@);
        let place = surface_place(column.blocks@);
        let below = column.blocks@.skip(place + 1);
        if below.len() > 0 {
            law_depth_counts_the_fluid_below(below);
        }
    }
}

} // verus!
