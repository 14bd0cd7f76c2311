//! The biome preview of exploration maps, rendered in slices.
use vstd::prelude::*;

use crate::loot_table::conditions::BlockPos;
use crate::map::{
    blank_colors, blocks_per_pixel, center_of, law_fresh_maps_lie_on_a_grid, lemma_scale_sizes, no_colors,
    pixel_side, pixel_size, MapItemSavedData, MAP_COLOR_COUNT,
};

verus! {

/// The pixels along one side of a map.
pub const PREVIEW_SIDE: usize = 128;

/// The rows that are sampled at once.
pub const SAMPLE_ROWS_PER_POLL: usize = 16;

/// The columns that are rendered at once.
pub const RENDER_COLUMNS_PER_POLL: usize = 32;

pub const COLOR_ORANGE: u8 = 15;

pub const COLOR_BROWN: u8 = 26;

pub const BRIGHTNESS_LOW: u8 = 0;

pub const BRIGHTNESS_NORMAL: u8 = 1;

pub const BRIGHTNESS_HIGH: u8 = 2;

pub const BRIGHTNESS_LOWEST: u8 = 3;

/// Result of advancing a biome preview.
#[derive(Debug)]
pub enum BiomePreviewPoll {
    Pending,
    Ready(Vec<u8>),
    MissingBiome(BlockPos),
}

#[derive(Debug, Clone, Copy, PartialEq, Eq, Structural)]
pub enum PreviewPhase {
    Sampling { next_row: usize },
    Rendering { next_column: usize },
    Finished,
}

/// A biome preview as a mathematical value.
#[verifier::ext_equal]
pub ghost struct Preview {
    pub scale: i32,
    pub start_x: i32,
    pub start_z: i32,
    pub watery: Seq<bool>,
    pub colors: Seq<u8>,
    pub phase: PreviewPhase,
}

/// A biome preview that is rendered step by step.
#[derive(Debug)]
pub struct BiomePreview {
    pub scale: i32,
    pub unscaled_start_x: i32,
    pub unscaled_start_z: i32,
    pub watery: Vec<bool>,
    pub colors: Vec<u8>,
    pub phase: PreviewPhase,
}

impl View for BiomePreview {
    type V = Preview;

    open spec fn view(&self) -> Preview {
        Preview {
            scale: self.scale,
            start_x: self.unscaled_start_x,
            start_z: self.unscaled_start_z,
            watery: self.watery@,
            colors: self.colors@,
            phase: self.phase,
        }
    }
}

/// Division that rounds toward zero.
pub open spec fn quotient(value: int, divisor: int) -> int {
    if divisor < 0 {
        -quotient_by(value, -divisor)
    } else {
        quotient_by(value, divisor)
    }
}

/// Division by a positive number that rounds toward zero.
pub open spec fn quotient_by(value: int, divisor: int) -> int {
    if value < 0 {
        -((-value) / divisor)
    } else {
        value / divisor
    }
}

/// The first pixel, along one axis, of the map that shows a coordinate.
pub open spec fn first_pixel(coordinate: i32, scale: i8) -> i32 {
    (quotient(center_of(coordinate, scale) as int, pixel_side(scale)) as i32).wrapping_sub(64)
}

fn pixel_of(center: i32, scale: i32) -> (pixel: i32)
    requires
        scale >= 1 || scale == i32::MIN,
    ensures
        pixel == (quotient(center as int, scale as int) as i32).wrapping_sub(64),
{
    let value: i64 = center as i64;
    let size: i64 = if scale < 0 {
        0x8000_0000
    } else {
        scale as i64
    };
    let rounded: i64 = if value < 0 {
        -((-value) / size)
    } else {
        value / size
    };
    assert(-0x8000_0000 <= rounded <= 0x7fff_ffff && (size == 0x8000_0000 ==> -1 <= rounded <= 0))
        by (nonlinear_arith)
        requires
            1 <= size,
            -0x8000_0000 <= value <= 0x7fff_ffff,
            rounded == if value < 0 {
                -((-value) / (size as int))
            } else {
                value as int / (size as int)
            },
    ;
    let turned: i64 = if scale < 0 {
        -rounded
    } else {
        rounded
    };
    (turned as i32).wrapping_sub(64)
}

/// The wave on a row of open water: seven times the sine of the row's number, rounded
/// toward zero.
pub open spec fn wave(row: int) -> int {
    let turn = row % 44;
    if row == 98 {
        -4
    } else if row == 120 {
        4
    } else if turn == 24 || turn == 30 || turn == 36 || turn == 42 {
        -6
    } else if turn == 4 || turn == 18 {
        -5
    } else if turn == 10 || turn == 12 {
        -3
    } else if turn == 16 {
        -2
    } else if turn == 6 {
        -1
    } else if turn == 28 {
        1
    } else if turn == 38 {
        2
    } else if turn == 32 || turn == 34 {
        3
    } else if turn == 26 || turn == 40 {
        5
    } else if turn == 0 || turn == 22 {
        0
    } else {
        6
    }
}

/// The wave on a row of open water.
pub fn row_wave(row: usize) -> (height: i32)
    requires
        row < 128,
        row % 2 == 0,
    ensures
        height == wave(row as int),
        -6 <= height <= 6,
{
    let turn: usize = row % 44;
    if row == 98 {
        -4
    } else if row == 120 {
        4
    } else {
        match turn {
            24 | 30 | 36 | 42 => -6,
            4 | 18 => -5,
            10 | 12 => -3,
            16 => -2,
            6 => -1,
            28 => 1,
            38 => 2,
            32 | 34 => 3,
            26 | 40 => 5,
            0 | 22 => 0,
            _ => 6,
        }
    }
}

/// One, where there is water.
pub open spec fn counts_water(watery: Seq<bool>, x: int, z: int) -> int {
    if watery[z * 128 + x] {
        1
    } else {
        0
    }
}

/// The number of a pixel's eight neighbors that are water.
pub open spec fn water_neighbors(watery: Seq<bool>, x: int, z: int) -> int {
    counts_water(watery, x - 1, z - 1) + counts_water(watery, x - 1, z) + counts_water(
        watery,
        x - 1,
        z + 1,
    ) + counts_water(watery, x, z - 1) + counts_water(watery, x, z + 1) + counts_water(
        watery,
        x + 1,
        z - 1,
    ) + counts_water(watery, x + 1, z) + counts_water(watery, x + 1, z + 1)
}

/// The color and the brightness of a pixel of water.
pub open spec fn water_look(x: int, z: int, neighbors: int) -> (u8, u8) {
    if neighbors > 7 && z % 2 == 0 {
        let at = x + wave(z);
        let stripe = if at < 0 {
            0
        } else {
            (at / 8) % 5
        };
        (
            COLOR_ORANGE,
            if stripe == 0 || stripe == 4 {
                BRIGHTNESS_LOW
            } else if stripe == 2 {
                BRIGHTNESS_HIGH
            } else {
                BRIGHTNESS_NORMAL
            },
        )
    } else if neighbors > 7 {
        (0, BRIGHTNESS_LOWEST)
    } else if neighbors > 5 {
        (COLOR_ORANGE, BRIGHTNESS_NORMAL)
    } else if neighbors > 1 {
        (COLOR_ORANGE, BRIGHTNESS_LOW)
    } else {
        (COLOR_ORANGE, BRIGHTNESS_LOWEST)
    }
}

/// The color and the brightness of a pixel: water has waves far from the land and an
/// edge near it, land has a brown outline next to water.
pub open spec fn look(watery: Seq<bool>, x: int, z: int) -> (u8, u8) {
    let neighbors = water_neighbors(watery, x, z);
    if watery[z * 128 + x] {
        water_look(x, z, neighbors)
    } else if neighbors > 0 {
        (
            COLOR_BROWN,
            if neighbors > 3 {
                BRIGHTNESS_NORMAL
            } else {
                BRIGHTNESS_LOWEST
            },
        )
    } else {
        (0, BRIGHTNESS_LOWEST)
    }
}

/// The pixel byte of a color and a brightness.
pub open spec fn pixel_byte(look: (u8, u8)) -> u8 {
    (look.0 * 4 + look.1) as u8
}

/// Colors after the inner pixels of the columns from `from` up to `to` were rendered.
pub open spec fn with_columns(colors: Seq<u8>, watery: Seq<bool>, from: int, to: int) -> Seq<u8> {
    Seq::new(
        colors.len(),
        |i: int|
            if from <= i % 128 < to && 1 <= i / 128 < 127 && look(watery, i % 128, i / 128).0 != 0 {
                pixel_byte(look(watery, i % 128, i / 128))
            } else {
                colors[i]
            },
    )
}

/// Rendering columns slice by slice gives the same colors as rendering them at once.
pub proof fn law_slices_render_the_same(
    colors: Seq<u8>,
    watery: Seq<bool>,
    from: int,
    middle: int,
    to: int,
)
    requires
        from <= middle <= to,
    ensures
        with_columns(with_columns(colors, watery, from, middle), watery, middle, to)
            == with_columns(colors, watery, from, to),
{
    assert(with_columns(with_columns(colors, watery, from, middle), watery, middle, to)
        =~= with_columns(colors, watery, from, to));
}

/// Packs a color and a brightness into a pixel byte.
pub fn packed_color(color: u8, brightness: u8) -> (pixel: u8)
    requires
        color < 64,
        brightness < 4,
    ensures
        pixel == pixel_byte((color, brightness)),
{
    color * 4 + brightness
}

/// The same question always has the same answer.
pub open spec fn consistent<F: Fn(i32, i32) -> Option<bool>>(biome: F) -> bool {
    &&& forall|x: i32, z: i32| #[trigger] biome.requires((x, z))
    &&& forall|x: i32, z: i32, a: Option<bool>, b: Option<bool>| #[trigger]
        biome.ensures((x, z), a) && #[trigger] biome.ensures((x, z), b) ==> a == b
}

/// Whether the biome at a position is drawn as water; none where it is not known.
pub open spec fn answer<F: Fn(i32, i32) -> Option<bool>>(biome: F, x: i32, z: i32) -> Option<bool> {
    choose|found: Option<bool>| biome.ensures((x, z), found)
}

impl Preview {
    /// The block, along one axis, that a pixel is sampled at.
    pub open spec fn sampled_block(self, start: i32, pixel: int) -> i32 {
        start.wrapping_add(pixel as i32).wrapping_mul(self.scale)
    }

    /// The number of pixels is that of a map.
    pub open spec fn complete(self) -> bool {
        self.watery.len() == MAP_COLOR_COUNT && match self.phase {
            PreviewPhase::Sampling { next_row } => next_row <= 128 && self.colors.len()
                == MAP_COLOR_COUNT,
            PreviewPhase::Rendering { next_column } => 1 <= next_column <= 127 && self.colors.len()
                == MAP_COLOR_COUNT,
            PreviewPhase::Finished => true,
        }
    }
}

/// The water of a preview after the pixels from `from` up to `to` were sampled, and
/// the position whose biome was not known, where sampling stopped.
pub open spec fn sampled_pixels<F: Fn(i32, i32) -> Option<bool>>(
    biome: F,
    preview: Preview,
    watery: Seq<bool>,
    from: int,
    to: int,
) -> (Seq<bool>, Option<BlockPos>)
    decreases to - from,
{
    if from >= to {
        (watery, None)
    } else {
        let x = preview.sampled_block(preview.start_x, from % 128);
        let z = preview.sampled_block(preview.start_z, from / 128);
        match answer(biome, x, z) {
            Some(water) => sampled_pixels(
                biome,
                preview,
                watery.update(from, water),
                from + 1,
                to,
            ),
            None => (watery, Some(BlockPos { x, y: 0, z })),
        }
    }
}

/// The preview of the map that shows a position, with nothing sampled yet.
pub open spec fn fresh_preview(target: BlockPos, map_scale: i8) -> Preview {
    Preview {
        scale: pixel_side(map_scale) as i32,
        start_x: first_pixel(target.x, map_scale),
        start_z: first_pixel(target.z, map_scale),
        watery: Seq::new(MAP_COLOR_COUNT as nat, |i: int| false),
        colors: blank_colors(),
        phase: PreviewPhase::Sampling { next_row: 0 },
    }
}

pub open spec fn at_most(value: int, limit: int) -> int {
    if value <= limit {
        value
    } else {
        limit
    }
}

impl BiomePreview {
    /// The preview of the map that shows a position.
    pub fn new(target: BlockPos, map_scale: i8) -> (preview: Self)
        ensures
            preview@ == fresh_preview(target, map_scale),
            preview@.complete(),
    {
        let (center_x, center_z) = MapItemSavedData::fresh_center(target, map_scale);
        let scale: i32 = pixel_size(map_scale);
        let watery: Vec<bool> = vec![false; MAP_COLOR_COUNT];
        assert(watery@ =~= Seq::new(MAP_COLOR_COUNT as nat, |i: int| false));
        BiomePreview {
            scale,
            unscaled_start_x: pixel_of(center_x, scale),
            unscaled_start_z: pixel_of(center_z, scale),
            watery,
            colors: no_colors(),
            phase: PreviewPhase::Sampling { next_row: 0 },
        }
    }

    /// Advances the preview by one slice. `biome` tells whether the biome at a
    /// position is drawn as water.
    pub fn poll<F: Fn(i32, i32) -> Option<bool>>(&mut self, biome: F) -> (poll: BiomePreviewPoll)
        requires
            old(self)@.complete(),
            consistent(biome),
        ensures
            final(self)@.complete(),
            match old(self)@.phase {
                PreviewPhase::Sampling { next_row } => {
                    let end = at_most(next_row + SAMPLE_ROWS_PER_POLL, 128);
                    let (watery, missing) = sampled_pixels(
                        biome,
                        old(self)@,
                        old(self)@.watery,
                        next_row * 128,
                        end * 128,
                    );
                    match missing {
                        Some(pos) => {
                            &&& poll matches BiomePreviewPoll::MissingBiome(at) && at == pos
                            &&& final(self)@ == (Preview { watery, ..old(self)@ })
                        },
                        None => {
                            &&& poll is Pending
                            &&& final(self)@ == (Preview {
                                watery,
                                phase: if end == 128 {
                                    PreviewPhase::Rendering { next_column: 1 }
                                } else {
                                    PreviewPhase::Sampling { next_row: end as usize }
                                },
                                ..old(self)@
                            })
                        },
                    }
                },
                PreviewPhase::Rendering { next_column } => old(self)@.renders(
                    next_column,
                    final(self)@,
                    poll,
                ),
                PreviewPhase::Finished => {
                    &&& poll matches BiomePreviewPoll::Ready(colors) && colors@ == old(self)@.colors
                    &&& final(self)@ == (Preview { colors: Seq::empty(), ..old(self)@ })
                },
            },
    {
        match self.phase {
            PreviewPhase::Sampling { next_row } => self.sample_rows(biome, next_row),
            PreviewPhase::Rendering { next_column } => self.render_columns(next_column),
            PreviewPhase::Finished => BiomePreviewPoll::Ready(self.take_colors()),
        }
    }

    fn take_colors(&mut self) -> (colors: Vec<u8>)
        ensures
            colors@ == old(self)@.colors,
            final(self)@ == (Preview { colors: Seq::empty(), ..old(self)@ }),
    {
        let mut colors: Vec<u8> = Vec::new();
        std::mem::swap(&mut self.colors, &mut colors);
        assert(self@.colors =~= Seq::empty());
        colors
    }

    fn sample_rows<F: Fn(i32, i32) -> Option<bool>>(&mut self, biome: F, start: usize) -> (poll:
        BiomePreviewPoll)
        requires
            old(self)@.complete(),
            old(self)@.phase == (PreviewPhase::Sampling { next_row: start }),
            consistent(biome),
        ensures
            final(self)@.complete(),
            ({
                let end = at_most(start + SAMPLE_ROWS_PER_POLL, 128);
                let (watery, missing) = sampled_pixels(
                    biome,
                    old(self)@,
                    old(self)@.watery,
                    start * 128,
                    end * 128,
                );
                match missing {
                    Some(pos) => {
                        &&& poll matches BiomePreviewPoll::MissingBiome(at) && at == pos
                        &&& final(self)@ == (Preview { watery, ..old(self)@ })
                    },
                    None => {
                        &&& poll is Pending
                        &&& final(self)@ == (Preview {
                            watery,
                            phase: if end == 128 {
                                PreviewPhase::Rendering { next_column: 1 }
                            } else {
                                PreviewPhase::Sampling { next_row: end as usize }
                            },
                            ..old(self)@
                        })
                    },
                }
            }),
    {
        let end: usize = if start + SAMPLE_ROWS_PER_POLL <= PREVIEW_SIDE {
            start + SAMPLE_ROWS_PER_POLL
        } else {
            PREVIEW_SIDE
        };
        let ghost given = self@;
        let mut index: usize = start * PREVIEW_SIDE;
        let last: usize = end * PREVIEW_SIDE;
        while index < last
            invariant
                start * 128 <= index <= last,
                last == end * 128,
                end <= 128,
                end == at_most(start + SAMPLE_ROWS_PER_POLL, 128),
                given == old(self)@,
                given.complete(),
                given.phase == (PreviewPhase::Sampling { next_row: start }),
                consistent(biome),
                given.watery.len() == MAP_COLOR_COUNT,
                self@ == (Preview { watery: self@.watery, ..given }),
                self@.watery.len() == MAP_COLOR_COUNT,
                sampled_pixels(biome, given, given.watery, start * 128, last as int)
                    == sampled_pixels(biome, given, self@.watery, index as int, last as int),
            decreases last - index,
        {
            let column: usize = index % PREVIEW_SIDE;
            let row: usize = index / PREVIEW_SIDE;
            let x: i32 = self.unscaled_start_x.wrapping_add(column as i32).wrapping_mul(self.scale);
            let z: i32 = self.unscaled_start_z.wrapping_add(row as i32).wrapping_mul(self.scale);
            let found = biome(x, z);
            assert(found == answer(biome, x, z));
            match found {
                Some(water) => {
                    self.watery.set(index, water);
                },
                None => {
                    return BiomePreviewPoll::MissingBiome(BlockPos { x, y: 0, z });
                },
            }
            index = index + 1;
        }
        if end == PREVIEW_SIDE {
            self.phase = PreviewPhase::Rendering { next_column: 1 };
        } else {
            self.phase = PreviewPhase::Sampling { next_row: end };
        }
        BiomePreviewPoll::Pending
    }

    /// Renders the next columns.
    pub fn render_columns(&mut self, start: usize) -> (poll: BiomePreviewPoll)
        requires
            old(self)@.complete(),
            old(self)@.phase == (PreviewPhase::Rendering { next_column: start }),
        ensures
            final(self)@.complete(),
            old(self)@.renders(start, final(self)@, poll),
    {
        let end: usize = if start + RENDER_COLUMNS_PER_POLL <= PREVIEW_SIDE - 1 {
            start + RENDER_COLUMNS_PER_POLL
        } else {
            PREVIEW_SIDE - 1
        };
        let ghost given = self@;
        assert(self@.colors =~= with_columns(
            given.colors,
            given.watery,
            start as int,
            start as int,
        ));
        let mut x: usize = start;
        while x < end
            invariant
                1 <= start <= x <= end <= 127,
                given.watery.len() == MAP_COLOR_COUNT,
                given.colors.len() == MAP_COLOR_COUNT,
                self@ == (Preview { colors: self@.colors, ..given }),
                self@.colors == with_columns(given.colors, given.watery, start as int, x as int),
            decreases end - x,
        {
            self.render_column(x);
            proof {
                law_slices_render_the_same(
                    given.colors,
                    given.watery,
                    start as int,
                    x as int,
                    x + 1,
                );
            }
            x = x + 1;
        }
        if end == PREVIEW_SIDE - 1 {
            self.phase = PreviewPhase::Finished;
            BiomePreviewPoll::Ready(self.take_colors())
        } else {
            self.phase = PreviewPhase::Rendering { next_column: end };
            BiomePreviewPoll::Pending
        }
    }

    fn render_column(&mut self, x: usize)
        requires
            1 <= x < 127,
            old(self)@.watery.len() == MAP_COLOR_COUNT,
            old(self)@.colors.len() == MAP_COLOR_COUNT,
        ensures
            final(self)@ == (Preview {
                colors: with_columns(old(self)@.colors, old(self)@.watery, x as int, x + 1),
                ..old(self)@
            }),
    {
        let ghost given = self@;
        let mut z: usize = 1;
        while z < PREVIEW_SIDE - 1
            invariant
                1 <= z <= 127,
                1 <= x < 127,
                given.watery.len() == MAP_COLOR_COUNT,
                given.colors.len() == MAP_COLOR_COUNT,
                self@ == (Preview { colors: self@.colors, ..given }),
                self@.colors.len() == MAP_COLOR_COUNT,
                forall|i: int|
                    0 <= i < MAP_COLOR_COUNT ==> #[trigger] self@.colors[i] == if i % 128 == x && 1
                        <= i / 128 < z {
                        with_columns(given.colors, given.watery, x as int, x + 1)[i]
                    } else {
                        given.colors[i]
                    },
            decreases 127 - z,
        {
            let count: u8 = self.watery_neighbor_count(x, z);
            let (color, brightness): (u8, u8) = if self.is_watery(x, z) {
                BiomePreview::water_pixel(x, z, count)
            } else if count > 0 {
                (
                    COLOR_BROWN,
                    if count > 3 {
                        BRIGHTNESS_NORMAL
                    } else {
                        BRIGHTNESS_LOWEST
                    },
                )
            } else {
                (0, BRIGHTNESS_LOWEST)
            };
            let place: usize = z * PREVIEW_SIDE + x;
            assert(place as int % 128 == x && place as int / 128 == z);
            assert((color, brightness) == look(given.watery, x as int, z as int));
            let ghost before = self@.colors;
            if color != 0 {
                let pixel: u8 = packed_color(color, brightness);
                self.colors.set(place, pixel);
            }
            assert forall|i: int| 0 <= i < MAP_COLOR_COUNT implies #[trigger] self@.colors[i]
                == if i % 128 == x && 1 <= i / 128 < z + 1 {
                with_columns(given.colors, given.watery, x as int, x + 1)[i]
            } else {
                given.colors[i]
            } by {
                if i % 128 == x && i / 128 == z {
                    assert(i == place);
                } else {
                    assert(self@.colors[i] == before[i]);
                }
            }
            z = z + 1;
        }
        assert(self@.colors =~= with_columns(given.colors, given.watery, x as int, x + 1));
    }

    /// The color and the brightness of a pixel of water.
    fn water_pixel(x: usize, z: usize, water_count: u8) -> (pixel: (u8, u8))
        requires
            1 <= x < 127,
            1 <= z < 127,
        ensures
            pixel == water_look(x as int, z as int, water_count as int),
            pixel.0 < 64,
            pixel.1 < 4,
    {
        if water_count > 7 && z % 2 == 0 {
            let at: i32 = x as i32 + row_wave(z);
            let stripe: i32 = if at < 0 {
                0
            } else {
                (at / 8) % 5
            };
            let brightness: u8 = if stripe == 0 || stripe == 4 {
                BRIGHTNESS_LOW
            } else if stripe == 2 {
                BRIGHTNESS_HIGH
            } else {
                BRIGHTNESS_NORMAL
            };
            (COLOR_ORANGE, brightness)
        } else if water_count > 7 {
            (0, BRIGHTNESS_LOWEST)
        } else if water_count > 5 {
            (COLOR_ORANGE, BRIGHTNESS_NORMAL)
        } else if water_count > 1 {
            (COLOR_ORANGE, BRIGHTNESS_LOW)
        } else {
            (COLOR_ORANGE, BRIGHTNESS_LOWEST)
        }
    }

    /// One, where there is water.
    fn water_at(&self, x: usize, z: usize) -> (count: u8)
        requires
            x < 128,
            z < 128,
            self@.watery.len() == MAP_COLOR_COUNT,
        ensures
            count == counts_water(self@.watery, x as int, z as int),
            count <= 1,
    {
        if self.is_watery(x, z) {
            1
        } else {
            0
        }
    }

    /// The number of a pixel's eight neighbors that are water.
    pub fn watery_neighbor_count(&self, x: usize, z: usize) -> (count: u8)
        requires
            1 <= x < 127,
            1 <= z < 127,
            self@.watery.len() == MAP_COLOR_COUNT,
        ensures
            count == water_neighbors(self@.watery, x as int, z as int),
    {
        self.water_at(x - 1, z - 1) + self.water_at(x - 1, z) + self.water_at(x - 1, z + 1)
            + self.water_at(x, z - 1) + self.water_at(x, z + 1) + self.water_at(x + 1, z - 1)
            + self.water_at(x + 1, z) + self.water_at(x + 1, z + 1)
    }

    /// Whether a pixel is water.
    pub fn is_watery(&self, x: usize, z: usize) -> (watery: bool)
        requires
            x < 128,
            z < 128,
            self@.watery.len() == MAP_COLOR_COUNT,
        ensures
            watery == self@.watery[z * 128 + x],
    {
        self.watery[z * PREVIEW_SIDE + x]
    }
}

impl Preview {
    /// A slice of columns was rendered: with the last one the colors are handed out.
    pub open spec fn renders(self, start: usize, after: Preview, poll: BiomePreviewPoll) -> bool {
        let end = at_most(start + RENDER_COLUMNS_PER_POLL, 127);
        let colors = with_columns(self.colors, self.watery, start as int, end);
        if end == 127 {
            &&& poll matches BiomePreviewPoll::Ready(handed) && handed@ == colors
            &&& after == (Preview { colors: Seq::empty(), phase: PreviewPhase::Finished, ..self })
        } else {
            &&& poll is Pending
            &&& after == (Preview {
                colors,
                phase: PreviewPhase::Rendering { next_column: end as usize },
                ..self
            })
        }
    }
}

/// The block, along one axis, that stands for a pixel of a map: the pixels of a map
/// are as many blocks apart as one of them has, and 64 of them lie before the center.
pub open spec fn block_of_pixel(center: int, pixel: int, scale: i8) -> int {
    center + (pixel - 64) * blocks_per_pixel(scale)
}

proof fn lemma_sampled_block(coordinate: i32, map_scale: i8, preview: Preview, start: i32, pixel: int)
    requires
        0 <= map_scale <= 4,
        -0x7fff_e000 <= coordinate <= 0x7fff_e000,
        preview.scale == pixel_side(map_scale),
        start == first_pixel(coordinate, map_scale),
        0 <= pixel < 128,
    ensures
        preview.sampled_block(start, pixel) == block_of_pixel(
            center_of(coordinate, map_scale) as int,
            pixel,
            map_scale,
        ),
{
    let center = center_of(coordinate, map_scale) as int;
    lemma_scale_sizes(map_scale);
    law_fresh_maps_lie_on_a_grid(coordinate, map_scale);
    let size = blocks_per_pixel(map_scale);
    let middle = lemma_center_is_a_pixel(center, map_scale);
    assert(quotient(center, size) == middle) by {
        lemma_exact_quotient(middle, size);
    }
    assert((middle - 64 + pixel) * size == center + (pixel - 64) * size) by (nonlinear_arith)
        requires
            center == middle * size,
    ;
    assert(-64 * size <= (pixel - 64) * size < 64 * size) by (nonlinear_arith)
        requires
            1 <= size <= 16,
            0 <= pixel < 128,
    ;
    assert(-0x8000_0000 + 64 <= middle <= 0x7fff_ffff - 64) by (nonlinear_arith)
        requires
            1 <= size <= 16,
            -0x7fff_f000 <= middle * size <= 0x7fff_f000,
    ;
}

proof fn lemma_exact_quotient(value: int, size: int)
    requires
        1 <= size,
    ensures
        quotient(value * size, size) == value,
{
    assert(value >= 0 ==> (value * size) / size == value && value * size >= 0) by (nonlinear_arith)
        requires
            1 <= size,
    ;
    assert(value < 0 ==> (-(value * size)) / size == -value && value * size < 0) by (nonlinear_arith)
        requires
            1 <= size,
    ;
}

/// The center of a map lies between two of its pixels.
proof fn lemma_center_is_a_pixel(center: int, map_scale: i8) -> (middle: int)
    requires
        0 <= map_scale <= 4,
        (center - 64 * blocks_per_pixel(map_scale) + 64) % (128 * blocks_per_pixel(map_scale)) == 0,
    ensures
        center == middle * blocks_per_pixel(map_scale),
{
    if map_scale == 0 {
        center
    } else if map_scale == 1 {
        let cell = (center - 64) / 256;
        128 * cell + 32
    } else if map_scale == 2 {
        let cell = (center - 192) / 512;
        128 * cell + 48
    } else if map_scale == 3 {
        let cell = (center - 448) / 1024;
        128 * cell + 56
    } else {
        let cell = (center - 960) / 2048;
        128 * cell + 60
    }
}

proof fn lemma_sampled_pixels<F: Fn(i32, i32) -> Option<bool>>(
    biome: F,
    preview: Preview,
    watery: Seq<bool>,
    from: int,
    to: int,
)
    requires
        0 <= from <= to <= watery.len(),
    ensures
        ({
            let (sampled, missing) = sampled_pixels(biome, preview, watery, from, to);
            &&& sampled.len() == watery.len()
            &&& forall|i: int|
                0 <= i < from || to <= i < watery.len() ==> #[trigger] sampled[i] == watery[i]
            &&& missing is None ==> forall|i: int|
                from <= i < to ==> answer(
                    biome,
                    preview.sampled_block(preview.start_x, i % 128),
                    preview.sampled_block(preview.start_z, i / 128),
                ) == Some(#[trigger] sampled[i])
        }),
    decreases to - from,
{
    if from < to {
        let x = preview.sampled_block(preview.start_x, from % 128);
        let z = preview.sampled_block(preview.start_z, from / 128);
        match answer(biome, x, z) {
            Some(water) => {
                let given = watery.update(from, water);
                lemma_sampled_pixels(biome, preview, given, from + 1, to);
                let (sampled, missing) = sampled_pixels(biome, preview, given, from + 1, to);
                assert(sampled[from] == given[from]);
                assert forall|i: int|
                    0 <= i < from || to <= i < watery.len() implies #[trigger] sampled[i]
                    == watery[i] by {
                    assert(given[i] == watery[i]);
                }
            },
            None => {},
        }
    }
}

impl Preview {
    /// Whether two previews sample the same blocks, however far each of them is.
    pub open spec fn shows_same_area(self, other: Preview) -> bool {
        self.scale == other.scale && self.start_x == other.start_x && self.start_z == other.start_z
    }
}

proof fn lemma_same_samples<F: Fn(i32, i32) -> Option<bool>>(
    biome: F,
    preview: Preview,
    other: Preview,
    watery: Seq<bool>,
    from: int,
    to: int,
)
    requires
        preview.shows_same_area(other),
    ensures
        sampled_pixels(biome, preview, watery, from, to) == sampled_pixels(
            biome,
            other,
            watery,
            from,
            to,
        ),
    decreases to - from,
{
    if from < to {
        let x = preview.sampled_block(preview.start_x, from % 128);
        let z = preview.sampled_block(preview.start_z, from / 128);
        if let Some(water) = answer(biome, x, z) {
            lemma_same_samples(biome, preview, other, watery.update(from, water), from + 1, to);
        }
    }
}

/// A preview samples the area of the map that shows its target: a pixel that was
/// sampled is water just where the biome is, at the block that stands for the pixel on
/// the fresh map of the target. That block lies within 64 pixels of the map's center,
/// and so does the target.
pub proof fn law_preview_samples_the_map<F: Fn(i32, i32) -> Option<bool>>(
    biome: F,
    preview: Preview,
    target: BlockPos,
    map_scale: i8,
    from: int,
    to: int,
    pixel: int,
)
    requires
        0 <= map_scale <= 4,
        preview.shows_same_area(fresh_preview(target, map_scale)),
        -0x7fff_e000 <= target.x <= 0x7fff_e000,
        -0x7fff_e000 <= target.z <= 0x7fff_e000,
        preview.watery.len() == MAP_COLOR_COUNT,
        0 <= from <= pixel < to <= preview.watery.len(),
        sampled_pixels(biome, preview, preview.watery, from, to).1 is None,
    ensures
        ({
            let sampled = sampled_pixels(biome, preview, preview.watery, from, to).0;
            let center_x = center_of(target.x, map_scale) as int;
            let center_z = center_of(target.z, map_scale) as int;
            let reach = 64 * blocks_per_pixel(map_scale);
            let x = block_of_pixel(center_x, pixel % 128, map_scale);
            let z = block_of_pixel(center_z, pixel / 128, map_scale);
            &&& i32::MIN <= x <= i32::MAX && i32::MIN <= z <= i32::MAX
            &&& answer(biome, x as i32, z as i32) == Some(sampled[pixel])
            &&& center_x - reach <= x < center_x + reach
            &&& center_z - reach <= z < center_z + reach
            &&& center_x - reach <= target.x < center_x + reach
            &&& center_z - reach <= target.z < center_z + reach
        }),
{
    lemma_scale_sizes(map_scale);
    law_fresh_maps_lie_on_a_grid(target.x, map_scale);
    law_fresh_maps_lie_on_a_grid(target.z, map_scale);
    lemma_sampled_block(target.x, map_scale, preview, preview.start_x, pixel % 128);
    lemma_sampled_block(target.z, map_scale, preview, preview.start_z, pixel / 128);
    lemma_sampled_pixels(biome, preview, preview.watery, from, to);
    let size = blocks_per_pixel(map_scale);
    let column = pixel % 128;
    let row = pixel / 128;
    assert(-64 * size <= (column - 64) * size < 64 * size) by (nonlinear_arith)
        requires
            1 <= size <= 16,
            0 <= column < 128,
    ;
    assert(-64 * size <= (row - 64) * size < 64 * size) by (nonlinear_arith)
        requires
            1 <= size <= 16,
            0 <= row < 128,
    ;
}

/// Sampling stops at the first pixel whose biome is not known, and tells where on the
/// map of the target that is.
pub proof fn law_missing_biome_is_the_first_unknown<F: Fn(i32, i32) -> Option<bool>>(
    biome: F,
    preview: Preview,
    target: BlockPos,
    map_scale: i8,
    from: int,
    to: int,
) -> (pixel: int)
    requires
        0 <= map_scale <= 4,
        preview.shows_same_area(fresh_preview(target, map_scale)),
        -0x7fff_e000 <= target.x <= 0x7fff_e000,
        -0x7fff_e000 <= target.z <= 0x7fff_e000,
        preview.watery.len() == MAP_COLOR_COUNT,
        0 <= from <= to <= preview.watery.len(),
        sampled_pixels(biome, preview, preview.watery, from, to).1 is Some,
    ensures
        from <= pixel < to,
        ({
            let missing = sampled_pixels(biome, preview, preview.watery, from, to).1->Some_0;
            let center_x = center_of(target.x, map_scale) as int;
            let center_z = center_of(target.z, map_scale) as int;
            &&& missing.x == block_of_pixel(center_x, pixel % 128, map_scale)
            &&& missing.y == 0
            &&& missing.z == block_of_pixel(center_z, pixel / 128, map_scale)
            &&& answer(biome, missing.x, missing.z) is None
        }),
        sampled_pixels(biome, preview, preview.watery, from, pixel).1 is None,
    decreases to - from,
{
    lemma_scale_sizes(map_scale);
    let x = preview.sampled_block(preview.start_x, from % 128);
    let z = preview.sampled_block(preview.start_z, from / 128);
    lemma_sampled_block(target.x, map_scale, preview, preview.start_x, from % 128);
    lemma_sampled_block(target.z, map_scale, preview, preview.start_z, from / 128);
    match answer(biome, x, z) {
        Some(water) => {
            let given = Preview { watery: preview.watery.update(from, water), ..preview };
            lemma_same_samples(biome, preview, given, given.watery, from + 1, to);
            let pixel = law_missing_biome_is_the_first_unknown(
                biome,
                given,
                target,
                map_scale,
                from + 1,
                to,
            );
            lemma_same_samples(biome, preview, given, given.watery, from + 1, pixel);
            pixel
        },
        None => from,
    }
}

/// Sampling rows slice by slice finds the same water as sampling them at once.
pub proof fn law_slices_sample_the_same<F: Fn(i32, i32) -> Option<bool>>(
    biome: F,
    preview: Preview,
    watery: Seq<bool>,
    from: int,
    middle: int,
    to: int,
)
    requires
        from <= middle <= to,
        sampled_pixels(biome, preview, watery, from, middle).1 is None,
    ensures
        sampled_pixels(
            biome,
            preview,
            sampled_pixels(biome, preview, watery, from, middle).0,
            middle,
            to,
        ) == sampled_pixels(biome, preview, watery, from, to),
    decreases middle - from,
{
    if from < middle {
        let x = preview.sampled_block(preview.start_x, from % 128);
        let z = preview.sampled_block(preview.start_z, from / 128);
        let water = answer(biome, x, z)->Some_0;
        law_slices_sample_the_same(biome, preview, watery.update(from, water), from + 1, middle, to);
    }
}

/// The pixel next to another one, counted from 0 to 8 through the square around it.
pub open spec fn around(x: int, z: int, n: int) -> int {
    (z + n / 3 - 1) * 128 + x + n % 3 - 1
}

/// How many of the first `n` pixels of the square around a pixel are water, without
/// the pixel itself.
pub open spec fn water_around(watery: Seq<bool>, x: int, z: int, n: nat) -> int
    decreases n,
{
    if n == 0 {
        0
    } else {
        water_around(watery, x, z, (n - 1) as nat) + if n - 1 != 4 && watery[around(x, z, n - 1)] {
            1int
        } else {
            0
        }
    }
}

/// A rendered preview leaves its edge blank. Inside it, land is blank unless it touches
/// water, where it is a brown outline, brighter where more than three of its eight
/// neighbors are water. Water is orange, except that open water, with water all around,
/// is blank on odd rows; next to land it grows darker the less water is around it.
pub proof fn law_preview_outlines_the_water(watery: Seq<bool>, x: int, z: int)
    requires
        watery.len() == MAP_COLOR_COUNT,
        0 <= x < 128,
        0 <= z < 128,
    ensures
        ({
            let pixel = with_columns(blank_colors(), watery, 1, 127)[z * 128 + x] as int;
            let count = water_around(watery, x, z, 9);
            if x == 0 || x == 127 || z == 0 || z == 127 {
                pixel == 0
            } else if !watery[z * 128 + x] {
                &&& 0 <= count <= 8
                &&& count == 0 ==> pixel == 0
                &&& 1 <= count <= 3 ==> pixel == 26 * 4 + 3
                &&& 4 <= count ==> pixel == 26 * 4 + 1
            } else {
                &&& 0 <= count <= 8
                &&& count == 8 && z % 2 == 1 ==> pixel == 0
                &&& count == 8 && z % 2 == 0 ==> 15 * 4 <= pixel <= 15 * 4 + 2
                &&& 6 <= count <= 7 ==> pixel == 15 * 4 + 1
                &&& 2 <= count <= 5 ==> pixel == 15 * 4
                &&& count <= 1 ==> pixel == 15 * 4 + 3
            }
        }),
{
    let i = z * 128 + x;
    assert(i % 128 == x && i / 128 == z);
    if 1 <= x < 127 && 1 <= z < 127 {
        lemma_neighbors_counted(watery, x, z);
    }
}

/// The stripes on open water repeat every 40 pixels along a row, in five bands of
/// eight: two dark, two brighter and one brightest in their middle.
pub proof fn law_stripes_repeat(watery: Seq<bool>, x: int, z: int)
    requires
        watery.len() == MAP_COLOR_COUNT,
        7 <= x < 87,
        1 <= z < 127,
        z % 2 == 0,
        watery[z * 128 + x],
        watery[z * 128 + x + 40],
        water_around(watery, x, z, 9) == 8,
        water_around(watery, x + 40, z, 9) == 8,
    ensures
        with_columns(blank_colors(), watery, 1, 127)[z * 128 + x] == with_columns(
            blank_colors(),
            watery,
            1,
            127,
        )[z * 128 + x + 40],
{
    let i = z * 128 + x;
    assert(i % 128 == x && i / 128 == z);
    assert((i + 40) % 128 == x + 40 && (i + 40) / 128 == z);
    lemma_neighbors_counted(watery, x, z);
    lemma_neighbors_counted(watery, x + 40, z);
    assert(-6 <= wave(z) <= 6);
    assert((x + 40 + wave(z)) / 8 == (x + wave(z)) / 8 + 5);
}

proof fn lemma_neighbors_counted(watery: Seq<bool>, x: int, z: int)
    ensures
        water_around(watery, x, z, 9) == water_neighbors(watery, x, z),
{
    reveal_with_fuel(water_around, 10);
    assert(around(x, z, 0) == (z - 1) * 128 + (x - 1));
    assert(around(x, z, 1) == (z - 1) * 128 + x);
    assert(around(x, z, 2) == (z - 1) * 128 + (x + 1));
    assert(around(x, z, 3) == z * 128 + (x - 1));
    assert(around(x, z, 5) == z * 128 + (x + 1));
    assert(around(x, z, 6) == (z + 1) * 128 + (x - 1));
    assert(around(x, z, 7) == (z + 1) * 128 + x);
    assert(around(x, z, 8) == (z + 1) * 128 + (x + 1));
}

/// The sine of an even number, in parts of a billion: each is two cosines of two times
/// the one before, less the one before that.
pub open spec fn sine_of_even(half: nat) -> int
    decreases half,
{
    if half == 0 {
        0
    } else if half == 1 {
        909_297_427
    } else {
        (-832_293_673 * sine_of_even((half - 1) as nat)) / 1_000_000_000 - sine_of_even(
            (half - 2) as nat,
        )
    }
}

proof fn lemma_sines_first()
    ensures
        sine_of_even(0) == 0,
        sine_of_even(1) == 909297427,
        sine_of_even(2) == -756802496,
        sine_of_even(3) == -279415498,
        sine_of_even(4) == 989358247,
        sine_of_even(5) == -544021112,
        sine_of_even(6) == -536572918,
        sine_of_even(7) == 990607356,
        sine_of_even(8) == -287903317,
        sine_of_even(9) == -750987247,
        sine_of_even(10) == 912945251,
        sine_of_even(11) == -8851310,
        sine_of_even(12) == -905578362,
        sine_of_even(13) == 762558451,
        sine_of_even(14) == 270905787,
        sine_of_even(15) == -988031624,
{
    assert(sine_of_even(0) == 0);
    assert(sine_of_even(1) == 909297427);
    assert(sine_of_even(2) == -756802496);
    assert(sine_of_even(3) == -279415498);
    assert(sine_of_even(4) == 989358247);
    assert(sine_of_even(5) == -544021112);
    assert(sine_of_even(6) == -536572918);
    assert(sine_of_even(7) == 990607356);
    assert(sine_of_even(8) == -287903317);
    assert(sine_of_even(9) == -750987247);
    assert(sine_of_even(10) == 912945251);
    assert(sine_of_even(11) == -8851310);
    assert(sine_of_even(12) == -905578362);
    assert(sine_of_even(13) == 762558451);
    assert(sine_of_even(14) == 270905787);
    assert(sine_of_even(15) == -988031624);
}

proof fn lemma_sines_second()
    ensures
        sine_of_even(16) == 551426682,
        sine_of_even(17) == 529082685,
        sine_of_even(18) == -991778854,
        sine_of_even(19) == 296368580,
        sine_of_even(20) == 745113159,
        sine_of_even(21) == -916521548,
        sine_of_even(22) == 17701926,
        sine_of_even(23) == 901788346,
        sine_of_even(24) == -768254661,
        sine_of_even(25) == -262374853,
        sine_of_even(26) == 986627591,
        sine_of_even(27) == -558789049,
        sine_of_even(28) == -521551001,
        sine_of_even(29) == 992872647,
        sine_of_even(30) == -304810622,
        sine_of_even(31) == -739180695,
{
    lemma_sines_first();
    assert(sine_of_even(16) == 551426682);
    assert(sine_of_even(17) == 529082685);
    assert(sine_of_even(18) == -991778854);
    assert(sine_of_even(19) == 296368580);
    assert(sine_of_even(20) == 745113159);
    assert(sine_of_even(21) == -916521548);
    assert(sine_of_even(22) == 17701926);
    assert(sine_of_even(23) == 901788346);
    assert(sine_of_even(24) == -768254661);
    assert(sine_of_even(25) == -262374853);
    assert(sine_of_even(26) == 986627591);
    assert(sine_of_even(27) == -558789049);
    assert(sine_of_even(28) == -521551001);
    assert(sine_of_even(29) == 992872647);
    assert(sine_of_even(30) == -304810622);
    assert(sine_of_even(31) == -739180695);
}

proof fn lemma_sines_third()
    ensures
        sine_of_even(32) == 920026037,
        sine_of_even(33) == -26551155,
        sine_of_even(34) == -897927679,
        sine_of_even(35) == 773890681,
        sine_of_even(36) == 253823361,
        sine_of_even(37) == -985146259,
        sine_of_even(38) == 566107637,
        sine_of_even(39) == 513978454,
        sine_of_even(40) == -993888653,
        sine_of_even(41) == 313228783,
        sine_of_even(42) == 733190318,
        sine_of_even(43) == -923458446,
        sine_of_even(44) == 35398303,
        sine_of_even(45) == 893996662,
        sine_of_even(46) == -779466069,
        sine_of_even(47) == -245251985,
{
    lemma_sines_second();
    assert(sine_of_even(32) == 920026037);
    assert(sine_of_even(33) == -26551155);
    assert(sine_of_even(34) == -897927679);
    assert(sine_of_even(35) == 773890681);
    assert(sine_of_even(36) == 253823361);
    assert(sine_of_even(37) == -985146259);
    assert(sine_of_even(38) == 566107637);
    assert(sine_of_even(39) == 513978454);
    assert(sine_of_even(40) == -993888653);
    assert(sine_of_even(41) == 313228783);
    assert(sine_of_even(42) == 733190318);
    assert(sine_of_even(43) == -923458446);
    assert(sine_of_even(44) == 35398303);
    assert(sine_of_even(45) == 893996662);
    assert(sine_of_even(46) == -779466069);
    assert(sine_of_even(47) == -245251985);
}

proof fn lemma_sines_fourth()
    ensures
        sine_of_even(48) == 983587744,
        sine_of_even(49) == -573381872,
        sine_of_even(50) == -506365640,
        sine_of_even(51) == 994826790,
        sine_of_even(52) == -321622404,
        sine_of_even(53) == -727142499,
        sine_of_even(54) == 926818505,
        sine_of_even(55) == -44242679,
        sine_of_even(56) == -889995604,
        sine_of_even(57) == 784980389,
        sine_of_even(58) == 236661392,
        sine_of_even(59) == -981952169,
        sine_of_even(60) == 580611185,
        sine_of_even(61) == 498713153,
        sine_of_even(62) == -995686987,
        sine_of_even(63) == 329990826,
{
    lemma_sines_third();
    assert(sine_of_even(48) == 983587744);
    assert(sine_of_even(49) == -573381872);
    assert(sine_of_even(50) == -506365640);
    assert(sine_of_even(51) == 994826790);
    assert(sine_of_even(52) == -321622404);
    assert(sine_of_even(53) == -727142499);
    assert(sine_of_even(54) == 926818505);
    assert(sine_of_even(55) == -44242679);
    assert(sine_of_even(56) == -889995604);
    assert(sine_of_even(57) == 784980389);
    assert(sine_of_even(58) == 236661392);
    assert(sine_of_even(59) == -981952169);
    assert(sine_of_even(60) == 580611185);
    assert(sine_of_even(61) == 498713153);
    assert(sine_of_even(62) == -995686987);
    assert(sine_of_even(63) == 329990826);
}

/// The wave on a row is seven times the sine of the row's number, without what is left
/// over a whole number.
pub proof fn law_waves_follow_the_sine(row: int)
    requires
        0 <= row < 128,
        row % 2 == 0,
    ensures
        ({
            let height = 7 * sine_of_even((row / 2) as nat);
            &&& height >= 0 ==> wave(row) >= 0 && wave(row) * 1_000_000_000 <= height < (wave(row)
                + 1) * 1_000_000_000
            &&& height <= 0 ==> wave(row) <= 0 && (wave(row) - 1) * 1_000_000_000 < height
                <= wave(row) * 1_000_000_000
        }),
{
    lemma_sines_first();
    lemma_sines_second();
    lemma_sines_third();
    lemma_sines_fourth();
    let half = row / 2;
    assert(row == 2 * half);
}

/// Along a row of open water the stripes are dark, brighter, brightest, brighter and dark
/// again, each of them eight pixels wide.
pub proof fn law_stripes_are_brightest_in_their_middle(watery: Seq<bool>, x: int, z: int)
    requires
        watery.len() == MAP_COLOR_COUNT,
        7 <= x < 127,
        1 <= z < 127,
        z % 2 == 0,
        watery[z * 128 + x],
        water_around(watery, x, z, 9) == 8,
    ensures
        ({
            let pixel = with_columns(blank_colors(), watery, 1, 127)[z * 128 + x];
            let at = (x + wave(z)) % 40;
            &&& 16 <= at < 24 <==> pixel == 15 * 4 + 2
            &&& 8 <= at < 16 || 24 <= at < 32 <==> pixel == 15 * 4 + 1
            &&& 0 <= at < 8 || 32 <= at < 40 <==> pixel == 15 * 4
        }),
{
    let i = z * 128 + x;
    assert(i % 128 == x && i / 128 == z);
    lemma_neighbors_counted(watery, x, z);
    assert(-6 <= wave(z) <= 6);
    let at = x + wave(z);
    assert((at / 8) % 5 == (at % 40) / 8);
}

} // verus!
