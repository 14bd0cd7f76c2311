//! Which pixels a step draws on a held map, and what they show.
use vstd::prelude::*;

use crate::map::store::clamped_scale;
use crate::map::terrain::{
    answer, area_around, area_chunks, drawn, drawn_column, drawn_columns, drawn_pixel, fits_center,
    fits_offset, shade, with_area_chunks, with_chunk, with_column_chunks, ChunkPos, Drawing, SamplingArea,
    TerrainSample,
};
use crate::map::{blocks_per_pixel, power, SavedMap, MAP_COLOR_COUNT};

verus! {

/// Division that drops what is left over.
pub open spec fn toward_zero(value: int, size: int) -> int {
    if value >= 0 {
        value / size
    } else {
        -((-value) / size)
    }
}

/// The first block, along one axis, of the area that a pixel of a map shows.
pub open spec fn first_block(center: i32, pixel: int, size: int) -> int {
    (toward_zero(center as int, size) + pixel - 64) * size
}

/// What is seen in the area that a pixel of a map shows; nothing where it is not
/// loaded.
pub open spec fn seen_at<F: Fn(i32, i32, i32) -> Option<TerrainSample>>(
    sample: F,
    map: SavedMap,
    x: int,
    y: int,
) -> Option<TerrainSample> {
    let size = blocks_per_pixel(map.scale);
    answer(
        sample,
        first_block(map.center_x, x, size) as i32,
        first_block(map.center_z, y, size) as i32,
        size as i32,
    )
}

/// The pixel, along one axis, that a holder stands on.
pub open spec fn holder_pixel(offset: i32, size: int) -> int {
    toward_zero(offset as int, size) + 64
}

/// How many pixels a holder sees: as many as 128 blocks have, and half of them under a
/// ceiling.
pub open spec fn sight(scale: i8, has_ceiling: bool) -> int {
    if has_ceiling {
        64int / blocks_per_pixel(scale)
    } else {
        128int / blocks_per_pixel(scale)
    }
}

/// Where a holder stands, as a distance from the center of a map, and what they see
/// from there.
pub ghost struct Holder {
    pub offset_x: i32,
    pub offset_z: i32,
    pub has_ceiling: bool,
}

impl Holder {
    /// The square of the distance, in pixels, between the holder and a pixel.
    pub open spec fn distance(self, scale: i8, x: int, y: int) -> int {
        let across = x - holder_pixel(self.offset_x, blocks_per_pixel(scale));
        let down = y - holder_pixel(self.offset_z, blocks_per_pixel(scale));
        across * across + down * down
    }

    /// Whether the holder sees a pixel: those nearer than they can see, but of the
    /// outermost two pixels only every other one.
    pub open spec fn sees(self, scale: i8, x: int, y: int) -> bool {
        let reach = sight(scale, self.has_ceiling);
        &&& self.distance(scale, x, y) < reach * reach
        &&& self.distance(scale, x, y) > (reach - 2) * (reach - 2) ==> (x + y) % 2 == 1
    }

    /// The first row that is sampled for the holder.
    pub open spec fn top(self, scale: i8) -> int {
        holder_pixel(self.offset_z, blocks_per_pixel(scale)) - sight(scale, self.has_ceiling) - 1
    }

    pub open spec fn area(self, map: SavedMap) -> SamplingArea {
        area_around(map, self.has_ceiling, self.offset_x, self.offset_z)
    }
}

/// The sum of heights of the nearest pixel above a row that is loaded and was sampled,
/// and nothing where there is none. One row above the map is sampled too.
pub open spec fn height_above<F: Fn(i32, i32, i32) -> Option<TerrainSample>>(
    sample: F,
    map: SavedMap,
    x: int,
    top: int,
    y: int,
) -> int
    decreases y - top,
{
    if y <= top {
        0
    } else {
        match seen_at(sample, map, x, y - 1) {
            Some(found) if -1 <= y - 1 < 128 => found.total_height as int,
            _ => height_above(sample, map, x, top, y - 1),
        }
    }
}

/// The brightness of a pixel, from 0 to 2. Water darkens by a tenth for each block of
/// depth and by two tenths on every other pixel, and is bright below a half and dark
/// above nine tenths, where a depth of seven counts as above on every other pixel. Land
/// is bright where it rises and dark where it falls by six tenths or more: of four times
/// the mean rise, divided by four more than the pixel's size, and two tenths more or
/// less on every other pixel.
pub open spec fn shading(found: TerrainSample, above: int, size: int, x: int, y: int) -> int {
    let odd = (x + y) % 2;
    if found.color.spec_id() == 12 {
        let tenths = found.water_depth + 2 * odd;
        if tenths < 5 {
            2
        } else if tenths > 9 || odd == 1 && tenths == 9 {
            0
        } else {
            1
        }
    } else {
        let area = size * size;
        let tenth = area * (size + 4);
        let slope = 40 * (found.total_height - above) + (4 * odd - 2) * tenth;
        if slope >= 6 * tenth {
            2
        } else if slope <= -6 * tenth {
            0
        } else {
            1
        }
    }
}

/// Whether a pixel of a column differs between two colorings of a map.
pub open spec fn column_changed(before: Seq<u8>, after: Seq<u8>, x: int) -> bool {
    0 <= x < 128 && exists|y: int|
        0 <= y < 128 && before[x + 128 * y] != #[trigger] after[x + 128 * y]
}

/// The pixel byte of what a pixel shows.
pub open spec fn shown_byte<F: Fn(i32, i32, i32) -> Option<TerrainSample>>(
    sample: F,
    map: SavedMap,
    holder: Holder,
    x: int,
    y: int,
) -> u8 {
    let found = seen_at(sample, map, x, y)->Some_0;
    let size = blocks_per_pixel(map.scale);
    let above = height_above(sample, map, x, holder.top(map.scale), y);
    (found.color.spec_id() * 4 + shading(found, above, size, x, y)) as u8
}

/// The area around a holder has the numbers of what they see.
proof fn lemma_area(map: SavedMap, holder: Holder)
    requires
        fits_offset(holder.offset_x),
        fits_offset(holder.offset_z),
    ensures
        ({
            let area = holder.area(map);
            let size = blocks_per_pixel(map.scale);
            &&& 1 <= size <= 16
            &&& area.scale == size
            &&& area.player_image_x == holder_pixel(holder.offset_x, size)
            &&& area.player_image_y == holder_pixel(holder.offset_z, size)
            &&& area.radius == sight(map.scale, holder.has_ceiling)
            &&& 4 <= area.radius <= 128
        }),
{
    reveal_with_fuel(power, 6);
    let size = blocks_per_pixel(map.scale);
    if map.scale <= 0 {
        assert(size == 1);
    } else if map.scale == 1 {
        assert(size == 2);
    } else if map.scale == 2 {
        assert(size == 4);
    } else if map.scale == 3 {
        assert(size == 8);
    } else {
        assert(size == 16);
    }
    assert(power(clamped_scale(map.scale) as nat) == size);
    lemma_holder_fits(holder.offset_x, size);
    lemma_holder_fits(holder.offset_z, size);
}

proof fn lemma_holder_fits(offset: i32, size: int)
    requires
        1 <= size <= 16,
        fits_offset(offset),
    ensures
        -0x7fff_ff50 <= holder_pixel(offset, size) <= 0x7fff_ff50,
{
    let quotient = toward_zero(offset as int, size);
    assert(-0x7fff_ff00 <= quotient <= 0x7fff_ff00) by (nonlinear_arith)
        requires
            1 <= size <= 16,
            -0x7fff_ff00 <= offset <= 0x7fff_ff00,
            quotient == if offset >= 0 {
                offset as int / size
            } else {
                -((-offset) / size)
            },
    ;
}

/// What one pixel shows after it was sampled.
proof fn lemma_pixel<F: Fn(i32, i32, i32) -> Option<TerrainSample>>(
    sample: F,
    map: SavedMap,
    holder: Holder,
    x: int,
    y: int,
    drawing: Drawing,
)
    requires
        fits_offset(holder.offset_x),
        fits_offset(holder.offset_z),
        0 <= x < 128,
        drawing.colors.len() == MAP_COLOR_COUNT,
        drawing.previous == height_above(sample, map, x, holder.top(map.scale), y),
        y >= holder.top(map.scale),
    ensures
        ({
            let after = drawn_pixel(sample, holder.area(map), map, x, y, drawing);
            let shows = 0 <= y < 128 && holder.sees(map.scale, x, y) && seen_at(
                sample,
                map,
                x,
                y,
            ) is Some;
            &&& after.colors.len() == MAP_COLOR_COUNT
            &&& after.previous == height_above(sample, map, x, holder.top(map.scale), y + 1)
            &&& forall|i: int|
                0 <= i < MAP_COLOR_COUNT && i != x + 128 * y ==> #[trigger] after.colors[i]
                    == drawing.colors[i]
            &&& shows ==> after.colors[x + 128 * y] == shown_byte(sample, map, holder, x, y)
            &&& !shows && 0 <= y < 128 ==> after.colors[x + 128 * y] == drawing.colors[x + 128 * y]
            &&& after.changed == (drawing.changed || (0 <= y < 128 && after.colors[x + 128 * y]
                != drawing.colors[x + 128 * y]))
        }),
{
    lemma_area(map, holder);
    let area = holder.area(map);
    let size = blocks_per_pixel(map.scale);
    assert(area.corner(map.center_x, x) == first_block(map.center_x, x, size));
    assert(area.corner(map.center_z, y) == first_block(map.center_z, y, size));
    assert(area.distance(x, y) == holder.distance(map.scale, x, y));
    if 0 <= y < 128 {
        assert(area.draws(x, y) == holder.sees(map.scale, x, y));
        if let Some(found) = seen_at(sample, map, x, y) {
            lemma_shading(found, drawing.previous, size, x, y);
        }
    }
    assert(x + y * 128 == x + 128 * y);
}

proof fn lemma_shading(found: TerrainSample, above: int, size: int, x: int, y: int)
    ensures
        found.color.spec_packed_id(shade(found, above, size, x, y))
            == found.color.spec_id() * 4 + shading(found, above, size, x, y),
{
    let odd = (x + y) % 2;
    let area = size * size;
    let tenth = area * (size + 4);
    if odd == 1 {
        assert((4 * odd - 2) * tenth == 2 * tenth);
    } else {
        assert(odd == 0);
        assert((4 * odd - 2) * tenth == -2 * tenth);
    }
}

/// Sampling one row more is sampling the rows before and then that row.
proof fn lemma_one_row_more<F: Fn(i32, i32, i32) -> Option<TerrainSample>>(
    sample: F,
    area: SamplingArea,
    map: SavedMap,
    x: int,
    from: int,
    to: int,
    drawing: Drawing,
)
    requires
        from < to,
    ensures
        drawn_column(sample, area, map, x, from, to, drawing) == drawn_pixel(
            sample,
            area,
            map,
            x,
            to - 1,
            drawn_column(sample, area, map, x, from, to - 1, drawing),
        ),
    decreases to - from,
{
    let first = drawn_pixel(sample, area, map, x, from, drawing);
    if from + 1 < to {
        lemma_one_row_more(sample, area, map, x, from + 1, to, first);
    } else {
        assert(drawn_column(sample, area, map, x, to, to, first) == first);
    }
}

/// What the pixels of a column show after rows of it were sampled.
proof fn lemma_column<F: Fn(i32, i32, i32) -> Option<TerrainSample>>(
    sample: F,
    map: SavedMap,
    holder: Holder,
    x: int,
    to: int,
    drawing: Drawing,
)
    requires
        fits_offset(holder.offset_x),
        fits_offset(holder.offset_z),
        0 <= x < 128,
        drawing.colors.len() == MAP_COLOR_COUNT,
        drawing.previous == 0,
        !drawing.changed,
        holder.top(map.scale) <= to,
    ensures
        ({
            let top = holder.top(map.scale);
            let after = drawn_column(sample, holder.area(map), map, x, top, to, drawing);
            &&& after.colors.len() == MAP_COLOR_COUNT
            &&& after.previous == height_above(sample, map, x, top, to)
            &&& forall|i: int|
                0 <= i < MAP_COLOR_COUNT && i % 128 != x ==> #[trigger] after.colors[i]
                    == drawing.colors[i]
            &&& forall|y: int|
                0 <= y < 128 ==> #[trigger] after.colors[x + 128 * y] == if top <= y < to
                    && holder.sees(map.scale, x, y) && seen_at(sample, map, x, y) is Some {
                    shown_byte(sample, map, holder, x, y)
                } else {
                    drawing.colors[x + 128 * y]
                }
            &&& after.changed == column_changed(drawing.colors, after.colors, x)
        }),
    decreases to - holder.top(map.scale),
{
    let top = holder.top(map.scale);
    let area = holder.area(map);
    let after = drawn_column(sample, area, map, x, top, to, drawing);
    if top < to {
        let y = to - 1;
        lemma_one_row_more(sample, area, map, x, top, to, drawing);
        lemma_column(sample, map, holder, x, y, drawing);
        let before = drawn_column(sample, area, map, x, top, y, drawing);
        lemma_pixel(sample, map, holder, x, y, before);
        assert forall|i: int|
            0 <= i < MAP_COLOR_COUNT && i % 128 != x implies #[trigger] after.colors[i]
            == drawing.colors[i] by {
            assert((x + 128 * y) % 128 == x);
            assert(before.colors[i] == drawing.colors[i]);
        }
        assert forall|row: int| 0 <= row < 128 implies #[trigger] after.colors[x + 128 * row]
            == if top <= row < to && holder.sees(map.scale, x, row) && seen_at(
            sample,
            map,
            x,
            row,
        ) is Some {
            shown_byte(sample, map, holder, x, row)
        } else {
            drawing.colors[x + 128 * row]
        } by {
            if row != y {
                assert(after.colors[x + 128 * row] == before.colors[x + 128 * row]);
            }
        }
        if 0 <= y < 128 {
            assert(before.colors[x + 128 * y] == drawing.colors[x + 128 * y]);
        }
        if column_changed(drawing.colors, before.colors, x) {
            let row = choose|row: int|
                0 <= row < 128 && drawing.colors[x + 128 * row]
                    != #[trigger] before.colors[x + 128 * row];
            assert(row != y);
            assert(after.colors[x + 128 * row] == before.colors[x + 128 * row]);
        }
        if column_changed(drawing.colors, after.colors, x) {
            let row = choose|row: int|
                0 <= row < 128 && drawing.colors[x + 128 * row]
                    != #[trigger] after.colors[x + 128 * row];
            if row != y {
                assert(after.colors[x + 128 * row] == before.colors[x + 128 * row]);
            }
        }
    } else {
        assert(after == drawing);
    }
}

/// A drawing after the column behind others was passed: it is sampled where the step
/// selects it or the column before it has changed.
spec fn next_column<F: Fn(i32, i32, i32) -> Option<TerrainSample>>(
    sample: F,
    area: SamplingArea,
    map: SavedMap,
    step: int,
    x: int,
    drawing: Drawing,
) -> Drawing {
    if x % 16 != step % 16 && !drawing.changed {
        drawing
    } else {
        drawn_column(
            sample,
            area,
            map,
            x,
            area.player_image_y - area.radius - 1,
            area.player_image_y + area.radius,
            Drawing { changed: false, previous: 0, ..drawing },
        )
    }
}

proof fn lemma_one_column_more<F: Fn(i32, i32, i32) -> Option<TerrainSample>>(
    sample: F,
    area: SamplingArea,
    map: SavedMap,
    step: int,
    from: int,
    to: int,
    drawing: Drawing,
)
    requires
        from < to,
    ensures
        drawn_columns(sample, area, map, step, from, to, drawing) == next_column(
            sample,
            area,
            map,
            step,
            to - 1,
            drawn_columns(sample, area, map, step, from, to - 1, drawing),
        ),
    decreases to - from,
{
    let first = next_column(sample, area, map, step, from, drawing);
    if from + 1 < to {
        lemma_one_column_more(sample, area, map, step, from + 1, to, first);
    } else {
        assert(drawn_columns(sample, area, map, step, to, to, first) == first);
    }
}

/// A column off the map changes nothing.
proof fn lemma_column_off_map<F: Fn(i32, i32, i32) -> Option<TerrainSample>>(
    sample: F,
    area: SamplingArea,
    map: SavedMap,
    x: int,
    from: int,
    to: int,
    drawing: Drawing,
)
    requires
        !(0 <= x < 128),
    ensures
        drawn_column(sample, area, map, x, from, to, drawing) == drawing,
    decreases to - from,
{
    if from < to {
        lemma_column_off_map(sample, area, map, x, from + 1, to, drawing);
    }
}

/// What a pixel shows after columns were passed.
spec fn pixel_after<F: Fn(i32, i32, i32) -> Option<TerrainSample>>(
    sample: F,
    map: SavedMap,
    holder: Holder,
    step: int,
    after: Seq<u8>,
    x: int,
    y: int,
) -> u8 {
    if (x % 16 == step % 16 || column_changed(map.colors, after, x - 1)) && holder.sees(
        map.scale,
        x,
        y,
    ) && seen_at(sample, map, x, y) is Some {
        shown_byte(sample, map, holder, x, y)
    } else {
        map.colors[x + 128 * y]
    }
}

/// Colorings that agree on a column agree on whether it has changed.
proof fn lemma_same_column(before: Seq<u8>, a: Seq<u8>, b: Seq<u8>, x: int)
    requires
        0 <= x < 128 ==> forall|y: int|
            0 <= y < 128 ==> a[x + 128 * y] == #[trigger] b[x + 128 * y],
    ensures
        column_changed(before, a, x) == column_changed(before, b, x),
{
    if column_changed(before, a, x) {
        let y = choose|y: int| 0 <= y < 128 && before[x + 128 * y] != #[trigger] a[x + 128 * y];
        assert(b[x + 128 * y] == a[x + 128 * y]);
    }
    if column_changed(before, b, x) {
        let y = choose|y: int| 0 <= y < 128 && before[x + 128 * y] != #[trigger] b[x + 128 * y];
        assert(a[x + 128 * y] == b[x + 128 * y]);
    }
}

/// The drawing that a step begins with.
spec fn undrawn(map: SavedMap) -> Drawing {
    Drawing { colors: map.colors, dirty: None, changed: false, previous: 0 }
}

/// What one column shows after it was passed.
proof fn lemma_next_column<F: Fn(i32, i32, i32) -> Option<TerrainSample>>(
    sample: F,
    map: SavedMap,
    holder: Holder,
    step: int,
    x: int,
    drawing: Drawing,
)
    requires
        fits_offset(holder.offset_x),
        fits_offset(holder.offset_z),
        map.colors.len() == MAP_COLOR_COUNT,
        drawing.colors.len() == MAP_COLOR_COUNT,
        forall|i: int|
            0 <= i < MAP_COLOR_COUNT && i % 128 >= x ==> #[trigger] drawing.colors[i]
                == map.colors[i],
        drawing.changed == column_changed(map.colors, drawing.colors, x - 1),
    ensures
        ({
            let after = next_column(sample, holder.area(map), map, step, x, drawing);
            &&& after.colors.len() == MAP_COLOR_COUNT
            &&& forall|i: int|
                0 <= i < MAP_COLOR_COUNT && i % 128 != x ==> #[trigger] after.colors[i]
                    == drawing.colors[i]
            &&& 0 <= x < 128 ==> forall|y: int|
                0 <= y < 128 ==> #[trigger] after.colors[x + 128 * y] == pixel_after(
                    sample,
                    map,
                    holder,
                    step,
                    drawing.colors,
                    x,
                    y,
                )
            &&& after.changed == column_changed(map.colors, after.colors, x)
        }),
{
    let area = holder.area(map);
    let size = blocks_per_pixel(map.scale);
    let after = next_column(sample, area, map, step, x, drawing);
    let reach = sight(map.scale, holder.has_ceiling);
    lemma_area(map, holder);
    let top = holder.top(map.scale);
    let bottom = area.player_image_y + area.radius;
    assert(top == area.player_image_y - area.radius - 1);
    let fresh = Drawing { changed: false, previous: 0, ..drawing };
    if !(0 <= x < 128) {
        lemma_column_off_map(sample, area, map, x, top, bottom, fresh);
    } else {
        assert forall|y: int| 0 <= y < 128 implies #[trigger] drawing.colors[x + 128 * y]
            == map.colors[x + 128 * y] by {
            assert((x + 128 * y) % 128 == x);
        }
        if x % 16 != step % 16 && !drawing.changed {
            assert(after == drawing);
            assert(!column_changed(map.colors, after.colors, x));
        } else {
            lemma_column(sample, map, holder, x, bottom, fresh);
            assert forall|y: int| 0 <= y < 128 implies #[trigger] after.colors[x + 128 * y]
                == pixel_after(sample, map, holder, step, drawing.colors, x, y) by {
                if holder.sees(map.scale, x, y) {
                    lemma_seen_rows(holder, map, x, y);
                }
                assert(drawing.colors[x + 128 * y] == map.colors[x + 128 * y]);
            }
            lemma_changed_since(map.colors, fresh.colors, after.colors, x);
        }
    }
}

/// A column that was untouched before has changed where it has changed since.
proof fn lemma_changed_since(first: Seq<u8>, second: Seq<u8>, after: Seq<u8>, x: int)
    requires
        forall|y: int| 0 <= y < 128 ==> #[trigger] second[x + 128 * y] == first[x + 128 * y],
    ensures
        column_changed(first, after, x) == column_changed(second, after, x),
{
    if column_changed(first, after, x) {
        let y = choose|y: int| 0 <= y < 128 && first[x + 128 * y] != #[trigger] after[x + 128 * y];
        assert(second[x + 128 * y] == first[x + 128 * y]);
    }
    if column_changed(second, after, x) {
        let y = choose|y: int| 0 <= y < 128 && second[x + 128 * y] != #[trigger] after[x + 128 * y];
        assert(second[x + 128 * y] == first[x + 128 * y]);
    }
}

/// The pixels that a holder sees lie in the rows and columns that are sampled.
proof fn lemma_seen_rows(holder: Holder, map: SavedMap, x: int, y: int)
    requires
        holder.sees(map.scale, x, y),
        4 <= sight(map.scale, holder.has_ceiling) <= 128,
    ensures
        ({
            let size = blocks_per_pixel(map.scale);
            let reach = sight(map.scale, holder.has_ceiling);
            let across = x - holder_pixel(holder.offset_x, size);
            let down = y - holder_pixel(holder.offset_z, size);
            -reach < across < reach && -reach < down < reach
        }),
{
    let size = blocks_per_pixel(map.scale);
    let reach = sight(map.scale, holder.has_ceiling);
    let across = x - holder_pixel(holder.offset_x, size);
    let down = y - holder_pixel(holder.offset_z, size);
    assert(-reach < across < reach && -reach < down < reach) by (nonlinear_arith)
        requires
            across * across + down * down < reach * reach,
            reach >= 4,
    ;
}

/// What the map shows after columns were passed from the first one that is sampled.
proof fn lemma_columns<F: Fn(i32, i32, i32) -> Option<TerrainSample>>(
    sample: F,
    map: SavedMap,
    holder: Holder,
    step: int,
    to: int,
)
    requires
        fits_offset(holder.offset_x),
        fits_offset(holder.offset_z),
        map.colors.len() == MAP_COLOR_COUNT,
        holder.area(map).player_image_x - holder.area(map).radius + 1 <= to,
    ensures
        ({
            let area = holder.area(map);
            let start = area.player_image_x - area.radius + 1;
            let after = drawn_columns(sample, area, map, step, start, to, undrawn(map));
            &&& after.colors.len() == MAP_COLOR_COUNT
            &&& forall|i: int|
                0 <= i < MAP_COLOR_COUNT && (i % 128 >= to || i % 128 < start)
                    ==> #[trigger] after.colors[i] == map.colors[i]
            &&& forall|x: int, y: int|
                0 <= x < 128 && start <= x < to && 0 <= y < 128 ==> #[trigger] after.colors[x + 128
                    * y] == pixel_after(sample, map, holder, step, after.colors, x, y)
            &&& after.changed == column_changed(map.colors, after.colors, to - 1)
        }),
    decreases to - (holder.area(map).player_image_x - holder.area(map).radius + 1),
{
    let area = holder.area(map);
    let start = area.player_image_x - area.radius + 1;
    let begun = undrawn(map);
    let after = drawn_columns(sample, area, map, step, start, to, begun);
    if start < to {
        let x = to - 1;
        lemma_one_column_more(sample, area, map, step, start, to, begun);
        lemma_columns(sample, map, holder, step, x);
        let before = drawn_columns(sample, area, map, step, start, x, begun);
        lemma_next_column(sample, map, holder, step, x, before);
        assert forall|i: int|
            0 <= i < MAP_COLOR_COUNT && (i % 128 >= to || i % 128 < start)
            implies #[trigger] after.colors[i] == map.colors[i] by {
            assert(before.colors[i] == map.colors[i]);
        }
        assert forall|column: int, y: int|
            0 <= column < 128 && start <= column < to && 0 <= y < 128
            implies #[trigger] after.colors[column + 128 * y] == pixel_after(
            sample,
            map,
            holder,
            step,
            after.colors,
            column,
            y,
        ) by {
            lemma_earlier_column(before.colors, after.colors, x, column - 1);
            lemma_same_column(map.colors, before.colors, after.colors, column - 1);
            if column < x {
                assert((column + 128 * y) % 128 == column);
                assert(after.colors[column + 128 * y] == before.colors[column + 128 * y]);
            }
        }
    } else {
        assert(after == begun);
        assert(!column_changed(map.colors, after.colors, to - 1));
    }
}

proof fn lemma_earlier_column(before: Seq<u8>, after: Seq<u8>, x: int, column: int)
    requires
        column < x,
        before.len() == MAP_COLOR_COUNT,
        after.len() == MAP_COLOR_COUNT,
        forall|i: int|
            0 <= i < MAP_COLOR_COUNT && i % 128 != x ==> #[trigger] after[i] == before[i],
    ensures
        0 <= column < 128 ==> forall|y: int|
            0 <= y < 128 ==> before[column + 128 * y] == #[trigger] after[column + 128 * y],
{
    if 0 <= column < 128 {
        assert forall|y: int| 0 <= y < 128 implies before[column + 128 * y] == #[trigger] after[column
            + 128 * y] by {
            assert((column + 128 * y) % 128 == column);
        }
    }
}

/// A step samples every sixteenth column, beginning with its own, and those that follow
/// one that has changed. In them, every pixel that the holder sees and whose area is
/// loaded shows the color of that area: of the blocks from `(center / size + pixel - 64)
/// * size` on, along each axis with the map's own center. It is shaded by how the land
/// rises from the pixel above, or by the depth of the water. Every other pixel stays as
/// it is.
pub proof fn law_step_draws_what_its_columns_show<
    F: Fn(i32, i32, i32) -> Option<TerrainSample>,
>(sample: F, map: SavedMap, holder: Holder, step: int, x: int, y: int)
    requires
        fits_offset(holder.offset_x),
        fits_offset(holder.offset_z),
        map.colors.len() == MAP_COLOR_COUNT,
        0 <= x < 128,
        0 <= y < 128,
    ensures
        ({
            let after = drawn(
                sample,
                area_around(map, holder.has_ceiling, holder.offset_x, holder.offset_z),
                map,
                step,
            ).colors;
            let samples = x % 16 == step % 16 || column_changed(map.colors, after, x - 1);
            &&& after.len() == MAP_COLOR_COUNT
            &&& after[x + 128 * y] == if samples && holder.sees(map.scale, x, y) && seen_at(
                sample,
                map,
                x,
                y,
            ) is Some {
                shown_byte(sample, map, holder, x, y)
            } else {
                map.colors[x + 128 * y]
            }
        }),
{
    let area = holder.area(map);
    lemma_area(map, holder);
    let start = area.player_image_x - area.radius + 1;
    let end = area.player_image_x + area.radius;
    lemma_columns(sample, map, holder, step, end);
    let after = drawn(sample, area, map, step).colors;
    assert((x + 128 * y) % 128 == x);
    if holder.sees(map.scale, x, y) {
        lemma_seen_rows(holder, map, x, y);
        assert(start <= x < end);
    }
    if start <= x < end {
        assert(after[x + 128 * y] == pixel_after(sample, map, holder, step, after, x, y));
    } else {
        assert(after[x + 128 * y] == map.colors[x + 128 * y]);
    }
}

proof fn lemma_first_block_fits(center: i32, pixel: int, size: int)
    requires
        1 <= size <= 16,
        -1 <= pixel < 128,
        -0x7fff_fb00 <= center <= 0x7fff_fb00,
    ensures
        i32::MIN <= first_block(center, pixel, size) <= i32::MAX,
{
    let cell = toward_zero(center as int, size);
    assert(cell * size - 16 < center < cell * size + 16) by (nonlinear_arith)
        requires
            1 <= size <= 16,
            cell == if center >= 0 {
                center as int / size
            } else {
                -((-center) / size)
            },
    ;
    assert(-0x8000_0000 <= (cell + pixel - 64) * size <= 0x7fff_ffff) by (nonlinear_arith)
        requires
            1 <= size <= 16,
            -1 <= pixel < 128,
            -0x7fff_fb00 <= center <= 0x7fff_fb00,
            cell * size - 16 < center < cell * size + 16,
    ;
}

/// A map whose center lies some whole pixels further along shows blocks that lie just
/// as far along.
proof fn lemma_block_moves(center: i32, other: i32, pixel: int, size: int)
    requires
        1 <= size <= 16,
        center as int % size == 0,
        other as int % size == 0,
    ensures
        first_block(other, pixel, size) == first_block(center, pixel, size) + (other - center),
{
    let a = center as int / size;
    let b = other as int / size;
    assert(toward_zero(center as int, size) == a && center == a * size) by (nonlinear_arith)
        requires
            1 <= size <= 16,
            center as int % size == 0,
            a == center as int / size,
            toward_zero(center as int, size) == if center >= 0 {
                center as int / size
            } else {
                -((-center) / size)
            },
    ;
    assert(toward_zero(other as int, size) == b && other == b * size) by (nonlinear_arith)
        requires
            1 <= size <= 16,
            other as int % size == 0,
            b == other as int / size,
            toward_zero(other as int, size) == if other >= 0 {
                other as int / size
            } else {
                -((-other) / size)
            },
    ;
    assert((b + pixel - 64) * size == (a + pixel - 64) * size + (b * size - a * size))
        by (nonlinear_arith);
}

/// Two terrains that differ by nothing but a move.
pub open spec fn moved_by<F: Fn(i32, i32, i32) -> Option<TerrainSample>>(
    first: F,
    second: F,
    move_x: int,
    move_z: int,
    size: int,
) -> bool {
    forall|x: i32, z: i32|
        i32::MIN <= x + move_x <= i32::MAX && i32::MIN <= z + move_z <= i32::MAX
            ==> #[trigger] answer(first, x, z, size as i32) == answer(
            second,
            (x + move_x) as i32,
            (z + move_z) as i32,
            size as i32,
        )
}

/// A map whose center is moved along either axis by whole pixels, over terrain that is
/// moved as far, is drawn in the same way: what it shows lies just as far along that
/// axis, and no further along the other.
pub proof fn law_moved_map_shows_moved_terrain<F: Fn(i32, i32, i32) -> Option<TerrainSample>>(
    first: F,
    second: F,
    map: SavedMap,
    other: SavedMap,
    holder: Holder,
    step: int,
)
    requires
        fits_offset(holder.offset_x),
        fits_offset(holder.offset_z),
        fits_center(map),
        fits_center(other),
        other == (SavedMap { center_x: other.center_x, center_z: other.center_z, ..map }),
        map.center_x as int % blocks_per_pixel(map.scale) == 0,
        map.center_z as int % blocks_per_pixel(map.scale) == 0,
        other.center_x as int % blocks_per_pixel(map.scale) == 0,
        other.center_z as int % blocks_per_pixel(map.scale) == 0,
        moved_by(
            first,
            second,
            other.center_x - map.center_x,
            other.center_z - map.center_z,
            blocks_per_pixel(map.scale),
        ),
    ensures
        drawn(
            first,
            area_around(map, holder.has_ceiling, holder.offset_x, holder.offset_z),
            map,
            step,
        ) == drawn(
            second,
            area_around(other, holder.has_ceiling, holder.offset_x, holder.offset_z),
            other,
            step,
        ),
{
    let area = holder.area(map);
    lemma_area(map, holder);
    assert(holder.area(other) == area);
    lemma_moved_columns(
        first,
        second,
        map,
        other,
        area,
        step,
        area.player_image_x - area.radius + 1,
        area.player_image_x + area.radius,
        undrawn(map),
    );
}

/// A map and another one over moved terrain, seen in the same area.
spec fn are_moved<F: Fn(i32, i32, i32) -> Option<TerrainSample>>(
    first: F,
    second: F,
    map: SavedMap,
    other: SavedMap,
    area: SamplingArea,
) -> bool {
    let size = area.scale as int;
    &&& 1 <= size <= 16
    &&& fits_center(map)
    &&& fits_center(other)
    &&& map.center_x as int % size == 0
    &&& map.center_z as int % size == 0
    &&& other.center_x as int % size == 0
    &&& other.center_z as int % size == 0
    &&& moved_by(
        first,
        second,
        other.center_x - map.center_x,
        other.center_z - map.center_z,
        size,
    )
}

proof fn lemma_moved_pixel<F: Fn(i32, i32, i32) -> Option<TerrainSample>>(
    first: F,
    second: F,
    map: SavedMap,
    other: SavedMap,
    area: SamplingArea,
    x: int,
    y: int,
    drawing: Drawing,
)
    requires
        are_moved(first, second, map, other, area),
    ensures
        drawn_pixel(first, area, map, x, y, drawing) == drawn_pixel(
            second,
            area,
            other,
            x,
            y,
            drawing,
        ),
{
    if 0 <= x < 128 && -1 <= y < 128 {
        let size = area.scale as int;
        lemma_block_moves(map.center_x, other.center_x, x, size);
        lemma_block_moves(map.center_z, other.center_z, y, size);
        lemma_first_block_fits(map.center_x, x, size);
        lemma_first_block_fits(map.center_z, y, size);
        lemma_first_block_fits(other.center_x, x, size);
        lemma_first_block_fits(other.center_z, y, size);
        assert(area.corner(map.center_x, x) == first_block(map.center_x, x, size));
        assert(area.corner(map.center_z, y) == first_block(map.center_z, y, size));
        assert(area.corner(other.center_x, x) == first_block(other.center_x, x, size));
        assert(area.corner(other.center_z, y) == first_block(other.center_z, y, size));
        let from_x = first_block(map.center_x, x, size) as i32;
        let from_z = first_block(map.center_z, y, size) as i32;
        assert(answer(first, from_x, from_z, size as i32) == answer(
            second,
            (from_x + (other.center_x - map.center_x)) as i32,
            (from_z + (other.center_z - map.center_z)) as i32,
            size as i32,
        ));
    }
}

proof fn lemma_moved_column<F: Fn(i32, i32, i32) -> Option<TerrainSample>>(
    first: F,
    second: F,
    map: SavedMap,
    other: SavedMap,
    area: SamplingArea,
    x: int,
    from: int,
    to: int,
    drawing: Drawing,
)
    requires
        are_moved(first, second, map, other, area),
    ensures
        drawn_column(first, area, map, x, from, to, drawing) == drawn_column(
            second,
            area,
            other,
            x,
            from,
            to,
            drawing,
        ),
    decreases to - from,
{
    if from < to {
        lemma_moved_pixel(first, second, map, other, area, x, from, drawing);
        let next = drawn_pixel(first, area, map, x, from, drawing);
        lemma_moved_column(first, second, map, other, area, x, from + 1, to, next);
    }
}

proof fn lemma_moved_columns<F: Fn(i32, i32, i32) -> Option<TerrainSample>>(
    first: F,
    second: F,
    map: SavedMap,
    other: SavedMap,
    area: SamplingArea,
    step: int,
    from: int,
    to: int,
    drawing: Drawing,
)
    requires
        are_moved(first, second, map, other, area),
    ensures
        drawn_columns(first, area, map, step, from, to, drawing) == drawn_columns(
            second,
            area,
            other,
            step,
            from,
            to,
            drawing,
        ),
    decreases to - from,
{
    if from < to {
        let top = area.player_image_y - area.radius - 1;
        let bottom = area.player_image_y + area.radius;
        let fresh = Drawing { changed: false, previous: 0, ..drawing };
        lemma_moved_column(first, second, map, other, area, from, top, bottom, fresh);
        let next = next_column(first, area, map, step, from, drawing);
        lemma_moved_columns(first, second, map, other, area, step, from + 1, to, next);
    }
}

/// The chunk of the blocks that a pixel of a map shows.
pub open spec fn chunk_shown(map: SavedMap, x: int, y: int) -> ChunkPos {
    let size = blocks_per_pixel(map.scale);
    ChunkPos {
        x: (first_block(map.center_x, x, size) / 16) as i32,
        z: (first_block(map.center_z, y, size) / 16) as i32,
    }
}

/// Whether a pixel is sampled for a holder: one of those that they may see, or of the
/// row above.
pub open spec fn is_sampled(map: SavedMap, holder: Holder, x: int, y: int) -> bool {
    let size = blocks_per_pixel(map.scale);
    let reach = sight(map.scale, holder.has_ceiling);
    &&& 0 <= x < 128
    &&& -1 <= y < 128
    &&& -reach < x - holder_pixel(holder.offset_x, size) < reach
    &&& -reach - 1 <= y - holder_pixel(holder.offset_z, size) < reach
}

/// All the blocks that a pixel shows, along one axis, lie in one chunk.
pub proof fn law_pixel_lies_in_one_chunk(center: i32, pixel: int, scale: i8, block: int)
    requires
        0 <= block < blocks_per_pixel(scale),
    ensures
        (first_block(center, pixel, blocks_per_pixel(scale)) + block) / 16 == first_block(
            center,
            pixel,
            blocks_per_pixel(scale),
        ) / 16,
{
    let size = blocks_per_pixel(scale);
    let cell = toward_zero(center as int, size) + pixel - 64;
    if size == 1 {
        assert(cell * size == cell);
    } else if size == 2 {
        assert((cell * 2 + block) / 16 == cell * 2 / 16);
    } else if size == 4 {
        assert((cell * 4 + block) / 16 == cell * 4 / 16);
    } else if size == 8 {
        assert((cell * 8 + block) / 16 == cell * 8 / 16);
    } else {
        assert((cell * 16 + block) / 16 == cell * 16 / 16);
    }
}

/// Whether a list holds each chunk once.
pub open spec fn are_distinct(chunks: Seq<ChunkPos>) -> bool {
    forall|i: int, j: int|
        0 <= i < j < chunks.len() ==> #[trigger] chunks[i] != #[trigger] chunks[j]
}

proof fn lemma_with_chunk(chunks: Seq<ChunkPos>, chunk: ChunkPos)
    ensures
        are_distinct(chunks) ==> are_distinct(with_chunk(chunks, chunk)),
        with_chunk(chunks, chunk).contains(chunk),
        forall|other: ChunkPos| #[trigger]
            with_chunk(chunks, chunk).contains(other) <==> chunks.contains(other) || other == chunk,
{
    let more = with_chunk(chunks, chunk);
    if !chunks.contains(chunk) {
        assert(more.last() == chunk);
        assert forall|other: ChunkPos| #[trigger] more.contains(other) <==> chunks.contains(other)
            || other == chunk by {
            if chunks.contains(other) {
                let i = choose|i: int| 0 <= i < chunks.len() && chunks[i] == other;
                assert(more[i] == other);
            }
            if more.contains(other) && other != chunk {
                let i = choose|i: int| 0 <= i < more.len() && more[i] == other;
                assert(chunks[i] == other);
            }
        }
    }
}

proof fn lemma_column_chunks(
    chunks: Seq<ChunkPos>,
    area: SamplingArea,
    map: SavedMap,
    x: int,
    from: int,
    to: int,
)
    ensures
        ({
            let more = with_column_chunks(chunks, area, map, x, from, to);
            &&& are_distinct(chunks) ==> are_distinct(more)
            &&& forall|chunk: ChunkPos| #[trigger]
                more.contains(chunk) <==> chunks.contains(chunk) || exists|y: int|
                    from <= y < to && -1 <= y < 128 && chunk == #[trigger] area.chunk(map, x, y)
        }),
    decreases to - from,
{
    if from < to {
        let next = if -1 <= from < 128 {
            with_chunk(chunks, area.chunk(map, x, from))
        } else {
            chunks
        };
        lemma_with_chunk(chunks, area.chunk(map, x, from));
        lemma_column_chunks(next, area, map, x, from + 1, to);
        let more = with_column_chunks(chunks, area, map, x, from, to);
        assert(more == with_column_chunks(next, area, map, x, from + 1, to));
        assert forall|chunk: ChunkPos| #[trigger]
            more.contains(chunk) <==> chunks.contains(chunk) || exists|y: int|
                from <= y < to && -1 <= y < 128 && chunk == #[trigger] area.chunk(map, x, y) by {
            assert(chunks.contains(chunk) ==> next.contains(chunk));
            if next.contains(chunk) && !chunks.contains(chunk) {
                assert(chunk == area.chunk(map, x, from));
            }
            if more.contains(chunk) && !next.contains(chunk) {
                let y = choose|y: int|
                    from + 1 <= y < to && -1 <= y < 128 && chunk == #[trigger] area.chunk(map, x, y);
                assert(from <= y < to && chunk == area.chunk(map, x, y));
            }
            if exists|y: int|
                from <= y < to && -1 <= y < 128 && chunk == #[trigger] area.chunk(map, x, y) {
                let y = choose|y: int|
                    from <= y < to && -1 <= y < 128 && chunk == #[trigger] area.chunk(map, x, y);
                if y == from {
                    assert(next.contains(chunk));
                }
            }
        }
    }
}

proof fn lemma_area_chunks(
    chunks: Seq<ChunkPos>,
    area: SamplingArea,
    map: SavedMap,
    from: int,
    to: int,
)
    ensures
        ({
            let top = area.player_image_y - area.radius - 1;
            let bottom = area.player_image_y + area.radius;
            let more = with_area_chunks(chunks, area, map, from, to);
            &&& are_distinct(chunks) ==> are_distinct(more)
            &&& forall|chunk: ChunkPos| #[trigger]
                more.contains(chunk) <==> chunks.contains(chunk) || exists|x: int, y: int|
                    from <= x < to && 0 <= x < 128 && top <= y < bottom && -1 <= y < 128 && chunk
                        == #[trigger] area.chunk(map, x, y)
        }),
    decreases to - from,
{
    let top = area.player_image_y - area.radius - 1;
    let bottom = area.player_image_y + area.radius;
    if from < to {
        let next = if 0 <= from < 128 {
            with_column_chunks(chunks, area, map, from, top, bottom)
        } else {
            chunks
        };
        lemma_column_chunks(chunks, area, map, from, top, bottom);
        lemma_area_chunks(next, area, map, from + 1, to);
        let more = with_area_chunks(chunks, area, map, from, to);
        assert(more == with_area_chunks(next, area, map, from + 1, to));
        assert forall|chunk: ChunkPos| #[trigger]
            more.contains(chunk) <==> chunks.contains(chunk) || exists|x: int, y: int|
                from <= x < to && 0 <= x < 128 && top <= y < bottom && -1 <= y < 128 && chunk
                    == #[trigger] area.chunk(map, x, y) by {
            assert(chunks.contains(chunk) ==> next.contains(chunk));
            if next.contains(chunk) && !chunks.contains(chunk) {
                let y = choose|y: int|
                    top <= y < bottom && -1 <= y < 128 && chunk == #[trigger] area.chunk(
                        map,
                        from,
                        y,
                    );
                assert(chunk == area.chunk(map, from, y));
            }
            if more.contains(chunk) && !next.contains(chunk) {
                let (x, y) = choose|x: int, y: int|
                    from + 1 <= x < to && 0 <= x < 128 && top <= y < bottom && -1 <= y < 128
                        && chunk == #[trigger] area.chunk(map, x, y);
                assert(from <= x < to && chunk == area.chunk(map, x, y));
            }
            if exists|x: int, y: int|
                from <= x < to && 0 <= x < 128 && top <= y < bottom && -1 <= y < 128 && chunk
                    == #[trigger] area.chunk(map, x, y) {
                let (x, y) = choose|x: int, y: int|
                    from <= x < to && 0 <= x < 128 && top <= y < bottom && -1 <= y < 128 && chunk
                        == #[trigger] area.chunk(map, x, y);
                if x == from {
                    assert(next.contains(chunk));
                }
            }
        }
    }
}

/// The chunks that are requested for a held map are just those of the pixels that are
/// sampled for its holder, each of them once.
pub proof fn law_sampled_chunks_are_requested(map: SavedMap, holder: Holder)
    requires
        fits_offset(holder.offset_x),
        fits_offset(holder.offset_z),
    ensures
        ({
            let chunks = area_chunks(
                area_around(map, holder.has_ceiling, holder.offset_x, holder.offset_z),
                map,
            );
            &&& are_distinct(chunks)
            &&& forall|x: int, y: int|
                is_sampled(map, holder, x, y) ==> chunks.contains(#[trigger] chunk_shown(map, x, y))
            &&& forall|chunk: ChunkPos| #[trigger]
                chunks.contains(chunk) ==> exists|x: int, y: int|
                    is_sampled(map, holder, x, y) && chunk == #[trigger] chunk_shown(map, x, y)
        }),
{
    let area = holder.area(map);
    let size = blocks_per_pixel(map.scale);
    lemma_area(map, holder);
    let start = area.player_image_x - area.radius + 1;
    let end = area.player_image_x + area.radius;
    lemma_area_chunks(Seq::empty(), area, map, start, end);
    let chunks = area_chunks(area, map);
    assert forall|x: int, y: int| #[trigger] area.chunk(map, x, y) == chunk_shown(map, x, y) by {
        assert(area.corner(map.center_x, x) == first_block(map.center_x, x, size));
        assert(area.corner(map.center_z, y) == first_block(map.center_z, y, size));
    }
    assert forall|x: int, y: int| is_sampled(map, holder, x, y) implies chunks.contains(
        #[trigger] chunk_shown(map, x, y),
    ) by {
        assert(chunk_shown(map, x, y) == area.chunk(map, x, y));
    }
    assert forall|chunk: ChunkPos| #[trigger] chunks.contains(chunk) implies exists|x: int, y: int|
        is_sampled(map, holder, x, y) && chunk == #[trigger] chunk_shown(map, x, y) by {
        let top = area.player_image_y - area.radius - 1;
        let bottom = area.player_image_y + area.radius;
        let (x, y) = choose|x: int, y: int|
            start <= x < end && 0 <= x < 128 && top <= y < bottom && -1 <= y < 128 && chunk
                == #[trigger] area.chunk(map, x, y);
        assert(is_sampled(map, holder, x, y));
        assert(chunk == chunk_shown(map, x, y));
    }
}

} // verus!
