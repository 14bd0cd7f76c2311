//! Who carries filled maps, and what was sent to them.
use vstd::prelude::*;

use crate::data_components::{number_of, Component, ComponentKind, DataComponentGetter};
use crate::ident::{vanilla_id, Id, Identifier};
use crate::item_stack::{stacks_of, ItemStack, Stack};
use crate::keyed::{by_key, contains_id, find, holds_id, Tag};
use crate::loot_table::entries::floor_div;
use crate::map::packet::{
    copy_decorations, direction, icons_of, same_decorations, CMapItemData, Icon, MapDecoration,
    MapPatch, MapUpdate, Patch,
};
use crate::map::terrain::{ChunkPos, MapDirtyBounds};
use crate::map::{MapItemSavedData, SavedMap, MAP_COLOR_COUNT};
use crate::nbt::{lookup, Nbt, NbtCompound, NbtTag};

verus! {

/// An icon that belongs to a map item, as a mathematical value.
#[verifier::ext_equal]
pub ghost struct Entry {
    pub kind: Id,
    pub x: u64,
    pub z: u64,
    pub rotation: u32,
}

/// An icon that belongs to a map item. The numbers are the bits of floating-point
/// numbers: the coordinates of double ones, the rotation of a single one.
#[derive(Debug)]
pub struct MapDecorationEntry {
    pub decoration_type: Identifier,
    pub x: u64,
    pub z: u64,
    pub rotation: u32,
}

impl View for MapDecorationEntry {
    type V = Entry;

    open spec fn view(&self) -> Entry {
        Entry { kind: self.decoration_type@, x: self.x, z: self.z, rotation: self.rotation }
    }
}

impl MapDecorationEntry {
    /// A copy of this icon.
    pub fn copy(&self) -> (entry: Self)
        ensures
            entry@ == self@,
    {
        MapDecorationEntry {
            decoration_type: self.decoration_type.clone(),
            x: self.x,
            z: self.z,
            rotation: self.rotation,
        }
    }
}

/// Named icons of a list.
pub open spec fn entries_of(entries: Seq<(String, MapDecorationEntry)>) -> Seq<(Seq<char>, Entry)> {
    Seq::new(entries.len(), |i: int| (entries[i].0@, entries[i].1@))
}

/// The icon that a saved compound denotes.
pub open spec fn loaded_entry(saved: Nbt) -> Option<Entry> {
    match saved {
        Nbt::Compound(entries) => match (
            lookup(entries, "type"@),
            lookup(entries, "x"@),
            lookup(entries, "z"@),
            lookup(entries, "rotation"@),
        ) {
            (
                Some(Nbt::Text(kind)),
                Some(Nbt::Double(x)),
                Some(Nbt::Double(z)),
                Some(Nbt::Float(rotation)),
            ) => match crate::ident::parse_id(kind) {
                Some(kind) => Some(Entry { kind, x, z, rotation }),
                None => None,
            },
            _ => None,
        },
        _ => None,
    }
}

/// The named icons that the entries of a component denote, in order.
pub open spec fn loaded_entries(saved: Seq<(Seq<char>, Nbt)>) -> Seq<(Seq<char>, Entry)>
    decreases saved.len(),
{
    if saved.len() == 0 {
        Seq::empty()
    } else {
        let before = loaded_entries(saved.drop_last());
        match loaded_entry(saved.last().1) {
            Some(entry) => before.push((saved.last().0, entry)),
            None => before,
        }
    }
}

/// The named icons of a map item.
pub open spec fn item_entries(data: Option<Component>) -> Seq<(Seq<char>, Entry)> {
    match data {
        Some(Component { kind: ComponentKind::MapDecorations, value: Nbt::Compound(entries) }) =>
            loaded_entries(entries),
        _ => Seq::empty(),
    }
}

/// The number of the map that a stack is of.
pub open spec fn carried_id(stack: Stack) -> Option<i32> {
    if stack.item != vanilla_id("filled_map"@) {
        None
    } else {
        match number_of(stack.component(vanilla_id("map_id"@)), ComponentKind::MapId) {
            Some(id) => if id >= 0 {
                Some(id)
            } else {
                None
            },
            None => None,
        }
    }
}

/// One filled-map stack observed in a player's inventory.
#[derive(Debug)]
pub struct CarriedMap {
    pub id: i32,
    pub decorations: Vec<(String, MapDecorationEntry)>,
}

/// One carried map as a mathematical value.
#[verifier::ext_equal]
pub ghost struct Carried {
    pub id: i32,
    pub entries: Seq<(Seq<char>, Entry)>,
}

impl View for CarriedMap {
    type V = Carried;

    open spec fn view(&self) -> Carried {
        Carried { id: self.id, entries: entries_of(self.decorations@) }
    }
}

/// The maps of a list.
pub open spec fn carried_maps(maps: Seq<CarriedMap>) -> Seq<Carried> {
    Seq::new(maps.len(), |i: int| maps[i]@)
}

fn read_entry(saved: &NbtTag) -> (entry: Option<MapDecorationEntry>)
    ensures
        match entry {
            Some(entry) => loaded_entry(saved@) == Some(entry@),
            None => loaded_entry(saved@) is None,
        },
{
    let entries = match saved {
        NbtTag::Compound(entries) => entries,
        _ => {
            return None;
        },
    };
    let kind = match entries.get_text("type") {
        Some(kind) => Identifier::parse(kind.as_str()),
        None => None,
    };
    match (kind, entries.get("x"), entries.get("z"), entries.get("rotation")) {
        (
            Some(decoration_type),
            Some(NbtTag::Double(x)),
            Some(NbtTag::Double(z)),
            Some(NbtTag::Float(rotation)),
        ) => Some(MapDecorationEntry { decoration_type, x: *x, z: *z, rotation: *rotation }),
        _ => None,
    }
}

fn read_entries(saved: &NbtCompound) -> (entries: Vec<(String, MapDecorationEntry)>)
    ensures
        entries_of(entries@) == loaded_entries(saved@),
{
    let mut entries: Vec<(String, MapDecorationEntry)> = Vec::new();
    let mut i: usize = 0;
    assert(entries_of(entries@) =~= loaded_entries(saved@.take(0)));
    while i < saved.entries.len()
        invariant
            i <= saved.entries@.len(),
            saved@.len() == saved.entries@.len(),
            forall|j: int|
                0 <= j < saved@.len() ==> #[trigger] saved@[j] == (
                    saved.entries@[j].0@,
                    saved.entries@[j].1@,
                ),
            entries_of(entries@) == loaded_entries(saved@.take(i as int)),
        decreases saved.entries@.len() - i,
    {
        assert(saved@.take(i + 1).drop_last() =~= saved@.take(i as int));
        assert(saved@.take(i + 1).last() == saved@[i as int]);
        let ghost before = entries_of(entries@);
        if let Some(entry) = read_entry(&saved.entries[i].1) {
            let ghost added = (saved.entries@[i as int].0@, entry@);
            entries.push((saved.entries[i].0.clone(), entry));
            assert(entries_of(entries@) =~= before.push(added));
        }
        i = i + 1;
    }
    assert(saved@.take(i as int) =~= saved@);
    entries
}

impl CarriedMap {
    /// The number of the map that a stack is of.
    pub fn map_id(item: &ItemStack) -> (id: Option<i32>)
        ensures
            id == carried_id(item@),
    {
        if !item.is("filled_map") {
            return None;
        }
        match item.get_number("map_id", ComponentKind::MapId) {
            Some(id) => if id >= 0 {
                Some(id)
            } else {
                None
            },
            None => None,
        }
    }

    /// Extracts the map's number and its static decorations from a filled-map stack.
    pub fn from_item(item: &ItemStack) -> (map: Option<Self>)
        ensures
            match map {
                Some(map) => carried_id(item@) == Some(map.id) && entries_of(map.decorations@)
                    == item_entries(item@.component(vanilla_id("map_decorations"@))),
                None => carried_id(item@) is None,
            },
    {
        let id: i32 = match CarriedMap::map_id(item) {
            Some(id) => id,
            None => {
                return None;
            },
        };
        let key = Identifier::vanilla("map_decorations");
        let none: Vec<(String, MapDecorationEntry)> = Vec::new();
        assert(entries_of(none@) =~= Seq::empty());
        let decorations = match item.get_raw(&key) {
            Some(data) => match (data.kind, &data.value) {
                (ComponentKind::MapDecorations, NbtTag::Compound(saved)) => read_entries(saved),
                _ => none,
            },
            None => none,
        };
        Some(CarriedMap { id, decorations })
    }

    /// The number of the map that is held.
    pub fn held_id(item: &ItemStack) -> (id: Option<i32>)
        ensures
            id == carried_id(item@),
    {
        CarriedMap::map_id(item)
    }
}

/// The place of the first entry with a name, or the number of entries where there is
/// none.
pub open spec fn named_place<T>(list: Seq<(Seq<char>, T)>, name: Seq<char>) -> int
    decreases list.len(),
{
    if list.len() == 0 || list[0].0 == name {
        0
    } else {
        1 + named_place(list.drop_first(), name)
    }
}

/// A list with an entry in place of the one of the same name, or at the end.
pub open spec fn put_named<T>(list: Seq<(Seq<char>, T)>, name: Seq<char>, value: T) -> Seq<
    (Seq<char>, T),
> {
    let place = named_place(list, name);
    if 0 <= place < list.len() {
        list.update(place, (name, value))
    } else {
        list.push((name, value))
    }
}

/// A list without the entry of a name.
pub open spec fn drop_named<T>(list: Seq<(Seq<char>, T)>, name: Seq<char>) -> Seq<(Seq<char>, T)> {
    let place = named_place(list, name);
    if 0 <= place < list.len() {
        list.remove(place)
    } else {
        list
    }
}

/// A list with an entry added at the end, where none has its name.
pub open spec fn add_named<T>(list: Seq<(Seq<char>, T)>, name: Seq<char>, value: T) -> Seq<
    (Seq<char>, T),
> {
    if named_place(list, name) < list.len() {
        list
    } else {
        list.push((name, value))
    }
}

/// Named icons of a list.
pub open spec fn named_icons(decorations: Seq<(String, MapDecoration)>) -> Seq<(Seq<char>, Icon)> {
    Seq::new(decorations.len(), |i: int| (decorations[i].0@, decorations[i].1@))
}

/// The place of the icon with a name.
fn find_decoration(decorations: &Vec<(String, MapDecoration)>, id: &String) -> (place: Option<
    usize,
>)
    ensures
        match place {
            Some(place) => place < decorations@.len() && place == named_place(
                named_icons(decorations@),
                id@,
            ),
            None => named_place(named_icons(decorations@), id@) == decorations@.len(),
        },
{
    let ghost icons = named_icons(decorations@);
    let mut i: usize = 0;
    assert(icons.skip(0) =~= icons);
    while i < decorations.len()
        invariant
            i <= decorations@.len(),
            icons == named_icons(decorations@),
            named_place(icons, id@) == i + named_place(icons.skip(i as int), id@),
        decreases decorations@.len() - i,
    {
        assert(icons.skip(i as int).drop_first() =~= icons.skip(i + 1));
        assert(icons.skip(i as int)[0].0 == decorations@[i as int].0@);
        if decorations[i].0 == *id {
            return Some(i);
        }
        i = i + 1;
    }
    None
}

/// Puts an icon in place of the one of the same name, or at the end.
fn insert_decoration(
    decorations: &mut Vec<(String, MapDecoration)>,
    id: &String,
    decoration: MapDecoration,
)
    ensures
        named_icons(final(decorations)@) == put_named(
            named_icons(old(decorations)@),
            id@,
            decoration@,
        ),
{
    let ghost before = named_icons(decorations@);
    let ghost icon = decoration@;
    match find_decoration(decorations, id) {
        Some(place) => {
            decorations.set(place, (id.clone(), decoration));
        },
        None => {
            decorations.push((id.clone(), decoration));
        },
    }
    assert(named_icons(decorations@) =~= put_named(before, id@, icon));
}

/// Removes the icon with a name.
fn remove_decoration(decorations: &mut Vec<(String, MapDecoration)>, id: &String)
    ensures
        named_icons(final(decorations)@) == drop_named(named_icons(old(decorations)@), id@),
{
    let ghost before = named_icons(decorations@);
    if let Some(place) = find_decoration(decorations, id) {
        decorations.remove(place);
    }
    assert(named_icons(decorations@) =~= drop_named(before, id@));
}

/// A player as the server knows them. Each connection has a session number of its own.
#[derive(Debug)]
pub struct PlayerSession {
    pub uuid: u128,
    pub session: u64,
    pub name: String,
}

/// A player who carries a map, as a mathematical value.
#[verifier::ext_equal]
pub ghost struct Holder {
    pub uuid: u128,
    pub session: u64,
    pub name: Seq<char>,
    pub dirty: Option<MapDirtyBounds>,
    pub dirty_icons: bool,
    pub tick: i32,
    pub step: i32,
    pub terrain: Option<Seq<ChunkPos>>,
    pub sent: Seq<Icon>,
}

/// A player who carries a map, and what has yet to be sent to them.
#[derive(Debug)]
pub struct HoldingPlayer {
    pub uuid: u128,
    pub name: String,
    pub session: u64,
    pub dirty_data: Option<MapDirtyBounds>,
    pub dirty_decorations: bool,
    /// Counts the checks at which the icons were not up to date.
    pub decoration_tick: i32,
    /// Counts the steps in which the map is drawn.
    pub map_step: i32,
    /// The chunks that were requested to be sampled.
    pub terrain_request: Option<Vec<ChunkPos>>,
    pub sent_decorations: Vec<MapDecoration>,
}

impl View for HoldingPlayer {
    type V = Holder;

    open spec fn view(&self) -> Holder {
        Holder {
            uuid: self.uuid,
            session: self.session,
            name: self.name@,
            dirty: self.dirty_data,
            dirty_icons: self.dirty_decorations,
            tick: self.decoration_tick,
            step: self.map_step,
            terrain: match self.terrain_request {
                Some(chunks) => Some(chunks@),
                None => None,
            },
            sent: icons_of(self.sent_decorations@),
        }
    }
}

/// The holders of a list.
pub open spec fn holders_of(holders: Seq<HoldingPlayer>) -> Seq<Holder> {
    Seq::new(holders.len(), |i: int| holders[i]@)
}

/// A player who has just been given a map: the whole of it has yet to be sent.
pub open spec fn new_holder(player: PlayerSession) -> Holder {
    Holder {
        uuid: player.uuid,
        session: player.session,
        name: player.name@,
        dirty: Some(MapDirtyBounds { min_x: 0, min_y: 0, max_x: 127, max_y: 127 }),
        dirty_icons: true,
        tick: 0,
        step: 0,
        terrain: None,
        sent: Seq::empty(),
    }
}

/// The row of a rectangle's colors, one after the other.
pub open spec fn patch_colors(colors: Seq<u8>, bounds: MapDirtyBounds) -> Seq<u8> {
    let width = bounds.max_x - bounds.min_x + 1;
    let height = bounds.max_y - bounds.min_y + 1;
    Seq::new(
        (width * height) as nat,
        |i: int| colors[(bounds.min_y + i / width) * 128 + bounds.min_x + i % width],
    )
}

/// The update of a rectangle of colors.
pub open spec fn patch_of(colors: Seq<u8>, bounds: MapDirtyBounds) -> Patch {
    Patch {
        start_x: bounds.min_x,
        start_y: bounds.min_y,
        width: (bounds.max_x - bounds.min_x + 1) as u8,
        height: (bounds.max_y - bounds.min_y + 1) as u8,
        colors: patch_colors(colors, bounds),
    }
}

/// Colors after an update was applied to them.
pub open spec fn patched_colors(colors: Seq<u8>, patch: Patch) -> Seq<u8> {
    Seq::new(
        colors.len(),
        |i: int|
            {
                let x = i % 128 - patch.start_x;
                let y = i / 128 - patch.start_y;
                if 0 <= x < patch.width && 0 <= y < patch.height {
                    patch.colors[y * patch.width + x]
                } else {
                    colors[i]
                }
            },
    )
}

/// A client whose colors differ from the map's at most where there are changes to be
/// sent has the map's colors after the update.
pub proof fn law_update_brings_client_up_to_date(
    client: Seq<u8>,
    colors: Seq<u8>,
    bounds: MapDirtyBounds,
)
    requires
        colors.len() == MAP_COLOR_COUNT,
        bounds.on_map(),
        crate::map::terrain::accounts_for(Some(bounds), client, colors),
    ensures
        patched_colors(client, patch_of(colors, bounds)) == colors,
{
    let patch = patch_of(colors, bounds);
    let after = patched_colors(client, patch);
    assert forall|i: int| 0 <= i < colors.len() implies #[trigger] after[i] == colors[i] by {
        let x = i % 128 - patch.start_x;
        let y = i / 128 - patch.start_y;
        if 0 <= x < patch.width && 0 <= y < patch.height {
            let width = patch.width as int;
            let at = y * width + x;
            assert(0 <= at < width * patch.height && at / width == y && at % width == x)
                by (nonlinear_arith)
                requires
                    0 <= x < width,
                    0 <= y < patch.height,
                    at == y * width + x,
            ;
            assert(patch.colors[at] == colors[(bounds.min_y + y) * 128 + bounds.min_x + x]);
        } else {
            assert(!bounds.covers(i % 128, i / 128));
            assert(colors[i] == client[i]);
        }
    }
    assert(after =~= colors);
}

impl Holder {
    /// The holder with more colors to be sent.
    pub open spec fn with_dirty(self, bounds: MapDirtyBounds) -> Holder {
        Holder {
            dirty: Some(
                match self.dirty {
                    Some(dirty) => dirty.merged(bounds),
                    None => bounds,
                },
            ),
            ..self
        }
    }

    /// The icons have to be sent: they are not those that were sent, or an earlier
    /// change has not been sent yet.
    pub open spec fn owes_icons(self, icons: Seq<Icon>) -> bool {
        self.dirty_icons || icons != self.sent
    }

    /// The icons are sent at this check: at every fifth one at which they are owed.
    pub open spec fn sends_icons(self, icons: Seq<Icon>) -> bool {
        self.owes_icons(icons) && (self.tick as int) % 5 == 0
    }

    /// The holder after a check for updates.
    pub open spec fn after_check(self, icons: Seq<Icon>) -> Holder {
        Holder {
            dirty: None,
            dirty_icons: self.owes_icons(icons) && !self.sends_icons(icons),
            tick: if self.owes_icons(icons) {
                self.tick.wrapping_add(1)
            } else {
                self.tick
            },
            sent: if self.sends_icons(icons) {
                icons
            } else {
                self.sent
            },
            ..self
        }
    }

    /// The update that a check for updates yields.
    pub open spec fn update(self, id: i32, map: SavedMap, icons: Seq<Icon>) -> Option<MapUpdate> {
        if self.dirty is None && !self.sends_icons(icons) {
            None
        } else {
            Some(
                MapUpdate {
                    map_id: id,
                    scale: map.scale,
                    locked: map.locked,
                    icons: if self.sends_icons(icons) {
                        Some(icons)
                    } else {
                        None
                    },
                    patch: match self.dirty {
                        Some(bounds) => Some(patch_of(map.colors, bounds)),
                        None => None,
                    },
                },
            )
        }
    }

    /// What has yet to be sent lies on the map.
    pub open spec fn sound(self) -> bool {
        self.dirty matches Some(bounds) ==> bounds.on_map()
    }
}

/// The first check after a map was given yields an update with all its colors and
/// icons.
pub proof fn law_first_update_is_complete(
    player: PlayerSession,
    id: i32,
    map: SavedMap,
    icons: Seq<Icon>,
)
    requires
        map.colors.len() == MAP_COLOR_COUNT,
    ensures
        new_holder(player).update(id, map, icons) matches Some(update) && update.icons == Some(
            icons,
        ) && update.patch == Some(
            Patch { start_x: 0, start_y: 0, width: 128, height: 128, colors: map.colors },
        ),
{
    let bounds = MapDirtyBounds { min_x: 0, min_y: 0, max_x: 127, max_y: 127 };
    let cut = patch_colors(map.colors, bounds);
    let side = bounds.max_x - bounds.min_x + 1;
    assert(side == 128 && side * side == 16384);
    assert(cut.len() == 16384);
    assert forall|i: int| 0 <= i < cut.len() implies #[trigger] cut[i] == map.colors[i] by {
        assert((bounds.min_y + i / side) * 128 + bounds.min_x + i % side == i);
    }
    assert(cut =~= map.colors);
}

/// The holder after a number of checks with the same icons.
pub open spec fn after_checks(holder: Holder, icons: Seq<Icon>, count: nat) -> Holder
    decreases count,
{
    if count == 0 {
        holder
    } else {
        after_checks(holder, icons, (count - 1) as nat).after_check(icons)
    }
}

/// Changed icons are sent at one of the five checks that follow, and at none before
/// the tick count is a multiple of five.
pub proof fn law_icons_are_sent_within_five_checks(holder: Holder, icons: Seq<Icon>)
    requires
        0 <= holder.tick <= i32::MAX - 5,
        icons != holder.sent,
    ensures
        ({
            let wait = (-(holder.tick as int)) % 5;
            &&& 0 <= wait < 5
            &&& after_checks(holder, icons, wait as nat).sends_icons(icons)
            &&& forall|k: nat|
                k < wait ==> !(#[trigger] after_checks(holder, icons, k)).sends_icons(icons)
        }),
{
    let wait = (-(holder.tick as int)) % 5;
    assert forall|k: nat| k <= wait implies ({
        let later = #[trigger] after_checks(holder, icons, k);
        later.tick == holder.tick + k && later.sent == holder.sent
    }) by {
        lemma_waiting(holder, icons, k);
    }
}

proof fn lemma_waiting(holder: Holder, icons: Seq<Icon>, count: nat)
    requires
        0 <= holder.tick <= i32::MAX - 5,
        icons != holder.sent,
        count <= (-(holder.tick as int)) % 5,
    ensures
        after_checks(holder, icons, count).tick == holder.tick + count,
        after_checks(holder, icons, count).sent == holder.sent,
    decreases count,
{
    if count > 0 {
        lemma_waiting(holder, icons, (count - 1) as nat);
    }
}

/// The colors of a rectangle, row by row.
fn cut_colors(colors: &Vec<u8>, bounds: MapDirtyBounds) -> (cut: Vec<u8>)
    requires
        colors@.len() == MAP_COLOR_COUNT,
        bounds.on_map(),
    ensures
        cut@ == patch_colors(colors@, bounds),
{
    let width: usize = bounds.max_x as usize - bounds.min_x as usize + 1;
    let height: usize = bounds.max_y as usize - bounds.min_y as usize + 1;
    let mut cut: Vec<u8> = Vec::new();
    let mut row: usize = 0;
    assert(0 <= width * height <= 16384) by (nonlinear_arith)
        requires
            0 <= width <= 128,
            0 <= height <= 128,
    ;
    while row < height
        invariant
            row <= height,
            1 <= width <= 128,
            1 <= height <= 128,
            width == bounds.max_x - bounds.min_x + 1,
            height == bounds.max_y - bounds.min_y + 1,
            colors@.len() == MAP_COLOR_COUNT,
            bounds.on_map(),
            cut@.len() == row * width,
            0 <= width * height <= 16384,
            forall|i: int|
                0 <= i < cut@.len() ==> #[trigger] cut@[i] == patch_colors(colors@, bounds)[i],
        decreases height - row,
    {
        let mut column: usize = 0;
        while column < width
            invariant
                column <= width,
                row < height,
                1 <= width <= 128,
                1 <= height <= 128,
                width == bounds.max_x - bounds.min_x + 1,
                height == bounds.max_y - bounds.min_y + 1,
                colors@.len() == MAP_COLOR_COUNT,
                bounds.on_map(),
                cut@.len() == row * width + column,
                0 <= width * height <= 16384,
                forall|i: int|
                    0 <= i < cut@.len() ==> #[trigger] cut@[i] == patch_colors(colors@, bounds)[i],
            decreases width - column,
        {
            let place: usize = (bounds.min_y as usize + row) * 128 + bounds.min_x as usize
                + column;
            let ghost i = row * width + column;
            assert(i / (width as int) == row && i % (width as int) == column && 0 <= i < width
                * height) by (nonlinear_arith)
                requires
                    0 <= column < width,
                    0 <= row < height,
                    i == row * width + column,
            ;
            cut.push(colors[place]);
            column = column + 1;
        }
        assert(row * width + width == (row + 1) * width) by (nonlinear_arith);
        row = row + 1;
    }
    assert(height * width == width * height) by (nonlinear_arith);
    assert(cut@ =~= patch_colors(colors@, bounds));
    cut
}

impl HoldingPlayer {
    /// A player who has just been given a map.
    pub fn new(player: &PlayerSession) -> (holder: Self)
        ensures
            holder@ == new_holder(*player),
    {
        let holder = HoldingPlayer {
            uuid: player.uuid,
            name: player.name.clone(),
            session: player.session,
            dirty_data: Some(MapDirtyBounds::full()),
            dirty_decorations: true,
            decoration_tick: 0,
            map_step: 0,
            terrain_request: None,
            sent_decorations: Vec::new(),
        };
        assert(icons_of(holder.sent_decorations@) =~= Seq::empty());
        holder
    }

    /// Notes that colors have changed.
    pub fn mark_colors_dirty(&mut self, bounds: MapDirtyBounds)
        ensures
            final(self)@ == old(self)@.with_dirty(bounds),
    {
        self.dirty_data =
        match self.dirty_data {
            Some(mut dirty) => {
                dirty.merge(bounds);
                Some(dirty)
            },
            None => Some(bounds),
        };
    }

    /// The next update, where there is something to be sent: the colors that have
    /// changed, and the icons at every fifth check at which they are not up to date.
    pub fn next_update_packet(
        &mut self,
        id: i32,
        map: &MapItemSavedData,
        decorations: &Vec<MapDecoration>,
    ) -> (packet: Option<CMapItemData>)
        requires
            old(self)@.sound(),
            map@.colors.len() == MAP_COLOR_COUNT,
        ensures
            final(self)@ == old(self)@.after_check(icons_of(decorations@)),
            match packet {
                Some(packet) => old(self)@.update(id, map@, icons_of(decorations@)) == Some(
                    packet@,
                ),
                None => old(self)@.update(id, map@, icons_of(decorations@)) is None,
            },
    {
        let ghost icons = icons_of(decorations@);
        if !same_decorations(decorations, &self.sent_decorations) {
            self.dirty_decorations = true;
        }
        let color_patch = match self.dirty_data {
            Some(bounds) => Some(
                MapPatch {
                    start_x: bounds.min_x,
                    start_y: bounds.min_y,
                    width: bounds.max_x - bounds.min_x + 1,
                    height: bounds.max_y - bounds.min_y + 1,
                    colors: cut_colors(&map.colors, bounds),
                },
            ),
            None => None,
        };
        self.dirty_data = None;
        let packet_decorations = if self.dirty_decorations {
            let ticks: i64 = self.decoration_tick as i64 + 0x8000_0002;
            let send: bool = ticks % 5 == 0;
            assert(send == (self.decoration_tick as int % 5 == 0));
            self.decoration_tick = self.decoration_tick.wrapping_add(1);
            if send {
                self.dirty_decorations = false;
                self.sent_decorations = copy_decorations(decorations);
                Some(copy_decorations(decorations))
            } else {
                None
            }
        } else {
            None
        };
        if color_patch.is_none() && packet_decorations.is_none() {
            return None;
        }
        Some(
            CMapItemData {
                map_id: id,
                scale: map.scale,
                locked: map.locked,
                decorations: packet_decorations,
                color_patch,
            },
        )
    }
}

/// Where something lies on a map.
#[derive(Debug, Clone, Copy, PartialEq, Eq, Structural)]
pub struct MapPoint {
    /// The icon's place, at the edge where the point lies beyond it.
    pub x: i8,
    pub y: i8,
    /// The point lies on the map.
    pub inside: bool,
    /// The point lies less than 320 pixels from the center, along both axes.
    pub near: bool,
    /// The direction in sixteenths of a turn.
    pub turn: i8,
}

/// The same question always has the same answer.
pub open spec fn consistent<F: Fn(i32, i32, i8, u64, u64, u32) -> MapPoint>(place: F) -> bool {
    &&& forall|cx: i32, cz: i32, scale: i8, x: u64, z: u64, yaw: u32| #[trigger]
        place.requires((cx, cz, scale, x, z, yaw))
    &&& forall|
        cx: i32,
        cz: i32,
        scale: i8,
        x: u64,
        z: u64,
        yaw: u32,
        a: MapPoint,
        b: MapPoint,
    | #[trigger]
        place.ensures((cx, cz, scale, x, z, yaw), a) && #[trigger] place.ensures(
            (cx, cz, scale, x, z, yaw),
            b,
        ) ==> a == b
}

/// Where a position, with a direction, lies on a map.
pub open spec fn point_on<F: Fn(i32, i32, i8, u64, u64, u32) -> MapPoint>(
    place: F,
    map: SavedMap,
    x: u64,
    z: u64,
    yaw: u32,
) -> MapPoint {
    choose|point: MapPoint|
        place.ensures((map.center_x, map.center_z, map.scale, x, z, yaw), point)
}

fn locate<F: Fn(i32, i32, i8, u64, u64, u32) -> MapPoint>(
    place: &F,
    map: &MapItemSavedData,
    x: u64,
    z: u64,
    yaw: u32,
) -> (point: MapPoint)
    requires
        consistent(*place),
    ensures
        point == point_on(*place, map@, x, z, yaw),
{
    let point = (*place)(map.center_x, map.center_z, map.scale, x, z, yaw);
    point
}

/// What is known of a player who carries a map, as a mathematical value.
#[verifier::ext_equal]
pub ghost struct Snapshot {
    pub uuid: u128,
    pub name: Seq<char>,
    pub world: Id,
    pub x: u64,
    pub z: u64,
    pub yaw: u32,
    pub game_time: i64,
    pub invisible: bool,
}

/// What is known of a player who carries a map. The coordinates are the bits of double
/// floating-point numbers, the direction those of a single one.
#[derive(Debug)]
pub struct HolderSnapshot {
    pub uuid: u128,
    pub name: String,
    pub world: Identifier,
    pub x: u64,
    pub z: u64,
    pub yaw: u32,
    pub game_time: i64,
    pub invisible_on_maps: bool,
}

impl View for HolderSnapshot {
    type V = Snapshot;

    open spec fn view(&self) -> Snapshot {
        Snapshot {
            uuid: self.uuid,
            name: self.name@,
            world: self.world@,
            x: self.x,
            z: self.z,
            yaw: self.yaw,
            game_time: self.game_time,
            invisible: self.invisible_on_maps,
        }
    }
}

/// The snapshots of a list.
pub open spec fn snapshots_of(snapshots: Seq<HolderSnapshot>) -> Seq<Snapshot> {
    Seq::new(snapshots.len(), |i: int| snapshots[i]@)
}

/// The low 32 bits of a number, as a signed number.
pub open spec fn low_word(value: int) -> i32 {
    ((value + 0x8000_0000) % 0x1_0000_0000 - 0x8000_0000) as i32
}

/// Division by ten that rounds toward zero.
pub open spec fn tenth(value: int) -> int {
    if value < 0 {
        -((-value) / 10)
    } else {
        value / 10
    }
}

/// The direction of spinning icons.
pub open spec fn spin(time: i32) -> i8 {
    let mixed = time.wrapping_mul(time).wrapping_mul(34_187_121).wrapping_add(
        time.wrapping_mul(121),
    );
    ((mixed as int / 0x8000) % 16) as i8
}

/// The direction of icons on a map: in the nether they spin with the time.
pub open spec fn icon_turn(map: SavedMap, turn: i8, game_time: i64) -> i8 {
    if map.world.path == "the_nether"@ {
        spin(low_word(tenth(game_time as int)))
    } else {
        turn
    }
}

/// The low 32 bits of a tenth of a number.
fn low_tenth(value: i64) -> (low: i32)
    ensures
        low == low_word(tenth(value as int)),
{
    let wide: i128 = value as i128;
    let rounded: i128 = if wide < 0 {
        -((-wide) / 10)
    } else {
        wide / 10
    };
    let shifted: i128 = rounded + 0x8000_0000;
    let blocks: i128 = floor_div(shifted, 0x1_0000_0000);
    let low: i128 = shifted - blocks * 0x1_0000_0000;
    assert(low == shifted as int % 0x1_0000_0000);
    (low - 0x8000_0000) as i32
}

fn spinning(time: i32) -> (turn: i8)
    ensures
        turn == spin(time),
{
    let mixed: i32 = time.wrapping_mul(time).wrapping_mul(34_187_121).wrapping_add(
        time.wrapping_mul(121),
    );
    sixteenth(mixed)
}

fn sixteenth(mixed: i32) -> (turn: i8)
    ensures
        turn == ((mixed as int / 0x8000) % 16) as i8,
{
    let high: i64 = (mixed as i64 + 0x8000_0000) / 0x8000;
    assert(high == mixed as int / 0x8000 + 0x1_0000);
    (high % 16) as i8
}

/// The direction of icons on a map: in the nether they spin with the time. Elsewhere
/// it is the given one.
pub fn map_rotation(map: &MapItemSavedData, turn: i8, game_time: i64) -> (rotation: i8)
    ensures
        rotation == icon_turn(map@, turn, game_time),
{
    if !map.world.has_path("the_nether") {
        return turn;
    }
    spinning(low_tenth(game_time))
}

/// The icon of a player at a point of a map: a pointer on the map, a dot at its edge
/// near it, and farther away another dot where tracking is unlimited.
pub open spec fn player_icon(map: SavedMap, point: MapPoint, game_time: i64) -> Option<Icon> {
    if point.inside {
        Some(
            Icon {
                kind: vanilla_id("player"@),
                x: point.x,
                y: point.y,
                rotation: direction(icon_turn(map, point.turn, game_time)),
                name: None,
            },
        )
    } else if point.near {
        Some(
            Icon {
                kind: vanilla_id("player_off_map"@),
                x: point.x,
                y: point.y,
                rotation: direction(0),
                name: None,
            },
        )
    } else if map.unlimited_tracking {
        Some(
            Icon {
                kind: vanilla_id("player_off_limits"@),
                x: point.x,
                y: point.y,
                rotation: direction(0),
                name: None,
            },
        )
    } else {
        None
    }
}

fn player_decoration(map: &MapItemSavedData, point: MapPoint, game_time: i64) -> (decoration:
    Option<MapDecoration>)
    ensures
        match decoration {
            Some(decoration) => player_icon(map@, point, game_time) == Some(decoration@),
            None => player_icon(map@, point, game_time) is None,
        },
{
    if point.inside {
        return Some(
            MapDecoration::new(
                Identifier::vanilla("player"),
                point.x,
                point.y,
                map_rotation(map, point.turn, game_time),
                None,
            ),
        );
    }
    let kind = if point.near {
        Identifier::vanilla("player_off_map")
    } else if map.unlimited_tracking {
        Identifier::vanilla("player_off_limits")
    } else {
        return None;
    };
    Some(MapDecoration::new(kind, point.x, point.y, 0, None))
}

/// The icon of a map item's entry: none beyond the map, unless tracking is unlimited.
/// A player's icon follows the rule for players.
pub open spec fn static_icon(map: SavedMap, entry: Entry, point: MapPoint, game_time: i64) -> Option<
    Icon,
> {
    if entry.kind == vanilla_id("player"@) {
        player_icon(map, point, game_time)
    } else if !point.inside && !map.unlimited_tracking {
        None
    } else {
        Some(
            Icon {
                kind: entry.kind,
                x: point.x,
                y: point.y,
                rotation: direction(icon_turn(map, point.turn, game_time)),
                name: None,
            },
        )
    }
}

fn static_decoration(
    map: &MapItemSavedData,
    entry: &MapDecorationEntry,
    point: MapPoint,
    game_time: i64,
) -> (decoration: Option<MapDecoration>)
    ensures
        match decoration {
            Some(decoration) => static_icon(map@, entry@, point, game_time) == Some(decoration@),
            None => static_icon(map@, entry@, point, game_time) is None,
        },
{
    if entry.decoration_type.is_vanilla("player") {
        return player_decoration(map, point, game_time);
    }
    if !point.inside && !map.unlimited_tracking {
        return None;
    }
    Some(
        MapDecoration::new(
            entry.decoration_type.clone(),
            point.x,
            point.y,
            map_rotation(map, point.turn, game_time),
            None,
        ),
    )
}

/// A map that is carried, as a mathematical value.
#[verifier::ext_equal]
pub ghost struct Followed {
    pub holders: Seq<Holder>,
    pub entries: Seq<(Seq<char>, Entry)>,
    pub icons: Seq<(Seq<char>, Icon)>,
}

/// A map that is carried: by whom, and with which icons on it.
#[derive(Debug)]
pub struct TrackedMap {
    pub holders: Vec<HoldingPlayer>,
    pub static_entries: Vec<(String, MapDecorationEntry)>,
    pub decorations: Vec<(String, MapDecoration)>,
}

impl View for TrackedMap {
    type V = Followed;

    open spec fn view(&self) -> Followed {
        Followed {
            holders: holders_of(self.holders@),
            entries: entries_of(self.static_entries@),
            icons: named_icons(self.decorations@),
        }
    }
}

/// The place of the first holder with an identity, or the number of holders where
/// there is none.
pub open spec fn holder_place(holders: Seq<Holder>, uuid: u128) -> int
    decreases holders.len(),
{
    if holders.len() == 0 || holders[0].uuid == uuid {
        0
    } else {
        1 + holder_place(holders.drop_first(), uuid)
    }
}

/// The icons after a holder's one was brought up to date.
pub open spec fn with_holder_icon<F: Fn(i32, i32, i8, u64, u64, u32) -> MapPoint>(
    icons: Seq<(Seq<char>, Icon)>,
    recipient: u128,
    map: SavedMap,
    holder: Snapshot,
    place: F,
) -> Seq<(Seq<char>, Icon)> {
    let shown = if holder.world == map.world && map.tracking_position {
        match player_icon(
            map,
            point_on(place, map, holder.x, holder.z, holder.yaw),
            holder.game_time,
        ) {
            Some(icon) => put_named(icons, holder.name, icon),
            None => drop_named(icons, holder.name),
        }
    } else {
        icons
    };
    if holder.uuid != recipient && holder.invisible {
        drop_named(shown, holder.name)
    } else {
        shown
    }
}

/// The icons after those of holders were brought up to date, one after the other.
pub open spec fn with_holder_icons<F: Fn(i32, i32, i8, u64, u64, u32) -> MapPoint>(
    icons: Seq<(Seq<char>, Icon)>,
    recipient: u128,
    map: SavedMap,
    holders: Seq<Snapshot>,
    place: F,
) -> Seq<(Seq<char>, Icon)>
    decreases holders.len(),
{
    if holders.len() == 0 {
        icons
    } else {
        with_holder_icon(
            with_holder_icons(icons, recipient, map, holders.drop_last(), place),
            recipient,
            map,
            holders.last(),
            place,
        )
    }
}

/// The time that the first holder with an identity lives in; zero where there is none.
pub open spec fn time_of(holders: Seq<Snapshot>, uuid: u128) -> i64
    decreases holders.len(),
{
    if holders.len() == 0 {
        0
    } else if holders[0].uuid == uuid {
        holders[0].game_time
    } else {
        time_of(holders.drop_first(), uuid)
    }
}

/// The icons after those of the map items' entries were added, where none has their
/// name.
pub open spec fn with_static_icons<F: Fn(i32, i32, i8, u64, u64, u32) -> MapPoint>(
    icons: Seq<(Seq<char>, Icon)>,
    map: SavedMap,
    entries: Seq<(Seq<char>, Entry)>,
    game_time: i64,
    place: F,
) -> Seq<(Seq<char>, Icon)>
    decreases entries.len(),
{
    if entries.len() == 0 {
        icons
    } else {
        let before = with_static_icons(icons, map, entries.drop_last(), game_time, place);
        let (name, entry) = entries.last();
        match static_icon(
            map,
            entry,
            point_on(place, map, entry.x, entry.z, entry.rotation),
            game_time,
        ) {
            Some(icon) => add_named(before, name, icon),
            None => before,
        }
    }
}

/// Named icons without their names.
pub open spec fn unnamed(icons: Seq<(Seq<char>, Icon)>) -> Seq<Icon> {
    Seq::new(icons.len(), |i: int| icons[i].1)
}

/// Entries with more of them, where none has their name.
pub open spec fn with_entries(
    entries: Seq<(Seq<char>, Entry)>,
    more: Seq<(Seq<char>, Entry)>,
) -> Seq<(Seq<char>, Entry)>
    decreases more.len(),
{
    if more.len() == 0 {
        entries
    } else {
        add_named(with_entries(entries, more.drop_last()), more.last().0, more.last().1)
    }
}

impl Followed {
    /// The map without a holder and their icon.
    pub open spec fn without_holder(self, uuid: u128) -> Followed {
        let place = holder_place(self.holders, uuid);
        if 0 <= place < self.holders.len() {
            Followed {
                holders: self.holders.remove(place),
                icons: drop_named(self.icons, self.holders[place].name),
                ..self
            }
        } else {
            self
        }
    }

    /// The map with one holder changed.
    pub open spec fn with_holder(self, uuid: u128, change: spec_fn(Holder) -> Holder) -> Followed {
        let place = holder_place(self.holders, uuid);
        if 0 <= place < self.holders.len() {
            Followed { holders: self.holders.update(place, change(self.holders[place])), ..self }
        } else {
            self
        }
    }

    /// The map with a player among its holders: anew where their session is another.
    pub open spec fn joined(self, player: PlayerSession) -> Followed {
        let place = holder_place(self.holders, player.uuid);
        if 0 <= place < self.holders.len() {
            if self.holders[place].session == player.session {
                self
            } else {
                Followed { holders: self.holders.update(place, new_holder(player)), ..self }
            }
        } else {
            Followed { holders: self.holders.push(new_holder(player)), ..self }
        }
    }

    /// The map's icons as a recipient sees them.
    pub open spec fn shown<F: Fn(i32, i32, i8, u64, u64, u32) -> MapPoint>(
        self,
        recipient: u128,
        map: SavedMap,
        holders: Seq<Snapshot>,
        place: F,
    ) -> Seq<(Seq<char>, Icon)> {
        with_static_icons(
            with_holder_icons(self.icons, recipient, map, holders, place),
            map,
            self.entries,
            time_of(holders, recipient),
            place,
        )
    }

    /// What has yet to be sent lies on the map.
    pub open spec fn sound(self) -> bool {
        forall|i: int| 0 <= i < self.holders.len() ==> (#[trigger] self.holders[i]).sound()
    }
}

fn find_holder(holders: &Vec<HoldingPlayer>, uuid: u128) -> (place: Option<usize>)
    ensures
        match place {
            Some(place) => place < holders@.len() && place == holder_place(
                holders_of(holders@),
                uuid,
            ),
            None => holder_place(holders_of(holders@), uuid) == holders@.len(),
        },
{
    let ghost all = holders_of(holders@);
    let mut i: usize = 0;
    assert(all.skip(0) =~= all);
    while i < holders.len()
        invariant
            i <= holders@.len(),
            all == holders_of(holders@),
            holder_place(all, uuid) == i + holder_place(all.skip(i as int), uuid),
        decreases holders@.len() - i,
    {
        assert(all.skip(i as int).drop_first() =~= all.skip(i + 1));
        assert(all.skip(i as int)[0] == holders@[i as int]@);
        if holders[i].uuid == uuid {
            return Some(i);
        }
        i = i + 1;
    }
    None
}

impl TrackedMap {
    /// A map that nobody carries.
    pub fn new() -> (followed: Self)
        ensures
            followed@ == (Followed {
                holders: Seq::empty(),
                entries: Seq::empty(),
                icons: Seq::empty(),
            }),
    {
        let followed = TrackedMap {
            holders: Vec::new(),
            static_entries: Vec::new(),
            decorations: Vec::new(),
        };
        assert(followed@ =~= (Followed {
            holders: Seq::empty(),
            entries: Seq::empty(),
            icons: Seq::empty(),
        }));
        followed
    }

    /// Removes a holder and their icon.
    pub fn remove_holder(&mut self, uuid: u128)
        ensures
            final(self)@ == old(self)@.without_holder(uuid),
    {
        let ghost before = self@;
        if let Some(place) = find_holder(&self.holders, uuid) {
            let holder = self.holders.remove(place);
            remove_decoration(&mut self.decorations, &holder.name);
            assert(holders_of(self.holders@) =~= before.holders.remove(place as int));
        }
    }

    /// Adds a player to the holders: anew where their session is another.
    pub fn join(&mut self, player: &PlayerSession)
        ensures
            final(self)@ == old(self)@.joined(*player),
    {
        let ghost before = self@;
        match find_holder(&self.holders, player.uuid) {
            Some(place) => {
                if self.holders[place].session != player.session {
                    self.holders.set(place, HoldingPlayer::new(player));
                    assert(holders_of(self.holders@) =~= before.holders.update(
                        place as int,
                        new_holder(*player),
                    ));
                }
            },
            None => {
                self.holders.push(HoldingPlayer::new(player));
                assert(holders_of(self.holders@) =~= before.holders.push(new_holder(*player)));
            },
        }
    }

    /// Adds the entries of a map item, where none has their name.
    pub fn add_static_decorations(&mut self, decorations: &Vec<(String, MapDecorationEntry)>)
        ensures
            final(self)@ == (Followed {
                entries: with_entries(old(self)@.entries, entries_of(decorations@)),
                ..old(self)@
            }),
    {
        let ghost before = self@.entries;
        let ghost more = entries_of(decorations@);
        let mut i: usize = 0;
        assert(more.take(0) =~= Seq::empty());
        while i < decorations.len()
            invariant
                i <= decorations@.len(),
                more == entries_of(decorations@),
                self@ == (Followed { entries: self@.entries, ..old(self)@ }),
                self@.entries == with_entries(before, more.take(i as int)),
            decreases decorations@.len() - i,
        {
            assert(more.take(i + 1).drop_last() =~= more.take(i as int));
            assert(more.take(i + 1).last() == more[i as int]);
            let ghost now = self@.entries;
            if find_entry(&self.static_entries, &decorations[i].0).is_none() {
                let name = decorations[i].0.clone();
                let entry = decorations[i].1.copy();
                let ghost added = (name@, entry@);
                self.static_entries.push((name, entry));
                assert(entries_of(self.static_entries@) =~= now.push(added));
            }
            i = i + 1;
        }
        assert(more.take(i as int) =~= more);
    }

    /// Brings the icons up to date and lists them as a recipient sees them. `place`
    /// tells where a position lies on a map with a given center and scale.
    pub fn decorations_for<F: Fn(i32, i32, i8, u64, u64, u32) -> MapPoint>(
        &mut self,
        recipient: u128,
        map: &MapItemSavedData,
        holders: &Vec<HolderSnapshot>,
        place: &F,
    ) -> (decorations: Vec<MapDecoration>)
        requires
            consistent(*place),
        ensures
            final(self)@ == (Followed {
                icons: old(self)@.shown(recipient, map@, snapshots_of(holders@), *place),
                ..old(self)@
            }),
            icons_of(decorations@) == unnamed(final(self)@.icons),
    {
        let ghost before = self@;
        let ghost snapshots = snapshots_of(holders@);
        let mut i: usize = 0;
        assert(snapshots.take(0) =~= Seq::empty());
        while i < holders.len()
            invariant
                i <= holders@.len(),
                snapshots == snapshots_of(holders@),
                consistent(*place),
                self@ == (Followed { icons: self@.icons, ..before }),
                self@.icons == with_holder_icons(
                    before.icons,
                    recipient,
                    map@,
                    snapshots.take(i as int),
                    *place,
                ),
            decreases holders@.len() - i,
        {
            assert(snapshots.take(i + 1).drop_last() =~= snapshots.take(i as int));
            let holder = &holders[i];
            assert(snapshots.take(i + 1).last() == holder@);
            if holder.world.same(&map.world) && map.tracking_position {
                let point = locate(place, map, holder.x, holder.z, holder.yaw);
                match player_decoration(map, point, holder.game_time) {
                    Some(decoration) => {
                        insert_decoration(&mut self.decorations, &holder.name, decoration);
                    },
                    None => {
                        remove_decoration(&mut self.decorations, &holder.name);
                    },
                }
            }
            if holder.uuid != recipient && holder.invisible_on_maps {
                remove_decoration(&mut self.decorations, &holder.name);
            }
            i = i + 1;
        }
        assert(snapshots.take(i as int) =~= snapshots);
        let game_time: i64 = snapshot_time(holders, recipient);
        let ghost shown = self@.icons;
        let ghost entries = self@.entries;
        let mut i: usize = 0;
        assert(entries.take(0) =~= Seq::empty());
        while i < self.static_entries.len()
            invariant
                i <= self.static_entries@.len(),
                consistent(*place),
                entries == entries_of(self.static_entries@),
                self@ == (Followed { icons: self@.icons, ..before }),
                self@.icons == with_static_icons(
                    shown,
                    map@,
                    entries.take(i as int),
                    game_time,
                    *place,
                ),
            decreases self.static_entries@.len() - i,
        {
            assert(entries.take(i + 1).drop_last() =~= entries.take(i as int));
            assert(entries.take(i + 1).last() == entries[i as int]);
            let ghost now = self@.icons;
            let entry = &self.static_entries[i];
            if find_decoration(&self.decorations, &entry.0).is_none() {
                let point = locate(place, map, entry.1.x, entry.1.z, entry.1.rotation);
                if let Some(decoration) = static_decoration(map, &entry.1, point, game_time) {
                    let ghost added = (entry.0@, decoration@);
                    let name = entry.0.clone();
                    self.decorations.push((name, decoration));
                    assert(named_icons(self.decorations@) =~= now.push(added));
                }
            }
            i = i + 1;
        }
        assert(entries.take(i as int) =~= entries);
        let mut listed: Vec<MapDecoration> = Vec::new();
        let mut i: usize = 0;
        while i < self.decorations.len()
            invariant
                i <= self.decorations@.len(),
                listed@.len() == i,
                forall|j: int| 0 <= j < i ==> (#[trigger] listed@[j])@ == self.decorations@[j].1@,
            decreases self.decorations@.len() - i,
        {
            listed.push(self.decorations[i].1.copy());
            i = i + 1;
        }
        assert(icons_of(listed@) =~= unnamed(self@.icons));
        listed
    }
}

/// The place of the entry with a name.
fn find_entry(entries: &Vec<(String, MapDecorationEntry)>, id: &String) -> (place: Option<usize>)
    ensures
        match place {
            Some(place) => place < entries@.len() && place == named_place(
                entries_of(entries@),
                id@,
            ),
            None => named_place(entries_of(entries@), id@) == entries@.len(),
        },
{
    let ghost all = entries_of(entries@);
    let mut i: usize = 0;
    assert(all.skip(0) =~= all);
    while i < entries.len()
        invariant
            i <= entries@.len(),
            all == entries_of(entries@),
            named_place(all, id@) == i + named_place(all.skip(i as int), id@),
        decreases entries@.len() - i,
    {
        assert(all.skip(i as int).drop_first() =~= all.skip(i + 1));
        assert(all.skip(i as int)[0].0 == entries@[i as int].0@);
        if entries[i].0 == *id {
            return Some(i);
        }
        i = i + 1;
    }
    None
}

/// The time that the first holder with an identity lives in; zero where there is none.
fn snapshot_time(holders: &Vec<HolderSnapshot>, uuid: u128) -> (time: i64)
    ensures
        time == time_of(snapshots_of(holders@), uuid),
{
    let ghost all = snapshots_of(holders@);
    let mut i: usize = 0;
    assert(all.skip(0) =~= all);
    while i < holders.len()
        invariant
            i <= holders@.len(),
            all == snapshots_of(holders@),
            time_of(all, uuid) == time_of(all.skip(i as int), uuid),
        decreases holders@.len() - i,
    {
        assert(all.skip(i as int).drop_first() =~= all.skip(i + 1));
        assert(all.skip(i as int)[0] == holders@[i as int]@);
        if holders[i].uuid == uuid {
            return holders[i].game_time;
        }
        i = i + 1;
    }
    0
}

/// Whether two lists of chunks are the same.
fn same_chunks(a: &Vec<ChunkPos>, b: &Vec<ChunkPos>) -> (same: bool)
    ensures
        same == (a@ == b@),
{
    if a.len() != b.len() {
        return false;
    }
    let mut i: usize = 0;
    while i < a.len()
        invariant
            i <= a.len() == b.len(),
            forall|j: int| 0 <= j < i ==> a@[j] == b@[j],
        decreases a.len() - i,
    {
        if a[i] != b[i] {
            return false;
        }
        i = i + 1;
    }
    assert(a@ =~= b@);
    true
}

/// A holder with the given chunk request.
pub open spec fn with_request(request: Option<Seq<ChunkPos>>) -> spec_fn(Holder) -> Holder {
    |holder: Holder| Holder { terrain: request, ..holder }
}

/// A holder after one more step in which the map is drawn.
pub open spec fn with_next_step() -> spec_fn(Holder) -> Holder {
    |holder: Holder| Holder { step: holder.step.wrapping_add(1), ..holder }
}

impl Followed {
    /// The first holder with an identity.
    pub open spec fn holder(self, uuid: u128) -> Option<Holder> {
        let place = holder_place(self.holders, uuid);
        if 0 <= place < self.holders.len() {
            Some(self.holders[place])
        } else {
            None
        }
    }

    /// The map after colors have changed for every holder.
    pub open spec fn with_dirty(self, bounds: MapDirtyBounds) -> Followed {
        Followed {
            holders: Seq::new(
                self.holders.len(),
                |i: int| self.holders[i].with_dirty(bounds),
            ),
            ..self
        }
    }
}

impl TrackedMap {
    /// Drops a holder's chunk request.
    pub fn drop_request(&mut self, uuid: u128)
        ensures
            final(self)@ == old(self)@.with_holder(uuid, with_request(None)),
    {
        let ghost before = self@;
        if let Some(place) = find_holder(&self.holders, uuid) {
            self.holders[place].terrain_request = None;
            assert(holders_of(self.holders@) =~= before.with_holder(
                uuid,
                with_request(None),
            ).holders);
        }
    }

    /// Notes the chunks that a holder's map has to be drawn from, and tells whether
    /// they have to be requested anew.
    pub fn request_terrain(&mut self, uuid: u128, chunks: &Vec<ChunkPos>) -> (new: Option<bool>)
        ensures
            match (new, old(self)@.holder(uuid)) {
                (Some(new), Some(holder)) => new == (holder.terrain != Some(chunks@)),
                (None, None) => true,
                _ => false,
            },
            final(self)@ == old(self)@.with_holder(uuid, with_request(Some(chunks@))),
    {
        let ghost before = self@;
        let place: usize = match find_holder(&self.holders, uuid) {
            Some(place) => place,
            None => {
                return None;
            },
        };
        let matches = match &self.holders[place].terrain_request {
            Some(request) => same_chunks(request, chunks),
            None => false,
        };
        if !matches {
            let request = chunks.clone();
            assert(request@ =~= chunks@);
            self.holders[place].terrain_request = Some(request);
        }
        assert(holders_of(self.holders@) =~= before.with_holder(
            uuid,
            with_request(Some(chunks@)),
        ).holders);
        Some(!matches)
    }

    /// Advances the step in which a holder's map is drawn, where its chunks are ready.
    pub fn finish_step(&mut self, uuid: u128, ready: bool) -> (step: Option<i32>)
        ensures
            match old(self)@.holder(uuid) {
                Some(holder) => if ready && holder.terrain is Some {
                    step == Some(holder.step.wrapping_add(1)) && final(self)@ == old(
                        self,
                    )@.with_holder(uuid, with_next_step())
                } else {
                    step is None && final(self)@ == old(self)@
                },
                None => step is None && final(self)@ == old(self)@,
            },
    {
        let ghost before = self@;
        let place: usize = match find_holder(&self.holders, uuid) {
            Some(place) => place,
            None => {
                return None;
            },
        };
        if !ready || self.holders[place].terrain_request.is_none() {
            return None;
        }
        let step: i32 = self.holders[place].map_step.wrapping_add(1);
        self.holders[place].map_step = step;
        assert(holders_of(self.holders@) =~= before.with_holder(uuid, with_next_step()).holders);
        Some(step)
    }

    /// Notes for every holder that colors have changed.
    pub fn mark_colors_dirty(&mut self, bounds: MapDirtyBounds)
        ensures
            final(self)@ == old(self)@.with_dirty(bounds),
    {
        let ghost before = self@;
        let mut i: usize = 0;
        while i < self.holders.len()
            invariant
                i <= self.holders@.len() == before.holders.len(),
                self@ == (Followed { holders: self@.holders, ..before }),
                forall|j: int|
                    0 <= j < before.holders.len() ==> (#[trigger] self.holders@[j])@ == if j < i {
                        before.holders[j].with_dirty(bounds)
                    } else {
                        before.holders[j]
                    },
            decreases self.holders@.len() - i,
        {
            self.holders[i].mark_colors_dirty(bounds);
            i = i + 1;
        }
        assert(self@.holders =~= before.with_dirty(bounds).holders);
    }

    /// The next update for a holder.
    pub fn next_update_packet(
        &mut self,
        uuid: u128,
        id: i32,
        map: &MapItemSavedData,
        decorations: &Vec<MapDecoration>,
    ) -> (packet: Option<CMapItemData>)
        requires
            old(self)@.sound(),
            map@.colors.len() == MAP_COLOR_COUNT,
        ensures
            final(self)@ == old(self)@.with_holder(
                uuid,
                |holder: Holder| holder.after_check(icons_of(decorations@)),
            ),
            match packet {
                Some(packet) => old(self)@.holder(uuid) matches Some(holder) && holder.update(
                    id,
                    map@,
                    icons_of(decorations@),
                ) == Some(packet@),
                None => old(self)@.holder(uuid) matches Some(holder) ==> holder.update(
                    id,
                    map@,
                    icons_of(decorations@),
                ) is None,
            },
    {
        let ghost before = self@;
        let ghost change = |holder: Holder| holder.after_check(icons_of(decorations@));
        let place: usize = match find_holder(&self.holders, uuid) {
            Some(place) => place,
            None => {
                return None;
            },
        };
        assert(before.holders[place as int].sound());
        let packet = self.holders[place].next_update_packet(id, map, decorations);
        assert(holders_of(self.holders@) =~= before.with_holder(uuid, change).holders);
        packet
    }
}

/// What the server knows of a player at the moment.
#[derive(Debug)]
pub struct PlayerFacts {
    pub removed: bool,
    /// The player's world belongs to the domain of the maps.
    pub in_domain: bool,
    pub name: String,
    pub world: Identifier,
    pub x: u64,
    pub z: u64,
    pub yaw: u32,
    pub game_time: i64,
    /// All items of the inventory.
    pub items: Vec<ItemStack>,
    /// The items that are worn, without those in the hands.
    pub worn: Vec<ItemStack>,
}

/// Whether one of the stacks is of a map.
pub open spec fn carries(items: Seq<Stack>, id: i32) -> bool {
    exists|i: int|
        0 <= i < items.len() && (#[trigger] items[i]).item == vanilla_id("filled_map"@)
            && number_of(items[i].component(vanilla_id("map_id"@)), ComponentKind::MapId) == Some(id)
}

/// Whether one of the stacks has a tag.
pub open spec fn wears(items: Seq<Stack>, tags: Seq<Tag>, tag: Id) -> bool {
    match find(tags, tag) {
        Some(tag) => any_of(items, tag.values@),
        None => false,
    }
}

/// Whether one of the stacks is of one of the items.
pub open spec fn any_of(items: Seq<Stack>, ids: Seq<Identifier>) -> bool {
    exists|i: int| 0 <= i < items.len() && holds_id(ids, (#[trigger] items[i]).item)
}

/// Whether one of the stacks is of a map.
fn carries_map(items: &Vec<ItemStack>, id: i32) -> (carried: bool)
    ensures
        carried == carries(stacks_of(items@), id),
{
    let mut i: usize = 0;
    while i < items.len()
        invariant
            i <= items@.len(),
            forall|j: int|
                0 <= j < i ==> !((#[trigger] stacks_of(items@)[j]).item == vanilla_id(
                    "filled_map"@,
                ) && number_of(
                    stacks_of(items@)[j].component(vanilla_id("map_id"@)),
                    ComponentKind::MapId,
                ) == Some(id)),
        decreases items@.len() - i,
    {
        assert(stacks_of(items@)[i as int] == items@[i as int]@);
        if items[i].is("filled_map") {
            if let Some(found) = items[i].get_number("map_id", ComponentKind::MapId) {
                if found == id {
                    return true;
                }
            }
        }
        i = i + 1;
    }
    false
}

/// Whether what is worn hides the player from others' maps.
fn hidden_by(items: &Vec<ItemStack>, tags: &Vec<Tag>) -> (hidden: bool)
    ensures
        hidden == wears(
            stacks_of(items@),
            tags@,
            vanilla_id("map_invisibility_equipment"@),
        ),
{
    let key = Identifier::vanilla("map_invisibility_equipment");
    let tag = match by_key(tags, &key) {
        Some(tag) => tag,
        None => {
            return false;
        },
    };
    let mut i: usize = 0;
    while i < items.len()
        invariant
            i <= items@.len(),
            find(tags@, vanilla_id("map_invisibility_equipment"@)) == Some(*tag),
            forall|j: int|
                0 <= j < i ==> !holds_id(tag.values@, (#[trigger] stacks_of(items@)[j]).item),
        decreases items@.len() - i,
    {
        assert(stacks_of(items@)[i as int] == items@[i as int]@);
        if contains_id(&tag.values, &items[i].item.key) {
            assert(any_of(stacks_of(items@), tag.values@));
            return true;
        }
        i = i + 1;
    }
    false
}

/// What is known of a player who carries a map; none where the player is removed,
/// lives in another domain or carries the map no more.
pub open spec fn captured(uuid: u128, facts: PlayerFacts, map_id: i32, tags: Seq<Tag>) -> Option<
    Snapshot,
> {
    if facts.removed || !facts.in_domain || !carries(stacks_of(facts.items@), map_id) {
        None
    } else {
        Some(
            Snapshot {
                uuid,
                name: facts.name@,
                world: facts.world@,
                x: facts.x,
                z: facts.z,
                yaw: facts.yaw,
                game_time: facts.game_time,
                invisible: wears(
                    stacks_of(facts.worn@),
                    tags,
                    vanilla_id("map_invisibility_equipment"@),
                ),
            },
        )
    }
}

impl HolderSnapshot {
    /// What is known of a player who carries a map; none where the player is gone,
    /// lives in another domain or carries the map no more.
    pub fn capture(
        uuid: u128,
        player: Option<&PlayerFacts>,
        map_id: i32,
        item_tags: &Vec<Tag>,
    ) -> (snapshot: Option<Self>)
        ensures
            match (snapshot, player) {
                (Some(snapshot), Some(facts)) => captured(uuid, *facts, map_id, item_tags@)
                    == Some(snapshot@),
                (None, Some(facts)) => captured(uuid, *facts, map_id, item_tags@) is None,
                (Some(_), None) => false,
                (None, None) => true,
            },
    {
        let facts = match player {
            Some(facts) => facts,
            None => {
                return None;
            },
        };
        if facts.removed || !facts.in_domain || !carries_map(&facts.items, map_id) {
            return None;
        }
        Some(
            HolderSnapshot {
                uuid,
                name: facts.name.clone(),
                world: facts.world.clone(),
                x: facts.x,
                z: facts.z,
                yaw: facts.yaw,
                game_time: facts.game_time,
                invisible_on_maps: hidden_by(&facts.worn, item_tags),
            },
        )
    }
}

/// What a list holds under a name.
pub open spec fn named<T>(list: Seq<(Seq<char>, T)>, name: Seq<char>) -> Option<T>
    decreases list.len(),
{
    if list.len() == 0 {
        None
    } else if list[0].0 == name {
        Some(list[0].1)
    } else {
        named(list.drop_first(), name)
    }
}

/// Whether no two entries of a list have the same name.
pub open spec fn has_own_names<T>(list: Seq<(Seq<char>, T)>) -> bool {
    forall|i: int, j: int|
        0 <= i < j < list.len() ==> (#[trigger] list[i]).0 != (#[trigger] list[j]).0
}

proof fn lemma_named<T>(list: Seq<(Seq<char>, T)>, name: Seq<char>)
    ensures
        ({
            let place = named_place(list, name);
            &&& 0 <= place <= list.len()
            &&& place < list.len() ==> list[place].0 == name && named(list, name) == Some(
                list[place].1,
            )
            &&& place == list.len() ==> named(list, name) is None
            &&& forall|i: int| 0 <= i < place ==> (#[trigger] list[i]).0 != name
        }),
    decreases list.len(),
{
    if list.len() > 0 && list[0].0 != name {
        let rest = list.drop_first();
        lemma_named(rest, name);
        let place = named_place(rest, name);
        assert forall|i: int| 0 <= i < place + 1 implies (#[trigger] list[i]).0 != name by {
            if i > 0 {
                assert(rest[i - 1] == list[i]);
            }
        }
    }
}

/// What is put under a name is found there, what is dropped is not found any more, and
/// what is added is found where nothing was; nothing else that a list holds changes, and
/// its names stay different from each other.
pub proof fn law_names_lead_to_what_was_put<T>(
    list: Seq<(Seq<char>, T)>,
    name: Seq<char>,
    value: T,
    other: Seq<char>,
)
    requires
        has_own_names(list),
        other != name,
    ensures
        named(put_named(list, name, value), name) == Some(value),
        named(put_named(list, name, value), other) == named(list, other),
        named(drop_named(list, name), name) is None,
        named(drop_named(list, name), other) == named(list, other),
        named(add_named(list, name, value), name) == match named(list, name) {
            Some(known) => Some(known),
            None => Some(value),
        },
        named(add_named(list, name, value), other) == named(list, other),
        has_own_names(put_named(list, name, value)),
        has_own_names(drop_named(list, name)),
        has_own_names(add_named(list, name, value)),
{
    lemma_named(list, name);
    lemma_named(list, other);
    let at = named_place(list, name);
    let there = named_place(list, other);
    let put = put_named(list, name, value);
    let dropped = drop_named(list, name);
    let added = add_named(list, name, value);
    lemma_named(put, name);
    lemma_named(put, other);
    lemma_named(dropped, name);
    lemma_named(dropped, other);
    lemma_named(added, name);
    lemma_named(added, other);
    assert forall|i: int| 0 <= i < list.len() implies (#[trigger] put[i]).0 == list[i].0 by {}
    assert(put[at].0 == name);
    if there < list.len() {
        assert(put[there].0 == other);
        assert(added[there] == list[there]);
    }
    if named_place(put, other) < there {
        assert(put[named_place(put, other)].0 == list[named_place(put, other)].0);
    }
    if at < list.len() {
        assert forall|i: int| 0 <= i < dropped.len() implies #[trigger] dropped[i] == list[if i < at {
            i
        } else {
            i + 1
        }] by {}
        let gone = named_place(dropped, name);
        if gone < dropped.len() {
            assert(dropped[gone] == list[if gone < at {
                gone
            } else {
                gone + 1
            }]);
            assert(list[at].0 == name);
        }
        if there < list.len() {
            let place = if there < at {
                there
            } else {
                there - 1
            };
            assert(dropped[place] == list[there]);
            let now = named_place(dropped, other);
            assert(now <= place);
            assert(dropped[now].0 == other);
            let back = if now < at {
                now
            } else {
                now + 1
            };
            assert(dropped[now] == list[back]);
            assert(back == there);
        } else {
            let now = named_place(dropped, other);
            if now < dropped.len() {
                let back = if now < at {
                    now
                } else {
                    now + 1
                };
                assert(dropped[now] == list[back]);
            }
        }
        assert forall|i: int, j: int| 0 <= i < j < dropped.len() implies (
        #[trigger] dropped[i]).0 != (#[trigger] dropped[j]).0 by {
            let a = if i < at {
                i
            } else {
                i + 1
            };
            let b = if j < at {
                j
            } else {
                j + 1
            };
            assert(list[a].0 != list[b].0);
        }
        assert forall|i: int, j: int| 0 <= i < j < put.len() implies (#[trigger] put[i]).0 != (
        #[trigger] put[j]).0 by {
            assert(put[i].0 == list[i].0);
            assert(put[j].0 == list[j].0);
        }
    } else {
        assert(added == put);
        assert forall|i: int, j: int| 0 <= i < j < put.len() implies (#[trigger] put[i]).0 != (
        #[trigger] put[j]).0 by {
            assert(put[i].0 == list[i].0);
            if j < list.len() {
                assert(put[j].0 == list[j].0);
            } else {
                assert(list[i].0 != name);
            }
        }
    }
}

/// A player on the map is shown by a pointer that points where they look, a player just
/// off it by a mark at its edge, and one farther away only where tracking is unlimited.
/// Each is shown where they are, by one of sixteen directions.
pub proof fn law_player_is_shown_where_they_are(map: SavedMap, point: MapPoint, game_time: i64)
    requires
        0 <= point.turn < 16,
        map.world.path != "the_nether"@,
    ensures
        ({
            let icon = player_icon(map, point, game_time);
            &&& icon is None <==> !point.inside && !point.near && !map.unlimited_tracking
            &&& icon matches Some(shown) ==> {
                &&& shown.x == point.x && shown.y == point.y
                &&& 0 <= shown.rotation < 16
                &&& shown.name is None
                &&& shown.kind == vanilla_id("player"@) ==> point.inside && shown.rotation
                    == point.turn
                &&& point.inside ==> shown.kind == vanilla_id("player"@)
                &&& !point.inside ==> shown.rotation == 0
                &&& !point.inside && point.near ==> shown.kind == vanilla_id("player_off_map"@)
                &&& !point.inside && !point.near ==> shown.kind == vanilla_id("player_off_limits"@)
            }
        }),
{
    reveal_strlit("player");
    reveal_strlit("player_off_map");
    reveal_strlit("player_off_limits");
    assert(vanilla_id("player"@).path.len() == 6);
    assert(vanilla_id("player_off_map"@).path.len() == 14);
    assert(vanilla_id("player_off_limits"@).path.len() == 17);
}

/// In the nether icons spin: how they point depends on the time alone, and stays the
/// same for ten ticks.
pub proof fn law_icons_spin_in_the_nether(
    map: SavedMap,
    turn: i8,
    other: i8,
    tens: int,
    a: i64,
    b: i64,
)
    requires
        map.world.path == "the_nether"@,
        tens >= 0,
        10 * tens <= a < 10 * tens + 10,
        10 * tens <= b < 10 * tens + 10,
    ensures
        icon_turn(map, turn, a) == icon_turn(map, other, b),
        0 <= icon_turn(map, turn, a) < 16,
{
    assert(a as int / 10 == tens);
    assert(b as int / 10 == tens);
}

/// An icon of a map item's entry that is no player's is shown on the map, and beyond it
/// only where tracking is unlimited, with its own kind at its own place.
pub proof fn law_entry_is_shown_on_the_map(
    map: SavedMap,
    entry: Entry,
    point: MapPoint,
    game_time: i64,
)
    requires
        entry.kind != vanilla_id("player"@),
    ensures
        static_icon(map, entry, point, game_time) is Some <==> point.inside
            || map.unlimited_tracking,
        static_icon(map, entry, point, game_time) matches Some(shown) ==> shown.kind == entry.kind
            && shown.x == point.x && shown.y == point.y && 0 <= shown.rotation < 16,
{
}

/// The icon of a holder in the map's world is shown under the holder's name where the
/// map tracks positions, and is hidden from everyone else where the holder is invisible.
/// What is shown under other names stays.
pub proof fn law_holder_is_shown_under_their_name<
    F: Fn(i32, i32, i8, u64, u64, u32) -> MapPoint,
>(
    icons: Seq<(Seq<char>, Icon)>,
    recipient: u128,
    map: SavedMap,
    holder: Snapshot,
    place: F,
    other: Seq<char>,
)
    requires
        has_own_names(icons),
        other != holder.name,
    ensures
        ({
            let after = with_holder_icon(icons, recipient, map, holder, place);
            let point = point_on(place, map, holder.x, holder.z, holder.yaw);
            let hidden = holder.invisible && holder.uuid != recipient;
            &&& has_own_names(after)
            &&& named(after, other) == named(icons, other)
            &&& hidden ==> named(after, holder.name) is None
            &&& !hidden && holder.world == map.world && map.tracking_position ==> named(
                after,
                holder.name,
            ) == player_icon(map, point, holder.game_time)
            &&& !hidden && !(holder.world == map.world && map.tracking_position) ==> named(
                after,
                holder.name,
            ) == named(icons, holder.name)
        }),
{
    let point = point_on(place, map, holder.x, holder.z, holder.yaw);
    let icon = player_icon(map, point, holder.game_time);
    let value = icon->Some_0;
    law_names_lead_to_what_was_put(icons, holder.name, value, other);
    let shown = if holder.world == map.world && map.tracking_position {
        match icon {
            Some(icon) => put_named(icons, holder.name, icon),
            None => drop_named(icons, holder.name),
        }
    } else {
        icons
    };
    law_names_lead_to_what_was_put(shown, holder.name, value, other);
}

proof fn lemma_holder_place(holders: Seq<Holder>, uuid: u128)
    ensures
        ({
            let place = holder_place(holders, uuid);
            &&& 0 <= place <= holders.len()
            &&& place < holders.len() ==> holders[place].uuid == uuid
            &&& forall|i: int| 0 <= i < place ==> (#[trigger] holders[i]).uuid != uuid
        }),
    decreases holders.len(),
{
    if holders.len() > 0 && holders[0].uuid != uuid {
        let rest = holders.drop_first();
        lemma_holder_place(rest, uuid);
        let place = holder_place(rest, uuid);
        assert forall|i: int| 0 <= i < place + 1 implies (#[trigger] holders[i]).uuid != uuid by {
            if i > 0 {
                assert(rest[i - 1] == holders[i]);
            }
        }
    }
}

/// A player who joins is among the holders, with all of the map still to be sent where
/// their session is new, and as they were where it is not; the other holders stay.
pub proof fn law_new_session_gets_the_whole_map(map: Followed, player: PlayerSession, i: int)
    requires
        0 <= i < map.holders.len(),
        map.holders[i].uuid != player.uuid,
    ensures
        ({
            let after = map.joined(player);
            let there = holder_place(map.holders, player.uuid);
            let place = holder_place(after.holders, player.uuid);
            let now = after.holders[place];
            &&& 0 <= place < after.holders.len()
            &&& now.uuid == player.uuid && now.session == player.session
            &&& there == map.holders.len() || map.holders[there].session != player.session
                ==> now.dirty == Some(
                MapDirtyBounds { min_x: 0, min_y: 0, max_x: 127, max_y: 127 },
            ) && now.dirty_icons && now.sent.len() == 0 && now.terrain is None
            &&& there < map.holders.len() && map.holders[there].session == player.session ==> now
                == map.holders[there]
            &&& after.holders[i] == map.holders[i]
        }),
{
    let after = map.joined(player);
    lemma_holder_place(map.holders, player.uuid);
    lemma_holder_place(after.holders, player.uuid);
    let there = holder_place(map.holders, player.uuid);
    let place = holder_place(after.holders, player.uuid);
    if place < there && place < map.holders.len() {
        assert(after.holders[place].uuid == map.holders[place].uuid);
    }
    assert(after.holders[there].uuid == player.uuid);
}

/// Changes that are noted for a holder lie in what is sent next, with all that was noted
/// before; after that nothing is left to be sent.
pub proof fn law_noted_changes_are_sent(
    holder: Holder,
    bounds: MapDirtyBounds,
    id: i32,
    map: SavedMap,
    icons: Seq<Icon>,
    x: int,
    y: int,
)
    requires
        holder.sound(),
        bounds.on_map(),
        bounds.covers(x, y) || (holder.dirty matches Some(known) && known.covers(x, y)),
    ensures
        ({
            let noted = holder.with_dirty(bounds);
            let update = noted.update(id, map, icons);
            &&& update matches Some(sent) && sent.map_id == id && (sent.patch matches Some(patch)
                && patch.start_x <= x < patch.start_x + patch.width && patch.start_y <= y
                < patch.start_y + patch.height)
            &&& noted.after_check(icons).dirty is None
        }),
{
}

/// A holder who was changed is the one that is found, where the change keeps their
/// identity.
pub proof fn lemma_changed_holder_is_found(
    map: Followed,
    uuid: u128,
    change: spec_fn(Holder) -> Holder,
)
    requires
        map.holder(uuid) is Some,
        forall|holder: Holder| (#[trigger] change(holder)).uuid == holder.uuid,
    ensures
        map.with_holder(uuid, change).holder(uuid) == Some(change(map.holder(uuid)->Some_0)),
{
    let after = map.with_holder(uuid, change);
    lemma_holder_place(map.holders, uuid);
    lemma_holder_place(after.holders, uuid);
    let there = holder_place(map.holders, uuid);
    let place = holder_place(after.holders, uuid);
    if place < there {
        assert(after.holders[place] == map.holders[place]);
    }
    assert(after.holders[there].uuid == uuid);
}

/// A player who has joined is a holder, and one who has left, and held the map once, is
/// none.
pub proof fn lemma_joined_and_left(map: Followed, player: PlayerSession)
    ensures
        map.joined(player).holder(player.uuid) is Some,
        (forall|i: int, j: int|
            0 <= i < j < map.holders.len() ==> (#[trigger] map.holders[i]).uuid != (
            #[trigger] map.holders[j]).uuid) ==> map.without_holder(player.uuid).holder(
            player.uuid,
        ) is None,
{
    let uuid = player.uuid;
    let joined = map.joined(player);
    let left = map.without_holder(uuid);
    lemma_holder_place(map.holders, uuid);
    lemma_holder_place(joined.holders, uuid);
    lemma_holder_place(left.holders, uuid);
    let there = holder_place(map.holders, uuid);
    assert(joined.holders[there].uuid == uuid);
    if forall|i: int, j: int|
        0 <= i < j < map.holders.len() ==> (#[trigger] map.holders[i]).uuid != (
        #[trigger] map.holders[j]).uuid {
        let place = holder_place(left.holders, uuid);
        if place < left.holders.len() {
            if there < map.holders.len() {
                let old_place = if place < there {
                    place
                } else {
                    place + 1
                };
                assert(left.holders[place] == map.holders[old_place]);
                assert(map.holders[there].uuid == uuid);
            }
        }
    }
}

} // verus!
