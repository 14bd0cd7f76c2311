//! The packet that synchronizes a filled map with a client.
use vstd::prelude::*;

use crate::ident::{Id, Identifier};
use crate::keyed::{find, Keyed};

verus! {

/// A kind of icon on maps.
#[derive(Debug)]
pub struct MapDecorationType {
    pub key: Identifier,
    /// The color that an item showing such an icon takes on, where it takes on one.
    pub map_color: Option<i32>,
}

impl Keyed for MapDecorationType {
    open spec fn id(&self) -> Id {
        self.key@
    }

    fn key(&self) -> (key: &Identifier) {
        &self.key
    }
}

/// One icon rendered over a filled map, as a mathematical value.
#[verifier::ext_equal]
pub ghost struct Icon {
    pub kind: Id,
    pub x: i8,
    pub y: i8,
    pub rotation: i8,
    pub name: Option<Seq<u8>>,
}

/// One icon rendered over a filled map.
#[derive(Debug)]
pub struct MapDecoration {
    pub decoration_type: Identifier,
    pub x: i8,
    pub y: i8,
    pub rotation: i8,
    /// The encoded text of the icon's name.
    pub name: Option<Vec<u8>>,
}

impl View for MapDecoration {
    type V = Icon;

    open spec fn view(&self) -> Icon {
        Icon {
            kind: self.decoration_type@,
            x: self.x,
            y: self.y,
            rotation: self.rotation,
            name: match self.name {
                Some(name) => Some(name@),
                None => None,
            },
        }
    }
}

/// The icons of a list.
pub open spec fn icons_of(decorations: Seq<MapDecoration>) -> Seq<Icon> {
    Seq::new(decorations.len(), |i: int| decorations[i]@)
}

/// One of the sixteen directions that an icon can point in.
pub open spec fn direction(rotation: i8) -> i8 {
    (rotation as int % 16) as i8
}

/// Whether two byte strings are the same.
fn same_bytes(a: &Vec<u8>, b: &Vec<u8>) -> (same: bool)
    ensures
        same == (a@ == b@),
{
    if a.len() != b.len() {
        return false;
    }
    let mut i: usize = 0;
    while i < a.len()
        invariant
            i <= a.len() == b.len(),
            forall|j: int| 0 <= j < i ==> a@[j] == b@[j],
        decreases a.len() - i,
    {
        if a[i] != b[i] {
            return false;
        }
        i = i + 1;
    }
    assert(a@ =~= b@);
    true
}

impl MapDecoration {
    pub fn new(
        decoration_type: Identifier,
        x: i8,
        y: i8,
        rotation: i8,
        name: Option<Vec<u8>>,
    ) -> (decoration: Self)
        ensures
            decoration@ == (Icon {
                kind: decoration_type@,
                x,
                y,
                rotation: direction(rotation),
                name: match name {
                    Some(name) => Some(name@),
                    None => None,
                },
            }),
    {
        let turned: i8 = ((rotation as i16 + 128) % 16) as i8;
        assert(turned == direction(rotation));
        MapDecoration { decoration_type, x, y, rotation: turned, name }
    }

    /// A copy of this icon.
    pub fn copy(&self) -> (decoration: Self)
        ensures
            decoration@ == self@,
    {
        let name = match &self.name {
            Some(name) => {
                let bytes = name.clone();
                assert(bytes@ =~= name@);
                Some(bytes)
            },
            None => None,
        };
        MapDecoration {
            decoration_type: self.decoration_type.clone(),
            x: self.x,
            y: self.y,
            rotation: self.rotation,
            name,
        }
    }

    /// Whether both icons are the same.
    pub fn same(&self, other: &MapDecoration) -> (same: bool)
        ensures
            same == (self@ == other@),
    {
        let names = match (&self.name, &other.name) {
            (Some(a), Some(b)) => same_bytes(a, b),
            (None, None) => true,
            _ => false,
        };
        names && self.decoration_type.same(&other.decoration_type) && self.x == other.x && self.y
            == other.y && self.rotation == other.rotation
    }
}

/// A copy of a list of icons.
pub fn copy_decorations(decorations: &Vec<MapDecoration>) -> (copied: Vec<MapDecoration>)
    ensures
        icons_of(copied@) == icons_of(decorations@),
{
    let mut copied: Vec<MapDecoration> = Vec::new();
    let mut i: usize = 0;
    while i < decorations.len()
        invariant
            i <= decorations.len(),
            copied@.len() == i,
            forall|j: int| 0 <= j < i ==> (#[trigger] copied@[j])@ == decorations@[j]@,
        decreases decorations.len() - i,
    {
        copied.push(decorations[i].copy());
        i = i + 1;
    }
    assert(icons_of(copied@) =~= icons_of(decorations@));
    copied
}

/// Whether two lists hold the same icons in the same order.
pub fn same_decorations(a: &Vec<MapDecoration>, b: &Vec<MapDecoration>) -> (same: bool)
    ensures
        same == (icons_of(a@) == icons_of(b@)),
{
    if a.len() != b.len() {
        assert(icons_of(a@).len() != icons_of(b@).len());
        return false;
    }
    let mut i: usize = 0;
    while i < a.len()
        invariant
            i <= a.len() == b.len(),
            forall|j: int| 0 <= j < i ==> (#[trigger] a@[j])@ == b@[j]@,
        decreases a.len() - i,
    {
        if !a[i].same(&b[i]) {
            assert(icons_of(a@)[i as int] != icons_of(b@)[i as int]);
            return false;
        }
        i = i + 1;
    }
    assert(icons_of(a@) =~= icons_of(b@));
    true
}

/// A rectangular color update within a map.
#[derive(Debug)]
pub struct MapPatch {
    pub start_x: u8,
    pub start_y: u8,
    pub width: u8,
    pub height: u8,
    pub colors: Vec<u8>,
}

/// A rectangular color update as a mathematical value.
#[verifier::ext_equal]
pub ghost struct Patch {
    pub start_x: u8,
    pub start_y: u8,
    pub width: u8,
    pub height: u8,
    pub colors: Seq<u8>,
}

impl View for MapPatch {
    type V = Patch;

    open spec fn view(&self) -> Patch {
        Patch {
            start_x: self.start_x,
            start_y: self.start_y,
            width: self.width,
            height: self.height,
            colors: self.colors@,
        }
    }
}

/// A map update as a mathematical value.
#[verifier::ext_equal]
pub ghost struct MapUpdate {
    pub map_id: i32,
    pub scale: i8,
    pub locked: bool,
    pub icons: Option<Seq<Icon>>,
    pub patch: Option<Patch>,
}

/// Synchronizes filled-map colors and decorations with a client.
#[derive(Debug)]
pub struct CMapItemData {
    pub map_id: i32,
    pub scale: i8,
    pub locked: bool,
    pub decorations: Option<Vec<MapDecoration>>,
    pub color_patch: Option<MapPatch>,
}

impl View for CMapItemData {
    type V = MapUpdate;

    open spec fn view(&self) -> MapUpdate {
        MapUpdate {
            map_id: self.map_id,
            scale: self.scale,
            locked: self.locked,
            icons: match self.decorations {
                Some(decorations) => Some(icons_of(decorations@)),
                None => None,
            },
            patch: match self.color_patch {
                Some(patch) => Some(patch@),
                None => None,
            },
        }
    }
}

/// The bytes of a number of variable length: seven bits in each byte, the lowest
/// first, and the highest bit set in all but the last.
pub open spec fn var_int(value: nat) -> Seq<u8>
    decreases value,
{
    if value < 128 {
        seq![value as u8]
    } else {
        seq![(value % 128 + 128) as u8] + var_int(value / 128)
    }
}

/// A signed number's 32 bits as an unsigned one.
pub open spec fn unsigned(value: i32) -> nat {
    if value < 0 {
        (value + 0x1_0000_0000) as nat
    } else {
        value as nat
    }
}

/// A signed byte's bits.
pub open spec fn byte_of(value: i8) -> u8 {
    if value < 0 {
        (value + 256) as u8
    } else {
        value as u8
    }
}

/// A truth value's byte.
pub open spec fn flag(value: bool) -> u8 {
    if value {
        1
    } else {
        0
    }
}

/// The place of the first kind of icon with an identifier.
pub open spec fn kind_number(types: Seq<MapDecorationType>, id: Id) -> nat
    decreases types.len(),
{
    if types.len() == 0 || types[0].key@ == id {
        0
    } else {
        1 + kind_number(types.drop_first(), id)
    }
}

/// The bytes of an icon.
pub open spec fn icon_bytes(icon: Icon, types: Seq<MapDecorationType>) -> Seq<u8> {
    var_int(kind_number(types, icon.kind)) + seq![
        byte_of(icon.x),
        byte_of(icon.y),
        byte_of(icon.rotation),
    ] + match icon.name {
        Some(name) => seq![1u8] + name,
        None => seq![0u8],
    }
}

/// The bytes of icons, one after the other.
pub open spec fn icons_bytes(icons: Seq<Icon>, types: Seq<MapDecorationType>) -> Seq<u8>
    decreases icons.len(),
{
    if icons.len() == 0 {
        Seq::empty()
    } else {
        icons_bytes(icons.drop_last(), types) + icon_bytes(icons.last(), types)
    }
}

/// The bytes of a list of icons, where there is one.
pub open spec fn listed_icons_bytes(
    icons: Option<Seq<Icon>>,
    types: Seq<MapDecorationType>,
) -> Seq<u8> {
    match icons {
        Some(icons) => seq![1u8] + var_int(icons.len()) + icons_bytes(icons, types),
        None => seq![0u8],
    }
}

/// The bytes of a color update, where there is one; its width comes first, so that
/// a zero stands for none.
pub open spec fn patch_bytes(patch: Option<Patch>) -> Seq<u8> {
    match patch {
        Some(patch) => seq![patch.width, patch.height, patch.start_x, patch.start_y] + var_int(
            patch.colors.len(),
        ) + patch.colors,
        None => seq![0u8],
    }
}

impl MapUpdate {
    /// The packet's bytes.
    pub open spec fn bytes(self, types: Seq<MapDecorationType>) -> Seq<u8> {
        var_int(unsigned(self.map_id)) + seq![byte_of(self.scale), flag(self.locked)]
            + listed_icons_bytes(self.icons, types) + patch_bytes(self.patch)
    }

    /// Every icon is of a registered kind.
    pub open spec fn registered(self, types: Seq<MapDecorationType>) -> bool {
        self.icons matches Some(icons) ==> forall|i: int|
            0 <= i < icons.len() ==> find(types, (#[trigger] icons[i]).kind) is Some
    }
}

fn write_var_int(value: u64, bytes: &mut Vec<u8>)
    ensures
        final(bytes)@ == old(bytes)@ + var_int(value as nat),
{
    let ghost before = bytes@;
    let mut left: u64 = value;
    assert(before + var_int(value as nat) == bytes@ + var_int(left as nat));
    while left >= 128
        invariant
            before + var_int(value as nat) == bytes@ + var_int(left as nat),
        decreases left,
    {
        let low: u8 = (left % 128 + 128) as u8;
        let ghost now = bytes@;
        bytes.push(low);
        assert(bytes@ + var_int((left / 128) as nat) =~= now + var_int(left as nat));
        left = left / 128;
    }
    let ghost now = bytes@;
    bytes.push(left as u8);
    assert(bytes@ =~= now + var_int(left as nat));
}

fn signed_byte(value: i8) -> (byte: u8)
    ensures
        byte == byte_of(value),
{
    if value < 0 {
        (value as i16 + 256) as u8
    } else {
        value as u8
    }
}

fn push_all(bytes: &mut Vec<u8>, more: &Vec<u8>)
    ensures
        final(bytes)@ == old(bytes)@ + more@,
{
    let ghost before = bytes@;
    let mut i: usize = 0;
    assert(before + more@.take(0) =~= before);
    while i < more.len()
        invariant
            i <= more.len(),
            bytes@ == before + more@.take(i as int),
        decreases more.len() - i,
    {
        let ghost now = bytes@;
        bytes.push(more[i]);
        assert(bytes@ =~= before + more@.take(i + 1));
        i = i + 1;
    }
    assert(more@.take(i as int) =~= more@);
}

/// The place of a registered kind of icon.
fn kind_place(types: &Vec<MapDecorationType>, key: &Identifier) -> (place: Option<usize>)
    ensures
        match place {
            Some(place) => find(types@, key@) is Some && place == kind_number(types@, key@),
            None => find(types@, key@) is None,
        },
{
    let mut i: usize = 0;
    assert(types@.skip(0) =~= types@);
    while i < types.len()
        invariant
            i <= types.len(),
            find(types@, key@) == find(types@.skip(i as int), key@),
            kind_number(types@, key@) == i + kind_number(types@.skip(i as int), key@),
        decreases types.len() - i,
    {
        assert(types@.skip(i as int).drop_first() =~= types@.skip(i + 1));
        if types[i].key.same(key) {
            return Some(i);
        }
        i = i + 1;
    }
    None
}

impl MapDecoration {
    /// Writes the icon; fails where its kind is not registered.
    fn write(&self, types: &Vec<MapDecorationType>, bytes: &mut Vec<u8>) -> (written: bool)
        ensures
            written == (find(types@, self@.kind) is Some),
            written ==> final(bytes)@ == old(bytes)@ + icon_bytes(self@, types@),
    {
        let place: usize = match kind_place(types, &self.decoration_type) {
            Some(place) => place,
            None => {
                return false;
            },
        };
        let ghost before = bytes@;
        write_var_int(place as u64, bytes);
        bytes.push(signed_byte(self.x));
        bytes.push(signed_byte(self.y));
        bytes.push(signed_byte(self.rotation));
        match &self.name {
            Some(name) => {
                bytes.push(1);
                push_all(bytes, name);
            },
            None => {
                bytes.push(0);
            },
        }
        assert(bytes@ =~= before + icon_bytes(self@, types@));
        true
    }
}

/// Writes icons one after the other; fails where a kind is not registered.
fn write_icons(
    decorations: &Vec<MapDecoration>,
    types: &Vec<MapDecorationType>,
    bytes: &mut Vec<u8>,
) -> (written: bool)
    ensures
        written == forall|j: int|
            0 <= j < decorations@.len() ==> find(
                types@,
                (#[trigger] icons_of(decorations@)[j]).kind,
            ) is Some,
        written ==> final(bytes)@ == old(bytes)@ + icons_bytes(icons_of(decorations@), types@),
{
    let ghost icons = icons_of(decorations@);
    let ghost start = bytes@;
    let mut i: usize = 0;
    assert(icons_bytes(icons.take(0), types@) =~= Seq::empty());
    assert(bytes@ =~= start + icons_bytes(icons.take(0), types@));
    while i < decorations.len()
        invariant
            i <= decorations.len(),
            icons == icons_of(decorations@),
            bytes@ == start + icons_bytes(icons.take(i as int), types@),
            forall|j: int| 0 <= j < i ==> find(types@, (#[trigger] icons[j]).kind) is Some,
        decreases decorations.len() - i,
    {
        assert(icons.take(i + 1).drop_last() =~= icons.take(i as int));
        assert(icons.take(i + 1).last() == decorations@[i as int]@);
        assert(icons[i as int] == decorations@[i as int]@);
        if !decorations[i].write(types, bytes) {
            return false;
        }
        assert(bytes@ =~= start + icons_bytes(icons.take(i + 1), types@));
        i = i + 1;
    }
    assert(icons.take(i as int) =~= icons);
    true
}

fn write_patch(patch: &Option<MapPatch>, bytes: &mut Vec<u8>)
    ensures
        final(bytes)@ == old(bytes)@ + patch_bytes(
            match patch {
                Some(patch) => Some(patch@),
                None => None,
            },
        ),
{
    let ghost before = bytes@;
    match patch {
        Some(patch) => {
            bytes.push(patch.width);
            bytes.push(patch.height);
            bytes.push(patch.start_x);
            bytes.push(patch.start_y);
            assert(bytes@ =~= before + seq![
                patch.width,
                patch.height,
                patch.start_x,
                patch.start_y,
            ]);
            write_var_int(patch.colors.len() as u64, bytes);
            push_all(bytes, &patch.colors);
            assert(bytes@ =~= before + patch_bytes(Some(patch@)));
        },
        None => {
            bytes.push(0);
            assert(bytes@ =~= before + patch_bytes(None));
        },
    }
}

impl CMapItemData {
    /// The packet's bytes; none where an icon's kind is not registered.
    pub fn write(&self, types: &Vec<MapDecorationType>) -> (bytes: Option<Vec<u8>>)
        ensures
            match bytes {
                Some(bytes) => self@.registered(types@) && bytes@ == self@.bytes(types@),
                None => !self@.registered(types@),
            },
    {
        let mut bytes: Vec<u8> = Vec::new();
        let id: u64 = if self.map_id < 0 {
            (self.map_id as i64 + 0x1_0000_0000) as u64
        } else {
            self.map_id as u64
        };
        write_var_int(id, &mut bytes);
        let locked: u8 = if self.locked {
            1
        } else {
            0
        };
        bytes.push(signed_byte(self.scale));
        bytes.push(locked);
        let ghost head = var_int(unsigned(self.map_id)) + seq![
            byte_of(self.scale),
            flag(self.locked),
        ];
        assert(bytes@ =~= head);
        match &self.decorations {
            Some(decorations) => {
                let ghost icons = icons_of(decorations@);
                bytes.push(1);
                write_var_int(decorations.len() as u64, &mut bytes);
                assert(bytes@ =~= head + (seq![1u8] + var_int(icons.len())));
                if !write_icons(decorations, types, &mut bytes) {
                    return None;
                }
            },
            None => {
                bytes.push(0);
            },
        }
        assert(bytes@ =~= head + listed_icons_bytes(self@.icons, types@));
        write_patch(&self.color_patch, &mut bytes);
        Some(bytes)
    }
}

/// The number that bytes of variable length stand for, and how many bytes it takes: the
/// low seven bits of each, up to the first byte below 128.
pub open spec fn read_number(bytes: Seq<u8>) -> (nat, nat)
    decreases bytes.len(),
{
    if bytes.len() == 0 {
        (0, 0)
    } else if bytes[0] < 128 {
        (bytes[0] as nat, 1)
    } else {
        let rest = read_number(bytes.drop_first());
        ((bytes[0] - 128 + 128 * rest.0) as nat, rest.1 + 1)
    }
}

/// A number of variable length is read back from its bytes, whatever follows them.
pub proof fn law_number_is_read_back(value: nat, rest: Seq<u8>)
    ensures
        read_number(var_int(value) + rest) == (value, var_int(value).len()),
        var_int(value).len() > 0,
    decreases value,
{
    let bytes = var_int(value) + rest;
    if value >= 128 {
        law_number_is_read_back(value / 128, rest);
        assert(bytes.drop_first() =~= var_int(value / 128) + rest);
        assert(bytes[0] == (value % 128 + 128) as u8);
        assert(value == value % 128 + 128 * (value / 128));
    }
}

/// A packet begins with the number of its map, its scale and whether it is locked, from
/// which each of them can be told; whether there are icons follows.
pub proof fn law_packet_tells_its_map(update: MapUpdate, types: Seq<MapDecorationType>)
    ensures
        ({
            let bytes = update.bytes(types);
            let (id, count) = read_number(bytes);
            let at = count as int;
            &&& update.map_id >= 0 ==> id == update.map_id
            &&& update.map_id < 0 ==> id == update.map_id + 0x1_0000_0000
            &&& bytes.len() >= at + 4
            &&& (bytes[at] - update.scale) % 256 == 0
            &&& bytes[at + 1] == 1 <==> update.locked
            &&& bytes[at + 1] == 0 <==> !update.locked
            &&& bytes[at + 2] == 1 <==> update.icons is Some
            &&& bytes[at + 2] == 0 <==> update.icons is None
        }),
{
    let head = var_int(unsigned(update.map_id));
    let listed = listed_icons_bytes(update.icons, types);
    let tail = seq![byte_of(update.scale), flag(update.locked)] + listed + patch_bytes(update.patch);
    law_number_is_read_back(unsigned(update.map_id), tail);
    let bytes = update.bytes(types);
    assert(bytes =~= head + tail);
    assert(listed.len() >= 1);
    assert(patch_bytes(update.patch).len() >= 1);
    let at = head.len() as int;
    assert(bytes[at] == byte_of(update.scale));
    assert(bytes[at + 1] == flag(update.locked));
    assert(bytes[at + 2] == listed[0]);
}

/// A packet ends with its rectangle: its width, its height and where it begins, the
/// number of its colors and the colors themselves. A width of zero stands for none.
pub proof fn law_packet_ends_with_its_rectangle(
    update: MapUpdate,
    types: Seq<MapDecorationType>,
)
    ensures
        ({
            let bytes = update.bytes(types);
            match update.patch {
                Some(patch) => {
                    let colors = bytes.len() - patch.colors.len();
                    let number = var_int(patch.colors.len()).len();
                    let at = colors - number - 4;
                    &&& at >= 0
                    &&& bytes.skip(colors) == patch.colors
                    &&& read_number(bytes.skip(at + 4)) == (patch.colors.len(), number)
                    &&& bytes[at] == patch.width
                    &&& bytes[at + 1] == patch.height
                    &&& bytes[at + 2] == patch.start_x
                    &&& bytes[at + 3] == patch.start_y
                },
                None => bytes.last() == 0,
            }
        }),
{
    let bytes = update.bytes(types);
    let head = var_int(unsigned(update.map_id)) + seq![
        byte_of(update.scale),
        flag(update.locked),
    ] + listed_icons_bytes(update.icons, types);
    assert(bytes =~= head + patch_bytes(update.patch));
    if let Some(patch) = update.patch {
        let number = var_int(patch.colors.len());
        law_number_is_read_back(patch.colors.len(), patch.colors);
        let colors = bytes.len() - patch.colors.len();
        let at = colors - number.len() - 4;
        assert(at == head.len());
        assert(bytes.skip(colors) =~= patch.colors);
        assert(bytes.skip(at + 4) =~= number + patch.colors);
        assert(bytes[at] == patch_bytes(update.patch)[0]);
        assert(bytes[at + 1] == patch_bytes(update.patch)[1]);
        assert(bytes[at + 2] == patch_bytes(update.patch)[2]);
        assert(bytes[at + 3] == patch_bytes(update.patch)[3]);
    }
}

proof fn lemma_kind_number(types: Seq<MapDecorationType>, id: Id)
    ensures
        kind_number(types, id) <= types.len(),
        kind_number(types, id) < types.len() ==> types[kind_number(types, id) as int].key@ == id,
    decreases types.len(),
{
    if types.len() > 0 && types[0].key@ != id {
        lemma_kind_number(types.drop_first(), id);
    }
}

/// The bytes of an icon tell its kind, where it stands, how it points and its name.
pub proof fn law_icon_is_told_by_its_bytes(
    icon: Icon,
    types: Seq<MapDecorationType>,
    rest: Seq<u8>,
)
    ensures
        ({
            let bytes = icon_bytes(icon, types) + rest;
            let (kind, count) = read_number(bytes);
            let at = count as int;
            &&& kind < types.len() ==> types[kind as int].key@ == icon.kind
            &&& (bytes[at] - icon.x) % 256 == 0
            &&& (bytes[at + 1] - icon.y) % 256 == 0
            &&& (bytes[at + 2] - icon.rotation) % 256 == 0
            &&& bytes[at + 3] == 0 <==> icon.name is None
            &&& icon.name matches Some(name) ==> bytes[at + 3] == 1 && bytes.subrange(
                at + 4,
                at + 4 + name.len(),
            ) == name
        }),
{
    let kind = kind_number(types, icon.kind);
    lemma_kind_number(types, icon.kind);
    let named = match icon.name {
        Some(name) => seq![1u8] + name,
        None => seq![0u8],
    };
    let tail = seq![byte_of(icon.x), byte_of(icon.y), byte_of(icon.rotation)] + named + rest;
    law_number_is_read_back(kind, tail);
    let bytes = icon_bytes(icon, types) + rest;
    assert(bytes =~= var_int(kind) + tail);
    let at = var_int(kind).len() as int;
    assert(bytes[at] == byte_of(icon.x));
    assert(bytes[at + 1] == byte_of(icon.y));
    assert(bytes[at + 2] == byte_of(icon.rotation));
    assert(bytes[at + 3] == named[0]);
    if let Some(name) = icon.name {
        assert(bytes.subrange(at + 4, at + 4 + name.len()) =~= name);
    }
}

/// The bytes of two lists of icons are those of each of them, one behind the other.
pub proof fn law_icons_follow_each_other(
    first: Seq<Icon>,
    second: Seq<Icon>,
    types: Seq<MapDecorationType>,
)
    ensures
        icons_bytes(first + second, types) == icons_bytes(first, types) + icons_bytes(
            second,
            types,
        ),
        second.len() == 1 ==> icons_bytes(second, types) == icon_bytes(second[0], types),
    decreases second.len(),
{
    if second.len() == 0 {
        assert(first + second =~= first);
        assert(icons_bytes(first, types) + icons_bytes(second, types) =~= icons_bytes(first, types));
    } else {
        assert((first + second).drop_last() =~= first + second.drop_last());
        assert((first + second).last() == second.last());
        law_icons_follow_each_other(first, second.drop_last(), types);
        assert(icons_bytes(first + second, types) =~= icons_bytes(first, types) + icons_bytes(
            second,
            types,
        ));
        if second.len() == 1 {
            assert(icons_bytes(second.drop_last(), types) =~= Seq::<u8>::empty());
            assert(icons_bytes(second, types) =~= icon_bytes(second[0], types));
        }
    }
}

} // verus!
