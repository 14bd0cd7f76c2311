//! Typed values attached to item stacks and block entities.
use vstd::prelude::*;

use crate::ident::{Id, Identifier};
use crate::keyed::Keyed;
use crate::nbt::{Nbt, NbtCompound, NbtTag};

pub mod map;
pub mod patch;

verus! {

/// The shape of the tag that a component's value is saved as.
#[derive(Debug, Clone, Copy, PartialEq, Eq, Structural)]
pub enum TagShape {
    /// A number.
    Integer,
    /// A text component: a bare text, a list or a styled text.
    Text,
    /// The identifier of a registry value.
    Reference,
    /// A value with named parts.
    Record,
    /// A list of values.
    List,
}

impl TagShape {
    /// Whether a tag has this shape.
    pub open spec fn fits(self, tag: Nbt) -> bool {
        match self {
            TagShape::Integer => tag is Int,
            TagShape::Text => tag is Text || tag is Compound || tag is List,
            TagShape::Reference => tag is Text,
            TagShape::Record => tag is Compound,
            TagShape::List => tag is List,
        }
    }

    pub fn accepts(self, tag: &NbtTag) -> (fits: bool)
        ensures
            fits == self.fits(tag@),
    {
        match (self, tag) {
            (TagShape::Integer, NbtTag::Int(_)) => true,
            (TagShape::Text, NbtTag::Text(_)) => true,
            (TagShape::Text, NbtTag::Compound(_)) => true,
            (TagShape::Text, NbtTag::List(_)) => true,
            (TagShape::Reference, NbtTag::Text(_)) => true,
            (TagShape::Record, NbtTag::Compound(_)) => true,
            (TagShape::List, NbtTag::List(_)) => true,
            _ => false,
        }
    }
}

/// The type of a component's value. A value of one type is never taken for one of
/// another, though both are saved in the same shape.
#[derive(Debug, Clone, Copy, PartialEq, Eq, Structural)]
pub enum ComponentKind {
    /// A plain number.
    Integer,
    /// The number of a filled map.
    MapId,
    /// The color of a filled map.
    MapColor,
    OminousBottleAmplifier,
    Enchantable,
    /// A text component.
    Text,
    Instrument,
    /// The predicate that a key has to meet.
    Lock,
    CustomData,
    BlockEntityData,
    MapDecorations,
    Enchantments,
    PotionContents,
    /// A loot table and its seed.
    ContainerLoot,
    ContainerContents,
    StewEffects,
    /// Any other type: each has a number of its own.
    Other { shape: TagShape, number: u32 },
}

impl ComponentKind {
    /// The shape that values of this type are saved in.
    pub open spec fn spec_shape(self) -> TagShape {
        match self {
            ComponentKind::Integer => TagShape::Integer,
            ComponentKind::MapId => TagShape::Integer,
            ComponentKind::MapColor => TagShape::Integer,
            ComponentKind::OminousBottleAmplifier => TagShape::Integer,
            ComponentKind::Enchantable => TagShape::Integer,
            ComponentKind::Text => TagShape::Text,
            ComponentKind::Instrument => TagShape::Reference,
            ComponentKind::Lock => TagShape::Record,
            ComponentKind::CustomData => TagShape::Record,
            ComponentKind::BlockEntityData => TagShape::Record,
            ComponentKind::MapDecorations => TagShape::Record,
            ComponentKind::Enchantments => TagShape::Record,
            ComponentKind::PotionContents => TagShape::Record,
            ComponentKind::ContainerLoot => TagShape::Record,
            ComponentKind::ContainerContents => TagShape::List,
            ComponentKind::StewEffects => TagShape::List,
            ComponentKind::Other { shape, .. } => shape,
        }
    }

    /// The shape that values of this type are saved in.
    pub fn shape(self) -> (shape: TagShape)
        ensures
            shape == self.spec_shape(),
    {
        match self {
            ComponentKind::Integer => TagShape::Integer,
            ComponentKind::MapId => TagShape::Integer,
            ComponentKind::MapColor => TagShape::Integer,
            ComponentKind::OminousBottleAmplifier => TagShape::Integer,
            ComponentKind::Enchantable => TagShape::Integer,
            ComponentKind::Text => TagShape::Text,
            ComponentKind::Instrument => TagShape::Reference,
            ComponentKind::Lock => TagShape::Record,
            ComponentKind::CustomData => TagShape::Record,
            ComponentKind::BlockEntityData => TagShape::Record,
            ComponentKind::MapDecorations => TagShape::Record,
            ComponentKind::Enchantments => TagShape::Record,
            ComponentKind::PotionContents => TagShape::Record,
            ComponentKind::ContainerLoot => TagShape::Record,
            ComponentKind::ContainerContents => TagShape::List,
            ComponentKind::StewEffects => TagShape::List,
            ComponentKind::Other { shape, .. } => shape,
        }
    }

    /// Whether a tag has the shape of this type.
    pub open spec fn fits(self, tag: Nbt) -> bool {
        self.spec_shape().fits(tag)
    }

    pub fn accepts(self, tag: &NbtTag) -> (fits: bool)
        ensures
            fits == self.fits(tag@),
    {
        self.shape().accepts(tag)
    }
}

/// A component value as a mathematical value.
pub ghost struct Component {
    pub kind: ComponentKind,
    pub value: Nbt,
}

/// A component value: its type and its contents.
#[derive(Debug)]
pub struct ComponentData {
    pub kind: ComponentKind,
    pub value: NbtTag,
}

impl View for ComponentData {
    type V = Component;

    open spec fn view(&self) -> Component {
        Component { kind: self.kind, value: self.value@ }
    }
}

impl ComponentData {
    pub fn new(kind: ComponentKind, value: NbtTag) -> (data: Self)
        ensures
            data@ == (Component { kind, value: value@ }),
    {
        ComponentData { kind, value }
    }

    /// A plain number.
    pub fn integer(value: i32) -> (data: Self)
        ensures
            data@ == number_component(ComponentKind::Integer, value),
    {
        ComponentData::number(ComponentKind::Integer, value)
    }

    /// A number of some type.
    pub fn number(kind: ComponentKind, value: i32) -> (data: Self)
        ensures
            data@ == number_component(kind, value),
    {
        ComponentData { kind, value: NbtTag::Int(value) }
    }

    /// A copy of this value.
    pub fn copy(&self) -> (data: Self)
        ensures
            data@ == self@,
    {
        ComponentData { kind: self.kind, value: self.value.copy() }
    }

    /// Whether both values have the same type and contents.
    pub fn same(&self, other: &ComponentData) -> (same: bool)
        ensures
            same == (self@ == other@),
    {
        self.kind == other.kind && self.value.same(&other.value)
    }

    /// The number held, where this is one of the given type.
    pub fn as_number(&self, kind: ComponentKind) -> (value: Option<i32>)
        ensures
            value == number_of(Some(self@), kind),
    {
        if self.kind != kind {
            return None;
        }
        match &self.value {
            NbtTag::Int(value) => Some(*value),
            _ => None,
        }
    }

    /// The parts held, where this is a value of the given type that has named parts.
    pub fn as_record(&self, kind: ComponentKind) -> (entries: Option<&NbtCompound>)
        ensures
            match entries {
                Some(entries) => record_in(Some(self@), kind) == Some(entries@),
                None => record_in(Some(self@), kind) is None,
            },
    {
        if self.kind != kind {
            return None;
        }
        match &self.value {
            NbtTag::Compound(entries) => Some(entries),
            _ => None,
        }
    }
}

/// A number of some type.
pub open spec fn number_component(kind: ComponentKind, value: i32) -> Component {
    Component { kind, value: Nbt::Int(value) }
}

/// The number that a component value holds, where there is a value of the given type
/// and it is a number.
pub open spec fn number_of(component: Option<Component>, kind: ComponentKind) -> Option<i32> {
    match component {
        Some(Component { kind: given, value: Nbt::Int(value) }) => if given == kind {
            Some(value)
        } else {
            None
        },
        _ => None,
    }
}

/// The plain number that a component value holds, where there is a value and it is one.
pub open spec fn integer_of(component: Option<Component>) -> Option<i32> {
    number_of(component, ComponentKind::Integer)
}

/// The parts of a component value, where there is a value of the given type and it has
/// named parts.
pub open spec fn record_in(component: Option<Component>, kind: ComponentKind) -> Option<
    Seq<(Seq<char>, Nbt)>,
> {
    match component {
        Some(Component { kind: given, value: Nbt::Compound(entries) }) => if given == kind {
            Some(entries)
        } else {
            None
        },
        _ => None,
    }
}

/// A registered component type.
#[derive(Debug)]
pub struct DataComponentType {
    pub key: Identifier,
    pub kind: ComponentKind,
    /// Whether values of this type are saved.
    pub persistent: bool,
}

impl Keyed for DataComponentType {
    open spec fn id(&self) -> Id {
        self.key@
    }

    fn key(&self) -> (key: &Identifier) {
        &self.key
    }
}

impl DataComponentType {
    /// Whether `data` is a value of this type.
    pub fn validates(&self, data: &ComponentData) -> (valid: bool)
        ensures
            valid == (data.kind == self.kind),
    {
        data.kind == self.kind
    }

    /// The value that a saved tag denotes.
    pub open spec fn decoded(self, tag: Nbt) -> Option<Component> {
        if self.kind.fits(tag) {
            Some(Component { kind: self.kind, value: tag })
        } else {
            None
        }
    }

    /// The tag that a value is saved as, where it is a value of this type.
    pub open spec fn encoded(self, data: Component) -> Option<Nbt> {
        if data.kind == self.kind && self.kind.fits(data.value) {
            Some(data.value)
        } else {
            None
        }
    }

    /// Reads a saved value.
    pub fn read_nbt(&self, tag: &NbtTag) -> (data: Option<ComponentData>)
        ensures
            match data {
                Some(data) => self.decoded(tag@) == Some(data@),
                None => self.decoded(tag@) is None,
            },
    {
        if self.kind.accepts(tag) {
            Some(ComponentData { kind: self.kind, value: tag.copy() })
        } else {
            None
        }
    }

    /// Writes a value, or returns `None` where it is not of this type.
    pub fn write_nbt(&self, data: &ComponentData) -> (tag: Option<NbtTag>)
        ensures
            match tag {
                Some(tag) => self.encoded(data@) == Some(tag@),
                None => self.encoded(data@) is None,
            },
    {
        if data.kind == self.kind && self.kind.accepts(&data.value) {
            Some(data.value.copy())
        } else {
            None
        }
    }
}

/// Read-only access to effective component values.
pub trait DataComponentGetter {
    /// The effective value stored under an identifier.
    spec fn component(&self, id: Id) -> Option<Component>;

    /// Returns the effective value stored for `key`.
    fn get_raw(&self, key: &Identifier) -> (data: Option<&ComponentData>)
        ensures
            match data {
                Some(data) => self.component(key@) == Some(data@),
                None => self.component(key@) is None,
            },
    ;
}

} // verus!
