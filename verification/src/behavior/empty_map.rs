//! Empty-map item behavior.
use vstd::prelude::*;

use crate::data_components::{number_component, ComponentData, ComponentKind};
use crate::ident::{vanilla_id, Identifier};
use crate::item_stack::{Item, ItemStack, Stack};
use crate::loot_table::conditions::BlockPos;
use crate::map::store::{fresh_map, MapDataError, MapDataState};
use crate::map::tracking::carried_id;
use crate::map::{blank_colors, NewMap, NewMapData};

verus! {

/// Creates a fresh scale-zero filled map when used.
#[derive(Clone, Copy, Debug, PartialEq, Eq, Structural)]
pub struct EmptyMapItem;

/// What using an empty map came to.
#[derive(Debug)]
pub enum EmptyMapUse {
    /// There is no map number left, or the like. Nothing changed.
    Fail { error: MapDataError },
    /// The filled map lies in the hand.
    InHand,
    /// The filled map goes to the inventory.
    ToInventory { map: ItemStack },
}

/// The map that using an empty one creates: it shows the player's surroundings at the
/// smallest scale and tracks positions.
pub open spec fn created_map(world: Identifier, dimension_type: Identifier, origin: BlockPos) -> NewMap {
    NewMap {
        origin,
        scale: 0,
        tracking_position: true,
        unlimited_tracking: false,
        world: world@,
        dimension_type: dimension_type@,
        colors: blank_colors(),
    }
}

/// A filled map with a map number.
pub open spec fn filled_map(item: Item, id: i32) -> Stack {
    Stack::of(item, 1).with(
        vanilla_id("map_id"@),
        number_component(ComponentKind::MapId, id),
    )
}

/// What is left in the hand: one map less, unless the player's materials are infinite.
pub open spec fn hand_after(hand: Stack, has_infinite_materials: bool) -> Stack {
    if has_infinite_materials {
        hand
    } else {
        hand.with_count((hand.count - 1) as i32)
    }
}

impl EmptyMapItem {
    /// Uses an empty map: a fresh map is allocated, and an item for it takes the place
    /// of the used one or, where some are left in the hand, goes to the inventory.
    pub fn use_item(
        &self,
        maps: &mut MapDataState,
        world: &Identifier,
        dimension_type: &Identifier,
        origin: BlockPos,
        filled: &Item,
        hand: &mut ItemStack,
        has_infinite_materials: bool,
    ) -> (result: EmptyMapUse)
        requires
            old(hand)@.count > i32::MIN,
        ensures
            ({
                let new = created_map(*world, *dimension_type, origin);
                match old(maps)@.refusal(seq![new]) {
                    Some(refusal) => {
                        &&& result matches EmptyMapUse::Fail { error } && error == refusal
                        &&& final(maps)@ == old(maps)@
                        &&& final(hand)@ == old(hand)@
                    },
                    None => {
                        let id = (old(maps)@.last + 1) as i32;
                        let left = hand_after(old(hand)@, has_infinite_materials);
                        &&& final(maps)@ == old(maps)@.with_batch(seq![new])
                        &&& final(maps)@.maps == old(maps)@.maps.insert(id, fresh_map(new))
                        &&& if left.is_empty() {
                            result is InHand && final(hand)@ == filled_map(*filled, id)
                        } else {
                            &&& result matches EmptyMapUse::ToInventory { map } && map@
                                == filled_map(*filled, id)
                            &&& final(hand)@ == left
                        }
                    },
                }
            }),
            old(maps)@.well_formed() ==> final(maps)@.well_formed(),
    {
        let new = NewMapData::blank(world, dimension_type, origin, 0, true, false);
        assert(new@ == created_map(*world, *dimension_type, origin));
        let id: i32 = match maps.create_map(new) {
            Ok(id) => id,
            Err(error) => {
                return EmptyMapUse::Fail { error };
            },
        };
        let mut map = ItemStack::new(filled);
        map.set("map_id", ComponentData::number(ComponentKind::MapId, id));
        if !has_infinite_materials {
            hand.count = hand.count - 1;
        }
        if hand.is_empty() {
            *hand = map;
            return EmptyMapUse::InHand;
        }
        EmptyMapUse::ToInventory { map }
    }

    /// Whether what found no room in the inventory is dropped. It is lost where the
    /// player's materials are infinite.
    pub fn drops_overflow(overflow: &ItemStack, has_infinite_materials: bool) -> (drops: bool)
        ensures
            drops == (!overflow@.is_empty() && !has_infinite_materials),
    {
        !overflow.is_empty() && !has_infinite_materials
    }
}

/// A filled map is carried under its number, and using an empty one takes one away from
/// the hand, unless materials are infinite.
pub proof fn law_filled_map_has_its_number(item: Item, id: i32, hand: Stack)
    requires
        item.key@ == vanilla_id("filled_map"@),
        id >= 0,
        hand.count > 0,
    ensures
        carried_id(filled_map(item, id)) == Some(id),
        filled_map(item, id).count == 1,
        hand_after(hand, true) == hand,
        hand_after(hand, false).count == hand.count - 1,
        hand_after(hand, false).item == hand.item,
        hand_after(hand, false).patch == hand.patch,
{
}

} // verus!
