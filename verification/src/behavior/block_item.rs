//! Items that place blocks.
use vstd::prelude::*;

use crate::behavior::InteractionResult;
use crate::ident::{vanilla_id, Identifier};
use crate::item_stack::ItemStack;

verus! {

/// Whether the block has to be able to stay where it is placed.
#[derive(Clone, Copy, Debug, PartialEq, Eq, Structural)]
pub enum SurvivalCheck {
    Required,
    Skipped,
}

/// The questions that a placement puts to the world, in order.
#[derive(Clone, Copy, Debug, PartialEq, Eq, Structural)]
pub enum PlaceStage {
    /// Is there a place, after a possible change of the context?
    UpdateContext,
    /// Is there a state for the block at the place?
    StateForPlacement,
    /// Can the block stay there?
    Survival,
    /// Is nothing in the way of it?
    Collision,
    /// Was the block set?
    PlaceBlock,
    /// Which block is there now?
    Placed,
}

/// A placement on its way.
#[derive(Clone, Copy, Debug, PartialEq, Eq, Structural)]
pub struct Placement {
    pub survival_check: SurvivalCheck,
    pub stage: PlaceStage,
}

/// How a placement goes on.
#[derive(Clone, Copy, Debug, PartialEq, Eq, Structural)]
pub enum PlaceStep {
    Ask(Placement),
    Fail,
}

impl Placement {
    /// How the placement goes on after a question was answered with yes.
    pub open spec fn next_stage(self) -> PlaceStage {
        match self.stage {
            PlaceStage::UpdateContext => PlaceStage::StateForPlacement,
            PlaceStage::StateForPlacement => if self.survival_check == SurvivalCheck::Required {
                PlaceStage::Survival
            } else {
                PlaceStage::Collision
            },
            PlaceStage::Survival => PlaceStage::Collision,
            PlaceStage::Collision => PlaceStage::PlaceBlock,
            PlaceStage::PlaceBlock => PlaceStage::Placed,
            PlaceStage::Placed => PlaceStage::Placed,
        }
    }

    /// How the placement goes on after an answer.
    pub open spec fn after(self, yes: bool) -> PlaceStep {
        if yes {
            PlaceStep::Ask(Placement { stage: self.next_stage(), ..self })
        } else {
            PlaceStep::Fail
        }
    }

    /// The number of questions that are still to be answered with yes or no.
    pub open spec fn questions(self) -> nat {
        let survival: nat = if self.survival_check == SurvivalCheck::Required {
            1
        } else {
            0
        };
        match self.stage {
            PlaceStage::UpdateContext => 4 + survival,
            PlaceStage::StateForPlacement => 3 + survival,
            PlaceStage::Survival => 3,
            PlaceStage::Collision => 2,
            PlaceStage::PlaceBlock => 1,
            PlaceStage::Placed => 0,
        }
    }

    /// Takes an answer. The first no ends the placement.
    pub fn answered(self, yes: bool) -> (step: PlaceStep)
        requires
            self.stage != PlaceStage::Placed,
        ensures
            step == self.after(yes),
    {
        if !yes {
            return PlaceStep::Fail;
        }
        let stage = match self.stage {
            PlaceStage::UpdateContext => PlaceStage::StateForPlacement,
            PlaceStage::StateForPlacement => match self.survival_check {
                SurvivalCheck::Required => PlaceStage::Survival,
                SurvivalCheck::Skipped => PlaceStage::Collision,
            },
            PlaceStage::Survival => PlaceStage::Collision,
            PlaceStage::Collision => PlaceStage::PlaceBlock,
            PlaceStage::PlaceBlock => PlaceStage::Placed,
            PlaceStage::Placed => PlaceStage::Placed,
        };
        PlaceStep::Ask(Placement { survival_check: self.survival_check, stage })
    }
}

/// Behavior for items that place blocks.
#[derive(Debug)]
pub struct BlockItem {
    /// The block this item places.
    pub block: Identifier,
}

impl BlockItem {
    /// Creates a new block item behavior for the given block.
    pub fn new(block: Identifier) -> (item: Self)
        ensures
            item.block == block,
    {
        BlockItem { block }
    }

    /// Begins a placement.
    pub fn place_with_policy(&self, can_place: bool, survival_check: SurvivalCheck) -> (step:
        PlaceStep)
        ensures
            step == if can_place {
                PlaceStep::Ask(Placement { survival_check, stage: PlaceStage::UpdateContext })
            } else {
                PlaceStep::Fail
            },
    {
        if !can_place {
            return PlaceStep::Fail;
        }
        PlaceStep::Ask(Placement { survival_check, stage: PlaceStage::UpdateContext })
    }

    /// Begins a placement whose context stays as it is, of a block that has to be able
    /// to stay.
    pub fn place(&self, can_place: bool) -> (step: PlaceStep)
        ensures
            step == if can_place {
                PlaceStep::Ask(
                    Placement {
                        survival_check: SurvivalCheck::Required,
                        stage: PlaceStage::StateForPlacement,
                    },
                )
            } else {
                PlaceStep::Fail
            },
    {
        match self.place_with_policy(can_place, SurvivalCheck::Required) {
            PlaceStep::Ask(placement) => placement.answered(true),
            PlaceStep::Fail => PlaceStep::Fail,
        }
    }

    /// Whether the block entity takes over the stack's data, and the block learns who
    /// placed it: only where the block that is there now is the item's.
    pub fn takes_item_data(&self, placed: &Identifier) -> (takes: bool)
        ensures
            takes == (placed@ == self.block@),
    {
        placed.same(&self.block)
    }

    /// Ends a placement that came to its last question, after the block entity has
    /// taken over what it takes: one item is used up.
    pub fn finish(&self, placement: Placement, stack: &mut ItemStack) -> (result:
        InteractionResult)
        requires
            placement.stage == PlaceStage::Placed,
            old(stack)@.count > i32::MIN,
        ensures
            result == InteractionResult::Success,
            final(stack)@ == old(stack)@.with_count((old(stack)@.count - 1) as i32),
    {
        stack.count = stack.count - 1;
        InteractionResult::Success
    }

    /// Whether the stack's block-entity data is loaded into the placed block entity:
    /// where both are there and of one type. Data of a type that only operators may
    /// set needs a player who may use operator blocks.
    pub fn loads_custom_data(
        data_type: Option<&Identifier>,
        entity_type: Option<&Identifier>,
        only_op_can_set_nbt: bool,
        can_use_game_master_blocks: bool,
    ) -> (loads: bool)
        ensures
            loads == match (data_type, entity_type) {
                (Some(data), Some(entity)) => data@ == entity@ && (!only_op_can_set_nbt
                    || can_use_game_master_blocks),
                _ => false,
            },
    {
        match (data_type, entity_type) {
            (Some(data), Some(entity)) => data.same(entity) && (!only_op_can_set_nbt
                || can_use_game_master_blocks),
            _ => false,
        }
    }
}

/// Behavior for double-high block items (doors, tall flowers, etc.).
#[derive(Debug)]
pub struct DoubleHighBlockItem {
    pub base: BlockItem,
}

impl DoubleHighBlockItem {
    /// Creates a new double-high block item behavior for the given block.
    pub fn new(block: Identifier) -> (item: Self)
        ensures
            item.base.block == block,
    {
        DoubleHighBlockItem { base: BlockItem::new(block) }
    }

    /// The block that makes room above before the lower half is placed: water stays,
    /// anything else gives way to air.
    pub fn upper_block(is_water: bool) -> (block: Identifier)
        ensures
            block@ == if is_water {
                vanilla_id("water"@)
            } else {
                vanilla_id("air"@)
            },
    {
        if is_water {
            Identifier::vanilla("water")
        } else {
            Identifier::vanilla("air")
        }
    }
}

/// How a placement goes on after a row of answers.
pub open spec fn after_answers(step: PlaceStep, answers: Seq<bool>) -> PlaceStep
    decreases answers.len(),
{
    if answers.len() == 0 {
        step
    } else {
        match step {
            PlaceStep::Ask(placement) => after_answers(
                placement.after(answers[0]),
                answers.drop_first(),
            ),
            PlaceStep::Fail => PlaceStep::Fail,
        }
    }
}

proof fn lemma_failed_stays_failed(answers: Seq<bool>)
    ensures
        after_answers(PlaceStep::Fail, answers) == PlaceStep::Fail,
    decreases answers.len(),
{
}

/// A placement comes to its last question exactly where all the others are answered
/// with yes; otherwise it fails.
pub proof fn law_placement_needs_every_yes(placement: Placement, answers: Seq<bool>)
    requires
        answers.len() == placement.questions(),
        placement.stage == PlaceStage::Survival ==> placement.survival_check
            == SurvivalCheck::Required,
    ensures
        after_answers(PlaceStep::Ask(placement), answers) == if forall|i: int|
            0 <= i < answers.len() ==> answers[i] {
            PlaceStep::Ask(Placement { stage: PlaceStage::Placed, ..placement })
        } else {
            PlaceStep::Fail
        },
    decreases answers.len(),
{
    if answers.len() > 0 {
        let rest = answers.drop_first();
        if answers[0] {
            law_placement_needs_every_yes(
                Placement { stage: placement.next_stage(), ..placement },
                rest,
            );
            assert((forall|i: int| 0 <= i < rest.len() ==> rest[i]) == (forall|i: int|
                0 <= i < answers.len() ==> answers[i])) by {
                if forall|i: int| 0 <= i < rest.len() ==> rest[i] {
                    assert forall|i: int| 0 <= i < answers.len() implies answers[i] by {
                        if i > 0 {
                            assert(rest[i - 1]);
                        }
                    }
                }
                if forall|i: int| 0 <= i < answers.len() ==> answers[i] {
                    assert forall|i: int| 0 <= i < rest.len() implies rest[i] by {
                        assert(answers[i + 1]);
                    }
                }
            }
        } else {
            lemma_failed_stays_failed(rest);
        }
    }
}

} // verus!
