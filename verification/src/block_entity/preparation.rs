//! Getting the contents of a container ready.
use vstd::prelude::*;

use crate::block_entity::base_container::{empty_slots, Storage};
use crate::block_entity::exploration::{ExplorationMapJob, ExplorationPhase};
use crate::block_entity::randomizable_container::{
    awaited, with_fallbacks, Awaited, EvaluatedLoot, PreparationSource, PublishedLoot,
    Randomizable, RandomizableContainer, RandomizableContainerPreparation,
};
use crate::ident::Identifier;
use crate::inventory::provider::ContainerAccessResult;
use crate::item_stack::{stacks_of, ItemStack, Stack};
use crate::loot_table::error::LootResult;

verus! {

/// What a preparation waits for, or what it came to.
#[derive(Debug)]
pub enum PreparationStep {
    /// The loot of a table.
    Evaluate { key: Identifier, seed: i64, size: usize },
    /// A place in the queue, for the search of exploration maps. The container's owner
    /// is told of a change first.
    Search { job: ExplorationMapJob, changed: bool },
    /// Nothing: items of a container that is gone are dropped, and the owner is told
    /// of a change.
    Done { result: ContainerAccessResult, dropped: Vec<ItemStack>, changed: bool },
}

/// A step as a mathematical value.
pub ghost enum Step {
    Evaluate { key: Identifier, seed: i64, size: usize },
    Search { token: u64, maps: Seq<Awaited>, changed: bool },
    Done { result: ContainerAccessResult, dropped: Seq<Stack>, changed: bool },
}

/// A search that has not begun yet.
pub open spec fn is_fresh(job: ExplorationMapJob) -> bool {
    job.current == 0 && job.phase == ExplorationPhase::Start && job.resolved@.len() == 0
}

impl PreparationStep {
    /// Whether this is the step, with a search that has not begun.
    pub open spec fn meets(self, step: Step) -> bool {
        match (self, step) {
            (
                PreparationStep::Evaluate { key, seed, size },
                Step::Evaluate { key: k, seed: s, size: n },
            ) => key == k && seed == s && size == n,
            (PreparationStep::Search { job, changed }, Step::Search { token, maps, changed: c }) => {
                &&& is_fresh(job)
                &&& job.token == token
                &&& awaited(job.maps@) == maps
                &&& changed == c
            },
            (
                PreparationStep::Done { result, dropped, changed },
                Step::Done { result: r, dropped: d, changed: c },
            ) => result == r && stacks_of(dropped@) == d && changed == c,
            _ => false,
        }
    }
}

/// The preparation has failed.
pub open spec fn failed() -> Step {
    Step::Done { result: ContainerAccessResult::Failed, dropped: Seq::empty(), changed: false }
}

/// A container and its preparation after loot was generated for it.
pub open spec fn after_evaluation(
    container: Randomizable,
    token: u64,
    loot: LootResult<EvaluatedLoot>,
) -> (Randomizable, Step) {
    match loot {
        Err(_) => (container.with_reset(token), failed()),
        Ok(loot) => if !container.is_running(token) {
            (container, failed())
        } else if loot.maps@.len() > 0 {
            (
                Randomizable { pending: Some(loot@), ..container },
                Step::Search { token, maps: loot@.maps, changed: true },
            )
        } else if loot.items@.len() != container.base.items.len() {
            (container.with_reset(token), failed())
        } else {
            let filled = Randomizable {
                loot_table: None,
                pending: None,
                running: None,
                ..container
            };
            if container.removed {
                (
                    Randomizable {
                        base: Storage { items: empty_slots(loot.items@.len()), ..filled.base },
                        ..filled
                    },
                    Step::Done {
                        result: ContainerAccessResult::Ready,
                        dropped: loot@.items,
                        changed: loot@.items.len() == 0,
                    },
                )
            } else {
                (
                    Randomizable {
                        base: Storage { items: loot@.items, ..filled.base },
                        ..filled
                    },
                    Step::Done {
                        result: ContainerAccessResult::Ready,
                        dropped: Seq::empty(),
                        changed: true,
                    },
                )
            }
        },
    }
}

/// A container and its preparation after a search was queued, or could not be: the
/// items of a container that is gone are dropped as they are without maps.
pub open spec fn after_queueing(container: Randomizable, token: u64, queued: bool) -> (
    Randomizable,
    Step,
) {
    if queued {
        (
            container,
            Step::Done {
                result: ContainerAccessResult::Pending,
                dropped: Seq::empty(),
                changed: false,
            },
        )
    } else if !container.removed || !container.is_running(token) {
        (container.with_reset(token), failed())
    } else {
        match container.pending {
            Some(pending) => (
                Randomizable { loot_table: None, pending: None, running: None, ..container },
                Step::Done {
                    result: ContainerAccessResult::Failed,
                    dropped: with_fallbacks(pending.items, pending.maps),
                    changed: false,
                },
            ),
            None => (Randomizable { running: None, ..container }, failed()),
        }
    }
}

fn no_items() -> (items: Vec<ItemStack>)
    ensures
        items@.len() == 0,
        stacks_of(items@) == Seq::<Stack>::empty(),
{
    let items: Vec<ItemStack> = Vec::new();
    assert(stacks_of(items@) =~= Seq::empty());
    items
}

impl RandomizableContainerPreparation {
    /// Starts the preparation: loot is generated first, unless it waits for its
    /// exploration maps only.
    pub fn start(self) -> (step: PreparationStep)
        ensures
            step.meets(
                match self.source {
                    PreparationSource::LootTable { key, seed, size } => Step::Evaluate {
                        key,
                        seed,
                        size,
                    },
                    PreparationSource::Pending { maps } => Step::Search {
                        token: self.token,
                        maps: awaited(maps@),
                        changed: false,
                    },
                },
            ),
    {
        let token: u64 = self.token;
        match self.source {
            PreparationSource::LootTable { key, seed, size } => {
                PreparationStep::Evaluate { key, seed, size }
            },
            PreparationSource::Pending { maps } => {
                PreparationStep::Search {
                    job: ExplorationMapJob::new(token, maps),
                    changed: false,
                }
            },
        }
    }
}

impl RandomizableContainer {
    /// Takes in generated loot. Loot that cannot be taken in leaves a container that
    /// may be prepared again.
    pub fn loot_evaluated(&mut self, token: u64, loot: LootResult<EvaluatedLoot>) -> (step:
        PreparationStep)
        ensures
            final(self)@ == after_evaluation(old(self)@, token, loot).0,
            step.meets(after_evaluation(old(self)@, token, loot).1),
    {
        match self.publish_evaluated(token, loot) {
            PublishedLoot::Failed => PreparationStep::Done {
                result: ContainerAccessResult::Failed,
                dropped: no_items(),
                changed: false,
            },
            PublishedLoot::Ready { dropped } => {
                let changed = dropped.len() == 0;
                assert(stacks_of(dropped@).len() == dropped@.len());
                PreparationStep::Done { result: ContainerAccessResult::Ready, dropped, changed }
            },
            PublishedLoot::Search { maps } => PreparationStep::Search {
                job: ExplorationMapJob::new(token, maps),
                changed: true,
            },
        }
    }

    /// Takes in whether the search for exploration maps could be queued.
    pub fn search_queued(&mut self, token: u64, queued: bool) -> (step: PreparationStep)
        ensures
            final(self)@ == after_queueing(old(self)@, token, queued).0,
            step.meets(after_queueing(old(self)@, token, queued).1),
    {
        if queued {
            return PreparationStep::Done {
                result: ContainerAccessResult::Pending,
                dropped: no_items(),
                changed: false,
            };
        }
        let dropped = self.finish_removed_as_fallback(token);
        assert(dropped@.len() == 0 ==> stacks_of(dropped@) =~= Seq::empty());
        PreparationStep::Done { result: ContainerAccessResult::Failed, dropped, changed: false }
    }
}

/// After a preparation that failed the container is not being prepared under its
/// number any more, so that the next access can try again.
pub proof fn law_failed_preparation_can_be_tried_again(
    container: Randomizable,
    token: u64,
    loot: LootResult<EvaluatedLoot>,
)
    ensures
        after_evaluation(container, token, loot).1 == failed() ==> !after_evaluation(
            container,
            token,
            loot,
        ).0.is_running(token),
        !after_queueing(container, token, false).0.is_running(token),
{
}

/// A preparation that succeeds at once leaves no loot to be generated; in a container
/// that is still there, the generated items fill the slots.
pub proof fn law_generated_loot_fills_the_slots(
    container: Randomizable,
    token: u64,
    loot: EvaluatedLoot,
)
    requires
        container.is_running(token),
        loot.maps@.len() == 0,
        loot.items@.len() == container.base.items.len(),
    ensures
        ({
            let (after, step) = after_evaluation(container, token, Ok(loot));
            &&& after.loot_table is None && after.pending is None && !after.is_running(token)
            &&& step matches Step::Done { result, dropped, .. } && result
                == ContainerAccessResult::Ready && if container.removed {
                dropped == loot@.items
            } else {
                dropped.len() == 0 && after.base.items == loot@.items
            }
        }),
{
}

} // verus!
