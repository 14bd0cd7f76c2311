//! Chest menu for chest-like containers (chests, barrels, ender chests, shulker boxes).
//!
//! 1-6 rows of 9 slots. Layout:
//! - Slots 0 to `rows * 9 - 1`: Container
//! - Slots `rows * 9` to `rows * 9 + 26`: Main inventory (27)
//! - Slots `rows * 9 + 27` to `rows * 9 + 35`: Hotbar (9)
use vstd::prelude::*;

use crate::ident::{vanilla_id, Id, Identifier};
use crate::inventory::section::{
    player_sections, player_sections_after, FillDirection, PlayerSections, Section,
};

verus! {

/// Slots per row in a chest menu.
pub const SLOTS_PER_ROW: usize = 9;

/// One container of a menu and how many of its slots the menu shows.
#[derive(Clone, Copy, Debug, PartialEq, Eq, Structural)]
pub struct ChestSection {
    pub container: u64,
    pub size: usize,
}

/// From where to where a shift-clicked stack goes: to the first target with room.
#[derive(Debug)]
pub struct ChestRoute {
    pub source: Section,
    pub targets: Vec<Section>,
    pub direction: FillDirection,
}

/// The number of slots of containers.
pub open spec fn total_size(containers: Seq<ChestSection>) -> int
    decreases containers.len(),
{
    if containers.len() == 0 {
        0
    } else {
        total_size(containers.drop_last()) + containers.last().size
    }
}

/// The menu slots of the containers, one after the other.
pub open spec fn container_sections(containers: Seq<ChestSection>) -> Seq<Section> {
    Seq::new(
        containers.len(),
        |i: int|
            Section {
                start: total_size(containers.take(i)) as usize,
                end: total_size(containers.take(i + 1)) as usize,
            },
    )
}

/// The menu type for a number of rows.
pub open spec fn menu_type(rows: int) -> Id {
    if rows == 1 {
        vanilla_id("generic_9x1"@)
    } else if rows == 2 {
        vanilla_id("generic_9x2"@)
    } else if rows == 3 {
        vanilla_id("generic_9x3"@)
    } else if rows == 4 {
        vanilla_id("generic_9x4"@)
    } else if rows == 5 {
        vanilla_id("generic_9x5"@)
    } else {
        vanilla_id("generic_9x6"@)
    }
}

/// The counters that there are.
pub open spec fn present(openers: Seq<Option<u64>>) -> Seq<u64>
    decreases openers.len(),
{
    if openers.len() == 0 {
        Seq::empty()
    } else {
        match openers.last() {
            Some(id) => present(openers.drop_last()).push(id),
            None => present(openers.drop_last()),
        }
    }
}

/// Per-menu chest state and viewer-count ownership.
#[derive(Debug)]
pub struct ChestKind {
    containers: Vec<u64>,
    opener_container_ids: Vec<u64>,
    opened: bool,
}

/// A chest menu.
#[derive(Debug)]
pub struct ChestMenu {
    pub menu_type: Identifier,
    pub container_id: u8,
    pub sections: Vec<Section>,
    pub player: PlayerSections,
    pub routes: Vec<ChestRoute>,
    pub kind: ChestKind,
}

/// The routes of a chest menu: from each container to all of the player's slots, from
/// the last one on, and from the player's slots to the containers in order.
pub open spec fn chest_routes(
    routes: Seq<ChestRoute>,
    sections: Seq<Section>,
    player: PlayerSections,
) -> bool {
    &&& routes.len() == sections.len() + 1
    &&& forall|i: int|
        0 <= i < sections.len() ==> {
            &&& (#[trigger] routes[i]).source == sections[i]
            &&& routes[i].targets@ == seq![player.all]
            &&& routes[i].direction == FillDirection::Backward
        }
    &&& routes.last().source == player.all
    &&& routes.last().targets@ == sections
    &&& routes.last().direction == FillDirection::Forward
}

impl ChestMenu {
    /// The number of slots of the menu.
    pub fn slot_count(&self) -> (count: usize)
        ensures
            count == self.player.all.end,
    {
        self.player.all.end
    }
}

/// Builds a chest-like menu with `rows` rows of 9 slots plus the player inventory.
pub fn chest(container_id: u8, container: u64, rows: usize) -> (menu: ChestMenu)
    requires
        1 <= rows <= 6,
    ensures
        menu.menu_type@ == menu_type(rows as int),
        menu.container_id == container_id,
        menu.sections@ == seq![Section { start: 0, end: (rows * 9) as usize }],
        menu.player == player_sections_after(rows * 9),
        chest_routes(menu.routes@, menu.sections@, menu.player),
        menu.kind.container_ids() == seq![container],
        menu.kind.opener_ids() == Seq::<u64>::empty(),
        !menu.kind.is_open(),
{
    let mut containers: Vec<ChestSection> = Vec::new();
    let size: usize = rows * SLOTS_PER_ROW;
    containers.push(ChestSection { container, size });
    let openers: Vec<Option<u64>> = Vec::new();
    proof {
        lemma_single(ChestSection { container, size });
        assert(containers@ =~= seq![ChestSection { container, size }]);
    }
    let menu = chest_with_openers(container_id, containers, rows, openers);
    assert(menu.kind.container_ids() =~= seq![container]);
    menu
}

proof fn lemma_single(section: ChestSection)
    ensures
        total_size(seq![section]) == section.size,
        container_sections(seq![section]) == seq![Section { start: 0, end: section.size }],
{
    let containers = seq![section];
    assert(containers.drop_last() =~= Seq::empty());
    assert(containers.take(0) =~= Seq::empty());
    assert(containers.take(1) =~= containers);
    reveal_with_fuel(total_size, 2);
    assert(container_sections(containers) =~= seq![Section { start: 0, end: section.size }]);
}

proof fn lemma_total_size_grows(containers: Seq<ChestSection>, at: int)
    requires
        0 <= at <= containers.len(),
    ensures
        0 <= total_size(containers.take(at)) <= total_size(containers),
    decreases containers.len() - at, containers.len(),
{
    if at == containers.len() {
        assert(containers.take(at) =~= containers);
        if containers.len() > 0 {
            lemma_total_size_grows(containers.drop_last(), containers.len() - 1);
            assert(containers.drop_last().take(containers.len() - 1) =~= containers.drop_last());
        }
    } else {
        lemma_total_size_grows(containers, at + 1);
        let more = containers.take(at + 1);
        assert(more.drop_last() =~= containers.take(at));
        lemma_total_size_not_negative(containers.take(at));
    }
}

proof fn lemma_total_size_not_negative(containers: Seq<ChestSection>)
    ensures
        total_size(containers) >= 0,
    decreases containers.len(),
{
    if containers.len() > 0 {
        lemma_total_size_not_negative(containers.drop_last());
    }
}

/// Builds a chest-like menu backed by one or more containers, which together have
/// exactly `rows * 9` slots.
///
/// `openers` contains the viewer counters that this menu owns, as far as its block
/// entities have any.
pub fn chest_with_openers(
    container_id: u8,
    containers: Vec<ChestSection>,
    rows: usize,
    openers: Vec<Option<u64>>,
) -> (menu: ChestMenu)
    requires
        1 <= rows <= 6,
        total_size(containers@) == rows * 9,
    ensures
        menu.menu_type@ == menu_type(rows as int),
        menu.container_id == container_id,
        menu.sections@ == container_sections(containers@),
        menu.player == player_sections_after(rows * 9),
        chest_routes(menu.routes@, menu.sections@, menu.player),
        menu.kind.container_ids() == Seq::new(
            containers@.len(),
            |i: int| containers@[i].container,
        ),
        menu.kind.opener_ids() == present(openers@),
        !menu.kind.is_open(),
{
    let player = player_sections(rows * SLOTS_PER_ROW);
    let mut sections: Vec<Section> = Vec::new();
    let mut ids: Vec<u64> = Vec::new();
    let mut routes: Vec<ChestRoute> = Vec::new();
    let mut start: usize = 0;
    let mut i: usize = 0;
    assert(containers@.take(0) =~= Seq::empty());
    while i < containers.len()
        invariant
            i <= containers.len(),
            total_size(containers@) == rows * 9 <= 54,
            start == total_size(containers@.take(i as int)),
            sections@.len() == i,
            ids@.len() == i,
            routes@.len() == i,
            forall|j: int| 0 <= j < i ==> #[trigger] ids@[j] == containers@[j].container,
            forall|j: int|
                0 <= j < i ==> #[trigger] sections@[j] == container_sections(containers@)[j],
            forall|j: int|
                0 <= j < i ==> {
                    &&& (#[trigger] routes@[j]).source == sections@[j]
                    &&& routes@[j].targets@ == seq![player.all]
                    &&& routes@[j].direction == FillDirection::Backward
                },
        decreases containers.len() - i,
    {
        proof {
            lemma_total_size_grows(containers@, i + 1);
            assert(containers@.take(i + 1).drop_last() =~= containers@.take(i as int));
        }
        let end: usize = start + containers[i].size;
        let section = Section { start, end };
        sections.push(section);
        ids.push(containers[i].container);
        let mut targets: Vec<Section> = Vec::new();
        targets.push(player.all);
        assert(targets@ =~= seq![player.all]);
        routes.push(ChestRoute { source: section, targets, direction: FillDirection::Backward });
        start = end;
        i = i + 1;
    }
    let mut opener_container_ids: Vec<u64> = Vec::new();
    let mut i: usize = 0;
    assert(openers@.take(0) =~= Seq::empty());
    while i < openers.len()
        invariant
            i <= openers.len(),
            opener_container_ids@ == present(openers@.take(i as int)),
        decreases openers.len() - i,
    {
        assert(openers@.take(i + 1).drop_last() =~= openers@.take(i as int));
        if let Some(id) = openers[i] {
            opener_container_ids.push(id);
        }
        i = i + 1;
    }
    assert(openers@.take(i as int) =~= openers@);
    let targets = copy_sections(&sections);
    routes.push(ChestRoute { source: player.all, targets, direction: FillDirection::Forward });
    assert(sections@ =~= container_sections(containers@));
    let menu_type = menu_type_for_rows(rows);
    let kind = ChestKind { containers: ids, opener_container_ids, opened: false };
    assert(kind.container_ids() =~= Seq::new(
        containers@.len(),
        |i: int| containers@[i].container,
    ));
    ChestMenu { menu_type, container_id, sections, player, routes, kind }
}

fn copy_sections(sections: &Vec<Section>) -> (copy: Vec<Section>)
    ensures
        copy@ == sections@,
{
    let mut copy: Vec<Section> = Vec::new();
    let mut i: usize = 0;
    while i < sections.len()
        invariant
            i <= sections.len(),
            copy@ == sections@.take(i as int),
        decreases sections.len() - i,
    {
        copy.push(sections[i]);
        assert(copy@ =~= sections@.take(i + 1));
        i = i + 1;
    }
    assert(copy@ =~= sections@);
    copy
}

/// Menu type for a chest of `rows` rows.
pub fn menu_type_for_rows(rows: usize) -> (menu_type: Identifier)
    requires
        1 <= rows <= 6,
    ensures
        menu_type@ == self::menu_type(rows as int),
{
    if rows == 1 {
        Identifier::vanilla("generic_9x1")
    } else if rows == 2 {
        Identifier::vanilla("generic_9x2")
    } else if rows == 3 {
        Identifier::vanilla("generic_9x3")
    } else if rows == 4 {
        Identifier::vanilla("generic_9x4")
    } else if rows == 5 {
        Identifier::vanilla("generic_9x5")
    } else {
        Identifier::vanilla("generic_9x6")
    }
}

impl ChestKind {
    /// The containers behind the menu.
    pub closed spec fn container_ids(self) -> Seq<u64> {
        self.containers@
    }

    /// The viewer counters that the menu owns.
    pub closed spec fn opener_ids(self) -> Seq<u64> {
        self.opener_container_ids@
    }

    /// Whether the menu was opened and not removed since.
    pub closed spec fn is_open(self) -> bool {
        self.opened
    }

    /// Returns the viewer counters that this menu owns.
    pub fn opener_container_ids(&self) -> (ids: &Vec<u64>)
        ensures
            ids@ == self.opener_ids(),
    {
        &self.opener_container_ids
    }

    /// Opens the menu. Returns the counters that get a viewer.
    pub fn on_open(&mut self) -> (counters: Vec<u64>)
        ensures
            counters@ == old(self).opener_ids(),
            final(self).is_open(),
            final(self).container_ids() == old(self).container_ids(),
            final(self).opener_ids() == old(self).opener_ids(),
    {
        self.opened = true;
        copy_ids(&self.opener_container_ids)
    }

    /// Removes the menu. Returns the counters that lose a viewer: none where the menu
    /// is not open.
    pub fn removed(&mut self) -> (counters: Vec<u64>)
        ensures
            counters@ == if old(self).is_open() {
                old(self).opener_ids()
            } else {
                Seq::empty()
            },
            !final(self).is_open(),
            final(self).container_ids() == old(self).container_ids(),
            final(self).opener_ids() == old(self).opener_ids(),
    {
        if !self.opened {
            return Vec::new();
        }
        self.opened = false;
        copy_ids(&self.opener_container_ids)
    }

    /// Whether every backing container is still valid for the player.
    pub fn still_valid(&self, valid: &Vec<u64>) -> (all: bool)
        ensures
            all == forall|i: int|
                0 <= i < self.container_ids().len() ==> valid@.contains(
                    #[trigger] self.container_ids()[i],
                ),
    {
        let mut i: usize = 0;
        while i < self.containers.len()
            invariant
                i <= self.containers.len(),
                forall|j: int|
                    0 <= j < i ==> valid@.contains(#[trigger] self.container_ids()[j]),
            decreases self.containers.len() - i,
        {
            let id: u64 = self.containers[i];
            let mut found = false;
            let mut j: usize = 0;
            while j < valid.len()
                invariant
                    j <= valid.len(),
                    found == valid@.take(j as int).contains(id),
                decreases valid.len() - j,
            {
                assert(valid@.take(j + 1) =~= valid@.take(j as int).push(valid@[j as int]));
                if valid[j] == id {
                    assert(valid@.take(j + 1)[j as int] == id);
                    found = true;
                }
                proof {
                    if found && valid@[j as int] != id {
                        let k = valid@.take(j as int).index_of(id);
                        assert(valid@.take(j + 1)[k] == id);
                    }
                }
                j = j + 1;
            }
            assert(valid@.take(j as int) =~= valid@);
            if !found {
                assert(!valid@.contains(self.container_ids()[i as int]));
                return false;
            }
            i = i + 1;
        }
        true
    }
}

fn copy_ids(ids: &Vec<u64>) -> (copy: Vec<u64>)
    ensures
        copy@ == ids@,
{
    let mut copy: Vec<u64> = Vec::new();
    let mut i: usize = 0;
    while i < ids.len()
        invariant
            i <= ids.len(),
            copy@ == ids@.take(i as int),
        decreases ids.len() - i,
    {
        copy.push(ids[i]);
        assert(copy@ =~= ids@.take(i + 1));
        i = i + 1;
    }
    assert(copy@ =~= ids@);
    copy
}

proof fn lemma_sections_follow(containers: Seq<ChestSection>, at: int)
    requires
        0 <= at < containers.len(),
        total_size(containers) <= usize::MAX,
    ensures
        ({
            let section = container_sections(containers)[at];
            &&& section.end - section.start == containers[at].size
            &&& section.start == total_size(containers.take(at))
            &&& section.end == total_size(containers.take(at + 1))
            &&& 0 <= section.end <= total_size(containers)
        }),
{
    lemma_total_size_grows(containers, at);
    lemma_total_size_grows(containers, at + 1);
    assert(containers.take(at + 1).drop_last() =~= containers.take(at));
    assert(containers.take(at + 1).last() == containers[at]);
}

/// The containers of a menu lie one behind another, from the first slot on: each has as
/// many slots as it is long and begins where the one before it ends, and the player's
/// slots begin where the last one ends.
pub proof fn law_containers_lie_one_behind_another(containers: Seq<ChestSection>, at: int)
    requires
        0 <= at < containers.len(),
        total_size(containers) <= 54,
    ensures
        ({
            let sections = container_sections(containers);
            let player = player_sections_after(total_size(containers));
            &&& sections.len() == containers.len()
            &&& sections[at].end - sections[at].start == containers[at].size
            &&& sections[0].start == 0
            &&& at + 1 < containers.len() ==> sections[at + 1].start == sections[at].end
            &&& at + 1 == containers.len() ==> player.all.start == sections[at].end
            &&& player.main.start == player.all.start
            &&& player.main.end - player.main.start == 27
            &&& player.hotbar.start == player.main.end
            &&& player.hotbar.end - player.hotbar.start == 9
            &&& player.all.end == player.hotbar.end
        }),
{
    lemma_sections_follow(containers, at);
    lemma_sections_follow(containers, 0);
    assert(containers.take(0) =~= Seq::<ChestSection>::empty());
    if at + 1 < containers.len() {
        lemma_sections_follow(containers, at + 1);
    } else {
        assert(containers.take(at + 1) =~= containers);
    }
}

/// A shift-clicked stack leaves the side that it lies on: from a container it goes to
/// the player's slots alone, from the last one on, and from the player's slots to a
/// container.
pub proof fn law_chest_route_changes_sides(
    routes: Seq<ChestRoute>,
    containers: Seq<ChestSection>,
    at: int,
    slot: usize,
)
    requires
        total_size(containers) <= 54,
        chest_routes(
            routes,
            container_sections(containers),
            player_sections_after(total_size(containers)),
        ),
        0 <= at < routes.len(),
        routes[at].source.holds(slot),
    ensures
        ({
            let route = routes[at];
            let all = total_size(containers);
            &&& slot < all ==> {
                &&& route.direction == FillDirection::Backward
                &&& forall|i: int|
                    0 <= i < route.targets@.len() ==> (#[trigger] route.targets@[i]).start == all
                        && route.targets@[i].end == all + 36
            }
            &&& slot >= all ==> {
                &&& route.direction == FillDirection::Forward
                &&& forall|i: int|
                    0 <= i < route.targets@.len() ==> (#[trigger] route.targets@[i]).end <= all
            }
        }),
{
    let sections = container_sections(containers);
    lemma_total_size_not_negative(containers);
    if at < sections.len() {
        lemma_sections_follow(containers, at);
        assert(routes[at].source == sections[at]);
    } else {
        assert(routes[at] == routes.last());
        assert forall|i: int| 0 <= i < sections.len() implies (#[trigger] sections[i]).end
            <= total_size(containers) by {
            lemma_sections_follow(containers, i);
        }
    }
}

/// A menu owns the counters of just those block entities that have one, in their order.
pub proof fn law_every_present_counter_is_owned(openers: Seq<Option<u64>>, id: u64)
    ensures
        present(openers).contains(id) <==> openers.contains(Some(id)),
        present(openers).len() <= openers.len(),
        (forall|i: int| 0 <= i < openers.len() ==> (#[trigger] openers[i]) is Some) ==> {
            &&& present(openers).len() == openers.len()
            &&& forall|i: int|
                0 <= i < openers.len() ==> Some(#[trigger] present(openers)[i]) == openers[i]
        },
    decreases openers.len(),
{
    if openers.len() > 0 {
        let earlier = openers.drop_last();
        let before = present(earlier);
        let all = present(openers);
        law_every_present_counter_is_owned(earlier, id);
        if openers.last() is Some {
            assert(all.last() == openers.last()->Some_0);
            assert(all.drop_last() =~= before);
        }
        if all.contains(id) {
            let i = choose|i: int| 0 <= i < all.len() && all[i] == id;
            if i < before.len() {
                assert(before[i] == id);
                let k = choose|k: int| 0 <= k < earlier.len() && earlier[k] == Some(id);
                assert(openers[k] == Some(id));
            } else {
                assert(openers[openers.len() - 1] == Some(id));
            }
        }
        if openers.contains(Some(id)) {
            let k = choose|k: int| 0 <= k < openers.len() && openers[k] == Some(id);
            if k < earlier.len() {
                assert(earlier[k] == Some(id));
                let i = choose|i: int| 0 <= i < before.len() && before[i] == id;
                assert(all[i] == id);
            } else {
                assert(all[all.len() - 1] == id);
            }
        }
        if forall|i: int| 0 <= i < openers.len() ==> (#[trigger] openers[i]) is Some {
            assert forall|i: int| 0 <= i < earlier.len() implies (#[trigger] earlier[i]) is Some by {
                assert(openers[i] is Some);
            }
            assert(openers[openers.len() - 1] is Some);
            assert forall|i: int| 0 <= i < openers.len() implies Some(#[trigger] all[i])
                == openers[i] by {
                if i < earlier.len() {
                    assert(all[i] == before[i]);
                }
            }
        }
    }
}

} // verus!
