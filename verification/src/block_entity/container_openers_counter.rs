//! Viewer counting for animated block containers.
use vstd::prelude::*;

verus! {

/// How many ticks pass between two checks of the viewers.
pub const CHECK_TICK_DELAY: i32 = 5;

/// How many blocks past the viewers' reach a check looks for them.
pub const SEARCH_DISTANCE_BUFFER: i32 = 4;

/// What has to happen around a container when its viewers change, in order.
#[derive(Clone, Copy, Debug, PartialEq, Eq, Structural)]
pub enum OpenersEvent {
    /// The container's own reaction to being opened.
    Opened,
    /// The container's own reaction to being closed.
    Closed,
    /// The game event of a container that opens.
    OpenGameEvent,
    /// The game event of a container that closes.
    CloseGameEvent,
    /// Another check after some ticks.
    ScheduleRecheck { delay: i32 },
    /// The container's own reaction to a number of viewers.
    CountChanged { previous: i32, current: i32 },
}

/// What a check knows of one player.
#[derive(Clone, Copy, Debug, PartialEq, Eq, Structural)]
pub struct NearbyPlayer {
    pub is_spectator: bool,
    /// Whether the player is within the range that the check searches.
    pub within_range: bool,
    /// Whether the player's menu is one of this container.
    pub views_container: bool,
    /// How far the player reaches: a non-negative floating-point number, by its bits.
    /// The bits are ordered as the numbers are.
    pub interaction_range: u64,
}

impl NearbyPlayer {
    /// Whether the player counts as a viewer.
    pub open spec fn counts(self) -> bool {
        !self.is_spectator && self.within_range && self.views_container
    }
}

/// The number of viewers among players.
pub open spec fn viewers_among(players: Seq<NearbyPlayer>) -> int
    decreases players.len(),
{
    if players.len() == 0 {
        0
    } else {
        viewers_among(players.drop_last()) + if players.last().counts() {
            1int
        } else {
            0
        }
    }
}

/// The larger of two ranges.
pub open spec fn farther(a: u64, b: u64) -> u64 {
    if a > b {
        a
    } else {
        b
    }
}

/// How far the viewers among players reach at most.
pub open spec fn reach_among(players: Seq<NearbyPlayer>) -> u64
    decreases players.len(),
{
    if players.len() == 0 {
        0
    } else if players.last().counts() {
        farther(reach_among(players.drop_last()), players.last().interaction_range)
    } else {
        reach_among(players.drop_last())
    }
}

/// A viewer count as a mathematical value.
pub ghost struct Openers {
    pub count: i32,
    /// How far the viewers reach at most, by its bits.
    pub max_range: u64,
}

/// The events of a viewer who came.
pub open spec fn arrival_events(previous: i32) -> Seq<OpenersEvent> {
    let changed = OpenersEvent::CountChanged { previous, current: (previous + 1) as i32 };
    if previous == 0 {
        seq![
            OpenersEvent::Opened,
            OpenersEvent::OpenGameEvent,
            OpenersEvent::ScheduleRecheck { delay: CHECK_TICK_DELAY },
            changed,
        ]
    } else {
        seq![changed]
    }
}

/// The events of a viewer who left.
pub open spec fn departure_events(previous: i32) -> Seq<OpenersEvent> {
    let changed = OpenersEvent::CountChanged { previous, current: (previous - 1) as i32 };
    if previous == 1 {
        seq![OpenersEvent::Closed, OpenersEvent::CloseGameEvent, changed]
    } else {
        seq![changed]
    }
}

impl Openers {
    pub open spec fn joined(self, range: u64) -> Openers {
        Openers { count: (self.count + 1) as i32, max_range: farther(self.max_range, range) }
    }

    pub open spec fn left(self) -> Openers {
        Openers {
            count: (self.count - 1) as i32,
            max_range: if self.count == 1 {
                0
            } else {
                self.max_range
            },
        }
    }
}

/// A check that was begun: how many viewers were counted before and how many there
/// are.
#[derive(Clone, Copy, Debug, PartialEq, Eq, Structural)]
pub struct OpenersRecheck {
    pub previous: i32,
    pub current: i32,
}

impl OpenersRecheck {
    /// The events while the previous count still holds.
    pub open spec fn transition(self) -> Seq<OpenersEvent> {
        if self.previous == 0 && self.current != 0 {
            seq![OpenersEvent::Opened, OpenersEvent::OpenGameEvent]
        } else if self.previous != self.current && self.current == 0 {
            seq![OpenersEvent::Closed, OpenersEvent::CloseGameEvent]
        } else {
            Seq::empty()
        }
    }

    /// The events once the new count holds.
    pub open spec fn conclusion(self) -> Seq<OpenersEvent> {
        let changed = OpenersEvent::CountChanged { previous: self.previous, current: self.current };
        if self.current > 0 {
            seq![changed, OpenersEvent::ScheduleRecheck { delay: CHECK_TICK_DELAY }]
        } else {
            seq![changed]
        }
    }
}

/// Viewer count and periodic stale-viewer reconciliation.
#[derive(Debug)]
pub struct ContainerOpenersCounter {
    open_count: i32,
    max_interaction_range: u64,
}

impl View for ContainerOpenersCounter {
    type V = Openers;

    closed spec fn view(&self) -> Openers {
        Openers { count: self.open_count, max_range: self.max_interaction_range }
    }
}

impl Default for ContainerOpenersCounter {
    fn default() -> (counter: Self)
        ensures
            counter@ == (Openers { count: 0, max_range: 0 }),
    {
        ContainerOpenersCounter { open_count: 0, max_interaction_range: 0 }
    }
}

impl ContainerOpenersCounter {
    /// Counts a viewer who came. A container that is removed or lies in no world
    /// counts none, and a spectator does not count.
    pub fn increment(
        &mut self,
        is_removed: bool,
        has_world: bool,
        is_spectator: bool,
        interaction_range: u64,
    ) -> (events: Vec<OpenersEvent>)
        requires
            is_removed || !has_world || is_spectator || old(self)@.count < i32::MAX,
        ensures
            if is_removed || !has_world || is_spectator {
                final(self)@ == old(self)@ && events@ == Seq::<OpenersEvent>::empty()
            } else {
                final(self)@ == old(self)@.joined(interaction_range) && events@ == arrival_events(
                    old(self)@.count,
                )
            },
    {
        let mut events: Vec<OpenersEvent> = Vec::new();
        if is_removed || is_spectator || !has_world {
            return events;
        }
        let previous: i32 = self.open_count;
        self.open_count = previous + 1;
        if !(self.max_interaction_range > interaction_range) {
            self.max_interaction_range = interaction_range;
        }
        if previous == 0 {
            events.push(OpenersEvent::Opened);
            events.push(OpenersEvent::OpenGameEvent);
            events.push(OpenersEvent::ScheduleRecheck { delay: CHECK_TICK_DELAY });
        }
        events.push(OpenersEvent::CountChanged { previous, current: self.open_count });
        assert(events@ =~= arrival_events(previous));
        events
    }

    /// Counts a viewer who left.
    pub fn decrement(&mut self, is_removed: bool, has_world: bool, is_spectator: bool) -> (events:
        Vec<OpenersEvent>)
        requires
            is_removed || !has_world || is_spectator || old(self)@.count > i32::MIN,
        ensures
            if is_removed || !has_world || is_spectator {
                final(self)@ == old(self)@ && events@ == Seq::<OpenersEvent>::empty()
            } else {
                final(self)@ == old(self)@.left() && events@ == departure_events(old(self)@.count)
            },
    {
        let mut events: Vec<OpenersEvent> = Vec::new();
        if is_removed || is_spectator || !has_world {
            return events;
        }
        let previous: i32 = self.open_count;
        self.open_count = previous - 1;
        if self.open_count == 0 {
            self.max_interaction_range = 0;
            events.push(OpenersEvent::Closed);
            events.push(OpenersEvent::CloseGameEvent);
        }
        events.push(OpenersEvent::CountChanged { previous, current: self.open_count });
        assert(events@ =~= departure_events(previous));
        events
    }

    /// How far the viewers reach at most, by its bits. A check searches farther, by
    /// the buffer distance.
    pub fn search_range(&self) -> (range: u64)
        ensures
            range == self@.max_range,
    {
        self.max_interaction_range
    }

    /// Begins a check against the players near the container; none where it is removed
    /// or lies in no world. The count stays as it was until the check is finished, so
    /// that reactions to its events see the previous one.
    pub fn begin_recheck(
        &mut self,
        is_removed: bool,
        has_world: bool,
        players: &Vec<NearbyPlayer>,
    ) -> (result: (Option<OpenersRecheck>, Vec<OpenersEvent>))
        requires
            is_removed || !has_world || players@.len() <= i32::MAX,
        ensures
            if is_removed || !has_world {
                &&& final(self)@ == old(self)@
                &&& result.0 is None
                &&& result.1@ == Seq::<OpenersEvent>::empty()
            } else {
                &&& final(self)@ == (Openers { max_range: reach_among(players@), ..old(self)@ })
                &&& result.0 matches Some(recheck) && recheck.previous == old(self)@.count
                    && recheck.current == viewers_among(players@) && result.1@
                    == recheck.transition()
            },
    {
        if is_removed || !has_world {
            return (None, Vec::new());
        }
        let mut current: i32 = 0;
        let mut range: u64 = 0;
        let mut i: usize = 0;
        assert(players@.take(0) =~= Seq::empty());
        while i < players.len()
            invariant
                i <= players.len() <= i32::MAX,
                current == viewers_among(players@.take(i as int)),
                0 <= current <= i,
                range == reach_among(players@.take(i as int)),
            decreases players.len() - i,
        {
            let player = players[i];
            assert(players@.take(i + 1).drop_last() =~= players@.take(i as int));
            if !player.is_spectator && player.within_range && player.views_container {
                current = current + 1;
                if !(range > player.interaction_range) {
                    range = player.interaction_range;
                }
            }
            i = i + 1;
        }
        assert(players@.take(i as int) =~= players@);
        let recheck = OpenersRecheck { previous: self.open_count, current };
        self.max_interaction_range = range;
        let mut events: Vec<OpenersEvent> = Vec::new();
        if recheck.previous != recheck.current {
            if recheck.previous == 0 {
                events.push(OpenersEvent::Opened);
                events.push(OpenersEvent::OpenGameEvent);
            } else if recheck.current == 0 {
                events.push(OpenersEvent::Closed);
                events.push(OpenersEvent::CloseGameEvent);
            }
        }
        assert(events@ =~= recheck.transition());
        (Some(recheck), events)
    }

    /// Finishes a check: the new count holds from here on.
    pub fn finish_recheck(&mut self, recheck: OpenersRecheck) -> (events: Vec<OpenersEvent>)
        ensures
            final(self)@ == (Openers {
                count: if recheck.previous != recheck.current {
                    recheck.current
                } else {
                    old(self)@.count
                },
                ..old(self)@
            }),
            events@ == recheck.conclusion(),
    {
        if recheck.previous != recheck.current {
            self.open_count = recheck.current;
        }
        let mut events: Vec<OpenersEvent> = Vec::new();
        events.push(
            OpenersEvent::CountChanged { previous: recheck.previous, current: recheck.current },
        );
        if recheck.current > 0 {
            events.push(OpenersEvent::ScheduleRecheck { delay: CHECK_TICK_DELAY });
        }
        assert(events@ =~= recheck.conclusion());
        events
    }

    /// Returns the current viewer count.
    pub fn opener_count(&self) -> (count: i32)
        ensures
            count == self@.count,
    {
        self.open_count
    }
}

/// A viewer who comes and leaves again leaves the count as it was. The container
/// opens and closes exactly where nobody else was viewing it.
pub proof fn law_viewer_comes_and_leaves(openers: Openers, range: u64)
    requires
        0 <= openers.count < i32::MAX,
    ensures
        openers.joined(range).left().count == openers.count,
        arrival_events(openers.count).contains(OpenersEvent::Opened) <==> openers.count == 0,
        departure_events(openers.joined(range).count).contains(OpenersEvent::Closed)
            <==> openers.count == 0,
        openers.count == 0 ==> openers.joined(range).left().max_range == 0,
{
    let arrival = arrival_events(openers.count);
    let departure = departure_events(openers.joined(range).count);
    if openers.count == 0 {
        assert(arrival[0] == OpenersEvent::Opened);
        assert(departure[0] == OpenersEvent::Closed);
    }
}

/// A check that finds as many viewers as were counted opens and closes nothing.
pub proof fn law_settled_count_makes_no_transition(recheck: OpenersRecheck)
    requires
        recheck.previous == recheck.current,
    ensures
        recheck.transition() == Seq::<OpenersEvent>::empty(),
{
}

/// A container is checked again exactly as long as it has viewers.
pub proof fn law_viewed_container_is_checked_again(recheck: OpenersRecheck)
    ensures
        recheck.conclusion().contains(OpenersEvent::ScheduleRecheck { delay: CHECK_TICK_DELAY })
            <==> recheck.current > 0,
{
    if recheck.current > 0 {
        assert(recheck.conclusion()[1] == OpenersEvent::ScheduleRecheck {
            delay: CHECK_TICK_DELAY,
        });
    }
}

/// The viewers among two groups of players are those of each of them, and a player is a
/// viewer who is no spectator, is near and views the container.
pub proof fn law_viewers_add_up(first: Seq<NearbyPlayer>, second: Seq<NearbyPlayer>)
    ensures
        viewers_among(first + second) == viewers_among(first) + viewers_among(second),
        0 <= viewers_among(second) <= second.len(),
        second.len() == 1 ==> viewers_among(second) == if second[0].views_container
            && second[0].within_range && !second[0].is_spectator {
            1int
        } else {
            0
        },
    decreases second.len(),
{
    if second.len() == 0 {
        assert(first + second =~= first);
    } else {
        assert((first + second).drop_last() =~= first + second.drop_last());
        assert((first + second).last() == second.last());
        law_viewers_add_up(first, second.drop_last());
        if second.len() == 1 {
            assert(viewers_among(second.drop_last()) == 0);
        }
    }
}

/// The players are searched as far as the viewer who reaches farthest, and no farther.
pub proof fn law_search_reaches_every_viewer(players: Seq<NearbyPlayer>)
    ensures
        forall|i: int|
            0 <= i < players.len() && (#[trigger] players[i]).views_container
                && players[i].within_range && !players[i].is_spectator
                ==> players[i].interaction_range <= reach_among(players),
        reach_among(players) == 0 || exists|i: int|
            0 <= i < players.len() && (#[trigger] players[i]).interaction_range == reach_among(
                players,
            ) && players[i].counts(),
    decreases players.len(),
{
    if players.len() > 0 {
        let earlier = players.drop_last();
        law_search_reaches_every_viewer(earlier);
        assert forall|i: int|
            0 <= i < players.len() && (#[trigger] players[i]).views_container
                && players[i].within_range && !players[i].is_spectator
            implies players[i].interaction_range <= reach_among(players) by {
            if i < earlier.len() {
                assert(earlier[i] == players[i]);
            }
        }
        let reach = reach_among(players);
        if reach != 0 {
            if players.last().counts() && reach == players.last().interaction_range {
                assert(players[players.len() - 1].interaction_range == reach);
            } else {
                let i = choose|i: int|
                    0 <= i < earlier.len() && (#[trigger] earlier[i]).interaction_range
                        == reach_among(earlier) && earlier[i].counts();
                assert(players[i] == earlier[i]);
            }
        }
    }
}

/// A check opens the container just where the first viewers are found, and closes it
/// just where the last ones are gone.
pub proof fn law_check_opens_and_closes(recheck: OpenersRecheck)
    requires
        recheck.previous >= 0,
        recheck.current >= 0,
    ensures
        recheck.transition().contains(OpenersEvent::Opened) <==> recheck.previous == 0
            && recheck.current > 0,
        recheck.transition().contains(OpenersEvent::Closed) <==> recheck.previous > 0
            && recheck.current == 0,
        recheck.transition().contains(OpenersEvent::OpenGameEvent)
            <==> recheck.transition().contains(OpenersEvent::Opened),
        recheck.transition().contains(OpenersEvent::CloseGameEvent)
            <==> recheck.transition().contains(OpenersEvent::Closed),
        recheck.conclusion().contains(
            OpenersEvent::CountChanged { previous: recheck.previous, current: recheck.current },
        ),
{
    let events = recheck.transition();
    if recheck.previous == 0 && recheck.current > 0 {
        assert(events[0] == OpenersEvent::Opened);
        assert(events[1] == OpenersEvent::OpenGameEvent);
    }
    if recheck.previous > 0 && recheck.current == 0 {
        assert(events[0] == OpenersEvent::Closed);
        assert(events[1] == OpenersEvent::CloseGameEvent);
    }
    assert(recheck.conclusion()[0] == OpenersEvent::CountChanged {
        previous: recheck.previous,
        current: recheck.current,
    });
}

/// A viewer who comes makes the search reach at least as far as they do, and never less
/// far than before; only the last one who leaves ends it.
pub proof fn law_viewers_extend_the_search(openers: Openers, range: u64)
    requires
        0 < openers.count < i32::MAX,
    ensures
        openers.joined(range).count == openers.count + 1,
        openers.joined(range).max_range >= range,
        openers.joined(range).max_range >= openers.max_range,
        openers.joined(range).max_range == range || openers.joined(range).max_range
            == openers.max_range,
        openers.left().count == openers.count - 1,
        openers.count > 1 ==> openers.left().max_range == openers.max_range,
{
}

} // verus!
