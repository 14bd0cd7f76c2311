//! The search for the nearest generated structure.
use rustc_hash::FxHashSet;

use vstd::prelude::*;

use crate::hashing::fx_hasher;
use crate::ident::{Id, Identifier};
use crate::loot_table::conditions::BlockPos;
use crate::map::terrain::ChunkPos;

verus! {

/// A chunk in which a structure may have been generated.
#[derive(Debug, Clone, Copy, PartialEq, Eq, Structural)]
pub struct StructureLocateCandidate {
    pub chunk_pos: ChunkPos,
    pub locate_pos: BlockPos,
    /// The scan that the candidate belongs to: one structure is wanted from each.
    pub scan_id: u64,
    /// The square of the distance from the origin of the search.
    pub distance_sqr: i64,
}

/// A located generated structure, as a mathematical value.
pub ghost struct Located {
    pub pos: BlockPos,
    pub structure: Id,
    pub distance_sqr: i64,
}

/// A located generated structure.
#[derive(Debug)]
pub struct LocatedStructure {
    pub pos: BlockPos,
    pub structure: Identifier,
    pub distance_sqr: i64,
}

impl View for LocatedStructure {
    type V = Located;

    open spec fn view(&self) -> Located {
        Located { pos: self.pos, structure: self.structure@, distance_sqr: self.distance_sqr }
    }
}

/// The nearer of the best structure so far and another one; the earlier one where both
/// are equally near.
pub open spec fn nearer(best: Option<Located>, found: Located) -> Option<Located> {
    match best {
        Some(known) => if found.distance_sqr < known.distance_sqr {
            Some(found)
        } else {
            best
        },
        None => Some(found),
    }
}

/// The nearest of structures that were found one after the other.
pub open spec fn nearest(best: Option<Located>, found: Seq<Located>) -> Option<Located>
    decreases found.len(),
{
    if found.len() == 0 {
        best
    } else {
        nearer(nearest(best, found.drop_last()), found.last())
    }
}

/// No structure that was found is nearer than the one that is kept, and that one was
/// found.
pub proof fn law_nearest_structure_is_kept(best: Option<Located>, found: Seq<Located>)
    ensures
        nearest(best, found) is None <==> best is None && found.len() == 0,
        nearest(best, found) matches Some(kept) ==> {
            &&& best == Some(kept) || found.contains(kept)
            &&& best matches Some(known) ==> kept.distance_sqr <= known.distance_sqr
            &&& forall|i: int|
                0 <= i < found.len() ==> kept.distance_sqr <= (#[trigger] found[i]).distance_sqr
        },
    decreases found.len(),
{
    if found.len() > 0 {
        let before = found.drop_last();
        law_nearest_structure_is_kept(best, before);
        let kept = nearest(best, found)->Some_0;
        if let Some(known) = nearest(best, before) {
            if before.contains(known) {
                let i = choose|i: int| 0 <= i < before.len() && before[i] == known;
                assert(found[i] == known);
            }
        }
        assert(found[found.len() - 1] == found.last());
        assert forall|i: int| 0 <= i < found.len() implies kept.distance_sqr <= (
        #[trigger] found[i]).distance_sqr by {
            if i < before.len() {
                assert(before[i] == found[i]);
            }
        }
    }
}

#[derive(Debug, Clone, Copy, PartialEq, Eq, Structural)]
pub enum LocatePhase {
    Start,
    WaitingRings,
    RandomSpread,
    WaitingRandomSpread,
}

/// What a search waits for.
#[derive(Debug)]
pub enum LocateStep {
    /// The candidates on rings around the origin.
    Rings,
    /// The candidates at a radius.
    Spread { radius: i32 },
    /// The chunks of the candidates.
    Wait,
    /// Nothing: the search has ended.
    Ready(Option<LocatedStructure>),
}

/// A search as a mathematical value.
#[verifier::ext_equal]
pub ghost struct Search {
    pub max_radius: i32,
    pub has_random_spread: bool,
    pub phase: LocatePhase,
    pub candidates: Seq<StructureLocateCandidate>,
    /// The place of the candidate that is inspected.
    pub cursor: nat,
    /// The scans from which a structure was found.
    pub found_scans: Set<u64>,
    /// The scan of the candidate that was inspected last, and whether a structure was
    /// found from it.
    pub current: Option<(u64, bool)>,
    pub found_any: bool,
    pub best: Option<Located>,
    pub radius: i32,
}

/// A search that has not begun.
pub open spec fn new_search(max_radius: i32, has_random_spread: bool) -> Search {
    Search {
        max_radius,
        has_random_spread,
        phase: LocatePhase::Start,
        candidates: Seq::empty(),
        cursor: 0,
        found_scans: Set::empty(),
        current: None,
        found_any: false,
        best: None,
        radius: 0,
    }
}

/// The search for the nearest generated structure: first among the candidates on
/// rings around the origin, and then at growing radii.
#[derive(Debug)]
pub struct StructureLocator {
    max_random_radius: i32,
    has_random_spread: bool,
    phase: LocatePhase,
    candidates: Vec<StructureLocateCandidate>,
    cursor: usize,
    found_scans: FxHashSet<u64>,
    current: Option<(u64, bool)>,
    found_any: bool,
    best: Option<LocatedStructure>,
    random_radius: i32,
}

impl View for StructureLocator {
    type V = Search;

    closed spec fn view(&self) -> Search {
        Search {
            max_radius: self.max_random_radius,
            has_random_spread: self.has_random_spread,
            phase: self.phase,
            candidates: self.candidates@,
            cursor: self.cursor as nat,
            found_scans: self.found_scans@,
            current: self.current,
            found_any: self.found_any,
            best: match self.best {
                Some(best) => Some(best@),
                None => None,
            },
            radius: self.random_radius,
        }
    }
}

impl Search {
    /// The radius does not run out, and the cursor stays among the candidates.
    pub open spec fn sound(self) -> bool {
        &&& self.radius <= i32::MAX - 1 || self.radius > self.max_radius
        &&& self.max_radius < i32::MAX
        &&& self.cursor <= self.candidates.len()
    }

    /// A candidate is not inspected: a structure was found from its scan already. Among
    /// the candidates at a radius those of one scan follow each other.
    pub open spec fn skips(self, candidate: StructureLocateCandidate) -> bool {
        if self.phase == LocatePhase::WaitingRings {
            self.found_scans.contains(candidate.scan_id)
        } else {
            self.current == Some((candidate.scan_id, true))
        }
    }

    /// The place of the next candidate to be inspected, or the number of candidates.
    pub open spec fn next_place(self, from: nat) -> nat
        decreases self.candidates.len() - from,
    {
        if from >= self.candidates.len() {
            self.candidates.len()
        } else if self.skips(self.candidates[from as int]) {
            self.next_place(from + 1)
        } else {
            from
        }
    }

    /// The search with new candidates, whose chunks it waits for.
    pub open spec fn waiting_for(self, candidates: Seq<StructureLocateCandidate>) -> Search {
        Search {
            phase: if self.phase == LocatePhase::Start {
                LocatePhase::WaitingRings
            } else {
                LocatePhase::WaitingRandomSpread
            },
            candidates,
            cursor: 0,
            found_scans: Set::empty(),
            current: None,
            found_any: false,
            ..self
        }
    }

    /// The search with the inspection of its candidates still to be made.
    pub open spec fn rewound(self) -> Search {
        Search {
            cursor: 0,
            found_scans: Set::empty(),
            current: None,
            found_any: false,
            ..self
        }
    }

    /// The search without candidates.
    pub open spec fn cleared(self) -> Search {
        Search { candidates: Seq::empty(), cursor: 0, ..self }
    }

    /// The search at the next candidate to be inspected.
    pub open spec fn at_next(self) -> Search {
        Search { cursor: self.next_place(self.cursor), ..self }
    }

    /// The search after its candidate was inspected.
    pub open spec fn inspected(self, structure: Option<Id>) -> Search {
        let candidate = self.candidates[self.cursor as int];
        let moved = Search {
            cursor: self.cursor + 1,
            current: Some((candidate.scan_id, structure is Some)),
            ..self
        };
        match structure {
            Some(structure) => Search {
                found_scans: moved.found_scans.insert(candidate.scan_id),
                found_any: true,
                best: nearer(
                    moved.best,
                    Located {
                        pos: candidate.locate_pos,
                        structure,
                        distance_sqr: candidate.distance_sqr,
                    },
                ),
                ..moved
            },
            None => moved,
        }
    }

    /// The search after candidates were inspected one after the other, at the next one.
    pub open spec fn after_inspecting(self, found: Seq<Option<Id>>) -> Search
        decreases found.len(),
    {
        if found.len() == 0 {
            self.at_next()
        } else {
            self.after_inspecting(found.drop_last()).inspected(found.last()).at_next()
        }
    }

    /// All candidates are inspected or left out.
    pub open spec fn is_exhausted(self) -> bool {
        self.cursor == self.candidates.len()
    }

    /// What the search has ended with, where it ends with these candidates.
    pub open spec fn ending(self) -> Option<Option<Located>> {
        let ends = if self.phase == LocatePhase::WaitingRings {
            self.best is Some && !self.has_random_spread
        } else {
            self.found_any
        };
        if ends {
            Some(self.best)
        } else {
            None
        }
    }

    /// The search after it has ended with its candidates. Those on rings are dropped;
    /// those at a radius stay, so that a further poll inspects them anew.
    pub open spec fn ended(self) -> Search {
        let left = Search { best: None, ..self };
        if self.phase == LocatePhase::WaitingRings {
            left.cleared()
        } else {
            left.rewound()
        }
    }

    /// The state of the chunks that the search waits for: without candidates none are
    /// requested, which counts as cancelled.
    pub open spec fn request_state(self, chunks: ChunkRequestState) -> ChunkRequestState {
        if self.candidates.len() == 0 {
            ChunkRequestState::Cancelled
        } else {
            chunks
        }
    }

    /// The search as it goes on at growing radii.
    pub open spec fn spreading(self) -> Search {
        (Search { phase: LocatePhase::RandomSpread, ..self }).cleared()
    }
}

impl StructureLocator {
    pub fn new(max_random_radius: i32, has_random_spread: bool) -> (locator: Self)
        requires
            max_random_radius < i32::MAX,
        ensures
            locator@ == new_search(max_random_radius, has_random_spread),
            locator@.sound(),
    {
        StructureLocator {
            max_random_radius,
            has_random_spread,
            phase: LocatePhase::Start,
            candidates: Vec::new(),
            cursor: 0,
            found_scans: FxHashSet::default(),
            current: None,
            found_any: false,
            best: None,
            random_radius: 0,
        }
    }

    /// What the search waits for next.
    pub fn next_step(&mut self) -> (step: LocateStep)
        requires
            old(self)@.sound(),
        ensures
            final(self)@.sound(),
            match old(self)@.phase {
                LocatePhase::Start => step is Rings && final(self)@ == old(self)@,
                LocatePhase::RandomSpread => if old(self)@.radius > old(self)@.max_radius {
                    &&& step matches LocateStep::Ready(best) && (match best {
                        Some(best) => old(self)@.best == Some(best@),
                        None => old(self)@.best is None,
                    })
                    &&& final(self)@ == (Search { best: None, ..old(self)@ })
                } else {
                    &&& step matches LocateStep::Spread { radius } && radius == old(self)@.radius
                    &&& final(self)@ == (Search {
                        radius: (old(self)@.radius + 1) as i32,
                        ..old(self)@
                    })
                },
                _ => step is Wait && final(self)@ == old(self)@,
            },
    {
        match self.phase {
            LocatePhase::Start => LocateStep::Rings,
            LocatePhase::RandomSpread => {
                if self.random_radius > self.max_random_radius {
                    return LocateStep::Ready(self.best.take());
                }
                let radius: i32 = self.random_radius;
                self.random_radius = self.random_radius + 1;
                LocateStep::Spread { radius }
            },
            LocatePhase::WaitingRings => LocateStep::Wait,
            LocatePhase::WaitingRandomSpread => LocateStep::Wait,
        }
    }

    /// Takes in candidates, and tells which chunks have to be requested; none where
    /// there are no candidates, so that the search goes on.
    pub fn candidates_found(&mut self, candidates: Vec<StructureLocateCandidate>) -> (positions:
        Option<Vec<ChunkPos>>)
        requires
            old(self)@.sound(),
            old(self)@.phase == LocatePhase::Start || old(self)@.phase == LocatePhase::RandomSpread,
        ensures
            final(self)@.sound(),
            if candidates@.len() == 0 {
                &&& positions is None
                &&& final(self)@ == (Search { phase: LocatePhase::RandomSpread, ..old(self)@ }).cleared()
            } else {
                &&& positions matches Some(positions) && positions@ == chunks_of(candidates@)
                &&& final(self)@ == old(self)@.waiting_for(candidates@)
            },
    {
        let ghost before = self@;
        if candidates.len() == 0 {
            self.phase = LocatePhase::RandomSpread;
            self.candidates = candidates;
            self.cursor = 0;
            assert(self@ =~= (Search { phase: LocatePhase::RandomSpread, ..before }).cleared());
            return None;
        }
        let mut positions: Vec<ChunkPos> = Vec::new();
        let mut i: usize = 0;
        while i < candidates.len()
            invariant
                i <= candidates@.len(),
                positions@.len() == i,
                forall|j: int| 0 <= j < i ==> #[trigger] positions@[j] == candidates@[j].chunk_pos,
            decreases candidates@.len() - i,
        {
            positions.push(candidates[i].chunk_pos);
            i = i + 1;
        }
        assert(positions@ =~= chunks_of(candidates@));
        self.phase = match self.phase {
            LocatePhase::Start => LocatePhase::WaitingRings,
            _ => LocatePhase::WaitingRandomSpread,
        };
        self.candidates = candidates;
        self.cursor = 0;
        self.found_scans = FxHashSet::default();
        self.current = None;
        self.found_any = false;
        Some(positions)
    }

    /// The next candidate to be inspected; none where all have been.
    pub fn next_candidate(&mut self) -> (candidate: Option<StructureLocateCandidate>)
        requires
            old(self)@.sound(),
        ensures
            final(self)@.sound(),
            final(self)@ == (Search {
                cursor: old(self)@.next_place(old(self)@.cursor),
                ..old(self)@
            }),
            match candidate {
                Some(candidate) => final(self)@.cursor < final(self)@.candidates.len() && candidate
                    == final(self)@.candidates[final(self)@.cursor as int],
                None => final(self)@.cursor == final(self)@.candidates.len(),
            },
    {
        let _hasher = fx_hasher();
        let ghost before = self@;
        while self.cursor < self.candidates.len()
            invariant
                self@ == (Search { cursor: self@.cursor, ..before }),
                self@.sound(),
                crate::hashing::sound(_hasher),
                before.next_place(before.cursor) == before.next_place(self@.cursor),
                before == old(self)@,
            decreases self.candidates@.len() - self.cursor,
        {
            let candidate = self.candidates[self.cursor];
            let skipped = match self.phase {
                LocatePhase::WaitingRings => self.found_scans.contains(&candidate.scan_id),
                _ => match self.current {
                    Some((scan, found)) => scan == candidate.scan_id && found,
                    None => false,
                },
            };
            assert(skipped == before.skips(candidate));
            if !skipped {
                return Some(candidate);
            }
            self.cursor = self.cursor + 1;
        }
        None
    }

    /// Takes in what was found of the candidate that is inspected.
    pub fn candidate_inspected(&mut self, structure: Option<Identifier>)
        requires
            old(self)@.sound(),
            old(self)@.cursor < old(self)@.candidates.len(),
        ensures
            final(self)@.sound(),
            final(self)@ == old(self)@.inspected(
                match structure {
                    Some(structure) => Some(structure@),
                    None => None,
                },
            ),
    {
        let _hasher = fx_hasher();
        let candidate = self.candidates[self.cursor];
        assert(self.cursor < self.candidates.len());
        self.cursor = self.cursor + 1;
        self.current = Some((candidate.scan_id, structure.is_some()));
        if let Some(structure) = structure {
            self.found_scans.insert(candidate.scan_id);
            self.found_any = true;
            let better = match &self.best {
                Some(best) => candidate.distance_sqr < best.distance_sqr,
                None => true,
            };
            if better {
                self.best = Some(
                    LocatedStructure {
                        pos: candidate.locate_pos,
                        structure,
                        distance_sqr: candidate.distance_sqr,
                    },
                );
            }
        }
    }

    /// Ends the inspection of the candidates. The search has ended where a structure
    /// was found at a radius, or on a ring and there are no radii to search.
    pub fn finish_candidates(&mut self) -> (ended: Option<Option<LocatedStructure>>)
        requires
            old(self)@.sound(),
        ensures
            final(self)@.sound(),
            match old(self)@.ending() {
                Some(expected) => {
                    &&& ended matches Some(best) && (match best {
                        Some(best) => expected == Some(best@),
                        None => expected is None,
                    })
                    &&& final(self)@ == old(self)@.ended()
                },
                None => ended is None && final(self)@ == old(self)@.spreading(),
            },
    {
        let ghost before = self@;
        match self.phase {
            LocatePhase::WaitingRings => {
                if self.best.is_some() && !self.has_random_spread {
                    let best = self.best.take();
                    self.candidates = Vec::new();
                    self.cursor = 0;
                    assert(self@ =~= before.ended());
                    return Some(best);
                }
            },
            _ => {
                if self.found_any {
                    let best = self.best.take();
                    self.cursor = 0;
                    self.found_scans = FxHashSet::default();
                    self.current = None;
                    self.found_any = false;
                    assert(self@ =~= before.ended());
                    return Some(best);
                }
            },
        }
        self.candidates = Vec::new();
        self.cursor = 0;
        self.phase = LocatePhase::RandomSpread;
        assert(self@ =~= (Search { phase: LocatePhase::RandomSpread, ..before }).cleared());
        None
    }
}

/// The state of the chunks that a search waits for.
#[derive(Debug, Clone, Copy, PartialEq, Eq, Structural)]
pub enum ChunkRequestState {
    Pending,
    Ready,
    Cancelled,
}

/// Result of polling a structure location search.
#[derive(Debug)]
pub enum StructureLocatePoll {
    /// Chunks are awaited; those that are given have to be requested first.
    Pending { request: Option<Vec<ChunkPos>> },
    Ready(Option<LocatedStructure>),
    Cancelled,
}

/// Result of polling a search, as a mathematical value.
pub ghost enum Polled {
    Pending { request: Option<Seq<ChunkPos>> },
    Ready(Option<Located>),
    Cancelled,
}

impl View for StructureLocatePoll {
    type V = Polled;

    open spec fn view(&self) -> Polled {
        match self {
            StructureLocatePoll::Pending { request } => Polled::Pending {
                request: match request {
                    Some(positions) => Some(positions@),
                    None => None,
                },
            },
            StructureLocatePoll::Ready(found) => Polled::Ready(
                match found {
                    Some(found) => Some(found@),
                    None => None,
                },
            ),
            StructureLocatePoll::Cancelled => Polled::Cancelled,
        }
    }
}

/// The same radius always has the same candidates.
pub open spec fn consistent<S: Fn(i32) -> Vec<StructureLocateCandidate>>(spread: S) -> bool {
    &&& forall|radius: i32| #[trigger] spread.requires((radius,))
    &&& forall|
        radius: i32,
        a: Vec<StructureLocateCandidate>,
        b: Vec<StructureLocateCandidate>,
    | #[trigger]
        spread.ensures((radius,), a) && #[trigger] spread.ensures((radius,), b) ==> a@ == b@
}

/// The candidates at a radius.
pub open spec fn candidates_at<S: Fn(i32) -> Vec<StructureLocateCandidate>>(
    spread: S,
    radius: i32,
) -> Seq<StructureLocateCandidate> {
    (choose|candidates: Vec<StructureLocateCandidate>| spread.ensures((radius,), candidates))@
}

/// What was found of each of several candidates.
pub open spec fn found_ids(found: Seq<Option<Identifier>>) -> Seq<Option<Id>> {
    Seq::new(
        found.len(),
        |i: int|
            match found[i] {
                Some(structure) => Some(structure@),
                None => None,
            },
    )
}

impl Search {
    /// The search after the radii up to the first with candidates, or up to the last.
    pub open spec fn spread_out<S: Fn(i32) -> Vec<StructureLocateCandidate>>(self, spread: S) -> (
        Search,
        Polled,
    )
        decreases self.max_radius - self.radius + 1,
            when self.max_radius < i32::MAX
    {
        if self.radius > self.max_radius {
            (Search { best: None, ..self }, Polled::Ready(self.best))
        } else {
            let candidates = candidates_at(spread, self.radius);
            let wider = Search { radius: (self.radius + 1) as i32, ..self };
            if candidates.len() == 0 {
                wider.spreading().spread_out(spread)
            } else {
                (
                    wider.waiting_for(candidates),
                    Polled::Pending { request: Some(chunks_of(candidates)) },
                )
            }
        }
    }

    /// The search after a poll. `rings` are the candidates on rings, `found` is what was
    /// found of the candidates whose chunks are there.
    pub open spec fn polled<S: Fn(i32) -> Vec<StructureLocateCandidate>>(
        self,
        chunks: ChunkRequestState,
        rings: Seq<StructureLocateCandidate>,
        spread: S,
        found: Seq<Option<Id>>,
    ) -> (Search, Polled) {
        match self.phase {
            LocatePhase::Start => if rings.len() == 0 {
                self.spreading().spread_out(spread)
            } else {
                (
                    self.waiting_for(rings),
                    Polled::Pending { request: Some(chunks_of(rings)) },
                )
            },
            LocatePhase::RandomSpread => self.spread_out(spread),
            _ => match self.request_state(chunks) {
                ChunkRequestState::Pending => (self, Polled::Pending { request: None }),
                ChunkRequestState::Cancelled => (self, Polled::Cancelled),
                ChunkRequestState::Ready => {
                    let after = self.after_inspecting(found);
                    match after.ending() {
                        Some(best) => (after.ended(), Polled::Ready(best)),
                        None => after.spreading().spread_out(spread),
                    }
                },
            },
        }
    }
}

/// One of the inspections of a search: that of the candidate whose turn it is.
pub open spec fn in_turn<I: Fn(&StructureLocateCandidate) -> Option<Identifier>>(
    inspect: I,
    search: Search,
    found: Seq<Option<Identifier>>,
    i: int,
) -> bool {
    let before = search.after_inspecting(found_ids(found.take(i)));
    &&& !before.is_exhausted()
    &&& inspect.ensures((&before.candidates[before.cursor as int],), found[i])
}

/// The inspections of a search: each candidate in its turn, until all are exhausted.
pub open spec fn inspects<I: Fn(&StructureLocateCandidate) -> Option<Identifier>>(
    inspect: I,
    search: Search,
    found: Seq<Option<Identifier>>,
) -> bool {
    &&& forall|i: int| 0 <= i < found.len() ==> #[trigger] in_turn(inspect, search, found, i)
    &&& search.after_inspecting(found_ids(found)).is_exhausted()
}

/// One more inspection leaves the turns of those before as they are.
proof fn lemma_another_turn<I: Fn(&StructureLocateCandidate) -> Option<Identifier>>(
    inspect: I,
    search: Search,
    found: Seq<Option<Identifier>>,
    structure: Option<Identifier>,
)
    requires
        forall|i: int| 0 <= i < found.len() ==> #[trigger] in_turn(inspect, search, found, i),
        !search.after_inspecting(found_ids(found)).is_exhausted(),
        ({
            let now = search.after_inspecting(found_ids(found));
            inspect.ensures((&now.candidates[now.cursor as int],), structure)
        }),
    ensures
        forall|i: int|
            0 <= i <= found.len() ==> #[trigger] in_turn(inspect, search, found.push(structure), i),
        found_ids(found.push(structure)).drop_last() == found_ids(found),
{
    let more = found.push(structure);
    assert(found_ids(more).drop_last() =~= found_ids(found));
    assert forall|i: int| 0 <= i <= found.len() implies #[trigger] in_turn(
        inspect,
        search,
        more,
        i,
    ) by {
        assert(more.take(i) =~= found.take(i));
        if i < found.len() {
            assert(in_turn(inspect, search, found, i));
        } else {
            assert(found.take(i) =~= found);
        }
    }
}

impl StructureLocator {
    /// Inspects the candidates.
    fn inspect_all<I: Fn(&StructureLocateCandidate) -> Option<Identifier>>(
        &mut self,
        inspect: &I,
    ) -> (found: Ghost<Seq<Option<Identifier>>>)
        requires
            old(self)@.sound(),
            forall|candidate: &StructureLocateCandidate| #[trigger] inspect.requires((candidate,)),
        ensures
            final(self)@.sound(),
            inspects(*inspect, old(self)@, found@),
            final(self)@ == old(self)@.after_inspecting(found_ids(found@)),
    {
        let ghost before = self@;
        let ghost mut found: Seq<Option<Identifier>> = Seq::empty();
        let mut next = self.next_candidate();
        assert(found_ids(found) =~= Seq::empty());
        while next.is_some()
            invariant
                self@.sound(),
                forall|candidate: &StructureLocateCandidate| #[trigger]
                    inspect.requires((candidate,)),
                self@ == before.after_inspecting(found_ids(found)),
                match next {
                    Some(candidate) => !self@.is_exhausted() && candidate
                        == self@.candidates[self@.cursor as int],
                    None => self@.is_exhausted(),
                },
                forall|i: int|
                    0 <= i < found.len() ==> #[trigger] in_turn(*inspect, before, found, i),
            decreases self@.candidates.len() - self@.cursor,
        {
            if let Some(candidate) = next {
                let ghost now = self@;
                let structure = inspect(&candidate);
                let ghost more = found.push(structure);
                proof {
                    lemma_another_turn(*inspect, before, found, structure);
                }
                self.candidate_inspected(structure);
                let ghost moved = self@;
                assert(moved == now.inspected(found_ids(more).last()));
                next = self.next_candidate();
                proof {
                    lemma_next_place(moved, moved.cursor);
                    found = more;
                }
            }
        }
        Ghost(found)
    }

    /// Goes on at growing radii, up to the first with candidates.
    fn spread<S: Fn(i32) -> Vec<StructureLocateCandidate>>(&mut self, spread: &S) -> (poll:
        StructureLocatePoll)
        requires
            old(self)@.sound(),
            old(self)@.phase == LocatePhase::RandomSpread,
            consistent(*spread),
        ensures
            final(self)@.sound(),
            (final(self)@, poll@) == old(self)@.spread_out(*spread),
    {
        loop
            invariant
                self@.sound(),
                self@.phase == LocatePhase::RandomSpread,
                consistent(*spread),
                self@.spread_out(*spread) == old(self)@.spread_out(*spread),
            decreases self@.max_radius - self@.radius + 1,
        {
            let ghost now = self@;
            match self.next_step() {
                LocateStep::Spread { radius } => {
                    let candidates = spread(radius);
                    assert(candidates@ == candidates_at(*spread, radius));
                    if let Some(positions) = self.candidates_found(candidates) {
                        return StructureLocatePoll::Pending { request: Some(positions) };
                    }
                },
                LocateStep::Ready(found) => {
                    return StructureLocatePoll::Ready(found);
                },
                _ => {
                    return StructureLocatePoll::Cancelled;
                },
            }
        }
    }

    /// The state of the chunks that the search waits for.
    fn awaited_state(&self, chunks: ChunkRequestState) -> (state: ChunkRequestState)
        ensures
            state == self@.request_state(chunks),
    {
        if self.candidates.len() == 0 {
            ChunkRequestState::Cancelled
        } else {
            chunks
        }
    }

    /// Goes on with the search as far as it gets without other chunks. `chunks` is the
    /// state of those that were requested last, `rings` and
    /// `spread` are the candidates on rings and at a radius, `inspect` tells which
    /// structure was generated at a candidate. A search that has ended at a radius still
    /// waits for the same chunks: a further poll inspects its candidates anew.
    pub fn poll<
        R: FnOnce() -> Vec<StructureLocateCandidate>,
        S: Fn(i32) -> Vec<StructureLocateCandidate>,
        I: Fn(&StructureLocateCandidate) -> Option<Identifier>,
    >(&mut self, chunks: ChunkRequestState, rings: R, spread: &S, inspect: &I) -> (poll:
        StructureLocatePoll)
        requires
            old(self)@.sound(),
            old(self)@.phase == LocatePhase::Start ==> rings.requires(()),
            consistent(*spread),
            forall|candidate: &StructureLocateCandidate| #[trigger] inspect.requires((candidate,)),
        ensures
            final(self)@.sound(),
            exists|listed: Seq<StructureLocateCandidate>, found: Seq<Option<Identifier>>|
                {
                    &&& old(self)@.phase == LocatePhase::Start ==> exists|
                        answer: Vec<StructureLocateCandidate>,
                    | #[trigger] rings.ensures((), answer) && answer@ == listed
                    &&& old(self)@.phase != LocatePhase::Start && old(self)@.phase
                        != LocatePhase::RandomSpread && old(self)@.request_state(chunks)
                        == ChunkRequestState::Ready
                        ==> inspects(*inspect, old(self)@, found)
                    &&& (final(self)@, poll@) == #[trigger] old(self)@.polled(
                        chunks,
                        listed,
                        *spread,
                        found_ids(found),
                    )
                },
    {
        let ghost before = self@;
        let ghost mut listed: Seq<StructureLocateCandidate> = Seq::empty();
        let ghost mut seen: Seq<Option<Identifier>> = Seq::empty();
        let poll = match self.phase {
            LocatePhase::Start => {
                let candidates = rings();
                proof {
                    listed = candidates@;
                    assert(rings.ensures((), candidates));
                }
                match self.candidates_found(candidates) {
                    Some(positions) => StructureLocatePoll::Pending { request: Some(positions) },
                    None => self.spread(spread),
                }
            },
            LocatePhase::RandomSpread => self.spread(spread),
            _ => match self.awaited_state(chunks) {
                ChunkRequestState::Pending => StructureLocatePoll::Pending { request: None },
                ChunkRequestState::Cancelled => StructureLocatePoll::Cancelled,
                ChunkRequestState::Ready => {
                    let found = self.inspect_all(inspect);
                    proof {
                        seen = found@;
                    }
                    match self.finish_candidates() {
                        Some(best) => StructureLocatePoll::Ready(best),
                        None => self.spread(spread),
                    }
                },
            },
        };
        assert((self@, poll@) == before.polled(chunks, listed, *spread, found_ids(seen)));
        poll
    }
}

/// Inspections change nothing but what was found and where the search stands.
proof fn lemma_inspections_keep_candidates(search: Search, found: Seq<Option<Id>>)
    ensures
        ({
            let after = search.after_inspecting(found);
            after == (Search {
                cursor: after.cursor,
                found_scans: after.found_scans,
                current: after.current,
                found_any: after.found_any,
                best: after.best,
                ..search
            })
        }),
    decreases found.len(),
{
    if found.len() > 0 {
        lemma_inspections_keep_candidates(search, found.drop_last());
    }
}

/// A search that has ended at a radius, with nothing known before it, stands where it
/// stood when the chunks of that radius were requested: a further poll inspects the
/// same candidates.
pub proof fn law_ended_search_can_be_repeated(search: Search, found: Seq<Option<Id>>)
    requires
        search.phase == LocatePhase::WaitingRandomSpread,
        search == search.rewound(),
        search.best is None,
        search.after_inspecting(found).ending() is Some,
    ensures
        search.after_inspecting(found).ended() == search,
{
    lemma_inspections_keep_candidates(search, found);
    assert(search.after_inspecting(found).ended() =~= search);
}

/// The structures that were found one after the other.
pub open spec fn found_structures(search: Search, found: Seq<Option<Id>>) -> Seq<Located>
    decreases found.len(),
{
    if found.len() == 0 {
        Seq::empty()
    } else {
        let earlier = found_structures(search, found.drop_last());
        let then = search.after_inspecting(found.drop_last());
        let candidate = then.candidates[then.cursor as int];
        match found.last() {
            Some(structure) => earlier.push(
                Located {
                    pos: candidate.locate_pos,
                    structure,
                    distance_sqr: candidate.distance_sqr,
                },
            ),
            None => earlier,
        }
    }
}

/// After all inspections a search keeps the nearest of the structures that it knew and
/// those that were found: none of them is nearer.
pub proof fn law_inspections_keep_the_nearest_structure(search: Search, found: Seq<Option<Id>>)
    ensures
        ({
            let structures = found_structures(search, found);
            let kept = search.after_inspecting(found).best;
            &&& kept == nearest(search.best, structures)
            &&& kept is None <==> search.best is None && structures.len() == 0
            &&& forall|i: int|
                0 <= i < structures.len() ==> kept->Some_0.distance_sqr <= (
                #[trigger] structures[i]).distance_sqr
            &&& search.best matches Some(known) ==> kept->Some_0.distance_sqr <= known.distance_sqr
        }),
    decreases found.len(),
{
    let structures = found_structures(search, found);
    if found.len() > 0 {
        law_inspections_keep_the_nearest_structure(search, found.drop_last());
        if found.last() is Some {
            assert(structures.drop_last() =~= found_structures(search, found.drop_last()));
        }
    }
    law_nearest_structure_is_kept(search.best, structures);
}

/// The next candidate is not before the one that is looked at.
proof fn lemma_next_place(search: Search, from: nat)
    requires
        from <= search.candidates.len(),
    ensures
        from <= search.next_place(from) <= search.candidates.len(),
    decreases search.candidates.len() - from,
{
    if from < search.candidates.len() && search.skips(search.candidates[from as int]) {
        lemma_next_place(search, from + 1);
    }
}

/// The chunks of candidates.
pub open spec fn chunks_of(candidates: Seq<StructureLocateCandidate>) -> Seq<ChunkPos> {
    Seq::new(candidates.len(), |i: int| candidates[i].chunk_pos)
}

/// The beginning of a structure in a chunk.
#[derive(Debug)]
pub struct StructureStart {
    pub structure: Identifier,
    pub has_pieces: bool,
    /// How often the structure was located for good.
    pub references: i32,
}

/// The beginning of a structure as a mathematical value.
pub ghost struct Start {
    pub structure: Id,
    pub has_pieces: bool,
    pub references: i32,
}

impl View for StructureStart {
    type V = Start;

    open spec fn view(&self) -> Start {
        Start {
            structure: self.structure@,
            has_pieces: self.has_pieces,
            references: self.references,
        }
    }
}

pub open spec fn starts_of(starts: Seq<StructureStart>) -> Seq<Start> {
    Seq::new(starts.len(), |i: int| starts[i]@)
}

/// The place of the first beginning of a structure, or their number.
pub open spec fn start_place(starts: Seq<Start>, structure: Id) -> int
    decreases starts.len(),
{
    if starts.len() == 0 || starts[0].structure == structure {
        0
    } else {
        1 + start_place(starts.drop_first(), structure)
    }
}

/// A structure can be located in a chunk: it has pieces there, and was not located
/// before where it is located for good.
pub open spec fn locatable(starts: Seq<Start>, structure: Id, for_good: bool) -> bool {
    let place = start_place(starts, structure);
    &&& 0 <= place < starts.len()
    &&& starts[place].has_pieces
    &&& for_good ==> starts[place].references < 1
}

/// The first of the structures that can be located in a chunk.
pub open spec fn first_locatable(starts: Seq<Start>, structures: Seq<Identifier>, for_good: bool) -> Option<
    Id,
>
    decreases structures.len(),
{
    if structures.len() == 0 {
        None
    } else if locatable(starts, structures[0]@, for_good) {
        Some(structures[0]@)
    } else {
        first_locatable(starts, structures.drop_first(), for_good)
    }
}

fn find_start(starts: &Vec<StructureStart>, structure: &Identifier) -> (place: Option<usize>)
    ensures
        match place {
            Some(place) => place < starts@.len() && place == start_place(
                starts_of(starts@),
                structure@,
            ),
            None => start_place(starts_of(starts@), structure@) == starts@.len(),
        },
{
    let ghost all = starts_of(starts@);
    let mut i: usize = 0;
    assert(all.skip(0) =~= all);
    while i < starts.len()
        invariant
            i <= starts@.len(),
            all == starts_of(starts@),
            start_place(all, structure@) == i + start_place(all.skip(i as int), structure@),
        decreases starts@.len() - i,
    {
        assert(all.skip(i as int).drop_first() =~= all.skip(i + 1));
        assert(all.skip(i as int)[0] == starts@[i as int]@);
        if starts[i].structure.same(structure) {
            return Some(i);
        }
        i = i + 1;
    }
    None
}

/// Locates the first of the structures that was generated in a chunk. Where structures
/// are located for good, each is located once, which is noted.
pub fn generated_structure(
    starts: &mut Vec<StructureStart>,
    structures: &Vec<Identifier>,
    create_reference: bool,
) -> (found: Option<Identifier>)
    ensures
        match found {
            Some(found) => {
                &&& first_locatable(starts_of(old(starts)@), structures@, create_reference) == Some(
                    found@,
                )
                &&& starts_of(final(starts)@) == if create_reference {
                    let place = start_place(starts_of(old(starts)@), found@);
                    starts_of(old(starts)@).update(
                        place,
                        Start {
                            references: (starts_of(old(starts)@)[place].references + 1) as i32,
                            ..starts_of(old(starts)@)[place]
                        },
                    )
                } else {
                    starts_of(old(starts)@)
                }
            },
            None => first_locatable(starts_of(old(starts)@), structures@, create_reference) is None
                && starts_of(final(starts)@) == starts_of(old(starts)@),
        },
{
    let ghost before = starts_of(starts@);
    let mut i: usize = 0;
    assert(structures@.skip(0) =~= structures@);
    while i < structures.len()
        invariant
            i <= structures@.len(),
            before == starts_of(starts@),
            before == starts_of(old(starts)@),
            first_locatable(before, structures@, create_reference) == first_locatable(
                before,
                structures@.skip(i as int),
                create_reference,
            ),
        decreases structures@.len() - i,
    {
        assert(structures@.skip(i as int).drop_first() =~= structures@.skip(i + 1));
        if let Some(place) = find_start(starts, &structures[i]) {
            assert(before[place as int] == starts@[place as int]@);
            if starts[place].has_pieces && (!create_reference || starts[place].references < 1) {
                if create_reference {
                    let references: i32 = starts[place].references + 1;
                    starts[place].references = references;
                    assert(starts_of(starts@) =~= before.update(
                        place as int,
                        Start { references, ..before[place as int] },
                    ));
                }
                return Some(structures[i].clone());
            }
        }
        i = i + 1;
    }
    None
}

/// The place of the candidate that one of several inspections is made of.
pub open spec fn place_of_turn(search: Search, found: Seq<Option<Id>>, turn: int) -> int {
    search.after_inspecting(found.take(turn)).cursor as int
}

/// The inspections of a search are made of candidates, one after another.
pub open spec fn takes_turns(search: Search, found: Seq<Option<Id>>) -> bool {
    forall|turn: int|
        0 <= turn < found.len() ==> 0 <= #[trigger] place_of_turn(search, found, turn)
            < search.candidates.len()
}

/// Whether one of the inspections was made of a candidate.
pub open spec fn was_inspected(search: Search, found: Seq<Option<Id>>, place: int) -> bool {
    exists|turn: int|
        0 <= turn < found.len() && #[trigger] place_of_turn(search, found, turn) == place
}

/// Whether one of the inspections found a structure from a scan.
pub open spec fn was_found(search: Search, found: Seq<Option<Id>>, scan: u64) -> bool {
    exists|turn: int|
        0 <= turn < found.len() && found[turn] is Some && search.candidates[
            #[trigger] place_of_turn(search, found, turn)
        ].scan_id == scan
}

proof fn lemma_left_out(search: Search, from: nat)
    ensures
        forall|place: int|
            from <= place < search.next_place(from) && place < search.candidates.len()
                ==> search.skips(#[trigger] search.candidates[place]),
    decreases search.candidates.len() - from,
{
    if from < search.candidates.len() && search.skips(search.candidates[from as int]) {
        lemma_left_out(search, from + 1);
    }
}

proof fn lemma_one_turn_more(search: Search, found: Seq<Option<Id>>)
    requires
        found.len() > 0,
    ensures
        ({
            let earlier = found.drop_last();
            &&& forall|turn: int|
                0 <= turn < earlier.len() ==> #[trigger] place_of_turn(search, earlier, turn)
                    == place_of_turn(search, found, turn)
            &&& place_of_turn(search, found, earlier.len() as int) == search.after_inspecting(
                earlier,
            ).cursor
            &&& forall|place: int|
                was_inspected(search, earlier, place) ==> #[trigger] was_inspected(
                    search,
                    found,
                    place,
                )
            &&& forall|scan: u64|
                was_found(search, earlier, scan) ==> #[trigger] was_found(search, found, scan)
        }),
{
    let earlier = found.drop_last();
    assert forall|turn: int| 0 <= turn < earlier.len() implies #[trigger] place_of_turn(
        search,
        earlier,
        turn,
    ) == place_of_turn(search, found, turn) by {
        assert(earlier.take(turn) =~= found.take(turn));
    }
    assert(found.take(earlier.len() as int) =~= earlier);
    assert forall|place: int| was_inspected(search, earlier, place) implies #[trigger] was_inspected(
        search,
        found,
        place,
    ) by {
        let turn = choose|turn: int|
            0 <= turn < earlier.len() && #[trigger] place_of_turn(search, earlier, turn) == place;
        assert(place_of_turn(search, found, turn) == place);
    }
    assert forall|scan: u64| was_found(search, earlier, scan) implies #[trigger] was_found(
        search,
        found,
        scan,
    ) by {
        let turn = choose|turn: int|
            0 <= turn < earlier.len() && earlier[turn] is Some && search.candidates[
                #[trigger] place_of_turn(search, earlier, turn)
            ].scan_id == scan;
        assert(place_of_turn(search, found, turn) == place_of_turn(search, earlier, turn));
        assert(found[turn] == earlier[turn]);
    }
}

/// What holds of a search that began at its first candidate, after any inspections.
proof fn lemma_inspections_cover(search: Search, found: Seq<Option<Id>>)
    requires
        search == search.rewound(),
        takes_turns(search, found),
    ensures
        ({
            let after = search.after_inspecting(found);
            &&& after.candidates == search.candidates
            &&& after.phase == search.phase
            &&& after.cursor <= search.candidates.len()
            &&& forall|place: int|
                0 <= place < after.cursor ==> #[trigger] was_inspected(search, found, place)
                    || was_found(search, found, search.candidates[place].scan_id)
            &&& after.current matches Some((scan, true)) ==> was_found(search, found, scan)
            &&& forall|scan: u64| #[trigger]
                after.found_scans.contains(scan) ==> was_found(search, found, scan)
            &&& after.found_any <==> exists|turn: int|
                0 <= turn < found.len() && (#[trigger] found[turn]) is Some
        }),
    decreases found.len(),
{
    let after = search.after_inspecting(found);
    lemma_inspections_keep_candidates(search, found);
    if found.len() == 0 {
        lemma_left_out(search, 0);
        lemma_next_place(search, 0);
        assert forall|place: int| 0 <= place < after.cursor implies #[trigger] was_inspected(
            search,
            found,
            place,
        ) || was_found(search, found, search.candidates[place].scan_id) by {
            assert(search.skips(search.candidates[place]));
        }
    } else {
        let earlier = found.drop_last();
        lemma_one_turn_more(search, found);
        assert(takes_turns(search, earlier)) by {
            assert forall|turn: int| 0 <= turn < earlier.len() implies 0
                <= #[trigger] place_of_turn(search, earlier, turn) < search.candidates.len() by {
                assert(place_of_turn(search, found, turn) == place_of_turn(search, earlier, turn));
            }
        }
        lemma_inspections_cover(search, earlier);
        let before = search.after_inspecting(earlier);
        let last = earlier.len() as int;
        let here = before.cursor as int;
        assert(place_of_turn(search, found, last) == here);
        assert(was_inspected(search, found, here));
        if found.last() is Some {
            assert(found[last] is Some);
            assert(was_found(search, found, search.candidates[here].scan_id));
        } else {
            assert(!(found[last] is Some));
            if exists|turn: int| 0 <= turn < found.len() && (#[trigger] found[turn]) is Some {
                let turn = choose|turn: int|
                    0 <= turn < found.len() && (#[trigger] found[turn]) is Some;
                assert(earlier[turn] is Some);
            }
        }
        if exists|turn: int| 0 <= turn < earlier.len() && (#[trigger] earlier[turn]) is Some {
            let turn = choose|turn: int|
                0 <= turn < earlier.len() && (#[trigger] earlier[turn]) is Some;
            assert(found[turn] is Some);
        }
        let moved = before.inspected(found.last());
        lemma_left_out(moved, moved.cursor);
        lemma_next_place(moved, moved.cursor);
        assert forall|place: int| 0 <= place < after.cursor implies #[trigger] was_inspected(
            search,
            found,
            place,
        ) || was_found(search, found, search.candidates[place].scan_id) by {
            if place < here {
                assert(was_inspected(search, earlier, place) || was_found(
                    search,
                    earlier,
                    search.candidates[place].scan_id,
                ));
            } else if place > here {
                assert(moved.skips(moved.candidates[place]));
            }
        }
    }
}

/// When the candidates of a search are exhausted, every one that was not inspected
/// belongs to a scan from which a structure was found, at one that was.
pub proof fn law_only_found_scans_are_left_out(
    search: Search,
    found: Seq<Option<Id>>,
    place: int,
)
    requires
        search == search.rewound(),
        takes_turns(search, found),
        search.after_inspecting(found).cursor == search.candidates.len(),
        0 <= place < search.candidates.len(),
    ensures
        was_inspected(search, found, place) || was_found(
            search,
            found,
            search.candidates[place].scan_id,
        ),
{
    lemma_inspections_cover(search, found);
}

/// A radius at which some candidate holds a structure always ends the search with one;
/// a radius at which none does never ends it, and the search goes on at the next.
pub proof fn law_structure_at_a_radius_is_found<S: Fn(i32) -> Vec<StructureLocateCandidate>>(
    search: Search,
    rings: Seq<StructureLocateCandidate>,
    spread: S,
    found: Seq<Option<Id>>,
    holds: spec_fn(StructureLocateCandidate) -> Option<Id>,
)
    requires
        search.phase == LocatePhase::WaitingRandomSpread,
        search.candidates.len() > 0,
        search == search.rewound(),
        takes_turns(search, found),
        search.after_inspecting(found).cursor == search.candidates.len(),
        forall|turn: int|
            0 <= turn < found.len() ==> #[trigger] found[turn] == holds(
                search.candidates[place_of_turn(search, found, turn)],
            ),
    ensures
        ({
            let any = exists|place: int|
                0 <= place < search.candidates.len() && holds(
                    #[trigger] search.candidates[place],
                ) is Some;
            let poll = search.polled(ChunkRequestState::Ready, rings, spread, found);
            &&& any ==> (poll.1 matches Polled::Ready(Some(_)))
            &&& !any ==> poll == search.after_inspecting(found).spreading().spread_out(spread)
        }),
{
    lemma_inspections_cover(search, found);
    lemma_inspections_keep_candidates(search, found);
    law_inspections_keep_the_nearest_structure(search, found);
    let after = search.after_inspecting(found);
    if exists|place: int|
        0 <= place < search.candidates.len() && holds(#[trigger] search.candidates[place]) is Some {
        let place = choose|place: int|
            0 <= place < search.candidates.len() && holds(
                #[trigger] search.candidates[place],
            ) is Some;
        law_only_found_scans_are_left_out(search, found, place);
        if was_inspected(search, found, place) {
            let turn = choose|turn: int|
                0 <= turn < found.len() && #[trigger] place_of_turn(search, found, turn) == place;
            assert(found[turn] is Some);
        } else {
            let scan = search.candidates[place].scan_id;
            let turn = choose|turn: int|
                0 <= turn < found.len() && found[turn] is Some && search.candidates[
                    #[trigger] place_of_turn(search, found, turn)
                ].scan_id == scan;
            assert(found[turn] is Some);
        }
        assert(after.found_any);
        lemma_find_is_kept(search, found);
    } else {
        assert forall|turn: int| 0 <= turn < found.len() implies !((#[trigger] found[turn]) is Some) by {
            assert(0 <= place_of_turn(search, found, turn) < search.candidates.len());
            assert(found[turn] == holds(search.candidates[place_of_turn(search, found, turn)]));
        }
        assert(!after.found_any);
    }
}

/// A search that found anything knows a structure.
proof fn lemma_find_is_kept(search: Search, found: Seq<Option<Id>>)
    ensures
        (exists|turn: int| 0 <= turn < found.len() && (#[trigger] found[turn]) is Some)
            ==> search.after_inspecting(found).best is Some,
    decreases found.len(),
{
    if found.len() > 0 {
        let earlier = found.drop_last();
        lemma_find_is_kept(search, earlier);
        if exists|turn: int| 0 <= turn < found.len() && (#[trigger] found[turn]) is Some {
            let turn = choose|turn: int|
                0 <= turn < found.len() && (#[trigger] found[turn]) is Some;
            if turn < earlier.len() {
                assert(earlier[turn] is Some);
            }
        }
    }
}

/// The radii are tried one after another, none of them twice: the search waits for the
/// chunks of the first radius that has candidates, and ends with what it knows where
/// none up to the largest has any.
pub proof fn law_radii_are_tried_in_order<S: Fn(i32) -> Vec<StructureLocateCandidate>>(
    search: Search,
    spread: S,
    radius: int,
)
    requires
        search.phase == LocatePhase::RandomSpread,
        search.max_radius < i32::MAX,
        search.radius <= radius <= search.max_radius + 1,
        forall|smaller: int|
            search.radius <= smaller < radius ==> (#[trigger] candidates_at(
                spread,
                smaller as i32,
            )).len() == 0,
        radius <= search.max_radius ==> candidates_at(spread, radius as i32).len() > 0,
    ensures
        ({
            let (after, poll) = search.spread_out(spread);
            if radius > search.max_radius {
                poll == Polled::Ready(search.best)
            } else {
                let candidates = candidates_at(spread, radius as i32);
                &&& poll == Polled::Pending { request: Some(chunks_of(candidates)) }
                &&& after.phase == LocatePhase::WaitingRandomSpread
                &&& after.candidates == candidates
                &&& after.radius == radius + 1
                &&& after == after.rewound()
                &&& after.best == search.best
            }
        }),
    decreases radius - search.radius,
{
    if search.radius < radius {
        let now = search.radius as int;
        assert(candidates_at(spread, now as i32).len() == 0);
        let wider = (Search { radius: (search.radius + 1) as i32, ..search }).spreading();
        law_radii_are_tried_in_order(wider, spread, radius);
    }
}

/// The structure that is located in a chunk is the first of those looked for that has
/// pieces there and is still free; none is where there is no such structure.
pub proof fn law_first_structure_is_located(
    starts: Seq<Start>,
    structures: Seq<Identifier>,
    for_good: bool,
)
    ensures
        match first_locatable(starts, structures, for_good) {
            Some(found) => exists|i: int|
                {
                    &&& 0 <= i < structures.len()
                    &&& (#[trigger] structures[i])@ == found
                    &&& is_free(starts, found, for_good)
                    &&& forall|j: int|
                        0 <= j < i ==> !is_free(starts, (#[trigger] structures[j])@, for_good)
                },
            None => forall|i: int|
                0 <= i < structures.len() ==> !is_free(
                    starts,
                    (#[trigger] structures[i])@,
                    for_good,
                ),
        },
    decreases structures.len(),
{
    if structures.len() > 0 {
        let first = structures[0]@;
        lemma_first_start(starts, first);
        if !locatable(starts, first, for_good) {
            let rest = structures.drop_first();
            law_first_structure_is_located(starts, rest, for_good);
            match first_locatable(starts, rest, for_good) {
                Some(found) => {
                    let i = choose|i: int|
                        {
                            &&& 0 <= i < rest.len()
                            &&& (#[trigger] rest[i])@ == found
                            &&& is_free(starts, found, for_good)
                            &&& forall|j: int|
                                0 <= j < i ==> !is_free(starts, (#[trigger] rest[j])@, for_good)
                        };
                    assert(structures[i + 1]@ == found);
                    assert forall|j: int| 0 <= j < i + 1 implies !is_free(
                        starts,
                        (#[trigger] structures[j])@,
                        for_good,
                    ) by {
                        if j > 0 {
                            assert(rest[j - 1] == structures[j]);
                        }
                    }
                },
                None => {
                    assert forall|i: int| 0 <= i < structures.len() implies !is_free(
                        starts,
                        (#[trigger] structures[i])@,
                        for_good,
                    ) by {
                        if i > 0 {
                            assert(rest[i - 1] == structures[i]);
                        }
                    }
                },
            }
        } else {
            assert(structures[0]@ == first);
        }
    }
}

/// The first beginning of a structure in a chunk has pieces, and was not located before
/// where the structure is located for good.
pub open spec fn is_free(starts: Seq<Start>, structure: Id, for_good: bool) -> bool {
    exists|i: int|
        {
            &&& 0 <= i < starts.len()
            &&& (#[trigger] starts[i]).structure == structure
            &&& starts[i].has_pieces
            &&& for_good ==> starts[i].references <= 0
            &&& forall|j: int| 0 <= j < i ==> (#[trigger] starts[j]).structure != structure
        }
}

proof fn lemma_first_start(starts: Seq<Start>, structure: Id)
    ensures
        ({
            let place = start_place(starts, structure);
            &&& 0 <= place <= starts.len()
            &&& place < starts.len() ==> starts[place].structure == structure
            &&& forall|j: int| 0 <= j < place ==> (#[trigger] starts[j]).structure != structure
        }),
    decreases starts.len(),
{
    if starts.len() > 0 && starts[0].structure != structure {
        let rest = starts.drop_first();
        lemma_first_start(rest, structure);
        let place = start_place(rest, structure);
        assert forall|j: int| 0 <= j < place + 1 implies (#[trigger] starts[j]).structure
            != structure by {
            if j > 0 {
                assert(rest[j - 1] == starts[j]);
            }
        }
    }
}

/// The place of the next candidate is one that is not left out.
proof fn lemma_next_is_wanted(search: Search, from: nat)
    ensures
        search.next_place(from) < search.candidates.len() ==> !search.skips(
            search.candidates[search.next_place(from) as int],
        ),
    decreases search.candidates.len() - from,
{
    if from < search.candidates.len() && search.skips(search.candidates[from as int]) {
        lemma_next_is_wanted(search, from + 1);
    }
}

/// The turn after another one: it is taken by a candidate behind, that is not left out.
proof fn lemma_following_turn(search: Search, found: Seq<Option<Id>>, turn: int)
    requires
        takes_turns(search, found),
        0 <= turn < found.len(),
    ensures
        ({
            let here = search.after_inspecting(found.take(turn));
            let next = search.after_inspecting(found.take(turn + 1));
            &&& next == here.inspected(found[turn]).at_next()
            &&& next.candidates == search.candidates
            &&& next.phase == search.phase
            &&& here.cursor < next.cursor <= search.candidates.len()
            &&& next.cursor < search.candidates.len() ==> !next.skips(
                search.candidates[next.cursor as int],
            )
        }),
{
    let upto = found.take(turn + 1);
    assert(upto.drop_last() =~= found.take(turn));
    let here = search.after_inspecting(found.take(turn));
    lemma_inspections_keep_candidates(search, found.take(turn));
    lemma_inspections_keep_candidates(search, upto);
    assert(0 <= place_of_turn(search, found, turn) < search.candidates.len());
    let moved = here.inspected(found[turn]);
    lemma_next_place(moved, moved.cursor);
    lemma_next_is_wanted(moved, moved.cursor);
}

/// Candidates are inspected in their order, and none of them twice.
pub proof fn law_candidates_are_inspected_in_order(
    search: Search,
    found: Seq<Option<Id>>,
    turn: int,
    later: int,
)
    requires
        takes_turns(search, found),
        0 <= turn < later < found.len(),
    ensures
        place_of_turn(search, found, turn) < place_of_turn(search, found, later),
    decreases later,
{
    lemma_following_turn(search, found, later - 1);
    if turn < later - 1 {
        law_candidates_are_inspected_in_order(search, found, turn, later - 1);
    }
}

/// The candidates of one scan follow each other.
pub open spec fn scans_are_apart(candidates: Seq<StructureLocateCandidate>) -> bool {
    forall|first: int, between: int, last: int|
        0 <= first < between < last < candidates.len() && (#[trigger] candidates[first]).scan_id == (
        #[trigger] candidates[last]).scan_id ==> (#[trigger] candidates[between]).scan_id
            == candidates[first].scan_id
}

/// Once a structure was found from a scan, no further candidate of that scan is
/// inspected: on rings wherever it stands, and at a radius, where the candidates of one
/// scan follow each other.
pub proof fn law_found_scan_is_left_alone(
    search: Search,
    found: Seq<Option<Id>>,
    turn: int,
    later: int,
)
    requires
        takes_turns(search, found),
        0 <= turn < later < found.len(),
        found[turn] is Some,
        search.phase == LocatePhase::WaitingRings || scans_are_apart(search.candidates),
    ensures
        search.candidates[place_of_turn(search, found, turn)].scan_id != search.candidates[
            place_of_turn(search, found, later)
        ].scan_id,
{
    let scan = search.candidates[place_of_turn(search, found, turn)].scan_id;
    lemma_inspections_keep_candidates(search, found.take(turn));
    lemma_following_turn(search, found, turn);
    lemma_following_turn(search, found, later - 1);
    law_candidates_are_inspected_in_order(search, found, turn, later);
    let next = search.after_inspecting(found.take(turn + 1));
    assert(next.current == Some((scan, true)));
    if search.phase == LocatePhase::WaitingRings {
        lemma_scan_stays_found(search, found, scan, turn + 1, later);
    } else {
        assert(0 <= place_of_turn(search, found, turn + 1) < search.candidates.len());
        assert(search.candidates[place_of_turn(search, found, turn + 1)].scan_id != scan);
        if turn + 1 < later {
            law_candidates_are_inspected_in_order(search, found, turn, turn + 1);
            law_candidates_are_inspected_in_order(search, found, turn + 1, later);
        }
    }
}

proof fn lemma_scan_stays_found(
    search: Search,
    found: Seq<Option<Id>>,
    scan: u64,
    turn: int,
    later: int,
)
    requires
        takes_turns(search, found),
        0 <= turn <= later <= found.len(),
        search.after_inspecting(found.take(turn)).found_scans.contains(scan),
    ensures
        search.after_inspecting(found.take(later)).found_scans.contains(scan),
    decreases later - turn,
{
    if turn < later {
        lemma_following_turn(search, found, turn);
        lemma_scan_stays_found(search, found, scan, turn + 1, later);
    }
}

/// Of structures that are equally near the one that was found first is kept: another one
/// takes its place only where it is nearer.
pub proof fn law_first_of_equally_near_is_kept(best: Option<Located>, found: Seq<Located>, at: int)
    requires
        0 <= at < found.len(),
        best matches Some(known) ==> found[at].distance_sqr < known.distance_sqr,
        forall|i: int| 0 <= i < at ==> found[at].distance_sqr < (#[trigger] found[i]).distance_sqr,
        forall|i: int|
            at < i < found.len() ==> found[at].distance_sqr <= (#[trigger] found[i]).distance_sqr,
    ensures
        nearest(best, found) == Some(found[at]),
    decreases found.len(),
{
    let before = found.drop_last();
    if at == found.len() - 1 {
        law_nearest_structure_is_kept(best, before);
        if let Some(kept) = nearest(best, before) {
            if before.contains(kept) {
                let i = choose|i: int| 0 <= i < before.len() && before[i] == kept;
                assert(found[i] == kept);
            }
        }
    } else {
        assert(found[found.len() - 1] == found.last());
        assert forall|i: int| 0 <= i < at implies before[at].distance_sqr < (
        #[trigger] before[i]).distance_sqr by {
            assert(before[i] == found[i]);
        }
        assert forall|i: int| at < i < before.len() implies before[at].distance_sqr <= (
        #[trigger] before[i]).distance_sqr by {
            assert(before[i] == found[i]);
        }
        law_first_of_equally_near_is_kept(best, before, at);
    }
}

/// A structure that was found on the rings ends a search only where there are no radii
/// to be searched; otherwise the search goes on with what it knows, from the first
/// radius on.
pub proof fn law_rings_end_only_without_radii<S: Fn(i32) -> Vec<StructureLocateCandidate>>(
    search: Search,
    rings: Seq<StructureLocateCandidate>,
    spread: S,
    found: Seq<Option<Id>>,
)
    requires
        search.phase == LocatePhase::WaitingRings,
        search.candidates.len() > 0,
    ensures
        ({
            let after = search.after_inspecting(found);
            let poll = search.polled(ChunkRequestState::Ready, rings, spread, found);
            &&& search.has_random_spread || after.best is None ==> poll
                == after.spreading().spread_out(spread) && after.spreading().best == after.best
                && after.spreading().radius == search.radius
            &&& !search.has_random_spread && after.best is Some ==> poll.1 == Polled::Ready(
                after.best,
            )
        }),
{
    lemma_inspections_keep_candidates(search, found);
}

/// While chunks are awaited nothing of a search changes; a request that is cancelled
/// ends the poll without an answer.
pub proof fn law_awaited_chunks_hold_the_search<S: Fn(i32) -> Vec<StructureLocateCandidate>>(
    search: Search,
    rings: Seq<StructureLocateCandidate>,
    spread: S,
    found: Seq<Option<Id>>,
)
    requires
        search.phase == LocatePhase::WaitingRings || search.phase
            == LocatePhase::WaitingRandomSpread,
    ensures
        ({
            let pending = search.polled(ChunkRequestState::Pending, rings, spread, found);
            let cancelled = search.polled(ChunkRequestState::Cancelled, rings, spread, found);
            &&& pending.0 == search
            &&& search.candidates.len() > 0 ==> pending.1 == Polled::Pending { request: None }
            &&& search.candidates.len() == 0 ==> pending.1 == Polled::Cancelled
            &&& cancelled == (search, Polled::Cancelled)
        }),
{
}

} // verus!
