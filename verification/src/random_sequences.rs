//! Persistent random sequences used by loot tables and other named random streams.
use rustc_hash::FxHashMap;

use vstd::prelude::*;

use crate::ident::{law_text_is_parsed_back, parse_id, Id, Identifier};

verus! {

/// What a map of named sequences holds: the state of each by its name.
pub uninterp spec fn sequences_in(map: FxHashMap<String, (u64, u64)>) -> Map<Seq<char>, (u64, u64)>;

/// `FxHashMap::default`: a map that holds nothing.
#[verifier::external_body]
fn empty_sequences() -> (sequences: FxHashMap<String, (u64, u64)>)
    ensures
        sequences_in(sequences).dom().is_empty(),
{
    FxHashMap::default()
}

/// `FxHashMap::get`: the value under a key, if there is one.
#[verifier::external_body]
fn sequence_state(map: &FxHashMap<String, (u64, u64)>, key: &str) -> (state: Option<(u64, u64)>)
    ensures
        state == if sequences_in(*map).contains_key(key@) {
            Some(sequences_in(*map)[key@])
        } else {
            None
        },
{
    map.get(key).copied()
}

/// `FxHashMap::insert`: stores a value under a key, in place of the one before.
#[verifier::external_body]
fn put_sequence(map: &mut FxHashMap<String, (u64, u64)>, key: String, state: (u64, u64))
    ensures
        sequences_in(*final(map)) == sequences_in(*old(map)).insert(key@, state),
{
    map.insert(key, state);
}

/// Whether a list holds each entry of a map once, in some order.
pub open spec fn lists(
    list: Seq<(String, (u64, u64))>,
    states: Map<Seq<char>, (u64, u64)>,
) -> bool {
    &&& forall|i: int|
        0 <= i < list.len() ==> states.contains_key((#[trigger] list[i]).0@) && states[list[i].0@]
            == list[i].1
    &&& forall|i: int, j: int|
        0 <= i < j < list.len() ==> (#[trigger] list[i]).0@ != (#[trigger] list[j]).0@
    &&& forall|key: Seq<char>| #[trigger]
        states.contains_key(key) ==> exists|i: int|
            0 <= i < list.len() && (#[trigger] list[i]).0@ == key
}

/// `FxHashMap::iter`: each entry once, in some order.
#[verifier::external_body]
fn sequence_list(map: &FxHashMap<String, (u64, u64)>) -> (list: Vec<(String, (u64, u64))>)
    ensures
        lists(list@, sequences_in(*map)),
{
    map.iter().map(|(key, state)| (key.clone(), *state)).collect()
}

/// Named sequences as a mathematical value.
#[verifier::ext_equal]
pub ghost struct Sequences {
    pub domain_seed: i64,
    pub salt: i32,
    pub include_world_seed: bool,
    pub include_sequence_id: bool,
    pub states: Map<Seq<char>, (u64, u64)>,
    pub revision: u64,
    pub saved: u64,
}

/// What a new sequence starts from.
#[derive(Clone, Copy, Debug, PartialEq, Eq, Structural)]
pub struct SequenceSeed {
    pub seed: u64,
    /// Whether the sequence's name is mixed into the seed.
    pub with_key: bool,
}

/// A number that goes up by one, past the largest to zero.
pub open spec fn next_revision(revision: u64) -> u64 {
    if revision == u64::MAX {
        0
    } else {
        (revision + 1) as u64
    }
}

impl Sequences {
    /// What a new sequence starts from.
    pub open spec fn seed(self) -> SequenceSeed {
        let base = if self.include_world_seed {
            self.domain_seed
        } else {
            0i64
        };
        SequenceSeed {
            seed: (base ^ (self.salt as i64)) as u64,
            with_key: self.include_sequence_id,
        }
    }

    /// The sequences with one of them in some state.
    pub open spec fn with_state(self, key: Id, state: (u64, u64)) -> Sequences {
        Sequences { states: self.states.insert(key.text(), state), ..self }
    }

    /// The sequences after one of them was used.
    pub open spec fn advanced(self, key: Id, state: (u64, u64)) -> Sequences {
        Sequences { revision: next_revision(self.revision), ..self.with_state(key, state) }
    }

    /// Whether a sequence is in some state before its use: the one it was left in, or
    /// a new one of those that `create` makes.
    pub open spec fn starts_at<C: FnOnce(SequenceSeed) -> (u64, u64)>(
        self,
        key: Id,
        create: C,
        state: (u64, u64),
    ) -> bool {
        if self.states.contains_key(key.text()) {
            state == self.states[key.text()]
        } else {
            create.ensures((self.seed(),), state)
        }
    }
}

/// Named random sequences of one domain.
pub struct RandomSequences {
    domain_seed: i64,
    salt: i32,
    include_world_seed: bool,
    include_sequence_id: bool,
    sequences: FxHashMap<String, (u64, u64)>,
    revision: u64,
    saved_revision: u64,
}

impl View for RandomSequences {
    type V = Sequences;

    closed spec fn view(&self) -> Sequences {
        Sequences {
            domain_seed: self.domain_seed,
            salt: self.salt,
            include_world_seed: self.include_world_seed,
            include_sequence_id: self.include_sequence_id,
            states: sequences_in(self.sequences),
            revision: self.revision,
            saved: self.saved_revision,
        }
    }
}

/// The stored form of one sequence: its name and its state as two signed numbers.
#[derive(Debug)]
pub struct PersistentRandomSequence {
    pub key: String,
    pub source: (i64, i64),
}

/// The stored form of named sequences.
#[derive(Debug)]
pub struct PersistentRandomSequences {
    pub domain_seed: Option<i64>,
    pub salt: i32,
    pub include_world_seed: bool,
    pub include_sequence_id: bool,
    pub sequences: Vec<PersistentRandomSequence>,
}

impl Default for PersistentRandomSequences {
    fn default() -> (stored: Self)
        ensures
            stored.domain_seed is None,
            stored.salt == 0,
            stored.include_world_seed,
            stored.include_sequence_id,
            stored.sequences@.len() == 0,
    {
        PersistentRandomSequences {
            domain_seed: None,
            salt: 0,
            include_world_seed: true,
            include_sequence_id: true,
            sequences: Vec::new(),
        }
    }
}

/// The name of a stored sequence is no identifier.
#[derive(Debug)]
pub struct InvalidSequenceKey {
    pub key: String,
}

/// A state that was stored as signed numbers.
pub open spec fn restored_state(source: (i64, i64)) -> (u64, u64) {
    (
        #[verifier::truncate]
        (source.0 as u64),
        #[verifier::truncate]
        (source.1 as u64),
    )
}

/// The signed numbers that a state is stored as.
pub open spec fn stored_state(state: (u64, u64)) -> (i64, i64) {
    (
        #[verifier::truncate]
        (state.0 as i64),
        #[verifier::truncate]
        (state.1 as i64),
    )
}

/// The first stored sequence whose name is no identifier.
pub open spec fn first_invalid(stored: Seq<PersistentRandomSequence>) -> Option<Seq<char>>
    decreases stored.len(),
{
    if stored.len() == 0 {
        None
    } else {
        match first_invalid(stored.drop_last()) {
            Some(key) => Some(key),
            None => if parse_id(stored.last().key@) is None {
                Some(stored.last().key@)
            } else {
                None
            },
        }
    }
}

/// The states of stored sequences by their names in full. Of two with one name the
/// last counts.
pub open spec fn restored_states(stored: Seq<PersistentRandomSequence>) -> Map<
    Seq<char>,
    (u64, u64),
>
    decreases stored.len(),
{
    if stored.len() == 0 {
        Map::empty()
    } else {
        restored_states(stored.drop_last()).insert(
            parse_id(stored.last().key@)->Some_0.text(),
            restored_state(stored.last().source),
        )
    }
}

/// The sequences that a stored form holds. A seed that was not stored has to be.
pub open spec fn restored(configured_seed: i64, stored: PersistentRandomSequences) -> Sequences {
    Sequences {
        domain_seed: match stored.domain_seed {
            Some(seed) => seed,
            None => configured_seed,
        },
        salt: stored.salt,
        include_world_seed: stored.include_world_seed,
        include_sequence_id: stored.include_sequence_id,
        states: restored_states(stored.sequences@),
        revision: if stored.domain_seed is None {
            1
        } else {
            0
        },
        saved: 0,
    }
}

/// Whether a list stores each of some states once.
pub open spec fn stores_states(
    stored: Seq<PersistentRandomSequence>,
    states: Map<Seq<char>, (u64, u64)>,
) -> bool {
    &&& forall|i: int|
        0 <= i < stored.len() ==> states.contains_key((#[trigger] stored[i]).key@)
            && stored[i].source == stored_state(states[stored[i].key@])
    &&& forall|i: int, j: int|
        0 <= i < j < stored.len() ==> (#[trigger] stored[i]).key@ != (#[trigger] stored[j]).key@
    &&& forall|key: Seq<char>| #[trigger]
        states.contains_key(key) ==> exists|i: int|
            0 <= i < stored.len() && (#[trigger] stored[i]).key@ == key
}

/// Whether a stored form holds sequences.
pub open spec fn stores(stored: PersistentRandomSequences, sequences: Sequences) -> bool {
    &&& stored.domain_seed == Some(sequences.domain_seed)
    &&& stored.salt == sequences.salt
    &&& stored.include_world_seed == sequences.include_world_seed
    &&& stored.include_sequence_id == sequences.include_sequence_id
    &&& stores_states(stored.sequences@, sequences.states)
}

impl RandomSequences {
    /// Creates a sequence map that was never stored.
    pub fn ephemeral(domain_seed: i64) -> (sequences: Self)
        ensures
            sequences@ == (Sequences {
                domain_seed,
                salt: 0,
                include_world_seed: true,
                include_sequence_id: true,
                states: Map::empty(),
                revision: 0,
                saved: 0,
            }),
    {
        RandomSequences {
            domain_seed,
            salt: 0,
            include_world_seed: true,
            include_sequence_id: true,
            sequences: empty_sequences(),
            revision: 0,
            saved_revision: 0,
        }
    }

    /// Restores sequences from their stored form.
    pub fn from_persistent(configured_seed: i64, stored: PersistentRandomSequences) -> (result:
        Result<Self, InvalidSequenceKey>)
        ensures
            match result {
                Ok(sequences) => first_invalid(stored.sequences@) is None && sequences@
                    == restored(configured_seed, stored),
                Err(error) => first_invalid(stored.sequences@) == Some(error.key@),
            },
    {
        let mut sequences = empty_sequences();
        let ghost list = stored.sequences@;
        let mut i: usize = 0;
        assert(list.take(0) =~= Seq::empty());
        while i < stored.sequences.len()
            invariant
                i <= stored.sequences.len(),
                list == stored.sequences@,
                first_invalid(list.take(i as int)) is None,
                sequences_in(sequences) == restored_states(list.take(i as int)),
            decreases stored.sequences.len() - i,
        {
            let sequence = &stored.sequences[i];
            assert(list.take(i + 1).drop_last() =~= list.take(i as int));
            match Identifier::parse(sequence.key.as_str()) {
                Some(id) => {
                    let (low, high) = sequence.source;
                    put_sequence(
                        &mut sequences,
                        id.text(),
                        (
                            #[verifier::truncate]
                            (low as u64),
                            #[verifier::truncate]
                            (high as u64),
                        ),
                    );
                },
                None => {
                    proof {
                        lemma_first_invalid(list, i + 1);
                    }
                    return Err(InvalidSequenceKey { key: sequence.key.clone() });
                },
            }
            i = i + 1;
        }
        assert(list.take(i as int) =~= list);
        let domain_seed: i64 = match stored.domain_seed {
            Some(seed) => seed,
            None => configured_seed,
        };
        let revision: u64 = if stored.domain_seed.is_none() {
            1
        } else {
            0
        };
        let result = RandomSequences {
            domain_seed,
            salt: stored.salt,
            include_world_seed: stored.include_world_seed,
            include_sequence_id: stored.include_sequence_id,
            sequences,
            revision,
            saved_revision: 0,
        };
        assert(result@ =~= restored(configured_seed, stored));
        Ok(result)
    }

    /// What a new sequence starts from: the domain's seed, if it counts, mixed with
    /// the salt.
    pub fn create_sequence(&self) -> (seed: SequenceSeed)
        ensures
            seed == self@.seed(),
    {
        let base: i64 = if self.include_world_seed {
            self.domain_seed
        } else {
            0
        };
        SequenceSeed {
            seed: #[verifier::truncate]
            ((base ^ (self.salt as i64)) as u64),
            with_key: self.include_sequence_id,
        }
    }

    /// The state of a sequence before its use.
    fn entry<C: FnOnce(SequenceSeed) -> (u64, u64)>(&mut self, key: &Identifier, create: C) -> (
        state: (u64, u64))
        requires
            !old(self)@.states.contains_key(key@.text()) ==> create.requires((old(self)@.seed(),)),
        ensures
            old(self)@.starts_at(key@, create, state),
            final(self)@ == old(self)@.with_state(key@, state),
    {
        let text = key.text();
        match sequence_state(&self.sequences, text.as_str()) {
            Some(state) => {
                assert(self@.states =~= self@.states.insert(key@.text(), state));
                assert(self@ =~= self@.with_state(key@, state));
                state
            },
            None => {
                let state = create(self.create_sequence());
                put_sequence(&mut self.sequences, text, state);
                assert(self@ =~= old(self)@.with_state(key@, state));
                state
            },
        }
    }

    /// Runs an operation against the persistent stream for `key`. A stream that is
    /// used for the first time is made by `create`.
    pub fn with_sequence<
        T,
        C: FnOnce(SequenceSeed) -> (u64, u64),
        F: FnOnce((u64, u64)) -> (T, (u64, u64)),
    >(&mut self, key: &Identifier, create: C, operation: F) -> (result: T)
        requires
            !old(self)@.states.contains_key(key@.text()) ==> create.requires((old(self)@.seed(),)),
            forall|state: (u64, u64)| #[trigger] operation.requires((state,)),
        ensures
            exists|start: (u64, u64), end: (u64, u64)|
                {
                    &&& old(self)@.starts_at(key@, create, start)
                    &&& #[trigger] operation.ensures((start,), (result, end))
                    &&& final(self)@ == old(self)@.advanced(key@, end)
                },
    {
        let start = self.entry(key, create);
        let (result, end) = operation(start);
        put_sequence(&mut self.sequences, key.text(), end);
        self.revision = self.revision.wrapping_add(1);
        proof {
            assert(self@.states =~= old(self)@.states.insert(key@.text(), end));
            assert(self@ =~= old(self)@.advanced(key@, end));
            assert(operation.ensures((start,), (result, end)));
        }
        result
    }

    /// Runs a fallible operation against the persistent stream for `key`. An operation
    /// that fails leaves the stream where it was, so that it can be tried again.
    pub fn try_with_sequence<
        T,
        E,
        C: FnOnce(SequenceSeed) -> (u64, u64),
        F: FnOnce((u64, u64)) -> (Result<T, E>, (u64, u64)),
    >(&mut self, key: &Identifier, create: C, operation: F) -> (result: Result<T, E>)
        requires
            !old(self)@.states.contains_key(key@.text()) ==> create.requires((old(self)@.seed(),)),
            forall|state: (u64, u64)| #[trigger] operation.requires((state,)),
        ensures
            exists|start: (u64, u64), end: (u64, u64)|
                {
                    &&& old(self)@.starts_at(key@, create, start)
                    &&& #[trigger] operation.ensures((start,), (result, end))
                    &&& final(self)@ == if result is Ok {
                        old(self)@.advanced(key@, end)
                    } else {
                        old(self)@.with_state(key@, start)
                    }
                },
    {
        let start = self.entry(key, create);
        let (result, end) = operation(start);
        assert(operation.ensures((start,), (result, end)));
        if result.is_ok() {
            put_sequence(&mut self.sequences, key.text(), end);
            self.revision = self.revision.wrapping_add(1);
            proof {
                assert(self@.states =~= old(self)@.states.insert(key@.text(), end));
                assert(self@ =~= old(self)@.advanced(key@, end));
            }
        }
        result
    }

    /// The stored form and its revision, where there are changes to be saved.
    pub fn persistent_snapshot(&self) -> (snapshot: Option<(u64, PersistentRandomSequences)>)
        ensures
            match snapshot {
                None => self@.revision == self@.saved,
                Some((revision, stored)) => {
                    &&& self@.revision != self@.saved
                    &&& revision == self@.revision
                    &&& stores(stored, self@)
                },
            },
    {
        if self.revision == self.saved_revision {
            return None;
        }
        let list = sequence_list(&self.sequences);
        let mut stored: Vec<PersistentRandomSequence> = Vec::new();
        let mut i: usize = 0;
        while i < list.len()
            invariant
                i <= list.len(),
                stored@.len() == i,
                forall|j: int|
                    0 <= j < i ==> (#[trigger] stored@[j]).key@ == list@[j].0@ && stored@[j].source
                        == stored_state(list@[j].1),
            decreases list.len() - i,
        {
            let (low, high) = list[i].1;
            stored.push(
                PersistentRandomSequence {
                    key: list[i].0.clone(),
                    source: (
                        #[verifier::truncate]
                        (low as i64),
                        #[verifier::truncate]
                        (high as i64),
                    ),
                },
            );
            i = i + 1;
        }
        proof {
            assert forall|key: Seq<char>| #[trigger]
                self@.states.contains_key(key) implies exists|i: int|
                0 <= i < stored@.len() && (#[trigger] stored@[i]).key@ == key by {
                let i = choose|i: int| 0 <= i < list@.len() && (#[trigger] list@[i]).0@ == key;
                assert(stored@[i].key@ == key);
            }
            assert forall|i: int| 0 <= i < stored@.len() implies self@.states.contains_key(
                (#[trigger] stored@[i]).key@,
            ) && stored@[i].source == stored_state(self@.states[stored@[i].key@]) by {
                assert(self@.states.contains_key(list@[i].0@));
            }
            assert forall|i: int, j: int| 0 <= i < j < stored@.len() implies (
            #[trigger] stored@[i]).key@ != (#[trigger] stored@[j]).key@ by {
                assert(list@[i].0@ != list@[j].0@);
            }
        }
        Some(
            (
                self.revision,
                PersistentRandomSequences {
                    domain_seed: Some(self.domain_seed),
                    salt: self.salt,
                    include_world_seed: self.include_world_seed,
                    include_sequence_id: self.include_sequence_id,
                    sequences: stored,
                },
            ),
        )
    }

    /// Notes that a revision was saved, unless the sequences were used since.
    pub fn finish_save(&mut self, revision: u64)
        ensures
            final(self)@ == (Sequences {
                saved: if old(self)@.revision == revision {
                    revision
                } else {
                    old(self)@.saved
                },
                ..old(self)@
            }),
    {
        if self.revision == revision {
            self.saved_revision = revision;
        }
    }
}

proof fn lemma_first_invalid(stored: Seq<PersistentRandomSequence>, at: int)
    requires
        0 <= at <= stored.len(),
        first_invalid(stored.take(at)) is Some,
    ensures
        first_invalid(stored) == first_invalid(stored.take(at)),
    decreases stored.len(),
{
    if at == stored.len() {
        assert(stored.take(at) =~= stored);
    } else {
        assert(stored.drop_last().take(at) =~= stored.take(at));
        lemma_first_invalid(stored.drop_last(), at);
    }
}

proof fn lemma_state_is_restored(state: (u64, u64))
    ensures
        restored_state(stored_state(state)) == state,
{
    let (low, high) = state;
    assert((low as i64) as u64 == low) by (bit_vector);
    assert((high as i64) as u64 == high) by (bit_vector);
}

/// Whether every name is the full text of an identifier.
pub open spec fn named_in_full(states: Map<Seq<char>, (u64, u64)>) -> bool {
    forall|key: Seq<char>| #[trigger]
        states.contains_key(key) ==> exists|id: Id|
            id.valid() && id.namespace.len() > 0 && #[trigger] id.text() == key
}

proof fn lemma_restored_states(
    stored: Seq<PersistentRandomSequence>,
    states: Map<Seq<char>, (u64, u64)>,
)
    requires
        named_in_full(states),
        forall|i: int|
            0 <= i < stored.len() ==> states.contains_key((#[trigger] stored[i]).key@)
                && stored[i].source == stored_state(states[stored[i].key@]),
    ensures
        first_invalid(stored) is None,
        forall|key: Seq<char>| #[trigger]
            restored_states(stored).contains_key(key) <==> exists|i: int|
                0 <= i < stored.len() && (#[trigger] stored[i]).key@ == key,
        forall|key: Seq<char>| #[trigger]
            restored_states(stored).contains_key(key) ==> states.contains_key(key)
                && restored_states(stored)[key] == states[key],
    decreases stored.len(),
{
    if stored.len() > 0 {
        let before = stored.drop_last();
        assert forall|i: int| 0 <= i < before.len() implies states.contains_key(
            (#[trigger] before[i]).key@,
        ) && before[i].source == stored_state(states[before[i].key@]) by {
            assert(stored[i] == before[i]);
        }
        lemma_restored_states(before, states);
        let last = stored[stored.len() - 1];
        assert(states.contains_key(last.key@));
        let id = choose|id: Id|
            id.valid() && id.namespace.len() > 0 && #[trigger] id.text() == last.key@;
        law_text_is_parsed_back(id);
        lemma_state_is_restored(states[last.key@]);
        assert(restored_states(stored) == restored_states(before).insert(
            last.key@,
            states[last.key@],
        ));
        assert forall|key: Seq<char>| #[trigger]
            restored_states(stored).contains_key(key) implies states.contains_key(key)
            && restored_states(stored)[key] == states[key] by {
            if key != last.key@ {
                assert(restored_states(before).contains_key(key));
            }
        }
        assert forall|key: Seq<char>| #[trigger]
            restored_states(stored).contains_key(key) implies exists|i: int|
            0 <= i < stored.len() && (#[trigger] stored[i]).key@ == key by {
            if key == last.key@ {
                assert(stored[stored.len() - 1].key@ == key);
            } else {
                assert(restored_states(before).contains_key(key));
                let i = choose|i: int| 0 <= i < before.len() && (#[trigger] before[i]).key@ == key;
                assert(stored[i].key@ == key);
            }
        }
        assert forall|key: Seq<char>|
            (exists|i: int| 0 <= i < stored.len() && (#[trigger] stored[i]).key@ == key) implies
            #[trigger] restored_states(stored).contains_key(key) by {
            let i = choose|i: int| 0 <= i < stored.len() && (#[trigger] stored[i]).key@ == key;
            if i < stored.len() - 1 {
                assert(before[i].key@ == key);
                assert(restored_states(before).contains_key(key));
            }
        }
    }
}

/// Sequences that were stored are restored as they were: each goes on from where it
/// was, and new ones start from the seed that was stored, whatever seed is configured
/// later.
pub proof fn law_stored_sequences_are_restored(
    sequences: Sequences,
    stored: PersistentRandomSequences,
    configured_seed: i64,
)
    requires
        named_in_full(sequences.states),
        stores(stored, sequences),
    ensures
        first_invalid(stored.sequences@) is None,
        restored(configured_seed, stored).states == sequences.states,
        restored(configured_seed, stored).seed() == sequences.seed(),
{
    lemma_restored_states(stored.sequences@, sequences.states);
    let states = restored_states(stored.sequences@);
    assert forall|key: Seq<char>| #[trigger] sequences.states.contains_key(key) implies
        states.contains_key(key) by {}
    assert(states =~= sequences.states);
}

/// Using one sequence leaves the others alone.
pub proof fn law_sequences_are_independent(
    sequences: Sequences,
    used: Id,
    other: Seq<char>,
    state: (u64, u64),
)
    requires
        other != used.text(),
    ensures
        sequences.advanced(used, state).states.contains_key(other)
            == sequences.states.contains_key(other),
        sequences.states.contains_key(other) ==> sequences.advanced(used, state).states[other]
            == sequences.states[other],
        sequences.advanced(used, state).seed() == sequences.seed(),
{
}

} // verus!
