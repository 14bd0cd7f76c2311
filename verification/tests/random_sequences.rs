//! Named random sequences and the messages about saved data.
use steel::ident::Identifier;
use steel::random_sequences::{
    PersistentRandomSequence, PersistentRandomSequences, RandomSequences, SequenceSeed,
};
use steel::saved_data::{
    domain_default_world, domain_map_data, domain_random_sequences, map_data_io_error,
    random_sequence_io_error,
};

fn mixed(value: u64) -> u64 {
    let value = (value ^ (value >> 30)).wrapping_mul(0xBF58_476D_1CE4_E5B9);
    let value = (value ^ (value >> 27)).wrapping_mul(0x94D0_49BB_1331_11EB);
    value ^ (value >> 31)
}

/// A stream's first state, which depends on the seed and on the name.
fn create(key: &Identifier, seed: SequenceSeed) -> (u64, u64) {
    let name = if seed.with_key {
        key.text().bytes().fold(7_u64, |sum, byte| sum.wrapping_mul(31).wrapping_add(u64::from(byte)))
    } else {
        0
    };
    (mixed(seed.seed ^ name), mixed(seed.seed.wrapping_add(0x9E37_79B9_7F4A_7C15)) | 1)
}

/// The xoroshiro128++ step.
fn next(state: (u64, u64)) -> (i64, (u64, u64)) {
    let (low, high) = state;
    let value = low.wrapping_add(high).rotate_left(17).wrapping_add(low);
    let high = high ^ low;
    let state = (low.rotate_left(49) ^ high ^ (high << 21), high.rotate_left(28));
    (value as i64, state)
}

fn next_i64(sequences: &mut RandomSequences, key: &Identifier) -> i64 {
    sequences.with_sequence(key, |seed| create(key, seed), next)
}

fn snapshot(sequences: &RandomSequences) -> PersistentRandomSequences {
    match sequences.persistent_snapshot() {
        Some((_, stored)) => stored,
        None => panic!("used sequence should produce a persistent snapshot"),
    }
}

fn restore(seed: i64, stored: PersistentRandomSequences) -> RandomSequences {
    match RandomSequences::from_persistent(seed, stored) {
        Ok(restored) => restored,
        Err(_) => panic!("valid sequence snapshot should restore"),
    }
}

#[test]
fn restored_sequence_continues_from_its_persisted_state() {
    let key = Identifier::vanilla("chests/simple_dungeon");
    let mut sequences = RandomSequences::ephemeral(12_345);
    next_i64(&mut sequences, &key);
    next_i64(&mut sequences, &key);
    let stored = snapshot(&sequences);
    let expected = next_i64(&mut sequences, &key);

    let mut restored = restore(12_345, stored);

    assert_eq!(next_i64(&mut restored, &key), expected);
}

#[test]
fn persisted_domain_seed_controls_new_sequences_after_restart() {
    let first_key = Identifier::vanilla("chests/simple_dungeon");
    let later_key = Identifier::vanilla("chests/shipwreck_supply");
    let mut sequences = RandomSequences::ephemeral(12_345);
    next_i64(&mut sequences, &first_key);
    let stored = snapshot(&sequences);

    let mut restored = restore(98_765, stored);
    let expected = next_i64(&mut RandomSequences::ephemeral(12_345), &later_key);

    assert_eq!(next_i64(&mut restored, &later_key), expected);
}

#[test]
fn domain_sequence_maps_advance_independently() {
    let key = Identifier::vanilla("chests/simple_dungeon");
    let mut domain_a = RandomSequences::ephemeral(42);
    let mut domain_b = RandomSequences::ephemeral(42);

    let first_a = next_i64(&mut domain_a, &key);
    let second_a = next_i64(&mut domain_a, &key);
    let first_b = next_i64(&mut domain_b, &key);

    assert_eq!(first_a, first_b);
    assert_ne!(second_a, first_b);
}

#[test]
fn failed_operation_leaves_the_sequence_where_it_was() {
    let key = Identifier::vanilla("chests/simple_dungeon");
    let mut sequences = RandomSequences::ephemeral(42);

    let failed: Result<i64, &str> = sequences.try_with_sequence(
        &key,
        |seed| create(&key, seed),
        |state| {
            let (_, state) = next(state);
            (Err("missing context"), state)
        },
    );
    assert_eq!(failed, Err("missing context"));
    assert!(sequences.persistent_snapshot().is_none());
    let retried: Result<i64, &str> = sequences.try_with_sequence(
        &key,
        |seed| create(&key, seed),
        |state| {
            let (value, state) = next(state);
            (Ok(value), state)
        },
    );

    assert_eq!(retried, Ok(next_i64(&mut RandomSequences::ephemeral(42), &key)));
    assert!(sequences.persistent_snapshot().is_some());
}

#[test]
fn saving_is_needed_only_after_use() {
    let key = Identifier::vanilla("chests/simple_dungeon");
    let mut sequences = RandomSequences::ephemeral(1);
    assert!(sequences.persistent_snapshot().is_none());
    next_i64(&mut sequences, &key);
    let revision = sequences.persistent_snapshot().map(|(revision, _)| revision);
    assert_eq!(revision, Some(1));

    next_i64(&mut sequences, &key);
    sequences.finish_save(1);
    assert!(sequences.persistent_snapshot().is_some());
    sequences.finish_save(2);
    assert!(sequences.persistent_snapshot().is_none());
}

#[test]
fn stored_form_without_a_seed_has_to_be_saved() {
    let restored = restore(5, PersistentRandomSequences::default());

    let stored = snapshot(&restored);

    assert_eq!(stored.domain_seed, Some(5));
    assert!(stored.include_world_seed);
    assert!(stored.include_sequence_id);
    assert!(stored.sequences.is_empty());
}

#[test]
fn new_sequences_mix_the_salt_into_the_seed() {
    let stored = |salt, include_world_seed| PersistentRandomSequences {
        domain_seed: Some(0b1100),
        salt,
        include_world_seed,
        include_sequence_id: false,
        sequences: Vec::new(),
    };

    let mixed = restore(0, stored(0b1010, true)).create_sequence();
    let salted = restore(0, stored(-1, false)).create_sequence();

    assert_eq!(mixed, SequenceSeed { seed: 0b0110, with_key: false });
    assert_eq!(salted.seed, u64::MAX);
}

#[test]
fn stored_names_are_completed_and_checked() {
    let stored = |key: &str| PersistentRandomSequences {
        domain_seed: Some(1),
        sequences: vec![PersistentRandomSequence { key: key.to_owned(), source: (-1, 2) }],
        ..PersistentRandomSequences::default()
    };

    let mut restored = restore(1, stored("chests/simple_dungeon"));
    let key = Identifier::vanilla("chests/simple_dungeon");
    let state = restored.with_sequence(&key, |_| (0, 0), |state| (state, state));
    assert_eq!(state, (u64::MAX, 2));
    let stored_again = snapshot(&restored);
    assert_eq!(stored_again.sequences[0].key, "minecraft:chests/simple_dungeon");
    assert_eq!(stored_again.sequences[0].source, (-1, 2));
    let refused = RandomSequences::from_persistent(1, stored("Not Valid"));
    assert_eq!(refused.err().map(|error| error.key), Some("Not Valid".to_owned()));
}

#[test]
fn failures_name_their_domain() {
    let error = map_data_io_error("alpha", 3, "disk is full");
    assert_eq!(error.kind, 3);
    assert_eq!(error.message, "map-data I/O failed for domain 'alpha': disk is full");
    let error = random_sequence_io_error("beta", 4, "no such file");
    assert_eq!(error.kind, 4);
    assert_eq!(
        error.message,
        "random-sequence I/O failed for domain 'beta': no such file"
    );
}

#[test]
fn missing_parts_of_a_domain_are_named() {
    assert_eq!(domain_default_world(Some(5), "alpha"), Ok(5));
    assert_eq!(
        domain_default_world::<u8>(None, "alpha"),
        Err("domain 'alpha' has no loaded default world".to_owned())
    );
    assert_eq!(
        domain_map_data::<u8>(None, "alpha"),
        Err("domain 'alpha' has no map-data store".to_owned())
    );
    assert_eq!(
        domain_random_sequences::<u8>(None, "alpha"),
        Err("domain 'alpha' has no random-sequence map".to_owned())
    );
    assert_eq!(domain_map_data(Some('m'), "alpha"), Ok('m'));
    assert_eq!(domain_random_sequences(Some('s'), "alpha"), Ok('s'));
}
