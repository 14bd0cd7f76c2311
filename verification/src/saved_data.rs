//! Messages of failures to load and save a domain's data.
use vstd::prelude::*;

verus! {

/// A failure, with the kind of the failure behind it.
#[derive(Debug)]
pub struct SavedDataError<K> {
    pub kind: K,
    pub message: String,
}

/// Text made of pieces.
fn joined(first: &str, second: &str, third: &str) -> (text: String)
    ensures
        text@ == first@ + second@ + third@,
{
    let mut text = first.to_owned();
    text.append(second);
    text.append(third);
    text
}

/// The message of a failure that concerns a domain.
pub open spec fn domain_failure(what: Seq<char>, domain: Seq<char>, cause: Seq<char>) -> Seq<char> {
    what + " failed for domain '"@ + domain + "': "@ + cause
}

/// Says of which domain the data could not be loaded or saved. The kind of the
/// failure stays.
fn io_error<K>(what: &str, domain: &str, kind: K, cause: &str) -> (error: SavedDataError<K>)
    ensures
        error.kind == kind,
        error.message@ == domain_failure(what@, domain@, cause@),
{
    let place = joined(what, " failed for domain '", domain);
    let message = joined(place.as_str(), "': ", cause);
    SavedDataError { kind, message }
}

/// Says of which domain the maps could not be loaded or saved.
pub fn map_data_io_error<K>(domain: &str, kind: K, cause: &str) -> (error: SavedDataError<K>)
    ensures
        error.kind == kind,
        error.message@ == domain_failure("map-data I/O"@, domain@, cause@),
{
    io_error("map-data I/O", domain, kind, cause)
}

/// Says of which domain the random sequences could not be loaded or saved.
pub fn random_sequence_io_error<K>(domain: &str, kind: K, cause: &str) -> (error: SavedDataError<K>)
    ensures
        error.kind == kind,
        error.message@ == domain_failure("random-sequence I/O"@, domain@, cause@),
{
    io_error("random-sequence I/O", domain, kind, cause)
}

/// The message about something that a domain does not have.
pub open spec fn missing_text(domain: Seq<char>, what: Seq<char>) -> Seq<char> {
    "domain '"@ + domain + "' has no "@ + what
}

/// What a domain should have, or a message that it does not have it.
fn found<T>(value: Option<T>, domain: &str, what: &str) -> (result: Result<T, String>)
    ensures
        match (value, result) {
            (Some(value), Ok(found)) => found == value,
            (None, Err(message)) => message@ == missing_text(domain@, what@),
            _ => false,
        },
{
    match value {
        Some(value) => Ok(value),
        None => {
            let place = joined("domain '", domain, "' has no ");
            let message = joined(place.as_str(), what, "");
            proof {
                lemma_nothing_added(missing_text(domain@, what@));
            }
            Err(message)
        },
    }
}

proof fn lemma_nothing_added(text: Seq<char>)
    ensures
        text + ""@ == text,
{
    reveal_strlit("");
    assert(text + ""@ =~= text);
}

/// The default world of a domain, through which its data is loaded and saved.
pub fn domain_default_world<W>(world: Option<W>, domain: &str) -> (result: Result<W, String>)
    ensures
        match (world, result) {
            (Some(world), Ok(found)) => found == world,
            (None, Err(message)) => message@ == missing_text(domain@, "loaded default world"@),
            _ => false,
        },
{
    found(world, domain, "loaded default world")
}

/// The maps of a domain.
pub fn domain_map_data<S>(store: Option<S>, domain: &str) -> (result: Result<S, String>)
    ensures
        match (store, result) {
            (Some(store), Ok(found)) => found == store,
            (None, Err(message)) => message@ == missing_text(domain@, "map-data store"@),
            _ => false,
        },
{
    found(store, domain, "map-data store")
}

/// The random sequences of a domain.
pub fn domain_random_sequences<S>(sequences: Option<S>, domain: &str) -> (result: Result<S, String>)
    ensures
        match (sequences, result) {
            (Some(sequences), Ok(found)) => found == sequences,
            (None, Err(message)) => message@ == missing_text(domain@, "random-sequence map"@),
            _ => false,
        },
{
    found(sequences, domain, "random-sequence map")
}

} // verus!
