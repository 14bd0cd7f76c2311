//! Failures of a loot evaluation.
use vstd::prelude::*;

use crate::ident::Identifier;

verus! {

/// A world lookup required before loot evaluation can finish.
#[derive(Debug)]
pub struct ExplorationMapRequest {
    pub destination: Identifier,
    pub decoration: Identifier,
    pub zoom: i32,
    pub search_radius: i32,
    pub skip_existing_chunks: bool,
}

impl ExplorationMapRequest {
    /// Whether two requests ask for the same lookup.
    pub open spec fn same_as(self, other: ExplorationMapRequest) -> bool {
        &&& self.destination@ == other.destination@
        &&& self.decoration@ == other.decoration@
        &&& self.zoom == other.zoom
        &&& self.search_radius == other.search_radius
        &&& self.skip_existing_chunks == other.skip_existing_chunks
    }

    /// Whether two requests ask for the same lookup.
    pub fn same(&self, other: &ExplorationMapRequest) -> (same: bool)
        ensures
            same == self.same_as(*other),
    {
        self.destination.same(&other.destination) && self.decoration.same(&other.decoration)
            && self.zoom == other.zoom && self.search_radius == other.search_radius
            && self.skip_existing_chunks == other.skip_existing_chunks
    }
}

impl Clone for ExplorationMapRequest {
    fn clone(&self) -> (request: Self)
        ensures
            request == *self,
    {
        ExplorationMapRequest {
            destination: self.destination.clone(),
            decoration: self.decoration.clone(),
            zoom: self.zoom,
            search_radius: self.search_radius,
            skip_existing_chunks: self.skip_existing_chunks,
        }
    }
}

/// A loot-table evaluation failure that must not publish partial results.
#[derive(Debug)]
pub enum LootError {
    UnknownRegistryValue { registry: &'static str, key: Identifier },
    UnknownRegistryTag { registry: &'static str, key: Identifier },
    MissingOrigin(&'static str),
    MissingLevel(&'static str),
    ExplorationMapRequired(ExplorationMapRequest),
    InvalidExplorationMapZoom(i32),
    TooManyExplorationMaps,
    UnsupportedNumberProvider(&'static str),
    UnsupportedCondition(&'static str),
    UnsupportedFunction(&'static str),
    UnsupportedEntry(&'static str),
}

pub type LootResult<T> = Result<T, LootError>;

} // verus!
