//! Lookup of registry values by their identifiers.
use vstd::prelude::*;

use crate::ident::{Id, Identifier};

verus! {

/// A value that a registry finds by its identifier.
pub trait Keyed {
    spec fn id(&self) -> Id;

    fn key(&self) -> (key: &Identifier)
        ensures
            key@ == self.id(),
    ;
}

/// The first of `values` with the given identifier.
pub open spec fn find<T: Keyed>(values: Seq<T>, id: Id) -> Option<T>
    decreases values.len(),
{
    if values.len() == 0 {
        None
    } else if values[0].id() == id {
        Some(values[0])
    } else {
        find(values.drop_first(), id)
    }
}

/// What `find` returns is one of the values and has the identifier looked for.
pub proof fn lemma_find<T: Keyed>(values: Seq<T>, id: Id)
    ensures
        match find(values, id) {
            Some(value) => value.id() == id && values.contains(value),
            None => forall|i: int| 0 <= i < values.len() ==> (#[trigger] values[i]).id() != id,
        },
    decreases values.len(),
{
    if values.len() > 0 && values[0].id() != id {
        let rest = values.drop_first();
        lemma_find(rest, id);
        match find(rest, id) {
            Some(value) => {
                let i = choose|i: int| 0 <= i < rest.len() && rest[i] == value;
                assert(values[i + 1] == value);
            },
            None => {
                assert forall|i: int| 0 <= i < values.len() implies (#[trigger] values[i]).id()
                    != id by {
                    if i > 0 {
                        assert(rest[i - 1] == values[i]);
                    }
                }
            },
        }
    }
}

/// Finds the first value with the given identifier.
pub fn by_key<'a, T: Keyed>(values: &'a Vec<T>, key: &Identifier) -> (value: Option<&'a T>)
    ensures
        match value {
            Some(value) => find(values@, key@) == Some(*value),
            None => find(values@, key@) is None,
        },
{
    let mut i: usize = 0;
    assert(values@.skip(0) =~= values@);
    while i < values.len()
        invariant
            i <= values.len(),
            find(values@, key@) == find(values@.skip(i as int), key@),
        decreases values.len() - i,
    {
        assert(values@.skip(i as int).drop_first() =~= values@.skip(i + 1));
        if values[i].key().same(key) {
            return Some(&values[i]);
        }
        i = i + 1;
    }
    None
}

/// Whether `ids` holds the given identifier.
pub open spec fn holds_id(ids: Seq<Identifier>, id: Id) -> bool {
    exists|i: int| 0 <= i < ids.len() && (#[trigger] ids[i])@ == id
}

/// Whether `ids` holds the given identifier.
pub fn contains_id(ids: &Vec<Identifier>, key: &Identifier) -> (found: bool)
    ensures
        found == holds_id(ids@, key@),
{
    let mut i: usize = 0;
    while i < ids.len()
        invariant
            i <= ids.len(),
            forall|j: int| 0 <= j < i ==> (#[trigger] ids[j])@ != key@,
        decreases ids.len() - i,
    {
        if ids[i].same(key) {
            return true;
        }
        i = i + 1;
    }
    false
}

/// A named set of registry values.
#[derive(Debug)]
pub struct Tag {
    pub key: Identifier,
    pub values: Vec<Identifier>,
}

impl Keyed for Tag {
    open spec fn id(&self) -> Id {
        self.key@
    }

    fn key(&self) -> (key: &Identifier) {
        &self.key
    }
}

/// A registry value of which nothing but its identifier is known here.
#[derive(Debug)]
pub struct Named {
    pub key: Identifier,
}

impl Keyed for Named {
    open spec fn id(&self) -> Id {
        self.key@
    }

    fn key(&self) -> (key: &Identifier) {
        &self.key
    }
}

} // verus!
