//! Named binary tags: the tree-shaped values that saved game data is made of.
use vstd::prelude::*;

verus! {

/// A tag as a mathematical value.
pub ghost enum Nbt {
    Byte(i8),
    Short(i16),
    Int(i32),
    Long(i64),
    Float(u32),
    Double(u64),
    ByteArray(Seq<u8>),
    Text(Seq<char>),
    List(Seq<Nbt>),
    Compound(Seq<(Seq<char>, Nbt)>),
    IntArray(Seq<i32>),
    LongArray(Seq<i64>),
}

/// One tag. Floating-point numbers are held by their bits.
#[derive(Debug)]
pub enum NbtTag {
    Byte(i8),
    Short(i16),
    Int(i32),
    Long(i64),
    Float(u32),
    Double(u64),
    ByteArray(Vec<u8>),
    Text(String),
    List(Vec<NbtTag>),
    Compound(NbtCompound),
    IntArray(Vec<i32>),
    LongArray(Vec<i64>),
}

/// An ordered list of named tags. A name may occur more than once: the first
/// occurrence is the one that lookups see.
#[derive(Debug)]
pub struct NbtCompound {
    pub entries: Vec<(String, NbtTag)>,
}

impl View for NbtTag {
    type V = Nbt;

    open spec fn view(&self) -> Nbt
        decreases self,
    {
        match self {
            NbtTag::Byte(value) => Nbt::Byte(*value),
            NbtTag::Short(value) => Nbt::Short(*value),
            NbtTag::Int(value) => Nbt::Int(*value),
            NbtTag::Long(value) => Nbt::Long(*value),
            NbtTag::Float(bits) => Nbt::Float(*bits),
            NbtTag::Double(bits) => Nbt::Double(*bits),
            NbtTag::ByteArray(values) => Nbt::ByteArray(values@),
            NbtTag::Text(text) => Nbt::Text(text@),
            NbtTag::List(tags) => Nbt::List(list_view(tags@)),
            NbtTag::Compound(compound) => Nbt::Compound(compound.view()),
            NbtTag::IntArray(values) => Nbt::IntArray(values@),
            NbtTag::LongArray(values) => Nbt::LongArray(values@),
        }
    }
}

/// The values of a list's tags.
pub open spec fn list_view(tags: Seq<NbtTag>) -> Seq<Nbt>
    decreases tags,
{
    Seq::new(
        tags.len(),
        |i: int|
            if 0 <= i < tags.len() {
                tags[i].view()
            } else {
                arbitrary()
            },
    )
}

/// The value of a list tag, element by element.
pub broadcast proof fn lemma_list_view(tags: Seq<NbtTag>)
    ensures
        (#[trigger] list_view(tags)).len() == tags.len(),
        forall|i: int| 0 <= i < tags.len() ==> #[trigger] list_view(tags)[i] == tags[i]@,
{
}

impl View for NbtCompound {
    type V = Seq<(Seq<char>, Nbt)>;

    open spec fn view(&self) -> Seq<(Seq<char>, Nbt)>
        decreases self,
    {
        Seq::new(
            self.entries@.len(),
            |i: int|
                if 0 <= i < self.entries@.len() {
                    (self.entries@[i].0@, self.entries@[i].1.view())
                } else {
                    arbitrary()
                },
        )
    }
}

/// The tag that the first entry named `name` holds.
pub open spec fn lookup(entries: Seq<(Seq<char>, Nbt)>, name: Seq<char>) -> Option<Nbt>
    decreases entries.len(),
{
    if entries.len() == 0 {
        None
    } else if entries[0].0 == name {
        Some(entries[0].1)
    } else {
        lookup(entries.drop_first(), name)
    }
}

/// An entry added at the end is found under its name exactly where no earlier
/// entry has that name, and changes no other lookup.
pub broadcast proof fn law_lookup_after_insert(
    entries: Seq<(Seq<char>, Nbt)>,
    entry: (Seq<char>, Nbt),
    name: Seq<char>,
)
    ensures
        #[trigger] lookup(entries.push(entry), name) == if lookup(entries, name) is Some {
            lookup(entries, name)
        } else if entry.0 == name {
            Some(entry.1)
        } else {
            None
        },
    decreases entries.len(),
{
    reveal_with_fuel(lookup, 2);
    if entries.len() == 0 {
        assert(entries.push(entry).drop_first() =~= Seq::empty());
    } else {
        assert(entries.push(entry).drop_first() =~= entries.drop_first().push(entry));
        law_lookup_after_insert(entries.drop_first(), entry, name);
    }
}

/// The place of the first entry with a name, or the number of entries where there
/// is none.
pub open spec fn entry_position(entries: Seq<(Seq<char>, Nbt)>, name: Seq<char>) -> int
    decreases entries.len(),
{
    if entries.len() == 0 || entries[0].0 == name {
        0
    } else {
        1 + entry_position(entries.drop_first(), name)
    }
}

/// The entries after a tag was stored: in place of the name's first tag, or at the end.
pub open spec fn stored(
    entries: Seq<(Seq<char>, Nbt)>,
    name: Seq<char>,
    tag: Nbt,
) -> Seq<(Seq<char>, Nbt)> {
    let at = entry_position(entries, name);
    if at < entries.len() {
        entries.update(at, (name, tag))
    } else {
        entries.push((name, tag))
    }
}

/// The entries without the first one of a name.
pub open spec fn without(entries: Seq<(Seq<char>, Nbt)>, name: Seq<char>) -> Seq<
    (Seq<char>, Nbt),
> {
    let at = entry_position(entries, name);
    if at < entries.len() {
        entries.remove(at)
    } else {
        entries
    }
}

proof fn lemma_entry_position(entries: Seq<(Seq<char>, Nbt)>, name: Seq<char>)
    ensures
        0 <= entry_position(entries, name) <= entries.len(),
        entry_position(entries, name) < entries.len() ==> entries[entry_position(entries, name)].0
            == name,
        forall|j: int|
            0 <= j < entry_position(entries, name) ==> (#[trigger] entries[j]).0 != name,
        lookup(entries, name) == if entry_position(entries, name) < entries.len() {
            Some(entries[entry_position(entries, name)].1)
        } else {
            None
        },
    decreases entries.len(),
{
    if entries.len() > 0 && entries[0].0 != name {
        let rest = entries.drop_first();
        lemma_entry_position(rest, name);
        assert forall|j: int| 0 <= j < entry_position(entries, name) implies (
        #[trigger] entries[j]).0 != name by {
            if j > 0 {
                assert(rest[j - 1] == entries[j]);
            }
        }
    }
}

/// A stored tag is the one found under its name, and storing it changes no other lookup.
pub proof fn law_stored_tag_is_found(
    entries: Seq<(Seq<char>, Nbt)>,
    name: Seq<char>,
    tag: Nbt,
    other: Seq<char>,
)
    ensures
        lookup(stored(entries, name, tag), other) == if other == name {
            Some(tag)
        } else {
            lookup(entries, other)
        },
{
    let after = stored(entries, name, tag);
    lemma_entry_position(entries, name);
    lemma_entry_position(entries, other);
    lemma_entry_position(after, other);
    assert forall|j: int| 0 <= j < entries.len() implies (#[trigger] after[j]).0
        == entries[j].0 by {}
    let at = entry_position(entries, name);
    if other == name {
        assert(after[at].0 == name);
    } else {
        let there = entry_position(entries, other);
        let now = entry_position(after, other);
        if now < there {
            assert(after[now].0 == entries[now].0);
        }
        if there < entries.len() {
            assert(after[there].0 == other);
        }
    }
}

impl NbtTag {
    /// A copy of this tag.
    #[verifier::loop_isolation(false)]
    pub fn copy(&self) -> (tag: NbtTag)
        ensures
            tag@ == self@,
        decreases self,
    {
        broadcast use lemma_list_view;

        match self {
            NbtTag::Byte(value) => NbtTag::Byte(*value),
            NbtTag::Short(value) => NbtTag::Short(*value),
            NbtTag::Int(value) => NbtTag::Int(*value),
            NbtTag::Long(value) => NbtTag::Long(*value),
            NbtTag::Float(bits) => NbtTag::Float(*bits),
            NbtTag::Double(bits) => NbtTag::Double(*bits),
            NbtTag::ByteArray(values) => {
                let copied = values.clone();
                assert(copied@ =~= values@);
                NbtTag::ByteArray(copied)
            },
            NbtTag::Text(text) => NbtTag::Text(text.clone()),
            NbtTag::List(tags) => {
                let mut copied: Vec<NbtTag> = Vec::new();
                let mut i: usize = 0;
                while i < tags.len()
                    invariant
                        i <= tags.len(),
                        copied.len() == i,
                        forall|j: int| 0 <= j < i ==> (#[trigger] copied[j])@ == tags[j]@,
                    decreases tags.len() - i,
                {
                    copied.push(tags[i].copy());
                    i = i + 1;
                }
                assert(list_view(copied@) =~= list_view(tags@));
                NbtTag::List(copied)
            },
            NbtTag::Compound(compound) => NbtTag::Compound(compound.copy()),
            NbtTag::IntArray(values) => {
                let copied = values.clone();
                assert(copied@ =~= values@);
                NbtTag::IntArray(copied)
            },
            NbtTag::LongArray(values) => {
                let copied = values.clone();
                assert(copied@ =~= values@);
                NbtTag::LongArray(copied)
            },
        }
    }

    /// Whether both tags are the same value.
    #[verifier::loop_isolation(false)]
    pub fn same(&self, other: &NbtTag) -> (same: bool)
        ensures
            same == (self@ == other@),
        decreases self,
    {
        broadcast use lemma_list_view;

        match (self, other) {
            (NbtTag::Byte(a), NbtTag::Byte(b)) => *a == *b,
            (NbtTag::Short(a), NbtTag::Short(b)) => *a == *b,
            (NbtTag::Int(a), NbtTag::Int(b)) => *a == *b,
            (NbtTag::Long(a), NbtTag::Long(b)) => *a == *b,
            (NbtTag::Float(a), NbtTag::Float(b)) => *a == *b,
            (NbtTag::Double(a), NbtTag::Double(b)) => *a == *b,
            (NbtTag::ByteArray(a), NbtTag::ByteArray(b)) => {
                if a.len() != b.len() {
                    return false;
                }
                let mut i: usize = 0;
                while i < a.len()
                    invariant
                        i <= a.len() == b.len(),
                        forall|j: int| 0 <= j < i ==> a[j] == b[j],
                    decreases a.len() - i,
                {
                    if a[i] != b[i] {
                        assert(self@->ByteArray_0[i as int] != other@->ByteArray_0[i as int]);
                        return false;
                    }
                    i = i + 1;
                }
                assert(a@ =~= b@);
                true
            },
            (NbtTag::Text(a), NbtTag::Text(b)) => *a == *b,
            (NbtTag::List(a), NbtTag::List(b)) => {
                if a.len() != b.len() {
                    assert(list_view(a@).len() != list_view(b@).len());
                    return false;
                }
                let mut i: usize = 0;
                while i < a.len()
                    invariant
                        i <= a.len() == b.len(),
                        forall|j: int| 0 <= j < i ==> (#[trigger] a[j])@ == b[j]@,
                    decreases a.len() - i,
                {
                    if !a[i].same(&b[i]) {
                        assert(list_view(a@)[i as int] != list_view(b@)[i as int]);
                        return false;
                    }
                    i = i + 1;
                }
                assert(list_view(a@) =~= list_view(b@));
                true
            },
            (NbtTag::Compound(a), NbtTag::Compound(b)) => a.same(b),
            (NbtTag::IntArray(a), NbtTag::IntArray(b)) => {
                if a.len() != b.len() {
                    return false;
                }
                let mut i: usize = 0;
                while i < a.len()
                    invariant
                        i <= a.len() == b.len(),
                        forall|j: int| 0 <= j < i ==> a[j] == b[j],
                    decreases a.len() - i,
                {
                    if a[i] != b[i] {
                        assert(self@->IntArray_0[i as int] != other@->IntArray_0[i as int]);
                        return false;
                    }
                    i = i + 1;
                }
                assert(a@ =~= b@);
                true
            },
            (NbtTag::LongArray(a), NbtTag::LongArray(b)) => {
                if a.len() != b.len() {
                    return false;
                }
                let mut i: usize = 0;
                while i < a.len()
                    invariant
                        i <= a.len() == b.len(),
                        forall|j: int| 0 <= j < i ==> a[j] == b[j],
                    decreases a.len() - i,
                {
                    if a[i] != b[i] {
                        assert(self@->LongArray_0[i as int] != other@->LongArray_0[i as int]);
                        return false;
                    }
                    i = i + 1;
                }
                assert(a@ =~= b@);
                true
            },
            _ => false,
        }
    }
}

impl NbtCompound {
    pub fn new() -> (compound: Self)
        ensures
            compound@ == Seq::<(Seq<char>, Nbt)>::empty(),
    {
        let compound = NbtCompound { entries: Vec::new() };
        assert(compound@ =~= Seq::empty());
        compound
    }

    /// A copy of this compound.
    #[verifier::loop_isolation(false)]
    pub fn copy(&self) -> (compound: NbtCompound)
        ensures
            compound@ == self@,
        decreases self,
    {
        let mut entries: Vec<(String, NbtTag)> = Vec::new();
        let mut i: usize = 0;
        while i < self.entries.len()
            invariant
                i <= self.entries.len(),
                entries.len() == i,
                forall|j: int|
                    0 <= j < i ==> (#[trigger] entries[j]).0@ == self.entries[j].0@ && entries[j].1@
                        == self.entries[j].1@,
            decreases self.entries.len() - i,
        {
            let entry = &self.entries[i];
            assert(decreases_to!(self => self.entries@[i as int].1));
            entries.push((entry.0.clone(), entry.1.copy()));
            i = i + 1;
        }
        let compound = NbtCompound { entries };
        assert(compound@ =~= self@);
        compound
    }

    /// Whether both compounds hold the same entries in the same order.
    #[verifier::loop_isolation(false)]
    pub fn same(&self, other: &NbtCompound) -> (same: bool)
        ensures
            same == (self@ == other@),
        decreases self,
    {
        if self.entries.len() != other.entries.len() {
            assert(self@.len() != other@.len());
            return false;
        }
        let mut i: usize = 0;
        while i < self.entries.len()
            invariant
                i <= self.entries.len() == other.entries.len(),
                forall|j: int|
                    0 <= j < i ==> (#[trigger] self.entries[j]).0@ == other.entries[j].0@
                        && self.entries[j].1@ == other.entries[j].1@,
            decreases self.entries.len() - i,
        {
            let a = &self.entries[i];
            let b = &other.entries[i];
            assert(decreases_to!(self => self.entries@[i as int].1));
            if a.0 != b.0 || !a.1.same(&b.1) {
                assert(self@[i as int] != other@[i as int]);
                return false;
            }
            i = i + 1;
        }
        assert(self@ =~= other@);
        true
    }

    pub fn is_empty(&self) -> (empty: bool)
        ensures
            empty == (self@.len() == 0),
    {
        self.entries.len() == 0
    }

    pub fn len(&self) -> (len: usize)
        ensures
            len == self@.len(),
    {
        self.entries.len()
    }

    /// Adds an entry at the end. It does not replace an entry of the same name.
    pub fn insert(&mut self, name: &str, tag: NbtTag)
        ensures
            final(self)@ == old(self)@.push((name@, tag@)),
    {
        self.entries.push((name.to_owned(), tag));
        assert(self@ =~= old(self)@.push((name@, tag@)));
    }

    fn position(&self, name: &str) -> (at: usize)
        ensures
            at == entry_position(self@, name@),
            at <= self.entries@.len() == self@.len(),
    {
        let wanted = name.to_owned();
        let mut at: usize = 0;
        while at < self.entries.len() && self.entries[at].0 != wanted
            invariant
                at <= self.entries@.len() == self@.len(),
                wanted@ == name@,
                forall|j: int| 0 <= j < at ==> (#[trigger] self@[j]).0 != name@,
            decreases self.entries.len() - at,
        {
            at = at + 1;
        }
        proof {
            lemma_entry_position(self@, name@);
            if at < self@.len() {
                assert(self@[at as int].0 == name@);
            }
        }
        at
    }

    /// Stores a tag in place of the name's first tag, or at the end.
    pub fn put(&mut self, name: &str, tag: NbtTag)
        ensures
            final(self)@ == stored(old(self)@, name@, tag@),
    {
        let at: usize = self.position(name);
        if at < self.entries.len() {
            self.entries.set(at, (name.to_owned(), tag));
            assert(self@ =~= old(self)@.update(at as int, (name@, tag@)));
        } else {
            self.insert(name, tag);
        }
    }

    /// Removes the name's first tag.
    pub fn remove(&mut self, name: &str)
        ensures
            final(self)@ == without(old(self)@, name@),
    {
        let at: usize = self.position(name);
        if at < self.entries.len() {
            self.entries.remove(at);
            assert(self@ =~= old(self)@.remove(at as int));
        }
    }

    /// The first tag with the given name.
    pub fn get(&self, name: &str) -> (tag: Option<&NbtTag>)
        ensures
            match tag {
                Some(tag) => lookup(self@, name@) == Some(tag@),
                None => lookup(self@, name@) is None,
            },
    {
        let wanted = name.to_owned();
        let mut i: usize = 0;
        assert(self@.skip(0) =~= self@);
        while i < self.entries.len()
            invariant
                i <= self.entries.len(),
                wanted@ == name@,
                lookup(self@, name@) == lookup(self@.skip(i as int), name@),
            decreases self.entries.len() - i,
        {
            assert(self@.skip(i as int).drop_first() =~= self@.skip(i + 1));
            if self.entries[i].0 == wanted {
                return Some(&self.entries[i].1);
            }
            i = i + 1;
        }
        None
    }

    pub fn contains(&self, name: &str) -> (found: bool)
        ensures
            found == lookup(self@, name@) is Some,
    {
        self.get(name).is_some()
    }

    pub fn get_byte(&self, name: &str) -> (value: Option<i8>)
        ensures
            value == match lookup(self@, name@) {
                Some(Nbt::Byte(value)) => Some(value),
                _ => None,
            },
    {
        match self.get(name) {
            Some(NbtTag::Byte(value)) => Some(*value),
            _ => None,
        }
    }

    pub fn get_short(&self, name: &str) -> (value: Option<i16>)
        ensures
            value == match lookup(self@, name@) {
                Some(Nbt::Short(value)) => Some(value),
                _ => None,
            },
    {
        match self.get(name) {
            Some(NbtTag::Short(value)) => Some(*value),
            _ => None,
        }
    }

    pub fn get_int(&self, name: &str) -> (value: Option<i32>)
        ensures
            value == match lookup(self@, name@) {
                Some(Nbt::Int(value)) => Some(value),
                _ => None,
            },
    {
        match self.get(name) {
            Some(NbtTag::Int(value)) => Some(*value),
            _ => None,
        }
    }

    pub fn get_long(&self, name: &str) -> (value: Option<i64>)
        ensures
            value == match lookup(self@, name@) {
                Some(Nbt::Long(value)) => Some(value),
                _ => None,
            },
    {
        match self.get(name) {
            Some(NbtTag::Long(value)) => Some(*value),
            _ => None,
        }
    }

    pub fn get_text(&self, name: &str) -> (value: Option<&String>)
        ensures
            match (value, lookup(self@, name@)) {
                (Some(value), Some(Nbt::Text(text))) => value@ == text,
                (Some(_), _) => false,
                (None, found) => !(found matches Some(Nbt::Text(_))),
            },
    {
        match self.get(name) {
            Some(NbtTag::Text(value)) => Some(value),
            _ => None,
        }
    }

    pub fn get_list(&self, name: &str) -> (value: Option<&Vec<NbtTag>>)
        ensures
            match (value, lookup(self@, name@)) {
                (Some(value), Some(Nbt::List(tags))) => {
                    &&& value@.len() == tags.len()
                    &&& forall|i: int| 0 <= i < tags.len() ==> (#[trigger] value@[i])@ == tags[i]
                },
                (Some(_), _) => false,
                (None, found) => !(found matches Some(Nbt::List(_))),
            },
    {
        broadcast use lemma_list_view;

        match self.get(name) {
            Some(NbtTag::List(value)) => {
                assert(lookup(self@, name@) == Some(Nbt::List(list_view(value@))));
                Some(value)
            },
            _ => None,
        }
    }

    pub fn get_compound(&self, name: &str) -> (value: Option<&NbtCompound>)
        ensures
            match (value, lookup(self@, name@)) {
                (Some(value), Some(Nbt::Compound(entries))) => value@ == entries,
                (Some(_), _) => false,
                (None, found) => !(found matches Some(Nbt::Compound(_))),
            },
    {
        match self.get(name) {
            Some(NbtTag::Compound(value)) => Some(value),
            _ => None,
        }
    }
}

/// A removed entry is not found any more where its name occurs once, and removing it
/// changes no other lookup.
pub proof fn law_removed_entry_is_gone(
    entries: Seq<(Seq<char>, Nbt)>,
    name: Seq<char>,
    other: Seq<char>,
)
    ensures
        other != name ==> lookup(without(entries, name), other) == lookup(entries, other),
        (forall|i: int, j: int|
            0 <= i < j < entries.len() ==> (#[trigger] entries[i]).0 != (#[trigger] entries[j]).0)
            ==> lookup(without(entries, name), name) is None,
{
    let after = without(entries, name);
    let at = entry_position(entries, name);
    lemma_entry_position(entries, name);
    lemma_entry_position(entries, other);
    lemma_entry_position(after, other);
    lemma_entry_position(after, name);
    if at < entries.len() {
        assert forall|j: int| 0 <= j < after.len() implies #[trigger] after[j] == entries[if j < at {
            j
        } else {
            j + 1
        }] by {}
        if other != name {
            let there = entry_position(entries, other);
            let now = entry_position(after, other);
            if there < entries.len() {
                let place = if there < at {
                    there
                } else {
                    there - 1
                };
                assert(after[place].0 == other);
                assert(now <= place);
            }
            if now < after.len() {
                assert(after[now].0 == other);
                let place = if now < at {
                    now
                } else {
                    now + 1
                };
                assert(entries[place].0 == other);
                assert(there <= place);
            }
        }
        if forall|i: int, j: int|
            0 <= i < j < entries.len() ==> (#[trigger] entries[i]).0 != (
            #[trigger] entries[j]).0 {
            let now = entry_position(after, name);
            if now < after.len() {
                let place = if now < at {
                    now
                } else {
                    now + 1
                };
                assert(after[now] == entries[place]);
                assert(entries[at].0 == name);
            }
        }
    }
}

} // verus!
