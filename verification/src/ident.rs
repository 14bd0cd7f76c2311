//! Namespaced identifiers of registry values, written `namespace:path`.
use vstd::prelude::*;

verus! {

/// The two parts of an identifier as texts.
#[verifier::ext_equal]
pub ghost struct Id {
    pub namespace: Seq<char>,
    pub path: Seq<char>,
}

/// A registry key such as `minecraft:stone`.
#[derive(Debug, Hash, Eq)]
pub struct Identifier {
    pub namespace: String,
    pub path: String,
}

impl View for Identifier {
    type V = Id;

    open spec fn view(&self) -> Id {
        Id { namespace: self.namespace@, path: self.path@ }
    }
}

impl Clone for Identifier {
    fn clone(&self) -> (id: Self)
        ensures
            id == *self,
    {
        Identifier { namespace: self.namespace.clone(), path: self.path.clone() }
    }
}

impl PartialEq for Identifier {
    fn eq(&self, other: &Self) -> (same: bool) {
        self.namespace == other.namespace && self.path == other.path
    }
}

impl vstd::std_specs::cmp::PartialEqSpecImpl for Identifier {
    open spec fn obeys_eq_spec() -> bool {
        true
    }

    open spec fn eq_spec(&self, other: &Self) -> bool {
        self.namespace@ == other.namespace@ && self.path@ == other.path@
    }
}

/// The namespace that a bare path belongs to.
pub open spec fn default_namespace() -> Seq<char> {
    "minecraft"@
}

/// The identifier `minecraft:path`.
pub open spec fn vanilla_id(path: Seq<char>) -> Id {
    Id { namespace: default_namespace(), path }
}

/// Characters that a namespace may hold.
pub open spec fn namespace_char(c: char) -> bool {
    c == '_' || c == '-' || c == '.' || 'a' <= c <= 'z' || '0' <= c <= '9'
}

/// Characters that a path may hold.
pub open spec fn path_char(c: char) -> bool {
    namespace_char(c) || c == '/'
}

pub open spec fn valid_namespace(text: Seq<char>) -> bool {
    forall|i: int| 0 <= i < text.len() ==> namespace_char(#[trigger] text[i])
}

pub open spec fn valid_path(text: Seq<char>) -> bool {
    forall|i: int| 0 <= i < text.len() ==> path_char(#[trigger] text[i])
}

impl Id {
    /// Both parts hold only the characters that identifiers admit.
    pub open spec fn valid(self) -> bool {
        valid_namespace(self.namespace) && valid_path(self.path)
    }

    /// The text `namespace:path`.
    pub open spec fn text(self) -> Seq<char> {
        self.namespace + seq![':'] + self.path
    }
}

/// The identifier that `text` denotes, or `None` where it holds a character that
/// its part does not admit. The part before the first colon is the namespace; a
/// text without one, or with nothing before it, is a path of the default namespace.
pub open spec fn parse_id(text: Seq<char>) -> Option<Id> {
    let colon = text.index_of_first(':');
    let id = match colon {
        Some(at) => Id {
            namespace: if at == 0 {
                default_namespace()
            } else {
                text.subrange(0, at)
            },
            path: text.subrange(at + 1, text.len() as int),
        },
        None => vanilla_id(text),
    };
    if id.valid() {
        Some(id)
    } else {
        None
    }
}

fn is_namespace_char(c: char) -> (admitted: bool)
    ensures
        admitted == namespace_char(c),
{
    c == '_' || c == '-' || c == '.' || ('a' <= c && c <= 'z') || ('0' <= c && c <= '9')
}

/// Whether every character of a namespace (or, with `slash`, of a path) is admitted.
fn admitted(text: &str, slash: bool) -> (valid: bool)
    ensures
        valid == if slash {
            valid_path(text@)
        } else {
            valid_namespace(text@)
        },
{
    let len: usize = text.unicode_len();
    let mut i: usize = 0;
    while i < len
        invariant
            i <= len == text@.len(),
            forall|j: int|
                0 <= j < i ==> (namespace_char(#[trigger] text@[j]) || slash && text@[j] == '/'),
        decreases len - i,
    {
        let c = text.get_char(i);
        if !is_namespace_char(c) && !(slash && c == '/') {
            assert(!path_char(text@[i as int]) || !slash);
            assert(!namespace_char(text@[i as int]));
            return false;
        }
        i = i + 1;
    }
    assert(slash ==> valid_path(text@));
    true
}

impl Identifier {
    pub fn new(namespace: &str, path: &str) -> (id: Self)
        ensures
            id@ == (Id { namespace: namespace@, path: path@ }),
    {
        Identifier { namespace: namespace.to_owned(), path: path.to_owned() }
    }

    /// The identifier `minecraft:path`.
    pub fn vanilla(path: &str) -> (id: Self)
        ensures
            id@ == vanilla_id(path@),
    {
        Identifier { namespace: "minecraft".to_owned(), path: path.to_owned() }
    }

    /// Whether both parts are the same texts.
    pub fn same(&self, other: &Identifier) -> (same: bool)
        ensures
            same == (self@ == other@),
    {
        self.namespace == other.namespace && self.path == other.path
    }

    /// Whether this is `minecraft:path`.
    pub fn is_vanilla(&self, path: &str) -> (same: bool)
        ensures
            same == (self@ == vanilla_id(path@)),
    {
        let other = Identifier::vanilla(path);
        self.same(&other)
    }

    /// Whether the path is the given text.
    pub fn has_path(&self, path: &str) -> (same: bool)
        ensures
            same == (self@.path == path@),
    {
        self.path == path.to_owned()
    }

    /// The text `namespace:path`.
    pub fn text(&self) -> (text: String)
        ensures
            text@ == self@.text(),
    {
        let mut text = self.namespace.clone();
        proof {
            reveal_strlit(":");
        }
        text.append(":");
        text.append(self.path.as_str());
        assert(":"@ =~= seq![':']);
        text
    }

    /// Reads an identifier from its text.
    pub fn parse(text: &str) -> (id: Option<Self>)
        ensures
            match id {
                Some(id) => parse_id(text@) == Some(id@),
                None => parse_id(text@) is None,
            },
    {
        let len: usize = text.unicode_len();
        let mut at: usize = 0;
        while at < len && text.get_char(at) != ':'
            invariant
                at <= len == text@.len(),
                forall|j: int| 0 <= j < at ==> text@[j] != ':',
            decreases len - at,
        {
            at = at + 1;
        }
        let id = if at == len {
            proof {
                text@.index_of_first_ensures(':');
            }
            assert(text@.index_of_first(':') is None);
            Identifier::vanilla(text)
        } else {
            proof {
                text@.index_of_first_ensures(':');
            }
            assert(text@.contains(':')) by {
                assert(text@[at as int] == ':');
            }
            assert(text@.index_of_first(':') == Some(at as int));
            let path = text.substring_char(at + 1, len);
            if at == 0 {
                Identifier::vanilla(path)
            } else {
                Identifier::new(text.substring_char(0, at), path)
            }
        };
        if admitted(id.namespace.as_str(), false) && admitted(id.path.as_str(), true) {
            Some(id)
        } else {
            None
        }
    }
}

/// A valid identifier is read back from its own text.
pub proof fn law_text_is_parsed_back(id: Id)
    requires
        id.valid(),
        id.namespace.len() > 0,
    ensures
        parse_id(id.text()) == Some(id),
{
    let text = id.text();
    let at = id.namespace.len() as int;
    assert(text[at] == ':');
    text.index_of_first_ensures(':');
    assert(text.contains(':'));
    let first = text.index_of_first(':')->Some_0;
    if first < at {
        assert(text[first] == id.namespace[first]);
        assert(namespace_char(id.namespace[first]));
    }
    assert(first == at);
    assert(text.subrange(0, at) =~= id.namespace);
    assert(text.subrange(at + 1, text.len() as int) =~= id.path);
}

} // verus!
