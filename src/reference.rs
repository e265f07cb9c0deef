//! The pinned reference of the toolkit that examples are built against, and
//! the build manifest rendered from it.
use vstd::prelude::*;

verus! {

#[verifier::external_type_specification]
#[verifier::external_body]
#[verifier::reject_recursive_types(K)]
#[verifier::reject_recursive_types(V)]
pub struct ExTomlMap<K, V>(toml::map::Map<K, V>);

#[verifier::external_type_specification]
#[verifier::external_body]
pub struct ExTomlValue(toml::Value);

/// The entries of a configuration table that hold strings, by key.
pub uninterp spec fn string_entries(t: toml::map::Map<String, toml::Value>) -> Map<
    Seq<char>,
    Seq<char>,
>;

/// Relies on `toml::map::Map::get`: the value under `key`, taken when it is a string.
#[verifier::external_body]
fn string_entry(table: &toml::map::Map<String, toml::Value>, key: &str) -> (r: Option<String>)
    ensures
        r is Some <==> string_entries(*table).contains_key(key@),
        r is Some ==> r->0@ == string_entries(*table)[key@],
{
    match table.get(key) {
        Some(toml::Value::String(s)) => Some(s.clone()),
        _ => None,
    }
}

/// The git reference that pins the toolkit.
#[derive(Debug, Clone, PartialEq, Eq, PartialOrd, Ord)]
pub enum Reference {
    Revision(String),
    Branch(String),
    Tag(String),
}

/// A reference seen as its kind and its value.
pub enum ReferenceView {
    Revision(Seq<char>),
    Branch(Seq<char>),
    Tag(Seq<char>),
}

impl View for Reference {
    type V = ReferenceView;

    open spec fn view(&self) -> ReferenceView {
        match self {
            Reference::Revision(s) => ReferenceView::Revision(s@),
            Reference::Branch(s) => ReferenceView::Branch(s@),
            Reference::Tag(s) => ReferenceView::Tag(s@),
        }
    }
}

/// The configuration names no reference.
#[derive(Debug, Clone, Copy, PartialEq, Eq)]
pub enum ConfigError {
    MissingReference,
}

impl ConfigError {
    /// A description of the error for people.
    pub fn message(&self) -> String {
        String::from_str(
            "No Git reference found for `iced` in the preprocessor configuration. Please, specify a `rev`, `branch` or `tag`.",
        )
    }
}

pub open spec fn rev_key() -> Seq<char> {
    seq!['r', 'e', 'v']
}

pub open spec fn branch_key() -> Seq<char> {
    seq!['b', 'r', 'a', 'n', 'c', 'h']
}

pub open spec fn tag_key() -> Seq<char> {
    seq!['t', 'a', 'g']
}

/// The reference that a table of string entries names: `rev` first, then
/// `branch`, then `tag`.
pub open spec fn reference_in(m: Map<Seq<char>, Seq<char>>) -> Option<ReferenceView> {
    if m.contains_key(rev_key()) {
        Some(ReferenceView::Revision(m[rev_key()]))
    } else if m.contains_key(branch_key()) {
        Some(ReferenceView::Branch(m[branch_key()]))
    } else if m.contains_key(tag_key()) {
        Some(ReferenceView::Tag(m[tag_key()]))
    } else {
        None
    }
}

impl Reference {
    /// Reads the reference from the preprocessor's configuration table.
    pub fn parse(table: &toml::map::Map<String, toml::Value>) -> (r: Result<Reference, ConfigError>)
        ensures
            match reference_in(string_entries(*table)) {
                Some(v) => r is Ok && r->Ok_0@ == v,
                None => r == Err::<Reference, ConfigError>(ConfigError::MissingReference),
            },
    {
        let (rev, branch, tag) = ("rev", "branch", "tag");
        proof {
            reveal_strlit("rev");
            reveal_strlit("branch");
            reveal_strlit("tag");
            assert(rev@ =~= rev_key());
            assert(branch@ =~= branch_key());
            assert(tag@ =~= tag_key());
        }
        if let Some(revision) = string_entry(table, rev) {
            return Ok(Reference::Revision(revision));
        }
        if let Some(branch) = string_entry(table, branch) {
            return Ok(Reference::Branch(branch));
        }
        if let Some(tag) = string_entry(table, tag) {
            return Ok(Reference::Tag(tag));
        }
        Err(ConfigError::MissingReference)
    }

    /// The manifest line that pins the toolkit to this reference.
    pub fn pin(&self) -> (r: String)
        ensures
            r@ == pin_line(self@),
    {
        let (key, value) = match self {
            Reference::Revision(s) => ("rev = \"", s),
            Reference::Branch(s) => ("branch = \"", s),
            Reference::Tag(s) => ("tag = \"", s),
        };
        proof {
            reveal_strlit("rev = \"");
            reveal_strlit("branch = \"");
            reveal_strlit("tag = \"");
            reveal_strlit("\"");
        }
        String::from_str(key).concat(value.as_str()).concat("\"")
    }

    /// The build manifest with this reference in its one substitution point.
    pub fn manifest(&self) -> (r: String)
        ensures
            r@ == manifest_of(self@),
    {
        let pin = self.pin();
        String::from_str(MANIFEST_HEAD).concat(pin.as_str()).concat(MANIFEST_TAIL)
    }
}

pub open spec fn quoted(key: Seq<char>, value: Seq<char>) -> Seq<char> {
    key + seq![' ', '=', ' ', '"'] + value + seq!['"']
}

/// The manifest entry that pins a reference, as in `rev = "abc"`.
pub open spec fn pin_line(r: ReferenceView) -> Seq<char> {
    match r {
        ReferenceView::Revision(s) => quoted(rev_key(), s),
        ReferenceView::Branch(s) => quoted(branch_key(), s),
        ReferenceView::Tag(s) => quoted(tag_key(), s),
    }
}

/// The build manifest up to the reference of the toolkit.
pub const MANIFEST_HEAD: &'static str = "[package]
name = \"iceberg\"
version = \"0.0.0\"
edition = \"2021\"
publish = false

[dependencies.iced]
git = \"https://github.com/iced-rs/iced.git\"
";

/// The build manifest after the reference of the toolkit.
pub const MANIFEST_TAIL: &'static str = "
features = [\"web-colors\", \"webgl\"]
";

/// The build manifest rendered for a reference.
pub open spec fn manifest_of(r: ReferenceView) -> Seq<char> {
    MANIFEST_HEAD@ + pin_line(r) + MANIFEST_TAIL@
}

pub proof fn lemma_quoted_value(key: Seq<char>, value: Seq<char>)
    ensures
        quoted(key, value)[0] == key[0] || key.len() == 0,
        quoted(key, value).subrange(key.len() + 4int, quoted(key, value).len() - 1int) == value,
{
    assert(quoted(key, value).subrange(key.len() + 4int, quoted(key, value).len() - 1int) =~= value);
}

/// Different references render different manifests.
pub proof fn lemma_manifest_distinct(r1: ReferenceView, r2: ReferenceView)
    requires
        r1 != r2,
    ensures
        manifest_of(r1) != manifest_of(r2),
{
    if manifest_of(r1) == manifest_of(r2) {
        let (m1, m2) = (manifest_of(r1), manifest_of(r2));
        let h = MANIFEST_HEAD@.len();
        let t = MANIFEST_TAIL@.len();
        assert(m1.subrange(h as int, m1.len() - t) =~= pin_line(r1));
        assert(m2.subrange(h as int, m2.len() - t) =~= pin_line(r2));
        assert(pin_line(r1) == pin_line(r2));
        match (r1, r2) {
            (ReferenceView::Revision(a), ReferenceView::Revision(b)) => {
                lemma_quoted_value(rev_key(), a);
                lemma_quoted_value(rev_key(), b);
            },
            (ReferenceView::Branch(a), ReferenceView::Branch(b)) => {
                lemma_quoted_value(branch_key(), a);
                lemma_quoted_value(branch_key(), b);
            },
            (ReferenceView::Tag(a), ReferenceView::Tag(b)) => {
                lemma_quoted_value(tag_key(), a);
                lemma_quoted_value(tag_key(), b);
            },
            _ => {
                assert(pin_line(r1)[0] != pin_line(r2)[0]);
            },
        }
    }
}

} // verus!
