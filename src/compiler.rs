//! The content-addressed cache of compiled examples: how a handle is derived
//! from source text and environment, and what retention and release do with
//! the directories of the cache store.
use vstd::prelude::*;
use vstd::string::*;
use crate::reference::{Reference, manifest_of};
use crate::text::{
    decimal, decimal_string, hex_of, hex_string, join, join_lines, lines_of, split_lines, views,
};
use sha2::Digest;

verus! {

#[verifier::external_type_specification]
#[verifier::external_body]
pub struct ExPathBuf(std::path::PathBuf);

/// The path `base` with `part` appended.
pub uninterp spec fn path_join(base: std::path::PathBuf, part: Seq<char>) -> std::path::PathBuf;

/// Relies on `std::path::Path::join`: `base` with `part` appended, which depends
/// on the two alone.
#[verifier::external_body]
fn join_path(base: &std::path::PathBuf, part: &str) -> (r: std::path::PathBuf)
    ensures
        r == path_join(*base, part@),
{
    base.join(part)
}

/// The build workspace under a book's root: `target/icebergs`.
pub open spec fn build_path(root: std::path::PathBuf) -> std::path::PathBuf {
    path_join(path_join(root, seq!['t', 'a', 'r', 'g', 'e', 't']), seq!['i', 'c', 'e', 'b', 'e', 'r', 'g', 's'])
}

/// Where the source of the example being built goes: `src` in the workspace.
pub open spec fn source_path(root: std::path::PathBuf) -> std::path::PathBuf {
    path_join(build_path(root), seq!['s', 'r', 'c'])
}

/// The cache store: `target/mdbook` in the workspace.
pub open spec fn artifacts_path(root: std::path::PathBuf) -> std::path::PathBuf {
    path_join(path_join(build_path(root), seq!['t', 'a', 'r', 'g', 'e', 't']), seq!['m', 'd', 'b', 'o', 'o', 'k'])
}

/// The SHA-256 digest of the UTF-8 encoding of a text.
pub uninterp spec fn sha256_of(text: Seq<char>) -> Seq<u8>;

/// Relies on `sha2::Sha256::digest` over the bytes of `text`: its 32-byte digest.
#[verifier::external_body]
fn sha256(text: &str) -> (r: Vec<u8>)
    ensures
        r@ == sha256_of(text@),
        r@.len() == 32,
{
    sha2::Sha256::digest(text.as_bytes()).to_vec()
}

/// What std's default hasher makes of a string.
pub uninterp spec fn std_hash_of(text: Seq<char>) -> u64;

/// Relies on `BuildHasher::hash_one` with std's `DefaultHasher` built by
/// `BuildHasherDefault`: a hash of the string that depends on it alone.
#[verifier::external_body]
fn std_hash(text: &String) -> (r: u64)
    ensures
        r == std_hash_of(text@),
{
    std::hash::BuildHasher::hash_one(
        &std::hash::BuildHasherDefault::<std::hash::DefaultHasher>::default(),
        text,
    )
}

/// The prefix that marks a line as hidden in the rendered page.
pub open spec fn hidden_marker() -> Seq<char> {
    seq!['#', ' ']
}

/// A line without its hidden-line marker, if it has one.
pub open spec fn unhide(l: Seq<char>) -> Seq<char> {
    if l.len() >= 2 && l[0] == '#' && l[1] == ' ' {
        l.subrange(2, l.len() as int)
    } else {
        l
    }
}

/// The source that is compiled for a code block: its lines, unhidden, joined
/// by single newlines.
pub open spec fn normalized(code: Seq<char>) -> Seq<char> {
    join_lines(lines_of(code).map_values(|l: Seq<char>| unhide(l)))
}

/// The text whose digest names an artifact: the normalized source followed by
/// the environment's hash in decimal.
pub open spec fn keyed_text(code: Seq<char>, environment: u64) -> Seq<char> {
    normalized(code) + decimal(environment as nat)
}

/// The name of the artifact compiled from `code` in `environment`.
pub open spec fn artifact_name(code: Seq<char>, environment: u64) -> Seq<char> {
    hex_of(sha256_of(keyed_text(code, environment)))
}

/// The hash of the environment that a reference pins.
pub open spec fn environment_of(r: crate::reference::ReferenceView) -> u64 {
    std_hash_of(manifest_of(r))
}

/// Removes the hidden-line marker from the front of `line`.
fn unhide_line(line: &str) -> (r: String)
    ensures
        r@ == unhide(line@),
{
    let n = line.unicode_len();
    if n >= 2 && line.get_char(0) == '#' && line.get_char(1) == ' ' {
        String::from_str(line.substring_char(2, n))
    } else {
        String::from_str(line)
    }
}

/// The digest of a content hash, in lower-case hexadecimal.
#[derive(Debug, Clone, PartialEq, Eq, PartialOrd, Ord, Hash)]
pub struct Hash(String);

impl View for Hash {
    type V = Seq<char>;

    closed spec fn view(&self) -> Seq<char> {
        self.0@
    }
}

impl Hash {
    /// The hexadecimal text of the hash.
    pub fn as_str(&self) -> (r: &str)
        ensures
            r@ == self@,
    {
        self.0.as_str()
    }
}

/// The handle of one compiled artifact, named by its content hash.
#[derive(Debug, Clone, PartialEq, Eq, PartialOrd, Ord, Hash)]
pub struct Iceberg {
    hash: Hash,
}

impl View for Iceberg {
    type V = Seq<char>;

    closed spec fn view(&self) -> Seq<char> {
        self.hash@
    }
}

/// The markup of the start of a page's embeds, before the handle's hash.
pub const EMBED_HEAD: &'static str = "<div class=\"iceberg\" data-hash=\"";

/// The markup between the hash and the embed's identifier.
pub const EMBED_ID: &'static str = "\" id=\"iceberg-";

/// The markup between the identifier and the height.
pub const EMBED_HEIGHT: &'static str = "\" style=\"height: ";

/// The markup after the height.
pub const EMBED_TAIL: &'static str = "\"></div>";

/// The height of an embed when the code block asks for none.
pub const DEFAULT_HEIGHT: &'static str = "200px";

/// The shared script that loads and starts each embed of a page.
pub const LIBRARY: &'static str = "<script type=\"module\">
const icebergs = document.querySelectorAll(\".iceberg\");

for (const iceberg of icebergs) {
  const hash = iceberg.dataset.hash;
  import(`/.icebergs/${hash}/iceberg.js`).then((module) => module.default());
}
</script>";

/// The embed markup of the artifact named `hash`, with identifier `id` and
/// height `height`.
pub open spec fn embed_markup(hash: Seq<char>, id: u64, height: Option<Seq<char>>) -> Seq<char> {
    EMBED_HEAD@ + hash + EMBED_ID@ + decimal(id as nat) + EMBED_HEIGHT@ + match height {
        Some(h) => h,
        None => DEFAULT_HEIGHT@,
    } + EMBED_TAIL@
}

impl Iceberg {
    /// The handle whose hash is `hash`.
    pub fn from_hash(hash: String) -> (r: Iceberg)
        ensures
            r@ == hash@,
    {
        Iceberg { hash: Hash(hash) }
    }

    /// A second handle equal to this one.
    pub fn duplicate(&self) -> (r: Iceberg)
        ensures
            r == *self,
    {
        Iceberg { hash: Hash(self.hash.0.clone()) }
    }

    /// The hash that names this artifact.
    pub fn hash(&self) -> (r: &Hash)
        ensures
            r@ == self@,
    {
        &self.hash
    }

    /// The markup that embeds this artifact, with the identifier `id`, unique
    /// on the page, and the given height or a default one.
    pub fn embed(&self, id: u64, height: Option<&str>) -> (r: String)
        ensures
            r@ == embed_markup(
                self@,
                id,
                match height {
                    Some(h) => Some(h@),
                    None => None,
                },
            ),
    {
        let height = match height {
            Some(h) => h,
            None => DEFAULT_HEIGHT,
        };
        let id = decimal_string(id);
        String::from_str(EMBED_HEAD).concat(self.hash.as_str()).concat(EMBED_ID).concat(
            id.as_str(),
        ).concat(EMBED_HEIGHT).concat(height).concat(EMBED_TAIL)
    }
}

/// The build environment: where examples are built and cached, and the hash of
/// the manifest they are built with.
#[derive(Debug)]
pub struct Compiler {
    build: std::path::PathBuf,
    src: std::path::PathBuf,
    artifacts: std::path::PathBuf,
    manifest: String,
    hash: u64,
}

impl Compiler {
    /// The environment for `reference` in the book rooted at `root`; the
    /// directories are not made here.
    pub fn set_up(root: &std::path::PathBuf, reference: &Reference) -> (r: Compiler)
        ensures
            r.manifest_text() == manifest_of(reference@),
            r.environment() == environment_of(reference@),
            *r.build_dir() == build_path(*root),
            *r.source_dir() == source_path(*root),
            *r.artifacts_dir() == artifacts_path(*root),
    {
        let (target_part, build_part, src_part, artifacts_part) = (
            "target",
            "icebergs",
            "src",
            "mdbook",
        );
        proof {
            reveal_strlit("target");
            reveal_strlit("icebergs");
            reveal_strlit("src");
            reveal_strlit("mdbook");
            assert(target_part@ =~= seq!['t', 'a', 'r', 'g', 'e', 't']);
            assert(build_part@ =~= seq!['i', 'c', 'e', 'b', 'e', 'r', 'g', 's']);
            assert(src_part@ =~= seq!['s', 'r', 'c']);
            assert(artifacts_part@ =~= seq!['m', 'd', 'b', 'o', 'o', 'k']);
        }
        let target = join_path(root, target_part);
        let build = join_path(&target, build_part);
        let src = join_path(&build, src_part);
        let build_target = join_path(&build, target_part);
        let artifacts = join_path(&build_target, artifacts_part);
        let manifest = reference.manifest();
        let hash = std_hash(&manifest);
        Compiler { build, src, artifacts, manifest, hash }
    }

    /// The directory of the build workspace.
    #[verifier::when_used_as_spec(spec_build_dir)]
    pub fn build_dir(&self) -> (r: &std::path::PathBuf)
        ensures
            *r == self.spec_build_dir(),
    {
        &self.build
    }

    pub closed spec fn spec_build_dir(&self) -> &std::path::PathBuf {
        &self.build
    }

    /// The directory that receives the source of the example being built.
    #[verifier::when_used_as_spec(spec_source_dir)]
    pub fn source_dir(&self) -> (r: &std::path::PathBuf)
        ensures
            *r == self.spec_source_dir(),
    {
        &self.src
    }

    pub closed spec fn spec_source_dir(&self) -> &std::path::PathBuf {
        &self.src
    }

    /// The cache store: one directory per artifact, named by its hash.
    #[verifier::when_used_as_spec(spec_artifacts_dir)]
    pub fn artifacts_dir(&self) -> (r: &std::path::PathBuf)
        ensures
            *r == self.spec_artifacts_dir(),
    {
        &self.artifacts
    }

    pub closed spec fn spec_artifacts_dir(&self) -> &std::path::PathBuf {
        &self.artifacts
    }

    /// The rendered build manifest.
    pub fn manifest(&self) -> (r: &String)
        ensures
            r@ == self.manifest_text(),
    {
        &self.manifest
    }

    /// The text of the rendered build manifest.
    pub closed spec fn manifest_text(&self) -> Seq<char> {
        self.manifest@
    }

    /// The hash of the rendered manifest, which salts every artifact name.
    #[verifier::when_used_as_spec(spec_environment)]
    pub fn environment(&self) -> (r: u64)
        ensures
            r == self.spec_environment(),
    {
        self.hash
    }

    pub closed spec fn spec_environment(&self) -> u64 {
        self.hash
    }

    /// The source that is compiled for `code`: each line without its hidden
    /// marker, the lines joined by single newlines.
    pub fn normalize(code: &str) -> (r: String)
        ensures
            r@ == normalized(code@),
    {
        let lines = split_lines(code);
        let mut shown: Vec<String> = Vec::new();
        let mut i: usize = 0;
        while i < lines.len()
            invariant
                i <= lines.len(),
                views(lines@) == lines_of(code@),
                views(shown@) =~= lines_of(code@).subrange(0, i as int).map_values(
                    |l: Seq<char>| unhide(l),
                ),
            decreases lines.len() - i,
        {
            let line = unhide_line(lines[i].as_str());
            let ghost before = views(shown@);
            shown.push(line);
            proof {
                assert(views(lines@)[i as int] == lines@[i as int]@);
                assert(views(shown@) =~= before.push(line@));
                assert(lines_of(code@).subrange(0, i + 1) =~= lines_of(code@).subrange(
                    0,
                    i as int,
                ).push(lines_of(code@)[i as int]));
            }
            i = i + 1;
        }
        assert(lines_of(code@).subrange(0, i as int) =~= lines_of(code@));
        join(&shown)
    }

    /// The handle of the artifact that `code` compiles to in this environment.
    /// The artifact may or may not be in the cache store yet.
    pub fn iceberg(&self, code: &str) -> (r: Iceberg)
        ensures
            r@ == artifact_name(code@, self.environment()),
            r@.len() == 64,
    {
        let source = Compiler::normalize(code);
        let environment = decimal_string(self.hash);
        let keyed = source.concat(environment.as_str());
        let digest = sha256(keyed.as_str());
        Iceberg::from_hash(hex_string(&digest))
    }
}

/// The names of the live handles.
pub open spec fn live_names(icebergs: Seq<Iceberg>) -> Set<Seq<char>> {
    Set::new(|n: Seq<char>| exists|i: int| 0 <= i < icebergs.len() && icebergs[i]@ == n)
}

/// The entries of a directory, in order, whose names are not live.
pub open spec fn removals(entries: Seq<Seq<char>>, live: Set<Seq<char>>) -> Seq<Seq<char>>
    decreases entries.len(),
{
    if entries.len() == 0 {
        Seq::empty()
    } else {
        let r = removals(entries.drop_last(), live);
        if live.contains(entries.last()) {
            r
        } else {
            r.push(entries.last())
        }
    }
}

/// The handles, in order, whose names are not present, each name once.
pub open spec fn missing(icebergs: Seq<Iceberg>, present: Set<Seq<char>>) -> Seq<Iceberg>
    decreases icebergs.len(),
{
    if icebergs.len() == 0 {
        Seq::empty()
    } else {
        let r = missing(icebergs.drop_last(), present);
        if present.contains(icebergs.last()@) || live_names(icebergs.drop_last()).contains(
            icebergs.last()@,
        ) {
            r
        } else {
            r.push(icebergs.last())
        }
    }
}

/// The names in a directory that held `entries` once a release for
/// `icebergs` has removed and copied what it planned.
pub open spec fn released_names(entries: Seq<Seq<char>>, icebergs: Seq<Iceberg>) -> Set<Seq<char>> {
    entries.to_set().difference(removals(entries, live_names(icebergs)).to_set()).union(
        missing(icebergs, entries.to_set()).map_values(|i: Iceberg| i@).to_set(),
    )
}

/// What a release does to a directory: the entries it deletes, then the
/// artifacts it copies in from the cache store.
pub struct Release {
    pub remove: Vec<String>,
    pub copy: Vec<Iceberg>,
}

/// Whether one of the first `upto` of `icebergs` is named `name`.
fn is_live(icebergs: &Vec<Iceberg>, upto: usize, name: &String) -> (r: bool)
    requires
        upto <= icebergs@.len(),
    ensures
        r == live_names(icebergs@.subrange(0, upto as int)).contains(name@),
{
    let mut i: usize = 0;
    while i < upto
        invariant
            i <= upto <= icebergs@.len(),
            forall|j: int| 0 <= j < i ==> icebergs@[j]@ != name@,
        decreases icebergs.len() - i,
    {
        if icebergs[i].hash.0 == *name {
            assert(icebergs@.subrange(0, upto as int)[i as int]@ == name@);
            return true;
        }
        i = i + 1;
    }
    proof {
        let s = icebergs@.subrange(0, upto as int);
        if live_names(s).contains(name@) {
            let j = choose|j: int| 0 <= j < s.len() && s[j]@ == name@;
            assert(icebergs@[j]@ == name@);
        }
    }
    false
}

/// Whether one of `entries` is `name`.
fn is_present(entries: &Vec<String>, name: &String) -> (r: bool)
    ensures
        r == views(entries@).to_set().contains(name@),
{
    let mut i: usize = 0;
    while i < entries.len()
        invariant
            i <= entries.len(),
            forall|j: int| 0 <= j < i ==> entries@[j]@ != name@,
        decreases entries.len() - i,
    {
        if entries[i] == *name {
            assert(views(entries@)[i as int] == name@);
            return true;
        }
        i = i + 1;
    }
    assert(!views(entries@).contains(name@));
    false
}

impl Compiler {
    /// The entries of a directory that retention deletes: those named by no
    /// live handle, in the order listed.
    pub fn retain(&self, icebergs: &Vec<Iceberg>, entries: &Vec<String>) -> (r: Vec<String>)
        ensures
            views(r@) == removals(views(entries@), live_names(icebergs@)),
    {
        let mut r: Vec<String> = Vec::new();
        let mut i: usize = 0;
        while i < entries.len()
            invariant
                i <= entries.len(),
                views(r@) == removals(views(entries@).subrange(0, i as int), live_names(icebergs@)),
            decreases entries.len() - i,
        {
            let ghost before = views(r@);
            assert(views(entries@).subrange(0, i + 1).drop_last() =~= views(entries@).subrange(
                0,
                i as int,
            ));
            assert(icebergs@.subrange(0, icebergs@.len() as int) =~= icebergs@);
            if !is_live(icebergs, icebergs.len(), &entries[i]) {
                r.push(entries[i].clone());
                assert(views(r@) =~= before.push(entries@[i as int]@));
            }
            i = i + 1;
        }
        assert(views(entries@).subrange(0, i as int) =~= views(entries@));
        r
    }

    /// The release of `icebergs` into a directory that holds `entries`: the
    /// entries that retention deletes, then the live handles whose artifacts
    /// are not there yet.
    pub fn release(&self, icebergs: &Vec<Iceberg>, entries: &Vec<String>) -> (r: Release)
        ensures
            views(r.remove@) == removals(views(entries@), live_names(icebergs@)),
            r.copy@ == missing(icebergs@, views(entries@).to_set()),
            r.copy@.map_values(|i: Iceberg| i@).no_duplicates(),
    {
        let remove = self.retain(icebergs, entries);
        let mut copy: Vec<Iceberg> = Vec::new();
        let mut i: usize = 0;
        while i < icebergs.len()
            invariant
                i <= icebergs.len(),
                copy@ == missing(icebergs@.subrange(0, i as int), views(entries@).to_set()),
            decreases icebergs.len() - i,
        {
            assert(icebergs@.subrange(0, i + 1).drop_last() =~= icebergs@.subrange(0, i as int));
            if !is_present(entries, &icebergs[i].hash.0) && !is_live(
                icebergs,
                i,
                &icebergs[i].hash.0,
            ) {
                let iceberg = Iceberg { hash: Hash(icebergs[i].hash.0.clone()) };
                assert(iceberg == icebergs@[i as int]);
                copy.push(iceberg);
            }
            i = i + 1;
        }
        assert(icebergs@.subrange(0, i as int) =~= icebergs@);
        proof {
            lemma_missing_distinct(icebergs@, views(entries@).to_set());
        }
        Release { remove, copy }
    }
}

pub proof fn lemma_removals(entries: Seq<Seq<char>>, live: Set<Seq<char>>, n: Seq<char>)
    ensures
        removals(entries, live).contains(n) <==> entries.contains(n) && !live.contains(n),
    decreases entries.len(),
{
    if entries.len() > 0 {
        let init = entries.drop_last();
        lemma_removals(init, live, n);
        assert(entries =~= init.push(entries.last()));
        if entries.contains(n) && !init.contains(n) {
            let j = choose|j: int| 0 <= j < entries.len() && entries[j] == n;
            if j < init.len() {
                assert(init[j] == n);
            }
        }
        if init.contains(n) {
            let j = choose|j: int| 0 <= j < init.len() && init[j] == n;
            assert(entries[j] == n);
        }
        let r = removals(init, live);
        if !live.contains(entries.last()) && r.contains(n) {
            let j = choose|j: int| 0 <= j < r.len() && r[j] == n;
            assert(r.push(entries.last())[j] == n);
        }
        if !live.contains(entries.last()) && n == entries.last() {
            assert(r.push(entries.last())[r.len() as int] == n);
        }
        if !live.contains(entries.last()) && r.push(entries.last()).contains(n) && n
            != entries.last() {
            let j = choose|j: int|
                0 <= j < r.push(entries.last()).len() && r.push(entries.last())[j] == n;
            assert(r[j] == n);
        }
    }
}

pub proof fn lemma_missing(icebergs: Seq<Iceberg>, present: Set<Seq<char>>, n: Seq<char>)
    ensures
        missing(icebergs, present).map_values(|i: Iceberg| i@).contains(n) <==> live_names(
            icebergs,
        ).contains(n) && !present.contains(n),
    decreases icebergs.len(),
{
    let f = |i: Iceberg| i@;
    if icebergs.len() > 0 {
        let init = icebergs.drop_last();
        lemma_missing(init, present, n);
        let r = missing(init, present);
        let last = icebergs.last();
        if live_names(icebergs).contains(n) && !live_names(init).contains(n) {
            let j = choose|j: int| 0 <= j < icebergs.len() && icebergs[j]@ == n;
            if j < init.len() {
                assert(init[j]@ == n);
            }
        }
        if live_names(init).contains(n) {
            let j = choose|j: int| 0 <= j < init.len() && init[j]@ == n;
            assert(icebergs[j]@ == n);
        }
        if present.contains(last@) || live_names(init).contains(last@) {
            if n == last@ {
                assert(live_names(icebergs).contains(n));
            }
        } else {
            let rp = r.push(last);
            assert(rp.map_values(f) =~= r.map_values(f).push(last@));
            if r.map_values(f).contains(n) {
                let j = choose|j: int| 0 <= j < r.map_values(f).len() && r.map_values(f)[j] == n;
                assert(rp.map_values(f)[j] == n);
            }
            if n == last@ {
                assert(rp.map_values(f)[r.len() as int] == n);
            }
            if rp.map_values(f).contains(n) && n != last@ {
                let j = choose|j: int| 0 <= j < rp.map_values(f).len() && rp.map_values(f)[j] == n;
                assert(r.map_values(f)[j] == n);
            }
        }
    } else {
        assert(missing(icebergs, present).map_values(f) =~= Seq::<Seq<char>>::empty());
    }
}

/// A release copies each name once.
pub proof fn lemma_missing_distinct(icebergs: Seq<Iceberg>, present: Set<Seq<char>>)
    ensures
        missing(icebergs, present).map_values(|i: Iceberg| i@).no_duplicates(),
    decreases icebergs.len(),
{
    let f = |i: Iceberg| i@;
    if icebergs.len() > 0 {
        let init = icebergs.drop_last();
        let last = icebergs.last();
        lemma_missing_distinct(init, present);
        let r = missing(init, present);
        if !(present.contains(last@) || live_names(init).contains(last@)) {
            lemma_missing(init, present, last@);
            let rp = r.push(last);
            assert(rp.map_values(f) =~= r.map_values(f).push(last@));
            assert forall|a: int, b: int|
                0 <= a < b < rp.len() implies rp.map_values(f)[a] != rp.map_values(f)[b] by {
                if b == r.len() {
                    assert(r.map_values(f).contains(r.map_values(f)[a]));
                }
            }
        }
    }
}

/// After retention, a directory holds exactly the live names that it held
/// before, whatever else it held.
pub proof fn lemma_retain_keeps_live(entries: Seq<Seq<char>>, icebergs: Seq<Iceberg>)
    ensures
        entries.to_set().difference(removals(entries, live_names(icebergs)).to_set())
            == entries.to_set().intersect(live_names(icebergs)),
{
    assert forall|n: Seq<char>|
        #[trigger] entries.to_set().difference(
            removals(entries, live_names(icebergs)).to_set(),
        ).contains(n) <==> entries.to_set().intersect(live_names(icebergs)).contains(n) by {
        lemma_removals(entries, live_names(icebergs), n);
    }
    assert(entries.to_set().difference(removals(entries, live_names(icebergs)).to_set())
        =~= entries.to_set().intersect(live_names(icebergs)));
}

/// After a release, the directory's entries are exactly the names of the live
/// handles, whatever it held before.
pub proof fn lemma_release_matches_live(entries: Seq<Seq<char>>, icebergs: Seq<Iceberg>)
    ensures
        released_names(entries, icebergs) == live_names(icebergs),
{
    let live = live_names(icebergs);
    assert forall|n: Seq<char>| #[trigger]
        released_names(entries, icebergs).contains(n) <==> live.contains(n) by {
        lemma_removals(entries, live, n);
        lemma_missing(icebergs, entries.to_set(), n);
    }
    assert(released_names(entries, icebergs) =~= live);
}

/// A second release of the same live handles into the directory that the
/// first one left deletes nothing, copies nothing, and leaves the same names.
pub proof fn lemma_release_idempotent(
    entries: Seq<Seq<char>>,
    icebergs: Seq<Iceberg>,
    again: Seq<Seq<char>>,
)
    requires
        again.to_set() == released_names(entries, icebergs),
    ensures
        removals(again, live_names(icebergs)).len() == 0,
        missing(icebergs, again.to_set()).len() == 0,
        released_names(again, icebergs) == released_names(entries, icebergs),
{
    let live = live_names(icebergs);
    lemma_release_matches_live(entries, icebergs);
    lemma_release_matches_live(again, icebergs);
    if removals(again, live).len() > 0 {
        let n = removals(again, live)[0];
        assert(removals(again, live).contains(n));
        lemma_removals(again, live, n);
        assert(again.to_set().contains(n));
    }
    if missing(icebergs, again.to_set()).len() > 0 {
        let n = missing(icebergs, again.to_set())[0]@;
        assert(missing(icebergs, again.to_set()).map_values(|i: Iceberg| i@)[0] == n);
        lemma_missing(icebergs, again.to_set(), n);
    }
}

/// The work that a compile request needs: the artifact is in the cache store
/// already, or its normalized source must be built into it.
pub enum Job {
    Reuse(Iceberg),
    Build(Iceberg, String),
}

/// How many builds a compile request runs against a store that holds the
/// artifacts named in `store`.
pub open spec fn builds(store: Set<Seq<char>>, code: Seq<char>, environment: u64) -> nat {
    if store.contains(artifact_name(code, environment)) {
        0
    } else {
        1
    }
}

/// The store after a compile request whose build, if any, succeeded.
pub open spec fn store_after(store: Set<Seq<char>>, code: Seq<char>, environment: u64) -> Set<
    Seq<char>,
> {
    store.insert(artifact_name(code, environment))
}

impl Compiler {
    /// The work for compiling `code` when the cache store holds the
    /// directories named in `store`: the presence of the artifact's directory
    /// alone decides that it is reused.
    pub fn compile(&self, code: &str, store: &Vec<String>) -> (r: Job)
        ensures
            match r {
                Job::Reuse(i) => builds(views(store@).to_set(), code@, self.environment()) == 0
                    && i@ == artifact_name(code@, self.environment()),
                Job::Build(i, source) => builds(views(store@).to_set(), code@, self.environment())
                    == 1 && i@ == artifact_name(code@, self.environment()) && source@
                    == normalized(code@),
            },
    {
        let iceberg = self.iceberg(code);
        if is_present(store, &iceberg.hash.0) {
            Job::Reuse(iceberg)
        } else {
            Job::Build(iceberg, Compiler::normalize(code))
        }
    }
}

/// Compiling the same source twice in one environment runs at most one build:
/// the second request finds the artifact that the first one stored, and
/// leaves the store as the first one left it.
pub proof fn lemma_compile_twice(store: Set<Seq<char>>, code: Seq<char>, environment: u64)
    ensures
        builds(store_after(store, code, environment), code, environment) == 0,
        builds(store, code, environment) + builds(
            store_after(store, code, environment),
            code,
            environment,
        ) <= 1,
        store_after(store_after(store, code, environment), code, environment) == store_after(
            store,
            code,
            environment,
        ),
{
    assert(store_after(store_after(store, code, environment), code, environment) =~= store_after(
        store,
        code,
        environment,
    ));
}

/// A line is hidden by putting the marker in front of it.
pub open spec fn hides(marked: Seq<char>, plain: Seq<char>) -> bool {
    marked == hidden_marker() + plain && unhide(plain) == plain
}

/// Hiding lines changes neither the source that is compiled nor the name of
/// its artifact: when each line of `marked` is the line of `plain` at the same
/// place, or that line hidden, both normalize alike.
pub proof fn lemma_hidden_lines(marked: Seq<char>, plain: Seq<char>, environment: u64)
    requires
        lines_of(marked).len() == lines_of(plain).len(),
        forall|i: int|
            0 <= i < lines_of(plain).len() ==> #[trigger] lines_of(marked)[i] == lines_of(plain)[i]
                || hides(lines_of(marked)[i], lines_of(plain)[i]),
    ensures
        normalized(marked) == normalized(plain),
        artifact_name(marked, environment) == artifact_name(plain, environment),
{
    let a = lines_of(marked).map_values(|l: Seq<char>| unhide(l));
    let b = lines_of(plain).map_values(|l: Seq<char>| unhide(l));
    assert forall|i: int| 0 <= i < a.len() implies a[i] == b[i] by {
        let m = lines_of(marked)[i];
        let p = lines_of(plain)[i];
        if m != p {
            assert(m.subrange(2, m.len() as int) =~= p);
        }
    }
    assert(a =~= b);
}

/// Which digit a character is.
pub open spec fn digit_value(c: char) -> int {
    if c == '0' { 0 } else if c == '1' { 1 } else if c == '2' { 2 } else if c == '3' { 3 }
    else if c == '4' { 4 } else if c == '5' { 5 } else if c == '6' { 6 } else if c == '7' { 7 }
    else if c == '8' { 8 } else if c == '9' { 9 } else if c == 'a' { 10 } else if c == 'b' { 11 }
    else if c == 'c' { 12 } else if c == 'd' { 13 } else if c == 'e' { 14 } else { 15 }
}

pub proof fn lemma_digit_value(d: int)
    requires
        0 <= d < 16,
    ensures
        digit_value(crate::text::digit_chars()[d]) == d,
{
    let c = crate::text::digit_chars();
    assert(c[0] == '0' && c[1] == '1' && c[2] == '2' && c[3] == '3' && c[4] == '4');
    assert(c[5] == '5' && c[6] == '6' && c[7] == '7' && c[8] == '8' && c[9] == '9');
    assert(c[10] == 'a' && c[11] == 'b' && c[12] == 'c' && c[13] == 'd' && c[14] == 'e');
    assert(c[15] == 'f');
}

/// Different digests get different names.
pub proof fn lemma_hex_injective(a: Seq<u8>, b: Seq<u8>)
    requires
        hex_of(a) == hex_of(b),
    ensures
        a == b,
    decreases a.len(),
{
    crate::text::lemma_hex_len(a);
    crate::text::lemma_hex_len(b);
    if a.len() > 0 {
        let (x, y) = (a.last(), b.last());
        let (ha, hb) = (hex_of(a), hex_of(b));
        assert(ha == hex_of(a.drop_last()) + crate::text::byte_hex(x));
        assert(hb == hex_of(b.drop_last()) + crate::text::byte_hex(y));
        crate::text::lemma_hex_len(a.drop_last());
        crate::text::lemma_hex_len(b.drop_last());
        let n = ha.len() as int;
        assert(ha[n - 2] == crate::text::digit_chars()[(x / 16) as int]);
        assert(hb[n - 2] == crate::text::digit_chars()[(y / 16) as int]);
        assert(ha[n - 1] == crate::text::digit_chars()[(x % 16) as int]);
        assert(hb[n - 1] == crate::text::digit_chars()[(y % 16) as int]);
        lemma_digit_value((x / 16) as int);
        lemma_digit_value((y / 16) as int);
        lemma_digit_value((x % 16) as int);
        lemma_digit_value((y % 16) as int);
        assert(x == y);
        assert(hex_of(a.drop_last()) =~= ha.subrange(0, n - 2));
        assert(hex_of(b.drop_last()) =~= hb.subrange(0, n - 2));
        lemma_hex_injective(a.drop_last(), b.drop_last());
        assert(a =~= a.drop_last().push(x));
        assert(b =~= b.drop_last().push(y));
    } else {
        assert(a =~= b);
    }
}

pub proof fn lemma_decimal_len(n: nat)
    ensures
        decimal(n).len() >= 1,
        n >= 10 ==> decimal(n).len() >= 2,
    decreases n,
{
    if n >= 10 {
        lemma_decimal_len(n / 10);
    }
}

/// Different numbers are written differently.
pub proof fn lemma_decimal_injective(a: nat, b: nat)
    requires
        decimal(a) == decimal(b),
    ensures
        a == b,
    decreases a,
{
    lemma_decimal_len(a);
    lemma_decimal_len(b);
    if a < 10 && b < 10 {
        lemma_digit_value(a as int);
        lemma_digit_value(b as int);
        let c = crate::text::digit_chars();
        assert(decimal(a) == seq![c[a as int]]);
        assert(decimal(b) == seq![c[b as int]]);
        assert(seq![c[a as int]][0] == c[a as int]);
        assert(seq![c[b as int]][0] == c[b as int]);
        assert(c[a as int] == c[b as int]);
    } else if a < 10 {
        assert(decimal(a).len() == 1);
    } else if b < 10 {
        assert(decimal(b).len() == 1);
    } else {
        lemma_digit_value((a % 10) as int);
        lemma_digit_value((b % 10) as int);
        assert(decimal(a).last() == crate::text::digit_chars()[(a % 10) as int]);
        assert(decimal(b).last() == crate::text::digit_chars()[(b % 10) as int]);
        assert(decimal(a).drop_last() =~= decimal(a / 10));
        assert(decimal(b).drop_last() =~= decimal(b / 10));
        assert(decimal(a).last() == decimal(b).last());
        assert(a % 10 == b % 10);
        lemma_decimal_injective(a / 10, b / 10);
        assert(a / 10 == b / 10);
        assert(a == 10 * (a / 10) + a % 10);
        assert(b == 10 * (b / 10) + b % 10);
    }
}

/// Different environments give the same source different texts to digest.
pub proof fn lemma_environment_salts_key(code: Seq<char>, e1: u64, e2: u64)
    requires
        e1 != e2,
    ensures
        keyed_text(code, e1) != keyed_text(code, e2),
{
    let n = normalized(code);
    if keyed_text(code, e1) == keyed_text(code, e2) {
        let k = keyed_text(code, e1);
        assert(k.subrange(n.len() as int, k.len() as int) =~= decimal(e1 as nat));
        assert(keyed_text(code, e2).subrange(n.len() as int, k.len() as int) =~= decimal(
            e2 as nat,
        ));
        lemma_decimal_injective(e1 as nat, e2 as nat);
    }
}

/// Pinning another reference renders another manifest; where the manifests'
/// hashes differ, the same source gets a different text to digest; and where
/// the digests differ, the artifacts get different names.
pub proof fn lemma_reference_salts_key(
    code: Seq<char>,
    r1: crate::reference::ReferenceView,
    r2: crate::reference::ReferenceView,
)
    requires
        r1 != r2,
    ensures
        manifest_of(r1) != manifest_of(r2),
        environment_of(r1) != environment_of(r2) ==> keyed_text(code, environment_of(r1))
            != keyed_text(code, environment_of(r2)),
        sha256_of(keyed_text(code, environment_of(r1))) != sha256_of(
            keyed_text(code, environment_of(r2)),
        ) ==> artifact_name(code, environment_of(r1)) != artifact_name(code, environment_of(r2)),
{
    crate::reference::lemma_manifest_distinct(r1, r2);
    if artifact_name(code, environment_of(r1)) == artifact_name(code, environment_of(r2)) {
        lemma_hex_injective(
            sha256_of(keyed_text(code, environment_of(r1))),
            sha256_of(keyed_text(code, environment_of(r2))),
        );
    }
    if environment_of(r1) != environment_of(r2) {
        lemma_environment_salts_key(code, environment_of(r1), environment_of(r2));
    }
}

} // verus!
