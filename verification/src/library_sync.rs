//! Versions, and which release of the library is the latest.
use vstd::prelude::*;
use crate::archive;
use crate::controller;
use crate::controller::{official_owner_repo, Archive};
use crate::document;
use crate::document::{json_row_count, json_row_field, parse_json, parse_toml, toml_row_count, toml_row_field};
use crate::text;
use crate::text::{
    chars_of, decimal_of, is_text_at, parse_number, split_chars, string_of, sub_chars, trim_chars, trim_start_set,
};

verus! {

broadcast use vstd::string::group_string_axioms;

/// A version: major, minor and patch.
#[derive(Clone, Copy, PartialEq, Eq, Structural)]
pub struct Version {
    pub major: u32,
    pub minor: u32,
    pub patch: u32,
}

/// Whether one version comes after another.
pub open spec fn later(a: Version, b: Version) -> bool {
    a.major > b.major || (a.major == b.major && (a.minor > b.minor || (a.minor == b.minor && a.patch
        > b.patch)))
}

/// Whether one version comes after another.
pub fn is_later(a: Version, b: Version) -> (r: bool)
    ensures
        r == later(a, b),
{
    a.major > b.major || (a.major == b.major && (a.minor > b.minor || (a.minor == b.minor && a.patch
        > b.patch)))
}

/// The numbers among the parts of a version, in their order.
pub open spec fn numbers(parts: Seq<Seq<char>>) -> Seq<u32>
    decreases parts.len(),
{
    if parts.len() == 0 {
        Seq::empty()
    } else {
        match text::number(parts.last(), u32::MAX as nat) {
            Some(n) => numbers(parts.drop_last()).push(n as u32),
            None => numbers(parts.drop_last()),
        }
    }
}

/// The number at a place, zero where there is none.
pub open spec fn number_at(ns: Seq<u32>, i: int) -> u32 {
    if i < ns.len() {
        ns[i]
    } else {
        0
    }
}

/// The version that a text writes: its first three numbers, behind a `v`; what is no
/// number is passed over, and missing numbers are zero.
pub open spec fn version_in(s: Seq<char>, seps: Seq<char>) -> Version {
    let ns = numbers(text::split(text::trim_start_of(text::trim(s), seq!['v', 'V']), seps));
    Version { major: number_at(ns, 0), minor: number_at(ns, 1), patch: number_at(ns, 2) }
}

/// The characters between the numbers of a library version.
pub open spec fn library_seps() -> Seq<char> {
    seq!['.', '-', '+']
}

/// The version that a text writes, with its numbers between the given characters.
pub fn parse_version(s: &str, seps: &Vec<char>) -> (r: Version)
    ensures
        r == version_in(s@, seps@),
{
    let mut marks: Vec<char> = Vec::new();
    marks.push('v');
    marks.push('V');
    assert(marks@ =~= seq!['v', 'V']);
    let parts = split_chars(&trim_start_set(&trim_chars(&chars_of(s)), &marks), seps);
    let ghost all = text::buffers(parts@);
    let mut ns: Vec<u32> = Vec::new();
    let mut i: usize = 0;
    assert(all.subrange(0, 0) =~= Seq::empty());
    while i < parts.len()
        invariant
            i <= parts.len(),
            all == text::buffers(parts@),
            ns@ == numbers(all.subrange(0, i as int)),
        decreases parts.len() - i,
    {
        assert(all.subrange(0, i + 1).drop_last() =~= all.subrange(0, i as int));
        assert(all.subrange(0, i + 1).last() == parts@[i as int]@);
        if let Some(n) = parse_number(&parts[i], u32::MAX as u64) {
            ns.push(n as u32);
        }
        i = i + 1;
    }
    assert(all.subrange(0, i as int) =~= all);
    let major: u32 = if ns.len() > 0 { ns[0] } else { 0 };
    let minor: u32 = if ns.len() > 1 { ns[1] } else { 0 };
    let patch: u32 = if ns.len() > 2 { ns[2] } else { 0 };
    Version { major, minor, patch }
}

/// The version of a library that a text writes.
pub fn semver(s: &str) -> (r: Version)
    ensures
        r == version_in(s@, library_seps()),
{
    let mut seps: Vec<char> = Vec::new();
    seps.push('.');
    seps.push('-');
    seps.push('+');
    assert(seps@ =~= library_seps());
    parse_version(s, &seps)
}

/// Whether a version of the library is newer than another.
pub fn is_newer(tag_version: &str, current: &str) -> (r: bool)
    ensures
        r == later(version_in(tag_version@, library_seps()), version_in(current@, library_seps())),
{
    is_later(semver(tag_version), semver(current))
}

/// No version is newer than itself, of two different versions one is newer, and what
/// is newer than a newer version is newer.
pub proof fn law_versions_are_ordered(a: Version, b: Version, c: Version)
    ensures
        !later(a, a),
        a != b ==> later(a, b) != later(b, a),
        later(a, b) && later(b, c) ==> later(a, c),
{
}

// ---------------------------------------------------------------------------
// The latest release
// ---------------------------------------------------------------------------

/// The version in the name of a tag, if it is the tag of a library release.
pub open spec fn tag_version(name: Option<Seq<char>>) -> Option<Version> {
    match name {
        Some(n) => if text::begins_with(n, "library-v"@) {
            Some(version_in(n.subrange(9, n.len() as int), library_seps()))
        } else {
            None
        },
        None => None,
    }
}

/// The latest release among tags: of two with the same version, the first.
pub open spec fn latest(names: Seq<Option<Seq<char>>>) -> Option<(Version, Seq<char>)>
    decreases names.len(),
{
    if names.len() == 0 {
        None
    } else {
        let best = latest(names.drop_last());
        match tag_version(names.last()) {
            Some(v) => match best {
                Some(b) => if later(v, b.0) {
                    Some((v, names.last()->0))
                } else {
                    best
                },
                None => Some((v, names.last()->0)),
            },
            None => best,
        }
    }
}

/// The names of the tags in a list of tags.
pub open spec fn tag_names(rows: Seq<Map<Seq<char>, Seq<char>>>) -> Seq<Option<Seq<char>>> {
    Seq::new(rows.len(), |i: int| document::under(rows[i], "name"@))
}

/// The release that is found is a release among the tags, and none is later.
pub proof fn law_latest_is_latest(names: Seq<Option<Seq<char>>>)
    ensures
        match latest(names) {
            Some(b) => {
                &&& names.contains(Some(b.1))
                &&& tag_version(Some(b.1)) == Some(b.0)
                &&& forall|i: int|
                    0 <= i < names.len() && (#[trigger] tag_version(names[i])) is Some ==> !later(
                        tag_version(names[i])->0,
                        b.0,
                    )
            },
            None => forall|i: int| 0 <= i < names.len() ==> (#[trigger] tag_version(names[i])) is None,
        },
    decreases names.len(),
{
    if names.len() > 0 {
        let rest = names.drop_last();
        law_latest_is_latest(rest);
        let last = names[names.len() - 1];
        assert(names.last() == last);
        assert forall|i: int| 0 <= i < rest.len() implies names[i] == #[trigger] rest[i] by {
        }
        if let Some(b) = latest(rest) {
            let k = choose|k: int| 0 <= k < rest.len() && rest[k] == Some(b.1);
            assert(names[k] == Some(b.1));
        }
        match latest(names) {
            Some(b) => {
                assert forall|i: int|
                    0 <= i < names.len() && (#[trigger] tag_version(names[i])) is Some implies !later(
                    tag_version(names[i])->0,
                    b.0,
                ) by {
                    if i < rest.len() {
                        assert(tag_version(rest[i]) == tag_version(names[i]));
                    }
                }
            },
            None => {
                assert forall|i: int| 0 <= i < names.len() implies (#[trigger] tag_version(names[i])) is None by {
                    if i < rest.len() {
                        assert(tag_version(rest[i]) == tag_version(names[i]));
                    }
                }
            },
        }
    }
}

/// The release of the library to install.
pub struct LibraryRelease {
    pub version: String,
    pub tag: String,
}

/// A version, written with its three numbers.
pub open spec fn written(v: Version) -> Seq<char> {
    text::decimal(v.major as nat) + "."@ + text::decimal(v.minor as nat) + "."@ + text::decimal(v.patch as nat)
}

fn write_version(v: Version) -> (r: String)
    ensures
        r@ == written(v),
{
    let mut s = decimal_of(v.major as u64);
    s.append(".");
    s.append(decimal_of(v.minor as u64).as_str());
    s.append(".");
    s.append(decimal_of(v.patch as u64).as_str());
    s
}

/// Adds a tag to those that were looked at.
fn better(best: Option<(Version, String)>, name: Option<String>, Ghost(names): Ghost<Seq<Option<Seq<char>>>>) -> (r:
    Option<(Version, String)>)
    requires
        match best {
            Some(b) => latest(names) == Some((b.0, b.1@)),
            None => latest(names) is None,
        },
    ensures
        match r {
            Some(b) => latest(names.push(text::opt_text(name))) == Some((b.0, b.1@)),
            None => latest(names.push(text::opt_text(name))) is None,
        },
{
    let ghost all = names.push(text::opt_text(name));
    assert(all.drop_last() =~= names);
    proof {
        reveal_strlit("library-v");
    }
    let n = match name {
        Some(n) => n,
        None => {
            return best;
        },
    };
    let c = chars_of(n.as_str());
    if !is_text_at(&c, &chars_of("library-v"), 0) {
        return best;
    }
    let v = semver(string_of(&sub_chars(&c, 9, c.len())).as_str());
    match best {
        Some(b) => if is_later(v, b.0) {
            Some((v, n))
        } else {
            Some(b)
        },
        None => Some((v, n)),
    }
}

/// What is found in the answer to a request for tags.
pub open spec fn latest_in(body: Seq<char>) -> Result<(Version, Seq<char>), Seq<char>> {
    match document::json_document(body) {
        Ok(d) => match d.1 {
            Some(rows) => match latest(tag_names(rows)) {
                Some(b) => Ok(b),
                None => Err("no library-v* tags found on the repository"@),
            },
            None => Err("no library-v* tags found on the repository"@),
        },
        Err(e) => Err(e),
    }
}

/// The latest release among the names of tags.
pub fn latest_release(names: Vec<Option<String>>) -> (r: Result<LibraryRelease, String>)
    ensures
        match r {
            Ok(l) => latest(opt_texts(names@)) matches Some(b) && l.version@ == written(b.0) && l.tag@ == b.1,
            Err(e) => latest(opt_texts(names@)) is None && e@ == "no library-v* tags found on the repository"@,
        },
{
    let ghost all = opt_texts(names@);
    let mut best: Option<(Version, String)> = None;
    let mut i: usize = 0;
    assert(all.subrange(0, 0) =~= Seq::empty());
    while i < names.len()
        invariant
            i <= names.len(),
            all == opt_texts(names@),
            match best {
                Some(b) => latest(all.subrange(0, i as int)) == Some((b.0, b.1@)),
                None => latest(all.subrange(0, i as int)) is None,
            },
        decreases names.len() - i,
    {
        let name = text::copy_opt(&names[i]);
        assert(all.subrange(0, i as int).push(text::opt_text(name)) =~= all.subrange(0, i + 1));
        best = better(best, name, Ghost(all.subrange(0, i as int)));
        i = i + 1;
    }
    assert(all.subrange(0, i as int) =~= all);
    match best {
        Some(b) => Ok(LibraryRelease { version: write_version(b.0), tag: b.1 }),
        None => Err("no library-v* tags found on the repository".to_owned()),
    }
}

/// Texts that may be missing.
pub open spec fn opt_texts(v: Seq<Option<String>>) -> Seq<Option<Seq<char>>> {
    Seq::new(v.len(), |i: int| text::opt_text(v[i]))
}

/// The latest release of the library, out of the answer to a request for the tags of
/// its repository.
pub fn latest_library(body: &str) -> (r: Result<LibraryRelease, String>)
    ensures
        match r {
            Ok(l) => latest_in(body@) matches Ok(b) && l.version@ == written(b.0) && l.tag@ == b.1,
            Err(e) => latest_in(body@) == Err::<(Version, Seq<char>), _>(e@),
        },
{
    let doc = match parse_json(body) {
        Ok(d) => d,
        Err(e) => {
            return Err(e);
        },
    };
    let mut names: Vec<Option<String>> = Vec::new();
    if let Some(n) = json_row_count(&doc) {
        let ghost rows = document::json_rows(doc)->0;
        let mut i: usize = 0;
        while i < n
            invariant
                i <= n,
                document::json_rows(doc) == Some(rows),
                rows.len() == n,
                names@.len() == i,
                forall|j: int|
                    0 <= j < i ==> text::opt_text(#[trigger] names@[j]) == document::under(rows[j], "name"@),
            decreases n - i,
        {
            names.push(json_row_field(&doc, i, "name"));
            i = i + 1;
        }
        assert(opt_texts(names@) =~= tag_names(rows));
    } else {
        assert(opt_texts(names@) =~= Seq::empty());
    }
    latest_release(names)
}

/// The repository of the library, out of the list of repositories.
pub fn library_source(list: &Option<String>) -> (r: Result<(String, String), String>)
    ensures
        match r {
            Ok(p) => controller::named_repository(text::opt_text(*list)) == Some((p.0@, p.1@)),
            Err(e) => controller::named_repository(text::opt_text(*list)) is None && e@
                == "no official content repository configured in repositories.toml"@,
        },
{
    match official_owner_repo(list) {
        Some(p) => Ok(p),
        None => Err("no official content repository configured in repositories.toml".to_owned()),
    }
}

/// Where the tags of a repository are asked for.
pub fn tags_url(owner: &str, repo: &str) -> (r: String)
    ensures
        r@ == "https://api.github.com/repos/"@ + owner@ + "/"@ + repo@ + "/tags?per_page=100"@,
{
    let mut s = "https://api.github.com/repos/".to_owned();
    s.append(owner);
    s.append("/");
    s.append(repo);
    s.append("/tags?per_page=100");
    s
}

/// Where the archive of a tag is.
pub fn archive_url(owner: &str, repo: &str, tag: &str) -> (r: String)
    ensures
        r@ == "https://codeload.github.com/"@ + owner@ + "/"@ + repo@ + "/zip/refs/tags/"@ + tag@,
{
    let mut s = "https://codeload.github.com/".to_owned();
    s.append(owner);
    s.append("/");
    s.append(repo);
    s.append("/zip/refs/tags/");
    s.append(tag);
    s
}

/// Opens the archive of the library that was downloaded.
pub fn open_library(bytes: Vec<u8>) -> (r: Result<Archive, String>)
    ensures
        match r {
            Ok(a) => a.bytes() == bytes@ && archive::zip_count(bytes@) is Ok,
            Err(e) => archive::zip_count(bytes@) matches Err(m) && e@ == "open zip: "@ + m,
        },
{
    match Archive::open(bytes) {
        Ok(a) => Ok(a),
        Err(m) => {
            let mut e = "open zip: ".to_owned();
            e.append(m.as_str());
            Err(e)
        },
    }
}

/// Whether what was unpacked can take the place of the library; where it cannot, it is
/// removed and the library stays.
pub fn sync_library(has_shaders: bool) -> (r: Result<(), String>)
    ensures
        r is Ok == has_shaders,
        r matches Err(e) ==> e@ == "downloaded library has no shader-library/ folder"@,
{
    if has_shaders {
        Ok(())
    } else {
        Err("downloaded library has no shader-library/ folder".to_owned())
    }
}

/// Whether the library is downloaded: there is none yet, or a newer one.
pub fn should_sync(installed: bool, version: &str, current: &str) -> (r: bool)
    ensures
        r == (!installed || later(
            version_in(version@, library_seps()),
            version_in(current@, library_seps()),
        )),
{
    !installed || is_newer(version, current)
}

/// The version of the library to update to, if it is newer than the current one.
pub fn check_library_update(version: String, current: &str) -> (r: Option<String>)
    ensures
        r == (if later(version_in(version@, library_seps()), version_in(current@, library_seps())) {
            Some(version)
        } else {
            None
        }),
{
    if is_newer(version.as_str(), current) {
        Some(version)
    } else {
        None
    }
}

// ---------------------------------------------------------------------------
// The index of the library
// ---------------------------------------------------------------------------

/// A shader of the library and the version in which it was added.
pub struct AddedIn {
    pub slug: String,
    pub version: Version,
}

/// An entry of the index of the library; what it does not say is missing.
pub struct IndexRow {
    pub slug: Option<String>,
    pub added_in: Option<String>,
}

/// An entry of the index of the library, by the text it holds.
#[verifier::ext_equal]
pub struct IndexRowText {
    pub slug: Option<Seq<char>>,
    pub added_in: Option<Seq<char>>,
}

impl View for IndexRow {
    type V = IndexRowText;

    open spec fn view(&self) -> IndexRowText {
        IndexRowText { slug: text::opt_text(self.slug), added_in: text::opt_text(self.added_in) }
    }
}

/// The entries of a list, by the texts they hold.
pub open spec fn row_texts(rows: Seq<IndexRow>) -> Seq<IndexRowText> {
    Seq::new(rows.len(), |i: int| rows[i]@)
}

/// The entries of the index of the library.
pub open spec fn index_rows(rows: Seq<Map<Seq<char>, Seq<char>>>) -> Seq<IndexRowText> {
    Seq::new(
        rows.len(),
        |i: int|
            IndexRowText {
                slug: document::under(rows[i], "slug"@),
                added_in: document::under(rows[i], "added_in"@),
            },
    )
}

/// The shaders of the library by their folder names, with the versions in which they
/// were added; where one is listed twice the later entry stands.
pub open spec fn added_in(rows: Seq<IndexRowText>) -> Map<Seq<char>, Version>
    decreases rows.len(),
{
    if rows.len() == 0 {
        Map::empty()
    } else {
        let before = added_in(rows.drop_last());
        match rows.last().slug {
            Some(slug) => match rows.last().added_in {
                Some(v) => before.insert(slug, version_in(v, library_seps())),
                None => before,
            },
            None => before,
        }
    }
}

/// The versions in a list of shaders.
pub open spec fn version_map(v: Seq<AddedIn>) -> Map<Seq<char>, Version>
    decreases v.len(),
{
    if v.len() == 0 {
        Map::empty()
    } else {
        version_map(v.drop_last()).insert(v.last().slug@, v.last().version)
    }
}

/// What the index of the library says about the versions of its shaders.
pub open spec fn index_versions(index: Option<Seq<char>>) -> Map<Seq<char>, Version> {
    match index {
        Some(s) => match document::toml_document(s) {
            Some(d) => added_in(index_rows(document::rows_under(d, "shader"@))),
            None => Map::empty(),
        },
        None => Map::empty(),
    }
}

/// The versions in which the shaders of the library were added, out of its index; the
/// index is missing where it cannot be read.
pub fn library_added_versions(index: &Option<String>) -> (r: Vec<AddedIn>)
    ensures
        version_map(r@) == index_versions(text::opt_text(*index)),
{
    let mut read: Vec<IndexRow> = Vec::new();
    let s = match index {
        Some(s) => s,
        None => {
            return Vec::new();
        },
    };
    let doc = match parse_toml(s.as_str()) {
        Some(d) => d,
        None => {
            return Vec::new();
        },
    };
    let ghost rows = document::rows_under(document::toml_rows(doc), "shader"@);
    let n: usize = toml_row_count(&doc, "shader");
    let mut i: usize = 0;
    while i < n
        invariant
            i <= n,
            rows == document::rows_under(document::toml_rows(doc), "shader"@),
            rows.len() == n,
            read@.len() == i,
            forall|j: int| 0 <= j < i ==> (#[trigger] read@[j])@ == index_rows(rows)[j],
        decreases n - i,
    {
        let slug = toml_row_field(&doc, "shader", i, "slug");
        let added = toml_row_field(&doc, "shader", i, "added_in");
        read.push(IndexRow { slug, added_in: added });
        i = i + 1;
    }
    assert(row_texts(read@) =~= index_rows(rows));
    added_versions(read)
}

/// The versions in which the shaders of the library were added, out of the entries of
/// its index.
pub fn added_versions(rows: Vec<IndexRow>) -> (r: Vec<AddedIn>)
    ensures
        version_map(r@) == added_in(row_texts(rows@)),
{
    let ghost all = row_texts(rows@);
    let mut r: Vec<AddedIn> = Vec::new();
    let mut i: usize = 0;
    assert(all.subrange(0, 0) =~= Seq::empty());
    while i < rows.len()
        invariant
            i <= rows.len(),
            all == row_texts(rows@),
            version_map(r@) == added_in(all.subrange(0, i as int)),
        decreases rows.len() - i,
    {
        assert(all.subrange(0, i + 1).drop_last() =~= all.subrange(0, i as int));
        assert(all.subrange(0, i + 1).last() == rows@[i as int]@);
        let slug = text::copy_opt(&rows[i].slug);
        if let Some(slug) = slug {
            if let Some(version) = &rows[i].added_in {
                let ghost before = r@;
                let entry = AddedIn { slug, version: semver(version.as_str()) };
                let ghost e = entry;
                r.push(entry);
                assert(r@.drop_last() =~= before);
                assert(r@.last() == e);
            }
        }
        i = i + 1;
    }
    assert(all.subrange(0, i as int) =~= all);
    r
}

// ---------------------------------------------------------------------------
// What can be relied on
// ---------------------------------------------------------------------------

/// The first number in which two versions differ says which is later.
pub proof fn law_first_numbers_decide(a: Version, b: Version)
    ensures
        a.major > b.major ==> later(a, b),
        a.major == b.major && a.minor > b.minor ==> later(a, b),
        a.major == b.major && a.minor == b.minor && a.patch > b.patch ==> later(a, b),
{
}

/// A version is read back as it was written, with or without a `v` in front.
pub proof fn law_versions_are_read_back(v: Version)
    ensures
        version_in(written(v), library_seps()) == v,
        version_in(seq!['v'] + written(v), library_seps()) == v,
        version_in(seq!['V'] + written(v), library_seps()) == v,
{
    let w = written(v);
    lemma_written_is_plain(v);
    lemma_written_is_split(v);
    let none = Seq::<char>::empty();
    let set = seq!['v', 'V'];
    assert(set[0] == 'v' && set[1] == 'V');
    assert(none + w + none =~= w);
    text::law_trimmed_texts_stay(none, w, none);
    assert(text::trim_start_of(w, set) == w);
    let small = seq!['v'] + w;
    assert(none + small + none =~= small);
    assert(small.last() == w.last());
    text::law_trimmed_texts_stay(none, small, none);
    assert(small.subrange(1, small.len() as int) =~= w);
    assert(text::trim_start_of(small, set) == w);
    let large = seq!['V'] + w;
    assert(none + large + none =~= large);
    assert(large.last() == w.last());
    text::law_trimmed_texts_stay(none, large, none);
    assert(large.subrange(1, large.len() as int) =~= w);
    assert(text::trim_start_of(large, set) == w);
}

proof fn lemma_decimal_is_digits(n: nat, i: int)
    ensures
        text::decimal(n).len() > 0,
        0 <= i < text::decimal(n).len() ==> '0' <= text::decimal(n)[i] <= '9',
    decreases n,
{
    if n >= 10 {
        lemma_decimal_is_digits(n / 10, i);
    }
}

proof fn lemma_written_is_plain(v: Version)
    ensures
        written(v).len() > 0,
        '0' <= written(v)[0] <= '9',
        '0' <= written(v).last() <= '9',
{
    reveal_strlit(".");
    let a = text::decimal(v.major as nat);
    let c = text::decimal(v.patch as nat);
    lemma_decimal_is_digits(v.major as nat, 0);
    lemma_decimal_is_digits(v.patch as nat, c.len() - 1);
    assert(written(v)[0] == a[0]);
    assert(written(v).last() == c[c.len() - 1]);
}

proof fn lemma_written_is_split(v: Version)
    ensures
        numbers(text::split(written(v), library_seps())) == seq![v.major, v.minor, v.patch],
{
    reveal_strlit(".");
    let seps = library_seps();
    assert(seps[0] == '.' && seps[1] == '-' && seps[2] == '+');
    let a = text::decimal(v.major as nat);
    let b = text::decimal(v.minor as nat);
    let c = text::decimal(v.patch as nat);
    assert forall|i: int| 0 <= i < a.len() implies !seps.contains(#[trigger] a[i]) by {
        lemma_decimal_is_digits(v.major as nat, i);
    }
    assert forall|i: int| 0 <= i < b.len() implies !seps.contains(#[trigger] b[i]) by {
        lemma_decimal_is_digits(v.minor as nat, i);
    }
    assert forall|i: int| 0 <= i < c.len() implies !seps.contains(#[trigger] c[i]) by {
        lemma_decimal_is_digits(v.patch as nat, i);
    }
    text::law_texts_are_split_at_separators(c, '.', Seq::empty(), seps);
    text::law_texts_are_split_at_separators(b, '.', c, seps);
    text::law_texts_are_split_at_separators(a, '.', b.push('.') + c, seps);
    assert(written(v) =~= a.push('.') + (b.push('.') + c));
    let parts = seq![a, b, c];
    assert(text::split(written(v), seps) =~= parts);
    text::law_numbers_are_read_back(v.major as nat, u32::MAX as nat);
    text::law_numbers_are_read_back(v.minor as nat, u32::MAX as nat);
    text::law_numbers_are_read_back(v.patch as nat, u32::MAX as nat);
    reveal_with_fuel(numbers, 4);
    assert(parts.drop_last() =~= seq![a, b]);
    assert(parts.drop_last().drop_last() =~= seq![a]);
    assert(numbers(parts) =~= seq![v.major, v.minor, v.patch]);
}

/// The numbers of a version are those of its parts, in their order; other parts are
/// passed over, and missing numbers are zero.
pub proof fn law_other_parts_are_passed_over(parts: Seq<Seq<char>>, i: int)
    ensures
        numbers(parts) == parts.filter_map(
            |p: Seq<char>|
                match text::number(p, u32::MAX as nat) {
                    Some(n) => Some(n as u32),
                    None => None,
                },
        ),
        0 <= i < numbers(parts).len() ==> number_at(numbers(parts), i) == numbers(parts)[i],
        i >= numbers(parts).len() ==> number_at(numbers(parts), i) == 0,
    decreases parts.len(),
{
    let f = |p: Seq<char>|
        match text::number(p, u32::MAX as nat) {
            Some(n) => Some(n as u32),
            None => None,
        };
    if parts.len() > 0 {
        let d = parts.drop_last();
        law_other_parts_are_passed_over(d, i);
        match f(parts.last()) {
            Some(n) => {
                assert(d.filter_map(f) + seq![n] =~= d.filter_map(f).push(n));
            },
            None => {},
        }
    } else {
        assert(numbers(parts) =~= parts.filter_map(f));
    }
}

/// The tag of a library release gives its version; other tags give none.
pub proof fn law_tags_give_versions(v: Version, other: Seq<char>)
    ensures
        tag_version(Some("library-v"@ + written(v))) == Some(v),
        !text::begins_with(other, "library-v"@) ==> tag_version(Some(other)) is None,
        tag_version(None) is None,
{
    reveal_strlit("library-v");
    let n = "library-v"@ + written(v);
    assert(n.subrange(0, 9) =~= "library-v"@);
    assert(n.subrange(9, n.len() as int) =~= written(v));
    law_versions_are_read_back(v);
}

/// Of tags with the same version the first is taken.
pub proof fn law_first_of_equal_releases(names: Seq<Option<Seq<char>>>)
    ensures
        latest(names) matches Some(b) ==> exists|k: int|
            0 <= k < names.len() && #[trigger] names[k] == Some(b.1) && tag_version(names[k]) == Some(b.0) && forall|j: int|
                0 <= j < k && tag_version(#[trigger] names[j]) is Some ==> later(b.0, tag_version(names[j])->0),
    decreases names.len(),
{
    if names.len() > 0 {
        let d = names.drop_last();
        law_first_of_equal_releases(d);
        law_latest_is_latest(d);
        let e = names.len() - 1;
        assert(names[e] == names.last());
        assert(forall|j: int| 0 <= j < d.len() ==> #[trigger] d[j] == names[j]);
        match latest(d) {
            Some(b) => {
                let k = choose|k: int|
                    0 <= k < d.len() && #[trigger] d[k] == Some(b.1) && tag_version(d[k]) == Some(b.0) && forall|j: int|
                        0 <= j < k && tag_version(#[trigger] d[j]) is Some ==> later(b.0, tag_version(d[j])->0);
                assert(names[k] == Some(b.1));
                assert forall|j: int| 0 <= j < k && tag_version(#[trigger] names[j]) is Some implies later(
                    b.0,
                    tag_version(names[j])->0,
                ) by {
                    assert(d[j] == names[j]);
                }
                if tag_version(names.last()) is Some && later(tag_version(names.last())->0, b.0) {
                    let v = tag_version(names.last())->0;
                    assert forall|j: int| 0 <= j < e && tag_version(#[trigger] names[j]) is Some implies later(
                        v,
                        tag_version(names[j])->0,
                    ) by {
                        assert(d[j] == names[j]);
                        assert(!later(tag_version(d[j])->0, b.0));
                        law_versions_are_ordered(v, b.0, tag_version(names[j])->0);
                        law_versions_are_ordered(b.0, tag_version(names[j])->0, v);
                    }
                    assert(names[e] == Some(names.last()->0));
                }
            },
            None => {
                if tag_version(names.last()) is Some {
                    assert forall|j: int| 0 <= j < e implies tag_version(#[trigger] names[j]) is None by {
                        assert(tag_version(d[j]) is None);
                    }
                    assert(names[e] == Some(names.last()->0));
                }
            },
        }
    }
}

/// What an answer with a list of tags gives is the latest release among their names.
pub proof fn law_answers_give_the_latest(body: Seq<char>, rows: Seq<Map<Seq<char>, Seq<char>>>, i: int)
    requires
        document::json_document(body) matches Ok(d) && d.1 == Some(rows),
    ensures
        latest(tag_names(rows)) matches Some(b) ==> latest_in(body) == Ok::<_, Seq<char>>(b),
        latest(tag_names(rows)) is None ==> latest_in(body) == Err::<(Version, Seq<char>), _>(
            "no library-v* tags found on the repository"@,
        ),
        tag_names(rows).len() == rows.len(),
        0 <= i < rows.len() && rows[i].contains_key("name"@) ==> tag_names(rows)[i] == Some(rows[i]["name"@]),
        0 <= i < rows.len() && !rows[i].contains_key("name"@) ==> tag_names(rows)[i] is None,
{
}

/// What an answer that cannot be read gives is its error, and what is no list has no tags.
pub proof fn law_unreadable_answers_give_errors(body: Seq<char>)
    ensures
        document::json_document(body) matches Err(e) ==> latest_in(body) == Err::<(Version, Seq<char>), _>(e),
        (document::json_document(body) matches Ok(d) && d.1 is None) ==> latest_in(body) == Err::<
            (Version, Seq<char>),
            _,
        >("no library-v* tags found on the repository"@),
{
}

/// The numbers of a version stand between dots, dashes and plus signs.
pub proof fn law_versions_are_split_at_signs(part: Seq<char>, rest: Seq<char>)
    requires
        forall|i: int| 0 <= i < part.len() ==> #[trigger] part[i] != '.' && part[i] != '-' && part[i] != '+',
    ensures
        text::split(part.push('.') + rest, library_seps()) == seq![part] + text::split(rest, library_seps()),
        text::split(part.push('-') + rest, library_seps()) == seq![part] + text::split(rest, library_seps()),
        text::split(part.push('+') + rest, library_seps()) == seq![part] + text::split(rest, library_seps()),
        text::split(part, library_seps()) == seq![part],
{
    let seps = library_seps();
    assert(seps[0] == '.' && seps[1] == '-' && seps[2] == '+');
    text::law_texts_are_split_at_separators(part, '.', rest, seps);
    text::law_texts_are_split_at_separators(part, '-', rest, seps);
    text::law_texts_are_split_at_separators(part, '+', rest, seps);
}

/// A shader was added with the version that the last entry with its folder name says.
pub proof fn law_last_entry_counts(
    before: Seq<IndexRowText>,
    slug: Seq<char>,
    version: Seq<char>,
    after: Seq<IndexRowText>,
)
    requires
        forall|i: int|
            0 <= i < after.len() ==> (#[trigger] after[i]).slug != Some(slug) || after[i].added_in is None,
    ensures
        ({
            let all = before.push(IndexRowText { slug: Some(slug), added_in: Some(version) }) + after;
            added_in(all).contains_key(slug) && added_in(all)[slug] == version_in(version, library_seps())
        }),
        !added_in(after).contains_key(slug),
    decreases after.len(),
{
    let row = IndexRowText { slug: Some(slug), added_in: Some(version) };
    let all = before.push(row) + after;
    if after.len() > 0 {
        let d = after.drop_last();
        assert(forall|i: int| 0 <= i < d.len() ==> #[trigger] d[i] == after[i]);
        assert(after[after.len() - 1] == after.last());
        law_last_entry_counts(before, slug, version, d);
        assert(all.drop_last() =~= before.push(row) + d);
        assert(all.last() == after.last());
    } else {
        assert(all =~= before.push(row));
        assert(all.drop_last() =~= before);
        assert(all.last() == row);
    }
}

/// In a list of shaders the last entry with a folder name counts.
pub proof fn law_last_version_counts(before: Seq<AddedIn>, e: AddedIn, after: Seq<AddedIn>)
    requires
        forall|i: int| 0 <= i < after.len() ==> (#[trigger] after[i]).slug@ != e.slug@,
    ensures
        version_map(before.push(e) + after).contains_key(e.slug@),
        version_map(before.push(e) + after)[e.slug@] == e.version,
        !version_map(after).contains_key(e.slug@),
    decreases after.len(),
{
    let all = before.push(e) + after;
    if after.len() > 0 {
        let d = after.drop_last();
        assert(forall|i: int| 0 <= i < d.len() ==> #[trigger] d[i] == after[i]);
        assert(after[after.len() - 1] == after.last());
        law_last_version_counts(before, e, d);
        assert(all.drop_last() =~= before.push(e) + d);
        assert(all.last() == after.last());
    } else {
        assert(all =~= before.push(e));
        assert(all.drop_last() =~= before);
        assert(all.last() == e);
    }
}

/// The index lists its shaders under their key, each with its folder name and version.
pub proof fn law_index_lists_the_shaders(
    index: Seq<char>,
    lists: Map<Seq<char>, Seq<Map<Seq<char>, Seq<char>>>>,
    i: int,
)
    requires
        document::toml_document(index) == Some(lists),
        lists.contains_key("shader"@),
        0 <= i < lists["shader"@].len(),
    ensures
        index_versions(Some(index)) == added_in(index_rows(lists["shader"@])),
        index_rows(lists["shader"@]).len() == lists["shader"@].len(),
        index_rows(lists["shader"@])[i].slug == (if lists["shader"@][i].contains_key("slug"@) {
            Some(lists["shader"@][i]["slug"@])
        } else {
            None
        }),
        index_rows(lists["shader"@])[i].added_in == (if lists["shader"@][i].contains_key("added_in"@) {
            Some(lists["shader"@][i]["added_in"@])
        } else {
            None
        }),
        index_versions(None) == Map::<Seq<char>, Version>::empty(),
{
}

} // verus!
