//! The library as it is shown: the order of its wallpapers, its cards, the search, and
//! the thumbnails that are missing.
use vstd::prelude::*;
use crate::controller;
use crate::controller::{thumbnail_path, LayerInfo, MonitorInfo, WallpaperEntry};
use crate::library_sync;
use crate::library_sync::{is_later, AddedIn, Version};
use crate::paths;
use crate::paths::Location;
use crate::text;
use crate::text::{chars_of, copy_strings, eq_ignoring_case, join_strings, str_contains, str_eq, str_to_lowercase};

verus! {

broadcast use vstd::string::group_string_axioms;

// ---------------------------------------------------------------------------
// The order of texts
// ---------------------------------------------------------------------------

/// Whether one text comes before another, character by character.
pub open spec fn text_less(a: Seq<char>, b: Seq<char>) -> bool
    decreases a.len(),
{
    if b.len() == 0 {
        false
    } else if a.len() == 0 {
        true
    } else if a[0] != b[0] {
        a[0] < b[0]
    } else {
        text_less(a.subrange(1, a.len() as int), b.subrange(1, b.len() as int))
    }
}

fn is_text_less(a: &Vec<char>, b: &Vec<char>) -> (r: bool)
    ensures
        r == text_less(a@, b@),
{
    let mut i: usize = 0;
    assert(a@.subrange(0, a@.len() as int) =~= a@);
    assert(b@.subrange(0, b@.len() as int) =~= b@);
    while i < a.len() && i < b.len()
        invariant
            i <= a.len(),
            i <= b.len(),
            text_less(a@, b@) == text_less(
                a@.subrange(i as int, a@.len() as int),
                b@.subrange(i as int, b@.len() as int),
            ),
        decreases a.len() - i,
    {
        let ghost x = a@.subrange(i as int, a@.len() as int);
        let ghost y = b@.subrange(i as int, b@.len() as int);
        assert(x.subrange(1, x.len() as int) =~= a@.subrange(i + 1, a@.len() as int));
        assert(y.subrange(1, y.len() as int) =~= b@.subrange(i + 1, b@.len() as int));
        if a[i] != b[i] {
            return a[i] < b[i];
        }
        i = i + 1;
    }
    i < b.len()
}

proof fn lemma_text_order(a: Seq<char>, b: Seq<char>, c: Seq<char>)
    ensures
        !text_less(a, a),
        !(text_less(a, b) && text_less(b, a)),
        !text_less(a, b) && !text_less(b, a) ==> a == b,
        text_less(a, b) && text_less(b, c) ==> text_less(a, c),
    decreases a.len() + b.len() + c.len(),
{
    if a.len() > 0 && b.len() > 0 {
        let a1 = a.subrange(1, a.len() as int);
        let b1 = b.subrange(1, b.len() as int);
        let c1 = if c.len() > 0 {
            c.subrange(1, c.len() as int)
        } else {
            c
        };
        lemma_text_order(a1, b1, c1);
        if a[0] == b[0] && a1 == b1 {
            assert(a =~= seq![a[0]] + a1);
            assert(b =~= seq![b[0]] + b1);
        }
    } else if a.len() > 0 {
        lemma_text_order(a.subrange(1, a.len() as int), b, c);
    } else {
        assert(a =~= Seq::empty());
        if b.len() == 0 {
            assert(b =~= Seq::empty());
        }
    }
}

// ---------------------------------------------------------------------------
// The order of wallpapers
// ---------------------------------------------------------------------------

/// By what a wallpaper is ordered: first by whether it is the user's own, then by the
/// version and the time of its addition, then by its name.
pub struct SortKey {
    pub own: bool,
    pub version: Version,
    pub time: i64,
    pub name: Vec<char>,
}

/// By what a wallpaper is ordered, by the text it holds.
#[verifier::ext_equal]
pub struct KeyText {
    pub own: bool,
    pub version: Version,
    pub time: i64,
    pub name: Seq<char>,
}

impl View for SortKey {
    type V = KeyText;

    open spec fn view(&self) -> KeyText {
        KeyText { own: self.own, version: self.version, time: self.time, name: self.name@ }
    }
}

/// The keys of a list.
pub open spec fn key_texts(v: Seq<SortKey>) -> Seq<KeyText> {
    Seq::new(v.len(), |i: int| v[i]@)
}

/// Whether one key comes before another.
pub open spec fn less(a: KeyText, b: KeyText) -> bool {
    if a.own != b.own {
        b.own
    } else if a.version != b.version {
        library_sync::later(b.version, a.version)
    } else if a.time != b.time {
        a.time < b.time
    } else {
        text_less(a.name, b.name)
    }
}

fn is_less(a: &SortKey, b: &SortKey) -> (r: bool)
    ensures
        r == less(a@, b@),
{
    if a.own != b.own {
        b.own
    } else if a.version != b.version {
        is_later(b.version, a.version)
    } else if a.time != b.time {
        a.time < b.time
    } else {
        is_text_less(&a.name, &b.name)
    }
}

/// Whether the wallpaper with one key stands behind the one with another.
pub open spec fn behind(a: KeyText, b: KeyText, reversed: bool) -> bool {
    if reversed {
        less(a, b)
    } else {
        less(b, a)
    }
}

fn stands_behind(a: &SortKey, b: &SortKey, reversed: bool) -> (r: bool)
    ensures
        r == behind(a@, b@, reversed),
{
    if reversed {
        is_less(a, b)
    } else {
        is_less(b, a)
    }
}

/// Puts a wallpaper into an order, behind those that do not stand behind it.
pub open spec fn placed(order: Seq<int>, keys: Seq<KeyText>, reversed: bool, x: int) -> Seq<int>
    decreases order.len(),
{
    if order.len() == 0 || !behind(keys[order.last()], keys[x], reversed) {
        order.push(x)
    } else {
        placed(order.drop_last(), keys, reversed, x).push(order.last())
    }
}

/// The order of the first `n` wallpapers, by their places.
pub open spec fn order_of(keys: Seq<KeyText>, reversed: bool, n: nat) -> Seq<int>
    decreases n,
{
    if n == 0 {
        Seq::empty()
    } else {
        placed(order_of(keys, reversed, (n - 1) as nat), keys, reversed, n - 1)
    }
}

/// The places of a list, as numbers.
pub open spec fn places(v: Seq<usize>) -> Seq<int> {
    Seq::new(v.len(), |i: int| v[i] as int)
}

/// The order of wallpapers with the given keys, by their places: those with equal keys
/// stay as they are.
pub fn sort_places(keys: &Vec<SortKey>, reversed: bool) -> (r: Vec<usize>)
    ensures
        places(r@) == order_of(key_texts(keys@), reversed, keys@.len()),
        forall|i: int| 0 <= i < r@.len() ==> #[trigger] r@[i] < keys@.len(),
        r@.len() == keys@.len(),
{
    let ghost ks = key_texts(keys@);
    let mut order: Vec<usize> = Vec::new();
    let mut i: usize = 0;
    assert(places(order@) =~= Seq::empty());
    while i < keys.len()
        invariant
            i <= keys.len(),
            ks == key_texts(keys@),
            places(order@) == order_of(ks, reversed, i as nat),
            order@.len() == i,
            forall|j: int| 0 <= j < i ==> #[trigger] order@[j] < i,
        decreases keys.len() - i,
    {
        let ghost before = places(order@);
        let mut p: usize = order.len();
        assert(before.subrange(0, p as int) =~= before);
        assert(placed(before, ks, reversed, i as int) + before.subrange(p as int, before.len() as int) =~= placed(
            before,
            ks,
            reversed,
            i as int,
        ));
        while p > 0 && stands_behind(&keys[order[p - 1]], &keys[i], reversed)
            invariant
                p <= order@.len(),
                i < keys@.len(),
                order@.len() == i,
                ks == key_texts(keys@),
                before == places(order@),
                forall|j: int| 0 <= j < i ==> #[trigger] order@[j] < i,
                placed(before, ks, reversed, i as int) == placed(
                    before.subrange(0, p as int),
                    ks,
                    reversed,
                    i as int,
                ) + before.subrange(p as int, before.len() as int),
            decreases p,
        {
            let ghost head = before.subrange(0, p as int);
            assert(head.drop_last() =~= before.subrange(0, p - 1));
            assert(head.last() == order@[p - 1]);
            assert(behind(ks[head.last()], ks[i as int], reversed));
            assert(placed(head, ks, reversed, i as int) == placed(
                before.subrange(0, p - 1),
                ks,
                reversed,
                i as int,
            ).push(head.last()));
            assert(placed(before.subrange(0, p - 1), ks, reversed, i as int).push(head.last()) + before.subrange(
                p as int,
                before.len() as int,
            ) =~= placed(before.subrange(0, p - 1), ks, reversed, i as int) + before.subrange(
                p - 1,
                before.len() as int,
            ));
            p = p - 1;
        }
        let ghost head = before.subrange(0, p as int);
        assert(placed(head, ks, reversed, i as int) == head.push(i as int)) by {
            if p > 0 {
                assert(head.last() == order@[p - 1]);
                assert(!behind(ks[head.last()], ks[i as int], reversed));
            }
        }
        let ghost was = order@;
        order.insert(p, i);
        assert(places(order@) =~= head.push(i as int) + before.subrange(p as int, before.len() as int));
        assert forall|j: int| 0 <= j < i + 1 implies #[trigger] order@[j] < i + 1 by {
            if j < p {
                assert(order@[j] == was[j]);
            } else if j > p {
                assert(order@[j] == was[j - 1]);
            }
        }
        i = i + 1;
    }
    order
}

/// A fact about a wallpaper that is found on disk.
#[derive(Clone, Copy, PartialEq, Eq, Structural)]
pub struct EntryFacts {
    /// When its folder changed last, in nanoseconds since 1970.
    pub modified: Option<i64>,
    /// Whether it is the user's own.
    pub deletable: bool,
}

/// The version and the time of the addition of a wallpaper: one of the library has the
/// version in which it was added; others come after those, by the time at which their
/// folders changed.
pub open spec fn added_key(
    path: Seq<Seq<char>>,
    modified: Option<i64>,
    versions: Map<Seq<char>, Version>,
) -> (Version, i64) {
    let slug = if path.len() == 0 {
        ""@
    } else {
        path.last()
    };
    if versions.dom().contains(slug) {
        (versions[slug], 0)
    } else {
        (
            Version { major: u32::MAX, minor: u32::MAX, patch: u32::MAX },
            match modified {
                Some(t) => t,
                None => 0,
            },
        )
    }
}

fn find_version(versions: &Vec<AddedIn>, slug: &str) -> (r: Option<Version>)
    ensures
        r == (if library_sync::version_map(versions@).dom().contains(slug@) {
            Some(library_sync::version_map(versions@)[slug@])
        } else {
            None
        }),
{
    let ghost all = versions@;
    let mut i: usize = versions.len();
    assert(all.subrange(0, all.len() as int) =~= all);
    while i > 0
        invariant
            i <= versions.len(),
            all == versions@,
            library_sync::version_map(all).dom().contains(slug@) == library_sync::version_map(
                all.subrange(0, i as int),
            ).dom().contains(slug@),
            library_sync::version_map(all).dom().contains(slug@) ==> library_sync::version_map(all)[slug@]
                == library_sync::version_map(all.subrange(0, i as int))[slug@],
        decreases i,
    {
        let ghost part = all.subrange(0, i as int);
        assert(part.drop_last() =~= all.subrange(0, i - 1));
        assert(part.last() == all[i - 1]);
        if str_eq(versions[i - 1].slug.as_str(), slug) {
            return Some(versions[i - 1].version);
        }
        i = i - 1;
    }
    None
}

/// The version and the time of the addition of a wallpaper.
pub fn entry_added_key(path: &Location, modified: Option<i64>, versions: &Vec<AddedIn>) -> (r: (Version, i64))
    ensures
        r == added_key(path@, modified, library_sync::version_map(versions@)),
{
    let slug = match path.file_name() {
        Some(s) => s,
        None => "".to_owned(),
    };
    match find_version(versions, slug.as_str()) {
        Some(v) => (v, 0),
        None => (
            Version { major: u32::MAX, minor: u32::MAX, patch: u32::MAX },
            match modified {
                Some(t) => t,
                None => 0,
            },
        ),
    }
}

/// The key of a wallpaper in an order of the library.
pub open spec fn key_of(
    e: controller::EntryText,
    facts: EntryFacts,
    versions: Map<Seq<char>, Version>,
    mode: Seq<char>,
) -> KeyText {
    key_of_lowered(e.path, text::unicode_lowercase(e.name), facts, versions, mode)
}

/// The key of a wallpaper in an order of the library, with its name in lower case.
pub open spec fn key_of_lowered(
    path: Seq<Seq<char>>,
    lowered: Seq<char>,
    facts: EntryFacts,
    versions: Map<Seq<char>, Version>,
    mode: Seq<char>,
) -> KeyText {
    let none = Version { major: 0, minor: 0, patch: 0 };
    if mode == "name-asc"@ || mode == "name-desc"@ {
        KeyText { own: false, version: none, time: 0, name: lowered }
    } else if mode == "date-newest"@ || mode == "date-oldest"@ {
        let added = added_key(path, facts.modified, versions);
        KeyText { own: false, version: added.0, time: added.1, name: Seq::empty() }
    } else {
        KeyText { own: facts.deletable, version: none, time: 0, name: lowered }
    }
}

/// The keys of wallpapers in an order of the library.
pub open spec fn keys_of(
    es: Seq<controller::EntryText>,
    facts: Seq<EntryFacts>,
    versions: Map<Seq<char>, Version>,
    mode: Seq<char>,
) -> Seq<KeyText> {
    Seq::new(es.len(), |i: int| key_of(es[i], facts[i], versions, mode))
}

/// Whether an order of the library goes from the greatest key to the smallest.
pub open spec fn is_reversed(mode: Seq<char>) -> bool {
    mode == "name-desc"@ || mode == "date-newest"@
}

fn sort_key(e: &WallpaperEntry, facts: EntryFacts, versions: &Vec<AddedIn>, mode: &str) -> (k: SortKey)
    ensures
        k@ == key_of(e@, facts, library_sync::version_map(versions@), mode@),
{
    sort_key_lowered(&e.path, str_to_lowercase(e.name.as_str()).as_str(), facts, versions, mode)
}

/// The key of a wallpaper in an order of the library, with its name in lower case.
pub fn sort_key_lowered(
    path: &Location,
    lowered: &str,
    facts: EntryFacts,
    versions: &Vec<AddedIn>,
    mode: &str,
) -> (k: SortKey)
    ensures
        k@ == key_of_lowered(path@, lowered@, facts, library_sync::version_map(versions@), mode@),
{
    let none = Version { major: 0, minor: 0, patch: 0 };
    if str_eq(mode, "name-asc") || str_eq(mode, "name-desc") {
        SortKey { own: false, version: none, time: 0, name: chars_of(lowered) }
    } else if str_eq(mode, "date-newest") || str_eq(mode, "date-oldest") {
        let added = entry_added_key(path, facts.modified, versions);
        let name: Vec<char> = Vec::new();
        assert(name@ =~= Seq::empty());
        SortKey { own: false, version: added.0, time: added.1, name }
    } else {
        SortKey { own: facts.deletable, version: none, time: 0, name: chars_of(lowered) }
    }
}

fn copy_entry(e: &WallpaperEntry) -> (r: WallpaperEntry)
    ensures
        r@ == e@,
{
    WallpaperEntry {
        name: e.name.clone(),
        author: e.author.clone(),
        source_url: e.source_url.clone(),
        path: e.path.copy(),
        tags: copy_strings(&e.tags),
        thumbnail: match &e.thumbnail {
            Some(t) => Some(t.copy()),
            None => None,
        },
    }
}

/// The wallpapers of a list in an order.
pub open spec fn arranged(es: Seq<controller::EntryText>, order: Seq<int>) -> Seq<controller::EntryText> {
    Seq::new(order.len(), |i: int| es[order[i]])
}

/// Puts the wallpapers of the library in order: by name with `name-asc` and `name-desc`,
/// by their addition with `date-newest` and `date-oldest`, else the user's own behind
/// the others, each group by name. `facts` tells of each wallpaper what is found on
/// disk, and `versions` what the index of the library says.
pub fn sort_entries(
    entries: &mut Vec<WallpaperEntry>,
    facts: &Vec<EntryFacts>,
    versions: &Vec<AddedIn>,
    mode: &str,
)
    requires
        facts@.len() == old(entries)@.len(),
    ensures
        ({
            let es = controller::entry_texts(old(entries)@);
            let keys = keys_of(es, facts@, library_sync::version_map(versions@), mode@);
            controller::entry_texts(final(entries)@) == arranged(es, order_of(keys, is_reversed(mode@), es.len()))
        }),
{
    let ghost es = controller::entry_texts(entries@);
    let ghost ks = keys_of(es, facts@, library_sync::version_map(versions@), mode@);
    let mut keys: Vec<SortKey> = Vec::new();
    let mut i: usize = 0;
    while i < entries.len()
        invariant
            i <= entries@.len(),
            facts@.len() == entries@.len(),
            es == controller::entry_texts(entries@),
            ks == keys_of(es, facts@, library_sync::version_map(versions@), mode@),
            keys@.len() == i,
            forall|j: int| 0 <= j < i ==> (#[trigger] keys@[j])@ == ks[j],
        decreases entries.len() - i,
    {
        keys.push(sort_key(&entries[i], facts[i], versions, mode));
        i = i + 1;
    }
    assert(key_texts(keys@) =~= ks);
    let reversed = str_eq(mode, "name-desc") || str_eq(mode, "date-newest");
    let order = sort_places(&keys, reversed);
    let ghost o = places(order@);
    let mut sorted: Vec<WallpaperEntry> = Vec::new();
    let mut k: usize = 0;
    while k < order.len()
        invariant
            k <= order@.len(),
            order@.len() == entries@.len(),
            es == controller::entry_texts(entries@),
            o == places(order@),
            forall|j: int| 0 <= j < order@.len() ==> #[trigger] order@[j] < entries@.len(),
            sorted@.len() == k,
            forall|j: int| 0 <= j < k ==> (#[trigger] sorted@[j])@ == es[o[j]],
        decreases order.len() - k,
    {
        sorted.push(copy_entry(&entries[order[k]]));
        k = k + 1;
    }
    assert(controller::entry_texts(sorted@) =~= arranged(es, o));
    *entries = sorted;
}

proof fn lemma_key_order(a: KeyText, b: KeyText, c: KeyText)
    ensures
        !less(a, a),
        !(less(a, b) && less(b, a)),
        !less(b, a) && !less(c, b) ==> !less(c, a),
{
    lemma_text_order(a.name, b.name, c.name);
    lemma_text_order(c.name, b.name, a.name);
    lemma_text_order(c.name, a.name, b.name);
    lemma_text_order(a.name, c.name, b.name);
    lemma_text_order(b.name, a.name, c.name);
    lemma_text_order(b.name, c.name, a.name);
}

/// Whether an order holds each of the first `n` places once.
pub open spec fn is_order(order: Seq<int>, n: int) -> bool {
    &&& order.len() == n
    &&& order.no_duplicates()
    &&& forall|i: int| 0 <= i < order.len() ==> 0 <= #[trigger] order[i] < n
}

/// Whether wallpapers stand in an order: none behind one that it comes before, and
/// those with equal keys as they stood.
pub open spec fn is_sorted(order: Seq<int>, keys: Seq<KeyText>, reversed: bool) -> bool {
    forall|i: int, j: int|
        0 <= i < j < order.len() ==> !behind(keys[#[trigger] order[i]], keys[#[trigger] order[j]], reversed) && (
        !behind(keys[order[j]], keys[order[i]], reversed) ==> order[i] < order[j])
}

proof fn lemma_placed(order: Seq<int>, keys: Seq<KeyText>, reversed: bool, x: int)
    requires
        is_order(order, x),
        is_sorted(order, keys, reversed),
        0 <= x < keys.len(),
    ensures
        is_order(placed(order, keys, reversed, x), x + 1),
        is_sorted(placed(order, keys, reversed, x), keys, reversed),
{
    let p = lemma_placed_at(order, keys, reversed, x);
    let head = order.subrange(0, p);
    let tail = order.subrange(p, order.len() as int);
    let r = placed(order, keys, reversed, x);
    assert(r == head.push(x) + tail);
    assert forall|i: int| 0 <= i < r.len() implies 0 <= #[trigger] r[i] < x + 1 by {
        if i < p {
            assert(r[i] == order[i]);
        } else if i > p {
            assert(r[i] == order[i - 1]);
        }
    }
    assert forall|i: int, j: int| 0 <= i < j < r.len() implies r[i] != r[j] by {
        if i < p {
            assert(r[i] == order[i]);
        } else if i > p {
            assert(r[i] == order[i - 1]);
        }
        if j < p {
            assert(r[j] == order[j]);
        } else if j > p {
            assert(r[j] == order[j - 1]);
        }
    }
    assert forall|i: int, j: int| 0 <= i < j < r.len() implies !behind(
        keys[#[trigger] r[i]],
        keys[#[trigger] r[j]],
        reversed,
    ) && (!behind(keys[r[j]], keys[r[i]], reversed) ==> r[i] < r[j]) by {
        if j < p {
            assert(r[i] == order[i] && r[j] == order[j]);
        } else if i > p {
            assert(r[i] == order[i - 1] && r[j] == order[j - 1]);
        } else if j == p {
            assert(r[j] == x && r[i] == order[i]);
            assert(!behind(keys[order[p - 1]], keys[x], reversed));
            if i < p - 1 {
                assert(!behind(keys[order[i]], keys[order[p - 1]], reversed));
                lemma_key_order(keys[order[i]], keys[order[p - 1]], keys[x]);
                lemma_key_order(keys[x], keys[order[p - 1]], keys[order[i]]);
            }
        } else if i == p {
            assert(r[i] == x && r[j] == order[j - 1]);
            assert(behind(keys[order[j - 1]], keys[x], reversed));
            lemma_key_order(keys[x], keys[order[j - 1]], keys[x]);
            lemma_key_order(keys[order[j - 1]], keys[x], keys[x]);
        } else {
            assert(r[i] == order[i] && r[j] == order[j - 1]);
        }
    }
}

proof fn lemma_placed_at(order: Seq<int>, keys: Seq<KeyText>, reversed: bool, x: int) -> (p: int)
    requires
        is_sorted(order, keys, reversed),
    ensures
        0 <= p <= order.len(),
        placed(order, keys, reversed, x) == order.subrange(0, p).push(x) + order.subrange(p, order.len() as int),
        p > 0 ==> !behind(keys[order[p - 1]], keys[x], reversed),
        forall|j: int| p <= j < order.len() ==> behind(keys[#[trigger] order[j]], keys[x], reversed),
    decreases order.len(),
{
    if order.len() == 0 || !behind(keys[order.last()], keys[x], reversed) {
        let p = order.len() as int;
        assert(order.push(x) =~= order.subrange(0, p).push(x) + order.subrange(p, p));
        p
    } else {
        let rest = order.drop_last();
        assert forall|i: int, j: int| 0 <= i < j < rest.len() implies !behind(
            keys[#[trigger] rest[i]],
            keys[#[trigger] rest[j]],
            reversed,
        ) && (!behind(keys[rest[j]], keys[rest[i]], reversed) ==> rest[i] < rest[j]) by {
            assert(rest[i] == order[i] && rest[j] == order[j]);
        }
        let p = lemma_placed_at(rest, keys, reversed, x);
        assert(placed(order, keys, reversed, x) =~= order.subrange(0, p).push(x) + order.subrange(
            p,
            order.len() as int,
        )) by {
            assert(rest.subrange(0, p) =~= order.subrange(0, p));
            assert(rest.subrange(p, rest.len() as int).push(order.last()) =~= order.subrange(p, order.len() as int));
        }
        assert forall|j: int| p <= j < order.len() implies behind(keys[#[trigger] order[j]], keys[x], reversed) by {
            if j < rest.len() {
                assert(rest[j] == order[j]);
            }
        }
        if p > 0 {
            assert(rest[p - 1] == order[p - 1]);
        }
        p
    }
}

/// Sorting keeps every wallpaper once, puts none behind one that it comes before, and
/// leaves those with equal keys as they stood.
pub proof fn law_sorting_is_stable(keys: Seq<KeyText>, reversed: bool, n: nat)
    requires
        n <= keys.len(),
    ensures
        is_order(order_of(keys, reversed, n), n as int),
        is_sorted(order_of(keys, reversed, n), keys, reversed),
    decreases n,
{
    if n > 0 {
        law_sorting_is_stable(keys, reversed, (n - 1) as nat);
        lemma_placed(order_of(keys, reversed, (n - 1) as nat), keys, reversed, n - 1);
    }
}

// ---------------------------------------------------------------------------
// Cards
// ---------------------------------------------------------------------------

/// A card of the library.
pub struct LibraryItem {
    pub name: String,
    pub author: String,
    pub source_url: String,
    pub tags: Vec<String>,
    pub is_parallax: bool,
    pub is_imported: bool,
    pub is_video: bool,
    pub visible: bool,
    pub has_thumbnail: bool,
    /// How many layers of each monitor show the wallpaper.
    pub usage_counts: Vec<usize>,
    /// Whether a monitor shows the wallpaper.
    pub is_active: bool,
}

/// Whether a tag is in a list, whatever the case of its letters.
pub open spec fn tagged(tags: Seq<Seq<char>>, tag: Seq<char>) -> bool {
    exists|i: int| 0 <= i < tags.len() && text::same_ignoring_case(#[trigger] tags[i], tag)
}

/// Whether a tag is among others, whatever the case of its letters.
pub fn has_tag(tags: &Vec<String>, tag: &str) -> (r: bool)
    ensures
        r == tagged(text::texts(tags@), tag@),
{
    let ghost ts = text::texts(tags@);
    let mut i: usize = 0;
    while i < tags.len()
        invariant
            i <= tags.len(),
            ts == text::texts(tags@),
            forall|j: int| 0 <= j < i ==> !text::same_ignoring_case(#[trigger] ts[j], tag@),
        decreases tags.len() - i,
    {
        assert(ts[i as int] == tags@[i as int]@);
        if eq_ignoring_case(tags[i].as_str(), tag) {
            return true;
        }
        i = i + 1;
    }
    false
}

/// How many layers of a list show a wallpaper.
pub open spec fn uses(layers: Seq<controller::LayerText>, path: Seq<Seq<char>>) -> nat
    decreases layers.len(),
{
    if layers.len() == 0 {
        0
    } else {
        uses(layers.drop_last(), path) + (if layers.last().path == path {
            1nat
        } else {
            0
        })
    }
}

fn count_uses(layers: &Vec<LayerInfo>, path: &Location) -> (r: usize)
    ensures
        r == uses(controller::layer_texts(layers@), path@),
{
    let ghost ls = controller::layer_texts(layers@);
    let mut r: usize = 0;
    let mut i: usize = 0;
    assert(ls.subrange(0, 0) =~= Seq::empty());
    while i < layers.len()
        invariant
            i <= layers.len(),
            ls == controller::layer_texts(layers@),
            r == uses(ls.subrange(0, i as int), path@),
            r <= i,
        decreases layers.len() - i,
    {
        assert(ls.subrange(0, i + 1).drop_last() =~= ls.subrange(0, i as int));
        assert(ls.subrange(0, i + 1).last() == layers@[i as int]@);
        if layers[i].wallpaper_path.same(path) {
            r = r + 1;
        }
        i = i + 1;
    }
    assert(ls.subrange(0, i as int) =~= ls);
    r
}

/// Whether counts are those of the layers that show a wallpaper, monitor by monitor.
pub open spec fn are_uses(counts: Seq<usize>, ms: Seq<controller::MonitorText>, path: Seq<Seq<char>>) -> bool {
    &&& counts.len() == ms.len()
    &&& forall|i: int| 0 <= i < ms.len() ==> #[trigger] counts[i] == uses(ms[i].layers, path)
}

/// Whether a card is that of a wallpaper. `own` says whether it is the user's own, and
/// `loaded` whether its thumbnail could be read.
pub open spec fn is_item(
    item: LibraryItem,
    e: controller::EntryText,
    ms: Seq<controller::MonitorText>,
    own: bool,
    loaded: bool,
) -> bool {
    &&& item.name@ == e.name
    &&& item.author@ == e.author
    &&& item.source_url@ == e.source_url
    &&& text::texts(item.tags@) == e.tags
    &&& item.is_parallax == tagged(e.tags, "Parallax"@)
    &&& item.is_imported == (tagged(e.tags, "Imported"@) || own)
    &&& item.is_video == tagged(e.tags, "video"@)
    &&& item.visible
    &&& item.has_thumbnail == (e.thumbnail is Some && loaded)
    &&& are_uses(item.usage_counts@, ms, e.path)
    &&& item.is_active == (exists|i: int| 0 <= i < ms.len() && uses((#[trigger] ms[i]).layers, e.path) > 0)
}

/// How many layers of each monitor show a wallpaper, and whether any does.
pub fn usage(path: &Location, monitors: &Vec<MonitorInfo>) -> (r: (Vec<usize>, bool))
    ensures
        ({
            let ms = controller::monitor_texts(monitors@);
            &&& are_uses(r.0@, ms, path@)
            &&& r.1 == (exists|i: int| 0 <= i < ms.len() && uses((#[trigger] ms[i]).layers, path@) > 0)
        }),
{
    let ghost ms = controller::monitor_texts(monitors@);
    let mut counts: Vec<usize> = Vec::new();
    let mut active = false;
    let mut i: usize = 0;
    while i < monitors.len()
        invariant
            i <= monitors.len(),
            ms == controller::monitor_texts(monitors@),
            counts@.len() == i,
            forall|j: int| 0 <= j < i ==> #[trigger] counts@[j] == uses(ms[j].layers, path@),
            active == (exists|j: int| 0 <= j < i && uses((#[trigger] ms[j]).layers, path@) > 0),
        decreases monitors.len() - i,
    {
        assert(ms[i as int] == monitors@[i as int]@);
        let n: usize = count_uses(&monitors[i].layers, path);
        counts.push(n);
        if n > 0 {
            active = true;
        }
        i = i + 1;
    }
    (counts, active)
}

/// The cards of the library, in the order of its wallpapers.
pub fn build_library_items(
    wallpapers: &Vec<WallpaperEntry>,
    monitors: &Vec<MonitorInfo>,
    own: &Vec<bool>,
    loaded: &Vec<bool>,
) -> (r: Vec<LibraryItem>)
    requires
        own@.len() == wallpapers@.len(),
        loaded@.len() == wallpapers@.len(),
    ensures
        r@.len() == wallpapers@.len(),
        forall|i: int|
            0 <= i < r@.len() ==> is_item(
                #[trigger] r@[i],
                wallpapers@[i]@,
                controller::monitor_texts(monitors@),
                own@[i],
                loaded@[i],
            ),
{
    let mut r: Vec<LibraryItem> = Vec::new();
    let mut i: usize = 0;
    while i < wallpapers.len()
        invariant
            i <= wallpapers.len(),
            own@.len() == wallpapers@.len(),
            loaded@.len() == wallpapers@.len(),
            r@.len() == i,
            forall|j: int|
                0 <= j < i ==> is_item(
                    #[trigger] r@[j],
                    wallpapers@[j]@,
                    controller::monitor_texts(monitors@),
                    own@[j],
                    loaded@[j],
                ),
        decreases wallpapers.len() - i,
    {
        let w = &wallpapers[i];
        let (usage_counts, is_active) = usage(&w.path, monitors);
        r.push(
            LibraryItem {
                name: w.name.clone(),
                author: w.author.clone(),
                source_url: w.source_url.clone(),
                tags: copy_strings(&w.tags),
                is_parallax: has_tag(&w.tags, "Parallax"),
                is_imported: has_tag(&w.tags, "Imported") || own[i],
                is_video: has_tag(&w.tags, "video"),
                visible: true,
                has_thumbnail: w.thumbnail.is_some() && loaded[i],
                usage_counts,
                is_active,
            },
        );
        i = i + 1;
    }
    r
}

/// Whether a search finds a wallpaper: by its name, or by its tags with a space between
/// them, whatever the case of the letters.
pub open spec fn found(e: controller::EntryText, query: Seq<char>) -> bool {
    found_lowered(
        text::unicode_lowercase(e.name),
        text::unicode_lowercase(text::join(e.tags, " "@)),
        text::unicode_lowercase(query),
    )
}

/// Whether a search finds a wallpaper, with everything in lower case.
pub open spec fn found_lowered(name: Seq<char>, tags: Seq<char>, query: Seq<char>) -> bool {
    text::has_text(name, query) || text::has_text(tags, query)
}

/// Whether a search finds a wallpaper, with its name, its tags and the search in lower
/// case.
pub fn finds_lowered(name: &str, tags: &str, query: &str) -> (r: bool)
    ensures
        r == found_lowered(name@, tags@, query@),
{
    str_contains(name, query) || str_contains(tags, query)
}

/// Which wallpapers a search finds.
pub fn search(wallpapers: &Vec<WallpaperEntry>, query: &str) -> (r: Vec<bool>)
    ensures
        r@.len() == wallpapers@.len(),
        forall|i: int| 0 <= i < r@.len() ==> #[trigger] r@[i] == found(wallpapers@[i]@, query@),
{
    let q = str_to_lowercase(query);
    let mut r: Vec<bool> = Vec::new();
    let mut i: usize = 0;
    while i < wallpapers.len()
        invariant
            i <= wallpapers.len(),
            q@ == text::unicode_lowercase(query@),
            r@.len() == i,
            forall|j: int| 0 <= j < i ==> #[trigger] r@[j] == found(wallpapers@[j]@, query@),
        decreases wallpapers.len() - i,
    {
        let name = str_to_lowercase(wallpapers[i].name.as_str());
        let tags = str_to_lowercase(join_strings(&wallpapers[i].tags, " ").as_str());
        r.push(finds_lowered(name.as_str(), tags.as_str(), q.as_str()));
        i = i + 1;
    }
    r
}

// ---------------------------------------------------------------------------
// Refreshing
// ---------------------------------------------------------------------------

/// Whether the library differs from what was found: by the number of its wallpapers,
/// their places or their thumbnails.
pub open spec fn set_changed(old: Seq<controller::EntryText>, new: Seq<controller::EntryText>) -> bool {
    ||| old.len() != new.len()
    ||| exists|i: int|
        0 <= i < old.len() && ((#[trigger] old[i]).path != new[i].path || old[i].thumbnail != new[i].thumbnail)
}

fn same_place(a: &Option<Location>, b: &Option<Location>) -> (r: bool)
    ensures
        r == (paths::opt_view(*a) == paths::opt_view(*b)),
{
    match a {
        Some(x) => match b {
            Some(y) => x.same(y),
            None => false,
        },
        None => b.is_none(),
    }
}

/// What a refresh of the library does.
#[derive(Clone, Copy, PartialEq, Eq, Structural)]
pub enum RefreshOutcome {
    /// Thumbnails are still being made: nothing is done.
    Busy,
    /// The wallpapers are replaced by those that were found.
    Updated,
    /// Nothing changed.
    UpToDate,
}

/// Refreshes the library with the wallpapers that were found, unless thumbnails are
/// still being made.
pub fn refresh_library(busy: bool, wallpapers: &mut Vec<WallpaperEntry>, scanned: Vec<WallpaperEntry>) -> (r:
    RefreshOutcome)
    ensures
        r == (if busy {
            RefreshOutcome::Busy
        } else if set_changed(controller::entry_texts(old(wallpapers)@), controller::entry_texts(scanned@)) {
            RefreshOutcome::Updated
        } else {
            RefreshOutcome::UpToDate
        }),
        *final(wallpapers) == (if r == RefreshOutcome::Updated {
            scanned
        } else {
            *old(wallpapers)
        }),
{
    if busy {
        return RefreshOutcome::Busy;
    }
    let ghost before = controller::entry_texts(wallpapers@);
    let ghost after = controller::entry_texts(scanned@);
    if wallpapers.len() != scanned.len() {
        *wallpapers = scanned;
        return RefreshOutcome::Updated;
    }
    let mut i: usize = 0;
    while i < wallpapers.len()
        invariant
            i <= wallpapers@.len(),
            !busy,
            *wallpapers == *old(wallpapers),
            wallpapers@.len() == scanned@.len(),
            before == controller::entry_texts(wallpapers@),
            after == controller::entry_texts(scanned@),
            forall|j: int|
                0 <= j < i ==> (#[trigger] before[j]).path == after[j].path && before[j].thumbnail
                    == after[j].thumbnail,
        decreases wallpapers.len() - i,
    {
        assert(before[i as int] == wallpapers@[i as int]@);
        assert(after[i as int] == scanned@[i as int]@);
        if !wallpapers[i].path.same(&scanned[i].path) || !same_place(
            &wallpapers[i].thumbnail,
            &scanned[i].thumbnail,
        ) {
            *wallpapers = scanned;
            return RefreshOutcome::Updated;
        }
        i = i + 1;
    }
    RefreshOutcome::UpToDate
}

/// After a refresh that found changes, the same wallpapers found again are no change.
pub proof fn law_refreshing_again_changes_nothing(found: Seq<controller::EntryText>)
    ensures
        !set_changed(found, found),
{
}

// ---------------------------------------------------------------------------
// Thumbnails
// ---------------------------------------------------------------------------

/// The width of a thumbnail.
pub const THUMB_WIDTH: u32 = 480;

/// The height of a thumbnail.
pub const THUMB_HEIGHT: u32 = 270;

/// How many thumbnails are drawn before the device is made again, which gives back the
/// memory that the compilation of shaders took.
pub const CONTEXT_BATCH: usize = 6;

/// A thumbnail that is made.
pub struct ThumbJob {
    pub wallpaper: Location,
    pub out: Location,
    /// Whether the device is made again before.
    pub fresh_device: bool,
}

/// A thumbnail that is made, by the texts it holds.
#[verifier::ext_equal]
pub struct JobText {
    pub wallpaper: Seq<Seq<char>>,
    pub out: Seq<Seq<char>>,
    pub fresh_device: bool,
}

impl View for ThumbJob {
    type V = JobText;

    open spec fn view(&self) -> JobText {
        JobText { wallpaper: self.wallpaper@, out: self.out@, fresh_device: self.fresh_device }
    }
}

/// The wallpapers of a list that have no thumbnail.
pub open spec fn missing(dirs: Seq<Seq<Seq<char>>>, there: Seq<bool>) -> Seq<Seq<Seq<char>>>
    decreases dirs.len(),
{
    if dirs.len() == 0 {
        Seq::empty()
    } else if there[dirs.len() - 1] {
        missing(dirs.drop_last(), there)
    } else {
        missing(dirs.drop_last(), there).push(dirs.last())
    }
}

/// The thumbnails that are made for wallpapers.
pub open spec fn jobs_for(dirs: Seq<Seq<Seq<char>>>) -> Seq<JobText> {
    Seq::new(
        dirs.len(),
        |i: int|
            JobText {
                wallpaper: dirs[i],
                out: dirs[i].push("thumbnail.png"@),
                fresh_device: i > 0 && i % CONTEXT_BATCH as int == 0,
            },
    )
}

/// The thumbnails that are made: those of the wallpapers that have none, unless some are
/// being made already. `there` says of each wallpaper whether it has one.
pub fn spawn_thumbnail_generation(busy: bool, dirs: &Vec<Location>, there: &Vec<bool>) -> (r: Vec<ThumbJob>)
    requires
        there@.len() == dirs@.len(),
    ensures
        busy ==> r@.len() == 0,
        !busy ==> Seq::new(r@.len(), |i: int| r@[i]@) == jobs_for(missing(paths::views(dirs@), there@)),
{
    let mut r: Vec<ThumbJob> = Vec::new();
    if busy {
        return r;
    }
    let ghost ds = paths::views(dirs@);
    let mut i: usize = 0;
    assert(ds.subrange(0, 0) =~= Seq::empty());
    while i < dirs.len()
        invariant
            i <= dirs.len(),
            there@.len() == dirs@.len(),
            ds == paths::views(dirs@),
            r@.len() == missing(ds.subrange(0, i as int), there@).len(),
            r@.len() <= i,
            forall|j: int|
                0 <= j < r@.len() ==> (#[trigger] r@[j])@ == jobs_for(missing(ds.subrange(0, i as int), there@))[j],
        decreases dirs.len() - i,
    {
        let ghost before = missing(ds.subrange(0, i as int), there@);
        assert(ds.subrange(0, i + 1).drop_last() =~= ds.subrange(0, i as int));
        assert(ds.subrange(0, i + 1).last() == dirs@[i as int]@);
        if !there[i] {
            let n: usize = r.len();
            let fresh_device = n > 0 && n % CONTEXT_BATCH == 0;
            r.push(ThumbJob { wallpaper: dirs[i].copy(), out: thumbnail_path(&dirs[i]), fresh_device });
            assert(missing(ds.subrange(0, i + 1), there@) == before.push(dirs@[i as int]@));
            assert forall|j: int| 0 <= j < r@.len() implies (#[trigger] r@[j])@ == jobs_for(
                before.push(dirs@[i as int]@),
            )[j] by {
                if j < n {
                    assert(jobs_for(before.push(dirs@[i as int]@))[j] == jobs_for(before)[j]);
                }
            }
        }
        i = i + 1;
    }
    assert(ds.subrange(0, i as int) =~= ds);
    assert(Seq::new(r@.len(), |i: int| r@[i]@) =~= jobs_for(missing(ds, there@)));
    r
}

/// Whether a thumbnail is made from the picture of a wallpaper, rather than drawn: where
/// the wallpaper was made from a photo, which has its depth beside it.
pub fn thumbnail_from_source(has_image: bool, has_depth: bool) -> (r: bool)
    ensures
        r == (has_image && has_depth),
{
    has_image && has_depth
}

/// The library once a thumbnail was made.
pub open spec fn with_thumbnail(
    es: Seq<controller::EntryText>,
    path: Seq<Seq<char>>,
    thumbnail: Seq<Seq<char>>,
    n: int,
) -> Seq<controller::EntryText>
    decreases es.len() - n,
{
    if n >= es.len() || n < 0 {
        es
    } else if es[n].path == path {
        es.update(n, controller::EntryText { thumbnail: Some(thumbnail), ..es[n] })
    } else {
        with_thumbnail(es, path, thumbnail, n + 1)
    }
}

/// Takes note of a thumbnail that was made: the first wallpaper at that place has it.
/// Tells which that is.
pub fn thumbnail_made(wallpapers: &mut Vec<WallpaperEntry>, path: &Location, thumbnail: &Location) -> (r: Option<
    usize,
>)
    ensures
        controller::entry_texts(final(wallpapers)@) == with_thumbnail(
            controller::entry_texts(old(wallpapers)@),
            path@,
            thumbnail@,
            0,
        ),
        match r {
            Some(i) => i < old(wallpapers)@.len() && old(wallpapers)@[i as int].path@ == path@ && forall|j: int|
                0 <= j < i ==> (#[trigger] old(wallpapers)@[j]).path@ != path@,
            None => forall|j: int| 0 <= j < old(wallpapers)@.len() ==> (#[trigger] old(wallpapers)@[j]).path@ != path@,
        },
{
    let ghost es = controller::entry_texts(wallpapers@);
    let mut i: usize = 0;
    while i < wallpapers.len()
        invariant
            i <= wallpapers@.len(),
            *wallpapers == *old(wallpapers),
            es == controller::entry_texts(wallpapers@),
            with_thumbnail(es, path@, thumbnail@, 0) == with_thumbnail(es, path@, thumbnail@, i as int),
            forall|j: int| 0 <= j < i ==> (#[trigger] wallpapers@[j]).path@ != path@,
        decreases wallpapers.len() - i,
    {
        assert(es[i as int] == wallpapers@[i as int]@);
        if wallpapers[i].path.same(path) {
            wallpapers[i].thumbnail = Some(thumbnail.copy());
            assert(controller::entry_texts(wallpapers@) =~= es.update(
                i as int,
                controller::EntryText { thumbnail: Some(thumbnail@), ..es[i as int] },
            ));
            return Some(i);
        }
        i = i + 1;
    }
    None
}

// ---------------------------------------------------------------------------
// What can be relied on
// ---------------------------------------------------------------------------

/// The first character in which two texts differ says which comes first; a text comes
/// before every longer one that begins with it.
pub proof fn law_texts_are_ordered_by_characters(p: Seq<char>, x: Seq<char>, y: Seq<char>)
    ensures
        x.len() > 0 && y.len() > 0 && x[0] != y[0] ==> (text_less(p + x, p + y) <==> x[0] < y[0]),
        y.len() > 0 ==> text_less(p, p + y),
        !text_less(p + x, p),
    decreases p.len(),
{
    if p.len() > 0 {
        let q = p.subrange(1, p.len() as int);
        law_texts_are_ordered_by_characters(q, x, y);
        assert((p + x).subrange(1, (p + x).len() as int) =~= q + x);
        assert((p + y).subrange(1, (p + y).len() as int) =~= q + y);
        assert((p + x)[0] == p[0] && (p + y)[0] == p[0]);
    } else {
        assert(p + x =~= x);
        assert(p + y =~= y);
    }
}

/// Wallpapers are ordered first by whose they are, the user's own last, then by version,
/// then by time, then by name; in the reverse order everything stands the other way round.
pub proof fn law_keys_are_ordered_part_by_part(a: KeyText, b: KeyText)
    ensures
        !a.own && b.own ==> less(a, b) && !less(b, a),
        a.own == b.own && library_sync::later(b.version, a.version) ==> less(a, b) && !less(b, a),
        a.own == b.own && a.version == b.version && a.time < b.time ==> less(a, b) && !less(b, a),
        a.own == b.own && a.version == b.version && a.time == b.time ==> less(a, b) == text_less(a.name, b.name),
        behind(a, b, false) <==> less(b, a),
        behind(a, b, true) <==> less(a, b),
{
}

/// A wallpaper of the library was added with its version; any other comes after all of
/// those, at the time at which its folder changed.
pub proof fn law_additions_are_dated(
    folder: Seq<Seq<char>>,
    slug: Seq<char>,
    time: i64,
    versions: Map<Seq<char>, Version>,
)
    ensures
        versions.dom().contains(slug) ==> added_key(folder.push(slug), Some(time), versions) == (versions[slug], 0i64),
        !versions.dom().contains(slug) ==> {
            let none = added_key(folder.push(slug), None, versions);
            let some = added_key(folder.push(slug), Some(time), versions);
            &&& some.1 == time
            &&& none.1 == 0
            &&& some.0 == none.0
            &&& forall|v: Version| !library_sync::later(v, some.0)
        },
{
}

/// The library is ordered by name, from either end.
pub proof fn law_names_order_the_library(
    es: Seq<controller::EntryText>,
    facts: Seq<EntryFacts>,
    versions: Map<Seq<char>, Version>,
    i: int,
    j: int,
)
    requires
        0 <= i < j < es.len(),
    ensures
        ({
            let up = order_of(keys_of(es, facts, versions, "name-asc"@), is_reversed("name-asc"@), es.len());
            let first = text::unicode_lowercase(es[up[i]].name);
            let second = text::unicode_lowercase(es[up[j]].name);
            !text_less(second, first)
        }),
        ({
            let down = order_of(keys_of(es, facts, versions, "name-desc"@), is_reversed("name-desc"@), es.len());
            let first = text::unicode_lowercase(es[down[i]].name);
            let second = text::unicode_lowercase(es[down[j]].name);
            !text_less(first, second)
        }),
{
    lemma_modes_differ();
    let ku = keys_of(es, facts, versions, "name-asc"@);
    law_sorting_is_stable(ku, false, es.len());
    let up = order_of(ku, false, es.len());
    assert(0 <= up[i] < es.len() && 0 <= up[j] < es.len());
    assert(!behind(ku[up[i]], ku[up[j]], false));
    let kd = keys_of(es, facts, versions, "name-desc"@);
    law_sorting_is_stable(kd, true, es.len());
    let down = order_of(kd, true, es.len());
    assert(0 <= down[i] < es.len() && 0 <= down[j] < es.len());
    assert(!behind(kd[down[i]], kd[down[j]], true));
}

/// The library is ordered by the addition of its wallpapers, from either end.
pub proof fn law_additions_order_the_library(
    es: Seq<controller::EntryText>,
    facts: Seq<EntryFacts>,
    versions: Map<Seq<char>, Version>,
    i: int,
    j: int,
)
    requires
        0 <= i < j < es.len(),
    ensures
        ({
            let up = order_of(keys_of(es, facts, versions, "date-oldest"@), is_reversed("date-oldest"@), es.len());
            let first = added_key(es[up[i]].path, facts[up[i]].modified, versions);
            let second = added_key(es[up[j]].path, facts[up[j]].modified, versions);
            !library_sync::later(first.0, second.0) && (first.0 == second.0 ==> first.1 <= second.1)
        }),
        ({
            let down = order_of(keys_of(es, facts, versions, "date-newest"@), is_reversed("date-newest"@), es.len());
            let first = added_key(es[down[i]].path, facts[down[i]].modified, versions);
            let second = added_key(es[down[j]].path, facts[down[j]].modified, versions);
            !library_sync::later(second.0, first.0) && (first.0 == second.0 ==> first.1 >= second.1)
        }),
{
    lemma_modes_differ();
    let ku = keys_of(es, facts, versions, "date-oldest"@);
    law_sorting_is_stable(ku, false, es.len());
    let up = order_of(ku, false, es.len());
    assert(0 <= up[i] < es.len() && 0 <= up[j] < es.len());
    assert(!behind(ku[up[i]], ku[up[j]], false));
    let kd = keys_of(es, facts, versions, "date-newest"@);
    law_sorting_is_stable(kd, true, es.len());
    let down = order_of(kd, true, es.len());
    assert(0 <= down[i] < es.len() && 0 <= down[j] < es.len());
    assert(!behind(kd[down[i]], kd[down[j]], true));
}

/// In every other order the user's own wallpapers stand behind those of the library, and
/// each of the two groups is ordered by name.
pub proof fn law_own_wallpapers_stand_behind(
    es: Seq<controller::EntryText>,
    facts: Seq<EntryFacts>,
    versions: Map<Seq<char>, Version>,
    mode: Seq<char>,
    i: int,
    j: int,
)
    requires
        0 <= i < j < es.len(),
        mode != "name-asc"@ && mode != "name-desc"@ && mode != "date-newest"@ && mode != "date-oldest"@,
    ensures
        ({
            let o = order_of(keys_of(es, facts, versions, mode), is_reversed(mode), es.len());
            let first = text::unicode_lowercase(es[o[i]].name);
            let second = text::unicode_lowercase(es[o[j]].name);
            &&& facts[o[i]].deletable ==> facts[o[j]].deletable
            &&& facts[o[i]].deletable == facts[o[j]].deletable ==> !text_less(second, first)
        }),
{
    let ks = keys_of(es, facts, versions, mode);
    law_sorting_is_stable(ks, false, es.len());
    let o = order_of(ks, false, es.len());
    assert(0 <= o[i] < es.len() && 0 <= o[j] < es.len());
    assert(!behind(ks[o[i]], ks[o[j]], false));
}

proof fn lemma_modes_differ()
    ensures
        !is_reversed("name-asc"@),
        is_reversed("name-desc"@),
        is_reversed("date-newest"@),
        !is_reversed("date-oldest"@),
        "date-newest"@ != "name-asc"@ && "date-newest"@ != "name-desc"@,
        "date-oldest"@ != "name-asc"@ && "date-oldest"@ != "name-desc"@,
{
    reveal_strlit("name-asc");
    reveal_strlit("name-desc");
    reveal_strlit("date-newest");
    reveal_strlit("date-oldest");
    assert("name-asc"@.len() == 8);
    assert("name-desc"@.len() == 9);
    assert("date-newest"@.len() == 11);
    assert("date-oldest"@.len() == 11);
    assert("date-newest"@[5] == 'n');
    assert("date-oldest"@[5] == 'o');
}

/// The wallpapers of an order stand where it says.
pub proof fn law_wallpapers_stand_in_order(es: Seq<controller::EntryText>, order: Seq<int>, i: int)
    requires
        0 <= i < order.len(),
    ensures
        arranged(es, order).len() == order.len(),
        arranged(es, order)[i] == es[order[i]],
{
}

/// A layer counts for the wallpaper that it shows.
pub proof fn law_layers_are_counted(layers: Seq<controller::LayerText>, path: Seq<Seq<char>>)
    ensures
        uses(layers, path) == layers.filter(|l: controller::LayerText| l.path == path).len(),
    decreases layers.len(),
{
    reveal(Seq::filter);
    if layers.len() > 0 {
        law_layers_are_counted(layers.drop_last(), path);
    }
}

/// A card tells of its wallpaper: what it is called, who made it, what it is tagged as,
/// and where it is shown.
pub proof fn law_cards_tell_of_their_wallpaper(
    item: LibraryItem,
    e: controller::EntryText,
    ms: Seq<controller::MonitorText>,
    own: bool,
    loaded: bool,
    i: int,
)
    requires
        is_item(item, e, ms, own, loaded),
        0 <= i < ms.len(),
    ensures
        item.name@ == e.name,
        item.author@ == e.author,
        item.source_url@ == e.source_url,
        text::texts(item.tags@) == e.tags,
        item.visible,
        item.is_parallax <==> exists|k: int|
            0 <= k < e.tags.len() && text::same_ignoring_case(#[trigger] e.tags[k], "Parallax"@),
        item.is_video <==> exists|k: int|
            0 <= k < e.tags.len() && text::same_ignoring_case(#[trigger] e.tags[k], "video"@),
        item.is_imported <==> own || exists|k: int|
            0 <= k < e.tags.len() && text::same_ignoring_case(#[trigger] e.tags[k], "Imported"@),
        item.has_thumbnail <==> e.thumbnail is Some && loaded,
        item.usage_counts@.len() == ms.len(),
        item.usage_counts@[i] == ms[i].layers.filter(|l: controller::LayerText| l.path == e.path).len(),
        item.usage_counts@[i] > 0 ==> item.is_active,
        (forall|k: int| 0 <= k < ms.len() ==> #[trigger] item.usage_counts@[k] == 0) ==> !item.is_active,
{
    law_layers_are_counted(ms[i].layers, e.path);
    assert(item.usage_counts@[i] == uses(ms[i].layers, e.path));
    if forall|k: int| 0 <= k < ms.len() ==> #[trigger] item.usage_counts@[k] == 0 {
        assert forall|k: int| 0 <= k < ms.len() implies uses((#[trigger] ms[k]).layers, e.path) == 0 by {
            assert(item.usage_counts@[k] == uses(ms[k].layers, e.path));
        }
    }
}

/// A search finds a wallpaper where it stands in its name or among its tags, and an
/// empty search finds all.
pub proof fn law_searches_find_what_is_there(
    front: Seq<char>,
    query: Seq<char>,
    behind: Seq<char>,
    other: Seq<char>,
)
    ensures
        found_lowered(front + query + behind, other, query),
        found_lowered(other, front + query + behind, query),
        found_lowered(front, other, Seq::empty()),
        found_lowered(front, other, query) ==> text::has_text(front, query) || text::has_text(other, query),
{
    let all = front + query + behind;
    let at = front.len() as int;
    assert(all.subrange(at, at + query.len()) =~= query);
    assert(text::text_at(all, query, at));
    assert(front.subrange(0, 0) =~= Seq::<char>::empty());
    assert(text::text_at(front, Seq::empty(), 0));
}

/// The library differs from what was found where a wallpaper came or went, or has
/// another place or thumbnail.
pub proof fn law_changes_are_seen(old_ones: Seq<controller::EntryText>, new_ones: Seq<controller::EntryText>, i: int)
    ensures
        old_ones.len() != new_ones.len() ==> set_changed(old_ones, new_ones),
        0 <= i < old_ones.len() && old_ones.len() == new_ones.len() && (old_ones[i].path != new_ones[i].path
            || old_ones[i].thumbnail != new_ones[i].thumbnail) ==> set_changed(old_ones, new_ones),
        old_ones.len() == new_ones.len() && (forall|k: int|
            0 <= k < old_ones.len() ==> (#[trigger] old_ones[k]).path == new_ones[k].path && old_ones[k].thumbnail
                == new_ones[k].thumbnail) ==> !set_changed(old_ones, new_ones),
{
}

/// Thumbnails are made for the wallpapers that have none, in their order.
pub proof fn law_missing_thumbnails_are_made(dirs: Seq<Seq<Seq<char>>>, there: Seq<bool>)
    requires
        dirs.len() <= there.len(),
    ensures
        missing(dirs, there) == Seq::new(dirs.len(), |i: int| (dirs[i], there[i])).filter(
            |p: (Seq<Seq<char>>, bool)| !p.1,
        ).map_values(|p: (Seq<Seq<char>>, bool)| p.0),
    decreases dirs.len(),
{
    reveal(Seq::filter);
    let all = Seq::new(dirs.len(), |i: int| (dirs[i], there[i]));
    let p = |p: (Seq<Seq<char>>, bool)| !p.1;
    let f = |p: (Seq<Seq<char>>, bool)| p.0;
    if dirs.len() > 0 {
        let d = dirs.drop_last();
        law_missing_thumbnails_are_made(d, there);
        assert(all.drop_last() =~= Seq::new(d.len(), |i: int| (d[i], there[i])));
    }
    assert(missing(dirs, there) =~= all.filter(p).map_values(f));
}

/// A thumbnail goes into the folder of its wallpaper, and the device is made again
/// before every sixth, but not before the first.
pub proof fn law_thumbnails_go_to_their_folder(dirs: Seq<Seq<Seq<char>>>, i: int)
    requires
        0 <= i < dirs.len(),
    ensures
        jobs_for(dirs).len() == dirs.len(),
        jobs_for(dirs)[i].wallpaper == dirs[i],
        jobs_for(dirs)[i].out == dirs[i].push("thumbnail.png"@),
        jobs_for(dirs)[i].fresh_device <==> i > 0 && i % 6 == 0,
        THUMB_WIDTH == 480 && THUMB_HEIGHT == 270,
{
}

/// A thumbnail that was made is that of the first wallpaper at its place, and nothing
/// else changes.
pub proof fn law_thumbnails_reach_their_wallpaper(
    es: Seq<controller::EntryText>,
    path: Seq<Seq<char>>,
    thumbnail: Seq<Seq<char>>,
    k: int,
)
    ensures
        0 <= k < es.len() && es[k].path == path && (forall|j: int| 0 <= j < k ==> (#[trigger] es[j]).path != path)
            ==> with_thumbnail(es, path, thumbnail, 0) == es.update(
            k,
            controller::EntryText { thumbnail: Some(thumbnail), ..es[k] },
        ),
        (forall|j: int| 0 <= j < es.len() ==> (#[trigger] es[j]).path != path) ==> with_thumbnail(
            es,
            path,
            thumbnail,
            0,
        ) == es,
{
    if 0 <= k < es.len() && es[k].path == path && (forall|j: int| 0 <= j < k ==> (#[trigger] es[j]).path != path) {
        lemma_thumbnail_from(es, path, thumbnail, 0, k);
    }
    if forall|j: int| 0 <= j < es.len() ==> (#[trigger] es[j]).path != path {
        lemma_no_thumbnail_from(es, path, thumbnail, 0);
    }
}

proof fn lemma_thumbnail_from(
    es: Seq<controller::EntryText>,
    path: Seq<Seq<char>>,
    thumbnail: Seq<Seq<char>>,
    n: int,
    k: int,
)
    requires
        0 <= n <= k < es.len(),
        es[k].path == path,
        forall|j: int| n <= j < k ==> (#[trigger] es[j]).path != path,
    ensures
        with_thumbnail(es, path, thumbnail, n) == es.update(
            k,
            controller::EntryText { thumbnail: Some(thumbnail), ..es[k] },
        ),
    decreases k - n,
{
    if n < k {
        assert(es[n].path != path);
        lemma_thumbnail_from(es, path, thumbnail, n + 1, k);
    }
}

proof fn lemma_no_thumbnail_from(
    es: Seq<controller::EntryText>,
    path: Seq<Seq<char>>,
    thumbnail: Seq<Seq<char>>,
    n: int,
)
    requires
        0 <= n <= es.len(),
        forall|j: int| n <= j < es.len() ==> (#[trigger] es[j]).path != path,
    ensures
        with_thumbnail(es, path, thumbnail, n) == es,
    decreases es.len() - n,
{
    if n < es.len() {
        assert(es[n].path != path);
        lemma_no_thumbnail_from(es, path, thumbnail, n + 1);
    }
}

/// A search looks at the name of a wallpaper and at its tags with a space between them,
/// all in lower case.
pub proof fn law_searches_look_at_names_and_tags(e: controller::EntryText, query: Seq<char>)
    ensures
        found(e, query) <==> text::has_text(text::unicode_lowercase(e.name), text::unicode_lowercase(query))
            || text::has_text(text::unicode_lowercase(text::join(e.tags, seq![' '])), text::unicode_lowercase(query)),
{
    reveal_strlit(" ");
    assert(" "@ =~= seq![' ']);
}

} // verus!
