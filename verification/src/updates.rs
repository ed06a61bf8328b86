//! Checking for new releases of the program and of the library.
use vstd::prelude::*;
use crate::document;
use crate::document::{json_field, parse_json};
use crate::library_sync;
use crate::library_sync::{is_later, parse_version, Version};
use crate::text;
use crate::text::{str_starts_with, trim_str};

verus! {

broadcast use vstd::string::group_string_axioms;

/// A week, in seconds.
pub const WEEK: i64 = 604_800;

/// Where the releases of the program are listed.
pub const RELEASES_PAGE: &'static str = "https://github.com/BadassBaboon/Strata/releases";

/// The characters between the numbers of a release.
pub open spec fn release_seps() -> Seq<char> {
    seq!['.', '-', '+', ' ']
}

/// The version that the tag of a release writes.
pub fn parse_semver(s: &str) -> (r: Version)
    ensures
        r == library_sync::version_in(s@, release_seps()),
{
    let mut seps: Vec<char> = Vec::new();
    seps.push('.');
    seps.push('-');
    seps.push('+');
    seps.push(' ');
    assert(seps@ =~= release_seps());
    parse_version(s, &seps)
}

/// Whether a release is newer than the running program.
pub open spec fn newer_release(tag: Seq<char>, current: Seq<char>) -> bool {
    library_sync::later(
        library_sync::version_in(tag, release_seps()),
        library_sync::version_in(current, release_seps()),
    )
}

/// Whether a release is newer than the running program.
pub fn is_newer_version(tag: &str, current: &str) -> (r: bool)
    ensures
        r == newer_release(tag@, current@),
{
    is_later(parse_semver(tag), parse_semver(current))
}

/// A release of the program.
pub struct Release {
    pub tag: String,
    pub url: String,
}

/// A release of the program, by the texts it holds.
#[verifier::ext_equal]
pub struct ReleaseText {
    pub tag: Seq<char>,
    pub url: Seq<char>,
}

impl View for Release {
    type V = ReleaseText;

    open spec fn view(&self) -> ReleaseText {
        ReleaseText { tag: self.tag@, url: self.url@ }
    }
}

/// The answer to the question for the latest release.
pub enum ReleaseAnswer {
    Body(String),
    /// There is no release yet.
    NotFound,
    Failed(String),
}

/// The text under a key, or another one.
pub open spec fn text_or(fields: Map<Seq<char>, Seq<char>>, key: Seq<char>, other: Seq<char>) -> Seq<char> {
    match document::under(fields, key) {
        Some(t) => t,
        None => other,
    }
}

/// The release that the fields of an answer describe, if it is newer than the running
/// program.
pub open spec fn release_of(fields: Map<Seq<char>, Seq<char>>, current: Seq<char>) -> Option<ReleaseText> {
    let tag = text_or(fields, "tag_name"@, Seq::empty());
    let url = text_or(fields, "html_url"@, RELEASES_PAGE@);
    if tag.len() > 0 && newer_release(tag, current) {
        Some(ReleaseText { tag, url })
    } else {
        None
    }
}

/// What an answer says: a newer release, none, or why that cannot be told.
pub open spec fn release_in(answer: ReleaseAnswer, current: Seq<char>) -> Result<Option<ReleaseText>, Seq<char>> {
    match answer {
        ReleaseAnswer::Body(b) => match document::json_document(b@) {
            Ok(d) => Ok(release_of(d.0, current)),
            Err(e) => Err(e),
        },
        ReleaseAnswer::NotFound => Ok(None),
        ReleaseAnswer::Failed(e) => Err(e@),
    }
}

/// The release that a tag and an address describe, if it is newer than the running
/// program.
pub fn newer_than(tag: Option<String>, url: Option<String>, current: &str) -> (r: Option<Release>)
    ensures
        opt_release(r) == ({
            let t = match text::opt_text(tag) {
                Some(t) => t,
                None => Seq::empty(),
            };
            let u = match text::opt_text(url) {
                Some(u) => u,
                None => RELEASES_PAGE@,
            };
            if t.len() > 0 && newer_release(t, current@) {
                Some(ReleaseText { tag: t, url: u })
            } else {
                None
            }
        }),
{
    let tag = match tag {
        Some(t) => t,
        None => {
            let none = String::new();
            assert(none@ =~= Seq::empty());
            none
        },
    };
    let url = match url {
        Some(u) => u,
        None => RELEASES_PAGE.to_owned(),
    };
    if text::chars_of(tag.as_str()).len() > 0 && is_newer_version(tag.as_str(), current) {
        Some(Release { tag, url })
    } else {
        None
    }
}

/// A release that may be missing.
pub open spec fn opt_release(r: Option<Release>) -> Option<ReleaseText> {
    match r {
        Some(x) => Some(x@),
        None => None,
    }
}

/// Whether there is a newer release than the running program.
pub fn check_github_latest(answer: ReleaseAnswer, current: &str) -> (r: Result<Option<Release>, String>)
    ensures
        match r {
            Ok(x) => release_in(answer, current@) == Ok::<_, Seq<char>>(opt_release(x)),
            Err(e) => release_in(answer, current@) == Err::<Option<ReleaseText>, _>(e@),
        },
{
    match answer {
        ReleaseAnswer::Body(b) => match parse_json(b.as_str()) {
            Ok(doc) => {
                let tag = json_field(&doc, "tag_name");
                let url = json_field(&doc, "html_url");
                Ok(newer_than(tag, url, current))
            },
            Err(e) => Err(e),
        },
        ReleaseAnswer::NotFound => Ok(None),
        ReleaseAnswer::Failed(e) => Err(e),
    }
}

/// Whether an address may be opened in the browser.
pub open spec fn is_web(url: Seq<char>) -> bool {
    text::begins_with(url, "https://"@) || text::begins_with(url, "http://"@)
}

/// The address to open in the browser, without white space around it; anything that is
/// no web address is refused.
pub fn open_url(url: &str) -> (r: Option<String>)
    ensures
        text::opt_text(r) == (if is_web(text::trim(url@)) {
            Some(text::trim(url@))
        } else {
            None
        }),
{
    let u = trim_str(url);
    if str_starts_with(u.as_str(), "https://") || str_starts_with(u.as_str(), "http://") {
        Some(u)
    } else {
        None
    }
}

/// Whether the weekly check is due.
pub fn weekly_check_due(now: i64, last: i64) -> (r: bool)
    ensures
        r == (now - last >= WEEK),
{
    now as i128 - last as i128 >= WEEK as i128
}

/// What the settings show about updates of one kind.
pub struct UpdatePanel {
    pub checking: bool,
    pub available: bool,
    /// Where an available update is.
    pub url: String,
    pub badge: String,
    pub label: String,
}

/// What follows a click on the button of a panel.
pub enum UpdateClick {
    Nothing,
    /// Open the page of the update.
    Open(String),
    /// Ask whether there is an update.
    Check,
}

/// A badge for the version that is in use.
pub open spec fn latest_badge(version: Seq<char>) -> Seq<char> {
    "v"@ + version + " (LATEST)"@
}

fn write_latest_badge(version: &str) -> (r: String)
    ensures
        r@ == latest_badge(version@),
{
    let mut s = "v".to_owned();
    s.append(version);
    s.append(" (LATEST)");
    s
}

impl UpdatePanel {
    /// The panel at the start, where the given version is in use.
    pub fn new(version: &str) -> (p: UpdatePanel)
        ensures
            !p.checking,
            !p.available,
            p.url@.len() == 0,
            p.badge@ == latest_badge(version@),
            p.label@ == "CHECK FOR UPDATES"@,
    {
        UpdatePanel {
            checking: false,
            available: false,
            url: String::new(),
            badge: write_latest_badge(version),
            label: "CHECK FOR UPDATES".to_owned(),
        }
    }

    /// A click on the button: opens the page of an update that was found, else asks for
    /// one, unless that is under way.
    pub fn check_for_updates(&mut self) -> (r: UpdateClick)
        ensures
            old(self).available ==> *final(self) == *old(self) && (if is_web(old(self).url@) {
                r matches UpdateClick::Open(u) && u@ == old(self).url@
            } else {
                r is Nothing
            }),
            !old(self).available && old(self).checking ==> *final(self) == *old(self) && r is Nothing,
            !old(self).available && !old(self).checking ==> {
                &&& r is Check
                &&& final(self).checking
                &&& !final(self).available
                &&& final(self).label@ == "CHECKING…"@
                &&& final(self).url == old(self).url
                &&& final(self).badge == old(self).badge
            },
    {
        if self.available {
            if str_starts_with(self.url.as_str(), "https://") || str_starts_with(self.url.as_str(), "http://") {
                return UpdateClick::Open(self.url.clone());
            }
            return UpdateClick::Nothing;
        }
        if self.checking {
            return UpdateClick::Nothing;
        }
        self.checking = true;
        self.label = "CHECKING…".to_owned();
        UpdateClick::Check
    }

    /// Takes in that a release is available.
    pub fn found(&mut self, release: Release)
        ensures
            final(self).available,
            final(self).checking == old(self).checking,
            final(self).url == release.url,
            final(self).badge@ == release.tag@ + " AVAILABLE"@,
            final(self).label@ == "DOWNLOAD UPDATE"@,
    {
        self.url = release.url;
        self.available = true;
        let mut badge = release.tag;
        badge.append(" AVAILABLE");
        self.badge = badge;
        self.label = "DOWNLOAD UPDATE".to_owned();
    }

    /// Takes in the answer to the question for an update.
    pub fn checked(&mut self, result: Result<Option<Release>, String>, current: &str)
        ensures
            !final(self).checking,
            match result {
                Ok(Some(release)) => {
                    &&& final(self).available
                    &&& final(self).url == release.url
                    &&& final(self).badge@ == release.tag@ + " AVAILABLE"@
                    &&& final(self).label@ == "DOWNLOAD UPDATE"@
                },
                Ok(None) => {
                    &&& final(self).available == old(self).available
                    &&& final(self).url == old(self).url
                    &&& final(self).badge@ == latest_badge(current@)
                    &&& final(self).label@ == "CHECK FOR UPDATES"@
                },
                Err(_) => {
                    &&& final(self).available == old(self).available
                    &&& final(self).url == old(self).url
                    &&& final(self).badge@ == "CHECK FAILED"@
                    &&& final(self).label@ == "CHECK FOR UPDATES"@
                },
            },
    {
        self.checking = false;
        match result {
            Ok(Some(release)) => {
                self.found(release);
            },
            Ok(None) => {
                self.badge = write_latest_badge(current);
                self.label = "CHECK FOR UPDATES".to_owned();
            },
            Err(_) => {
                self.badge = "CHECK FAILED".to_owned();
                self.label = "CHECK FOR UPDATES".to_owned();
            },
        }
    }

    /// A click on the button of the library: downloads it where it is out of date,
    /// unless that is under way.
    pub fn check_for_library_updates(&mut self) -> (start: bool)
        ensures
            start == !old(self).checking,
            !start ==> *final(self) == *old(self),
            start ==> {
                &&& final(self).checking
                &&& final(self).label@ == "WORKING…"@
                &&& final(self).available == old(self).available
                &&& final(self).url == old(self).url
                &&& final(self).badge == old(self).badge
            },
    {
        if self.checking {
            return false;
        }
        self.checking = true;
        self.label = "WORKING…".to_owned();
        true
    }

    /// Takes in what came of it: the version that was installed, none where the current
    /// one is the latest, or an error. Tells whether the library has changed.
    pub fn library_synced(&mut self, result: Result<Option<String>, String>, current: &str) -> (changed: bool)
        ensures
            !final(self).checking,
            !final(self).available,
            final(self).url == old(self).url,
            final(self).label@ == "CHECK FOR UPDATES"@,
            changed == (result matches Ok(Some(_))),
            final(self).badge@ == (match result {
                Ok(Some(v)) => latest_badge(v@),
                Ok(None) => latest_badge(current@),
                Err(_) => "SYNC FAILED"@,
            }),
    {
        self.checking = false;
        self.available = false;
        self.label = "CHECK FOR UPDATES".to_owned();
        match result {
            Ok(Some(v)) => {
                self.badge = write_latest_badge(v.as_str());
                true
            },
            Ok(None) => {
                self.badge = write_latest_badge(current);
                false
            },
            Err(_) => {
                self.badge = "SYNC FAILED".to_owned();
                false
            },
        }
    }

    /// Takes in that a newer version of the library is available.
    pub fn library_found(&mut self, version: &str)
        ensures
            final(self).available,
            final(self).checking == old(self).checking,
            final(self).url == old(self).url,
            final(self).badge@ == "v"@ + version@ + " AVAILABLE"@,
            final(self).label@ == "DOWNLOAD UPDATE"@,
    {
        self.available = true;
        let mut badge = "v".to_owned();
        badge.append(version);
        badge.append(" AVAILABLE");
        self.badge = badge;
        self.label = "DOWNLOAD UPDATE".to_owned();
    }
}

/// What came of the weekly check.
pub struct WeeklyOutcome {
    /// Whether the time of the check is kept; a check that reached nothing is made
    /// again at the next start.
    pub keep_time: bool,
    /// Whether the user is told.
    pub notify: bool,
}

/// Takes in the results of the weekly check.
pub fn weekly_checked(
    app: &mut UpdatePanel,
    library: &mut UpdatePanel,
    app_result: Result<Option<Release>, String>,
    library_result: Result<Option<String>, String>,
) -> (r: WeeklyOutcome)
    ensures
        r.keep_time == (app_result is Ok || library_result is Ok),
        r.notify == (app_result matches Ok(Some(_)) || library_result matches Ok(Some(_))),
        match app_result {
            Ok(Some(release)) => {
                &&& final(app).available
                &&& final(app).url == release.url
                &&& final(app).badge@ == release.tag@ + " AVAILABLE"@
                &&& final(app).label@ == "DOWNLOAD UPDATE"@
                &&& final(app).checking == old(app).checking
            },
            _ => *final(app) == *old(app),
        },
        match library_result {
            Ok(Some(v)) => {
                &&& final(library).available
                &&& final(library).badge@ == "v"@ + v@ + " AVAILABLE"@
                &&& final(library).label@ == "DOWNLOAD UPDATE"@
                &&& final(library).checking == old(library).checking
                &&& final(library).url == old(library).url
            },
            _ => *final(library) == *old(library),
        },
{
    let keep_time = app_result.is_ok() || library_result.is_ok();
    let mut notify = false;
    if let Ok(Some(release)) = app_result {
        app.found(release);
        notify = true;
    }
    if let Ok(Some(version)) = library_result {
        library.library_found(version.as_str());
        notify = true;
    }
    WeeklyOutcome { keep_time, notify }
}

/// A release is newer where its version is later, whether or not the versions are written
/// with a `v`.
pub proof fn law_newer_releases_are_later(a: Version, b: Version)
    ensures
        newer_release(library_sync::written(a), library_sync::written(b)) <==> a.major > b.major || a.major == b.major
            && (a.minor > b.minor || a.minor == b.minor && a.patch > b.patch),
        newer_release(seq!['v'] + library_sync::written(a), library_sync::written(b)) == newer_release(
            library_sync::written(a),
            library_sync::written(b),
        ),
{
    lemma_release_is_read_back(a);
    lemma_release_is_read_back(b);
}

proof fn lemma_digits(n: nat, i: int)
    ensures
        text::decimal(n).len() > 0,
        0 <= i < text::decimal(n).len() ==> '0' <= text::decimal(n)[i] <= '9',
    decreases n,
{
    if n >= 10 {
        lemma_digits(n / 10, i);
    }
}

proof fn lemma_release_is_read_back(v: Version)
    ensures
        library_sync::version_in(library_sync::written(v), release_seps()) == v,
        library_sync::version_in(seq!['v'] + library_sync::written(v), release_seps()) == v,
{
    reveal_strlit(".");
    let w = library_sync::written(v);
    let seps = release_seps();
    assert(seps[0] == '.' && seps[1] == '-' && seps[2] == '+' && seps[3] == ' ');
    let a = text::decimal(v.major as nat);
    let b = text::decimal(v.minor as nat);
    let c = text::decimal(v.patch as nat);
    lemma_digits(v.major as nat, 0);
    lemma_digits(v.patch as nat, c.len() - 1);
    assert(w[0] == a[0]);
    assert(w.last() == c[c.len() - 1]);
    assert forall|i: int| 0 <= i < a.len() implies !seps.contains(#[trigger] a[i]) by {
        lemma_digits(v.major as nat, i);
    }
    assert forall|i: int| 0 <= i < b.len() implies !seps.contains(#[trigger] b[i]) by {
        lemma_digits(v.minor as nat, i);
    }
    assert forall|i: int| 0 <= i < c.len() implies !seps.contains(#[trigger] c[i]) by {
        lemma_digits(v.patch as nat, i);
    }
    text::law_texts_are_split_at_separators(c, '.', Seq::empty(), seps);
    text::law_texts_are_split_at_separators(b, '.', c, seps);
    text::law_texts_are_split_at_separators(a, '.', b.push('.') + c, seps);
    assert(w =~= a.push('.') + (b.push('.') + c));
    let parts = seq![a, b, c];
    assert(text::split(w, seps) =~= parts);
    text::law_numbers_are_read_back(v.major as nat, u32::MAX as nat);
    text::law_numbers_are_read_back(v.minor as nat, u32::MAX as nat);
    text::law_numbers_are_read_back(v.patch as nat, u32::MAX as nat);
    reveal_with_fuel(library_sync::numbers, 4);
    assert(parts.drop_last() =~= seq![a, b]);
    assert(parts.drop_last().drop_last() =~= seq![a]);
    assert(library_sync::numbers(parts) =~= seq![v.major, v.minor, v.patch]);
    let none = Seq::<char>::empty();
    let set = seq!['v', 'V'];
    assert(set[0] == 'v' && set[1] == 'V');
    assert(none + w + none =~= w);
    text::law_trimmed_texts_stay(none, w, none);
    assert(text::trim_start_of(w, set) == w);
    let small = seq!['v'] + w;
    assert(none + small + none =~= small);
    assert(small.last() == w.last());
    text::law_trimmed_texts_stay(none, small, none);
    assert(small.subrange(1, small.len() as int) =~= w);
    assert(text::trim_start_of(small, set) == w);
}

/// An answer tells of a release exactly where it has a tag that is newer than the running
/// program; the address is that of the answer, or of the page that lists the releases.
pub proof fn law_answers_tell_of_newer_releases(fields: Map<Seq<char>, Seq<char>>, current: Seq<char>)
    ensures
        release_of(fields, current) is Some <==> fields.contains_key("tag_name"@) && fields["tag_name"@].len() > 0
            && newer_release(fields["tag_name"@], current),
        release_of(fields, current) matches Some(r) ==> r.tag == fields["tag_name"@] && (fields.contains_key(
            "html_url"@,
        ) ==> r.url == fields["html_url"@]) && (!fields.contains_key("html_url"@) ==> r.url
            == "https://github.com/BadassBaboon/Strata/releases"@),
{
}

/// What cannot be read or asked for is an error, and where there is no release there is
/// none to tell of.
pub proof fn law_answers_are_told(body: String, failed: String, current: Seq<char>)
    ensures
        document::json_document(body@) matches Ok(d) ==> release_in(ReleaseAnswer::Body(body), current) == Ok::<
            _,
            Seq<char>,
        >(release_of(d.0, current)),
        document::json_document(body@) matches Err(e) ==> release_in(ReleaseAnswer::Body(body), current) == Err::<
            Option<ReleaseText>,
            _,
        >(e),
        release_in(ReleaseAnswer::NotFound, current) == Ok::<Option<ReleaseText>, Seq<char>>(None),
        release_in(ReleaseAnswer::Failed(failed), current) == Err::<Option<ReleaseText>, _>(failed@),
{
}

/// Only addresses of the web are opened.
pub proof fn law_only_web_addresses_are_opened(rest: Seq<char>, other: Seq<char>)
    ensures
        is_web("https://"@ + rest),
        is_web("http://"@ + rest),
        is_web(other) ==> other.len() >= 7 && other[0] == 'h' && other[1] == 't' && other[2] == 't' && other[3] == 'p'
            && (other[4] == ':' && other[5] == '/' && other[6] == '/' || other[4] == 's' && other[5] == ':' && other[6]
            == '/' && other[7] == '/'),
{
    reveal_strlit("https://");
    reveal_strlit("http://");
    assert(("https://"@ + rest).subrange(0, 8) =~= "https://"@);
    assert(("http://"@ + rest).subrange(0, 7) =~= "http://"@);
    text::law_texts_stand_where_their_characters_do(other, "https://"@, 0);
    text::law_texts_stand_where_their_characters_do(other, "http://"@, 0);
    let s = "https://"@;
    let p = "http://"@;
    assert(s[0] == 'h' && s[1] == 't' && s[2] == 't' && s[3] == 'p' && s[4] == 's' && s[5] == ':' && s[6] == '/'
        && s[7] == '/');
    assert(p[0] == 'h' && p[1] == 't' && p[2] == 't' && p[3] == 'p' && p[4] == ':' && p[5] == '/' && p[6] == '/');
}

/// A badge names the version in use, and a week has seven days.
pub proof fn law_badges_name_the_version(version: Seq<char>)
    ensures
        latest_badge(version) == "v"@ + version + " (LATEST)"@,
        WEEK == 7 * 24 * 60 * 60,
{
}

/// The numbers of a release stand between dots, dashes, plus signs and spaces.
pub proof fn law_releases_are_split_at_signs(part: Seq<char>, rest: Seq<char>)
    requires
        forall|i: int|
            0 <= i < part.len() ==> #[trigger] part[i] != '.' && part[i] != '-' && part[i] != '+' && part[i] != ' ',
    ensures
        text::split(part.push('.') + rest, release_seps()) == seq![part] + text::split(rest, release_seps()),
        text::split(part.push('-') + rest, release_seps()) == seq![part] + text::split(rest, release_seps()),
        text::split(part.push('+') + rest, release_seps()) == seq![part] + text::split(rest, release_seps()),
        text::split(part.push(' ') + rest, release_seps()) == seq![part] + text::split(rest, release_seps()),
        text::split(part, release_seps()) == seq![part],
{
    let seps = release_seps();
    assert(seps[0] == '.' && seps[1] == '-' && seps[2] == '+' && seps[3] == ' ');
    text::law_texts_are_split_at_separators(part, '.', rest, seps);
    text::law_texts_are_split_at_separators(part, '-', rest, seps);
    text::law_texts_are_split_at_separators(part, '+', rest, seps);
    text::law_texts_are_split_at_separators(part, ' ', rest, seps);
}

} // verus!
