//! ZIP archives in memory, as far as the library reads them.
use vstd::prelude::*;
use crate::paths;
use crate::paths::Location;
use crate::text;
use crate::text::chars_of;

verus! {

broadcast use vstd::string::group_string_axioms;

/// A ZIP archive.
#[verifier::external_type_specification]
#[verifier::external_body]
#[verifier::reject_recursive_types(R)]
pub struct ExZipArchive<R>(zip::ZipArchive<R>);

/// A reader of bytes in memory.
#[verifier::external_type_specification]
#[verifier::external_body]
#[verifier::reject_recursive_types(T)]
pub struct ExCursor<T>(std::io::Cursor<T>);

/// The bytes that an archive was made of.
pub uninterp spec fn zip_bytes(a: zip::ZipArchive<std::io::Cursor<Vec<u8>>>) -> Seq<u8>;

/// What `ZipArchive::new` makes of bytes: the number of entries, or the message of the
/// error.
pub uninterp spec fn zip_count(bytes: Seq<u8>) -> Result<nat, Seq<char>>;

/// The number of entries of an archive, by its bytes.
pub open spec fn entry_count(bytes: Seq<u8>) -> nat {
    match zip_count(bytes) {
        Ok(n) => n,
        Err(_) => 0,
    }
}

/// What `ZipArchive::by_index` and `ZipFile::name` give: the name of an entry, or the
/// message of the error.
pub uninterp spec fn zip_name(bytes: Seq<u8>, i: nat) -> Result<Seq<char>, Seq<char>>;

/// The contents of an entry, or the message of the error.
pub uninterp spec fn zip_data(bytes: Seq<u8>, i: nat) -> Result<Seq<u8>, Seq<char>>;

/// The contents of an entry as a text, or the message of the error.
pub uninterp spec fn zip_text(bytes: Seq<u8>, i: nat) -> Result<Seq<char>, Seq<char>>;

/// Whether a component begins like a drive, with a colon as its second character.
pub open spec fn is_drive(part: Seq<char>) -> bool {
    part.len() >= 2 && part[1] == ':'
}

/// Whether a component is a plain name: it is not empty, does not stand for the folder
/// itself or the one above it, holds no separator and does not begin like a drive.
pub open spec fn plain_part(part: Seq<char>) -> bool {
    &&& part.len() > 0
    &&& part != "."@
    &&& part != ".."@
    &&& !part.contains('/')
    &&& !part.contains('\\')
    &&& !is_drive(part)
}

/// Whether the components of a place are plain names.
pub open spec fn plain_parts(l: Seq<Seq<char>>) -> bool {
    forall|k: int| 0 <= k < l.len() ==> plain_part(#[trigger] l[k])
}

/// The pieces of the name of an entry, between slashes and backslashes.
pub open spec fn name_pieces(name: Seq<char>) -> Seq<Seq<char>> {
    text::split(name, seq!['/', '\\'])
}

/// Where the pieces of a name lead: empty ones and `.` stay, `..` goes up, others go
/// down; missing where they lead out of the folder that they start from.
pub open spec fn place_of_pieces(pieces: Seq<Seq<char>>) -> Option<Seq<Seq<char>>>
    decreases pieces.len(),
{
    if pieces.len() == 0 {
        Some(Seq::empty())
    } else {
        let piece = pieces.last();
        match place_of_pieces(pieces.drop_last()) {
            Some(l) => if piece.len() == 0 || piece == "."@ {
                Some(l)
            } else if piece != ".."@ {
                Some(l.push(piece))
            } else if l.len() > 0 {
                Some(l.drop_last())
            } else {
                None
            },
            None => None,
        }
    }
}

/// Where an entry goes by its name; missing where it would leave the folder it is
/// unpacked into, or the name holds a zero.
pub open spec fn place_of(name: Seq<char>) -> Option<Seq<Seq<char>>> {
    if name.contains('\0') {
        None
    } else {
        place_of_pieces(name_pieces(name))
    }
}

/// Whether the place of an entry is the same on every system: its name does not begin
/// with two separators, and no piece of it begins like a drive.
pub open spec fn is_portable(name: Seq<char>) -> bool {
    &&& !(name.len() >= 2 && (name[0] == '/' || name[0] == '\\') && (name[1] == '/' || name[1] == '\\'))
    &&& forall|k: int| 0 <= k < name_pieces(name).len() ==> !is_drive(#[trigger] name_pieces(name)[k])
}

/// An entry of an archive.
pub struct ArchiveEntry {
    pub name: String,
    /// Where the entry goes, missing where it would leave the folder it is unpacked
    /// into.
    pub enclosed: Option<Location>,
}

proof fn lemma_pieces_hold_no_separator(name: Seq<char>, seps: Seq<char>, k: int)
    requires
        0 <= k < text::split(name, seps).len(),
    ensures
        forall|c: char| #[trigger] seps.contains(c) ==> !text::split(name, seps)[k].contains(c),
    decreases name.len(),
{
    let pieces = text::split(name, seps);
    if name.len() > 0 {
        let before = text::split(name.drop_last(), seps);
        text::lemma_split_len(name.drop_last(), seps);
        if seps.contains(name.last()) {
            if k < before.len() {
                lemma_pieces_hold_no_separator(name.drop_last(), seps, k);
            }
        } else if k < before.len() - 1 {
            lemma_pieces_hold_no_separator(name.drop_last(), seps, k);
        } else {
            lemma_pieces_hold_no_separator(name.drop_last(), seps, before.len() - 1);
            assert forall|c: char| #[trigger] seps.contains(c) implies !pieces[k].contains(c) by {
                if pieces[k].contains(c) {
                    let j = choose|j: int| 0 <= j < pieces[k].len() && pieces[k][j] == c;
                    if j < before.last().len() {
                        assert(before.last()[j] == c);
                    }
                }
            }
        }
    }
}

proof fn lemma_pieces_lead_to_plain_names(pieces: Seq<Seq<char>>)
    requires
        forall|k: int|
            0 <= k < pieces.len() ==> !(#[trigger] pieces[k]).contains('/') && !pieces[k].contains('\\')
                && !is_drive(pieces[k]),
    ensures
        place_of_pieces(pieces) matches Some(l) ==> plain_parts(l),
    decreases pieces.len(),
{
    if pieces.len() > 0 {
        assert forall|k: int| 0 <= k < pieces.drop_last().len() implies !(#[trigger] pieces.drop_last()[k]).contains(
            '/',
        ) && !pieces.drop_last()[k].contains('\\') && !is_drive(pieces.drop_last()[k]) by {
            assert(pieces.drop_last()[k] == pieces[k]);
        }
        lemma_pieces_lead_to_plain_names(pieces.drop_last());
        assert(pieces.last() == pieces[pieces.len() - 1]);
    }
}

/// The place of a portable name consists of plain names.
pub proof fn lemma_portable_places_are_plain(name: Seq<char>)
    requires
        is_portable(name),
    ensures
        place_of(name) matches Some(l) ==> plain_parts(l),
{
    let seps = seq!['/', '\\'];
    let pieces = name_pieces(name);
    assert(seps[0] == '/' && seps[1] == '\\');
    assert(seps.contains('/') && seps.contains('\\'));
    assert forall|k: int| 0 <= k < pieces.len() implies !(#[trigger] pieces[k]).contains('/')
        && !pieces[k].contains('\\') && !is_drive(pieces[k]) by {
        lemma_pieces_hold_no_separator(name, seps, k);
    }
    lemma_pieces_lead_to_plain_names(pieces);
}

fn is_plain_part(part: &Vec<char>) -> (r: bool)
    ensures
        r == plain_part(part@),
{
    proof {
        reveal_strlit(".");
        reveal_strlit("..");
    }
    let mut i: usize = 0;
    while i < part.len()
        invariant
            i <= part.len(),
            forall|j: int| 0 <= j < i ==> #[trigger] part@[j] != '/' && part@[j] != '\\',
        decreases part.len() - i,
    {
        if part[i] == '/' || part[i] == '\\' {
            assert(part@.contains(part@[i as int]));
            return false;
        }
        i = i + 1;
    }
    let dot = part.len() == 1 && part[0] == '.';
    let dots = part.len() == 2 && part[0] == '.' && part[1] == '.';
    assert(dot == (part@ =~= "."@));
    assert(dots == (part@ =~= ".."@));
    part.len() > 0 && !dot && !dots && !(part.len() >= 2 && part[1] == ':')
}

/// Whether the components of a place are plain names.
pub fn is_plain(l: &Location) -> (r: bool)
    ensures
        r == plain_parts(l@),
{
    let mut i: usize = 0;
    while i < l.parts.len()
        invariant
            i <= l.parts.len(),
            forall|k: int| 0 <= k < i ==> plain_part(#[trigger] l@[k]),
        decreases l.parts.len() - i,
    {
        if !is_plain_part(&chars_of(l.parts[i].as_str())) {
            assert(!plain_part(l@[i as int]));
            return false;
        }
        i = i + 1;
    }
    true
}

/// Calls `zip::ZipArchive::new` on a cursor over the bytes. Whether they are an archive,
/// and the message where they are not, depend on the bytes alone.
#[verifier::external_body]
pub(crate) fn open_zip(bytes: Vec<u8>) -> (r: Result<zip::ZipArchive<std::io::Cursor<Vec<u8>>>, String>)
    ensures
        match r {
            Ok(a) => zip_bytes(a) == bytes@ && zip_count(bytes@) is Ok,
            Err(e) => zip_count(bytes@) == Err::<nat, _>(e@),
        },
{
    zip::ZipArchive::new(std::io::Cursor::new(bytes)).map_err(|e| e.to_string())
}

/// Calls `zip::ZipArchive::len`: the number of entries.
#[verifier::external_body]
pub(crate) fn zip_len(a: &zip::ZipArchive<std::io::Cursor<Vec<u8>>>) -> (r: usize)
    ensures
        r == entry_count(zip_bytes(*a)),
{
    a.len()
}

/// Calls `zip::ZipArchive::by_index`, and `name` and `enclosed_name` on what it gives.
/// The name depends on the bytes and the number of the entry. The place of a portable
/// name is where its pieces lead. Of other names, the place depends on how the system
/// reads paths with drives and prefixes, and nothing is said.
#[verifier::external_body]
pub(crate) fn zip_heading(a: &mut zip::ZipArchive<std::io::Cursor<Vec<u8>>>, i: usize) -> (r: Result<
    ArchiveEntry,
    String,
>)
    ensures
        zip_bytes(*final(a)) == zip_bytes(*old(a)),
        match r {
            Ok(e) => {
                &&& zip_name(zip_bytes(*old(a)), i as nat) == Ok::<_, Seq<char>>(e.name@)
                &&& is_portable(e.name@) ==> paths::opt_view(e.enclosed) == place_of(e.name@)
            },
            Err(m) => zip_name(zip_bytes(*old(a)), i as nat) == Err::<Seq<char>, _>(m@),
        },
{
    let f = a.by_index(i).map_err(|e| e.to_string())?;
    Ok(ArchiveEntry {
        name: f.name().to_owned(),
        enclosed: f.enclosed_name().map(|p| Location {
            parts: p.components().map(|c| c.as_os_str().to_string_lossy().into_owned()).collect(),
        }),
    })
}

/// Calls `zip::ZipArchive::by_index`, and `read_to_end` on what it gives: the contents
/// of an entry, which depend on the bytes and the number of the entry.
#[verifier::external_body]
pub(crate) fn zip_read(a: &mut zip::ZipArchive<std::io::Cursor<Vec<u8>>>, i: usize) -> (r: Result<Vec<u8>, String>)
    ensures
        zip_bytes(*final(a)) == zip_bytes(*old(a)),
        match r {
            Ok(d) => zip_data(zip_bytes(*old(a)), i as nat) == Ok::<_, Seq<char>>(d@),
            Err(m) => zip_data(zip_bytes(*old(a)), i as nat) == Err::<Seq<u8>, _>(m@),
        },
{
    let mut f = a.by_index(i).map_err(|e| e.to_string())?;
    let mut d = Vec::new();
    std::io::Read::read_to_end(&mut f, &mut d).map_err(|e| e.to_string())?;
    Ok(d)
}

/// Calls `zip::ZipArchive::by_index`, and `read_to_string` on what it gives: the contents
/// of an entry as a text, which depend on the bytes and the number of the entry.
#[verifier::external_body]
pub(crate) fn zip_read_text(a: &mut zip::ZipArchive<std::io::Cursor<Vec<u8>>>, i: usize) -> (r: Result<
    String,
    String,
>)
    ensures
        zip_bytes(*final(a)) == zip_bytes(*old(a)),
        match r {
            Ok(s) => zip_text(zip_bytes(*old(a)), i as nat) == Ok::<_, Seq<char>>(s@),
            Err(m) => zip_text(zip_bytes(*old(a)), i as nat) == Err::<Seq<char>, _>(m@),
        },
{
    let mut f = a.by_index(i).map_err(|e| e.to_string())?;
    let mut s = String::new();
    std::io::Read::read_to_string(&mut f, &mut s).map_err(|e| e.to_string())?;
    Ok(s)
}

// ---------------------------------------------------------------------------
// What can be relied on
// ---------------------------------------------------------------------------

/// A plain name is not empty, is neither the folder itself nor the one above, and holds no
/// separator and no drive.
pub proof fn law_plain_names_stay_in_their_folder(part: Seq<char>, front: Seq<char>, behind: Seq<char>)
    ensures
        !plain_part(Seq::empty()),
        !plain_part("."@),
        !plain_part(".."@),
        !plain_part(front + seq!['/'] + behind),
        !plain_part(front + seq!['\\'] + behind),
        front.len() == 1 ==> !plain_part(front + seq![':'] + behind),
        (forall|i: int|
            0 <= i < part.len() ==> #[trigger] part[i] != '/' && part[i] != '\\' && part[i] != ':' && part[i] != '.')
            && part.len() > 0 ==> plain_part(part),
{
    reveal_strlit(".");
    reveal_strlit("..");
    let at = front.len() as int;
    assert((front + seq!['/'] + behind)[at] == '/');
    assert((front + seq!['\\'] + behind)[at] == '\\');
    assert((front + seq![':'] + behind)[at] == ':');
    if (forall|i: int|
        0 <= i < part.len() ==> #[trigger] part[i] != '/' && part[i] != '\\' && part[i] != ':' && part[i] != '.')
        && part.len() > 0 {
        assert(part[0] != '.');
        assert("."@[0] == '.');
        assert(".."@[0] == '.');
    }
}

/// Where the pieces of a name lead: a plain piece goes down, an empty one and a dot stay,
/// two dots go back up, and out of the folder nothing leads.
pub proof fn law_pieces_lead_to_the_place(pieces: Seq<Seq<char>>, l: Seq<Seq<char>>, name: Seq<char>)
    requires
        place_of_pieces(pieces) == Some(l),
        name.len() > 0,
        name != "."@,
        name != ".."@,
    ensures
        place_of_pieces(pieces.push(name)) == Some(l.push(name)),
        place_of_pieces(pieces.push("."@)) == Some(l),
        place_of_pieces(pieces.push(Seq::empty())) == Some(l),
        place_of_pieces(pieces.push(name).push(".."@)) == Some(l),
        l.len() == 0 ==> place_of_pieces(pieces.push(".."@)) is None,
        place_of_pieces(Seq::empty()) == Some(Seq::<Seq<char>>::empty()),
{
    reveal_strlit(".");
    reveal_strlit("..");
    assert("."@.len() == 1);
    assert(".."@.len() == 2);
    assert(pieces.push(name).drop_last() =~= pieces);
    assert(pieces.push("."@).drop_last() =~= pieces);
    assert(pieces.push(".."@).drop_last() =~= pieces);
    assert(pieces.push(Seq::<char>::empty()).drop_last() =~= pieces);
    let down = pieces.push(name);
    assert(place_of_pieces(down) == Some(l.push(name)));
    assert(down.push(".."@).drop_last() =~= down);
    assert(l.push(name).drop_last() =~= l);
}

/// What leads out of the folder once leads nowhere.
pub proof fn law_nothing_leads_back_in(pieces: Seq<Seq<char>>, piece: Seq<char>)
    requires
        place_of_pieces(pieces) is None,
    ensures
        place_of_pieces(pieces.push(piece)) is None,
{
    assert(pieces.push(piece).drop_last() =~= pieces);
}

/// A name is taken apart at slashes and backslashes; one that holds a zero has no place.
pub proof fn law_names_are_taken_apart(first: Seq<char>, rest: Seq<char>, name: Seq<char>)
    requires
        forall|i: int| 0 <= i < first.len() ==> #[trigger] first[i] != '/' && first[i] != '\\',
    ensures
        name_pieces(first.push('/') + rest) == seq![first] + name_pieces(rest),
        name_pieces(first.push('\\') + rest) == seq![first] + name_pieces(rest),
        name_pieces(first) == seq![first],
        name.contains('\0') ==> place_of(name) is None,
        !name.contains('\0') ==> place_of(name) == place_of_pieces(name_pieces(name)),
{
    let seps = seq!['/', '\\'];
    assert(seps[0] == '/' && seps[1] == '\\');
    text::law_texts_are_split_at_separators(first, '/', rest, seps);
    text::law_texts_are_split_at_separators(first, '\\', rest, seps);
}

/// A name is portable where it does not begin with two separators and no piece of it
/// begins like a drive; bytes that are no archive have no entries.
pub proof fn law_portable_names_have_no_drive(name: Seq<char>, piece: Seq<char>, k: int, bytes: Seq<u8>)
    ensures
        is_portable(name) && name.len() >= 2 && (name[0] == '/' || name[0] == '\\') ==> name[1] != '/' && name[1]
            != '\\',
        is_portable(name) && 0 <= k < name_pieces(name).len() && name_pieces(name)[k].len() >= 2 ==> name_pieces(
            name,
        )[k][1] != ':',
        (forall|i: int| 0 <= i < piece.len() ==> #[trigger] piece[i] != '/' && piece[i] != '\\' && piece[i] != ':')
            ==> is_portable(piece),
        zip_count(bytes) matches Ok(n) ==> entry_count(bytes) == n,
        zip_count(bytes) is Err ==> entry_count(bytes) == 0,
{
    if forall|i: int| 0 <= i < piece.len() ==> #[trigger] piece[i] != '/' && piece[i] != '\\' && piece[i] != ':' {
        law_names_are_taken_apart(piece, Seq::empty(), piece);
    }
}

} // verus!
