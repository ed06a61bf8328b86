//! Text as sequences of characters: the operations that the parsers, the
//! generators and the label rules of the engine are built from.
use vstd::prelude::*;

verus! {

broadcast use vstd::string::group_string_axioms;

// ---------------------------------------------------------------------------
// Character classes
// ---------------------------------------------------------------------------

/// The characters that have the Unicode `White_Space` property.
pub open spec fn is_whitespace(c: char) -> bool {
    ||| '\t' <= c <= '\r'
    ||| c == ' ' || c == '\u{85}' || c == '\u{a0}' || c == '\u{1680}'
    ||| '\u{2000}' <= c <= '\u{200a}'
    ||| c == '\u{2028}' || c == '\u{2029}' || c == '\u{202f}' || c == '\u{205f}' || c == '\u{3000}'
}

/// Whether a character is alphabetic or numeric in Unicode's sense.
pub uninterp spec fn unicode_alphanumeric(c: char) -> bool;

/// The Unicode lowercase of a text.
pub uninterp spec fn unicode_lowercase(s: Seq<char>) -> Seq<char>;

/// Calls `char::is_alphanumeric`: the answer depends on the character alone.
#[verifier::external_body]
pub(crate) fn char_is_alphanumeric(c: char) -> (r: bool)
    ensures
        r == unicode_alphanumeric(c),
{
    c.is_alphanumeric()
}

/// Whether a text holds no ASCII capital.
pub open spec fn no_capitals(s: Seq<char>) -> bool {
    forall|i: int| 0 <= i < s.len() ==> !('A' <= #[trigger] s[i] <= 'Z')
}

/// Whether a text is of ASCII characters alone.
pub open spec fn all_ascii(s: Seq<char>) -> bool {
    forall|i: int| 0 <= i < s.len() ==> #[trigger] s[i] <= '\u{7f}'
}

/// A text with its ASCII capitals made small.
pub open spec fn ascii_lowered(s: Seq<char>) -> Seq<char> {
    Seq::new(s.len(), |i: int| lower(s[i]))
}

/// Calls `str::to_lowercase`: the result depends on the text alone and holds no ASCII
/// capital, and of an ASCII text it is the text with its capitals made small. What
/// becomes of other characters is not stated.
#[verifier::external_body]
pub(crate) fn str_to_lowercase(s: &str) -> (r: String)
    ensures
        r@ == unicode_lowercase(s@),
        no_capitals(r@),
        all_ascii(s@) ==> r@ == ascii_lowered(s@),
{
    s.to_lowercase()
}

/// `String::push` appends one character.
pub assume_specification[ String::push ](s: &mut String, c: char)
    ensures
        final(s)@ == old(s)@.push(c),
;

/// An ASCII decimal digit.
pub open spec fn is_digit(c: char) -> bool {
    '0' <= c <= '9'
}

/// An ASCII letter.
pub open spec fn is_letter(c: char) -> bool {
    ('a' <= c <= 'z') || ('A' <= c <= 'Z')
}

/// An ASCII letter or digit.
pub open spec fn is_ascii_word(c: char) -> bool {
    is_letter(c) || is_digit(c)
}

/// The ASCII lowercase of a character; every other character is kept.
pub open spec fn lower(c: char) -> char {
    if 'A' <= c <= 'Z' {
        (c as u8 + 32u8) as char
    } else {
        c
    }
}

/// The ASCII uppercase of a character; every other character is kept.
pub open spec fn upper(c: char) -> char {
    if 'a' <= c <= 'z' {
        (c as u8 - 32u8) as char
    } else {
        c
    }
}

pub fn char_is_whitespace(c: char) -> (r: bool)
    ensures
        r == is_whitespace(c),
{
    ('\t' <= c && c <= '\r') || c == ' ' || c == '\u{85}' || c == '\u{a0}' || c == '\u{1680}' || (
    '\u{2000}' <= c && c <= '\u{200a}') || c == '\u{2028}' || c == '\u{2029}' || c == '\u{202f}' || c
        == '\u{205f}' || c == '\u{3000}'
}

pub fn char_is_digit(c: char) -> (r: bool)
    ensures
        r == is_digit(c),
{
    '0' <= c && c <= '9'
}

pub fn char_is_letter(c: char) -> (r: bool)
    ensures
        r == is_letter(c),
{
    ('a' <= c && c <= 'z') || ('A' <= c && c <= 'Z')
}

pub fn char_is_ascii_word(c: char) -> (r: bool)
    ensures
        r == is_ascii_word(c),
{
    char_is_letter(c) || char_is_digit(c)
}

pub fn char_lower(c: char) -> (r: char)
    ensures
        r == lower(c),
{
    if 'A' <= c && c <= 'Z' {
        (c as u8 + 32u8) as char
    } else {
        c
    }
}

pub fn char_upper(c: char) -> (r: char)
    ensures
        r == upper(c),
{
    if 'a' <= c && c <= 'z' {
        (c as u8 - 32u8) as char
    } else {
        c
    }
}

// ---------------------------------------------------------------------------
// Characters of a text
// ---------------------------------------------------------------------------

/// The characters of a text, in order.
pub fn chars_of(s: &str) -> (r: Vec<char>)
    ensures
        r@ == s@,
{
    let mut out: Vec<char> = Vec::new();
    for c in it: s.chars()
        invariant
            out@.len() == it.index(),
            it.seq() == s@,
            forall|i: int| 0 <= i < out@.len() ==> out@[i] == s@[i],
    {
        out.push(c);
    }
    assert(out@ =~= s@);
    out
}

/// The text made of the given characters.
pub fn string_of(v: &Vec<char>) -> (r: String)
    ensures
        r@ == v@,
{
    let mut out = String::new();
    let mut i: usize = 0;
    while i < v.len()
        invariant
            i <= v.len(),
            out@ == v@.subrange(0, i as int),
        decreases v.len() - i,
    {
        out.push(v[i]);
        i = i + 1;
        assert(v@.subrange(0, i as int) =~= v@.subrange(0, i - 1).push(v@[i - 1]));
    }
    assert(v@.subrange(0, v@.len() as int) =~= v@);
    out
}

/// Whether two texts hold the same characters.
pub fn str_eq(a: &str, b: &str) -> (r: bool)
    ensures
        r == (a@ == b@),
{
    a.to_owned() == b.to_owned()
}

/// The texts of a list of strings.
pub open spec fn texts(v: Seq<String>) -> Seq<Seq<char>> {
    Seq::new(v.len(), |i: int| v[i]@)
}

/// The contents of a list of character buffers.
pub open spec fn buffers(v: Seq<Vec<char>>) -> Seq<Seq<char>> {
    Seq::new(v.len(), |i: int| v[i]@)
}

/// The text of a string that may be missing.
pub open spec fn opt_text(s: Option<String>) -> Option<Seq<char>> {
    match s {
        Some(x) => Some(x@),
        None => None,
    }
}

/// A copy of a string that may be missing.
pub fn copy_opt(s: &Option<String>) -> (r: Option<String>)
    ensures
        opt_text(r) == opt_text(*s),
{
    match s {
        Some(x) => Some(x.clone()),
        None => None,
    }
}

/// Whether a string that may be missing is there and equals a text.
pub fn opt_is(s: &Option<String>, t: &str) -> (r: bool)
    ensures
        r == (opt_text(*s) == Some(t@)),
{
    match s {
        Some(x) => str_eq(x.as_str(), t),
        None => false,
    }
}

/// Whether a list of strings holds the given text.
pub fn list_has(v: &Vec<String>, s: &str) -> (r: bool)
    ensures
        r == texts(v@).contains(s@),
{
    let mut i: usize = 0;
    while i < v.len()
        invariant
            i <= v.len(),
            forall|j: int| 0 <= j < i ==> v@[j]@ != s@,
        decreases v.len() - i,
    {
        if str_eq(v[i].as_str(), s) {
            assert(texts(v@)[i as int] == s@);
            return true;
        }
        i = i + 1;
    }
    assert forall|j: int| 0 <= j < texts(v@).len() implies texts(v@)[j] != s@ by {}
    false
}

/// A copy of a list of texts.
pub fn copy_strings(v: &Vec<String>) -> (r: Vec<String>)
    ensures
        texts(r@) == texts(v@),
        r@.len() == v@.len(),
{
    let mut out: Vec<String> = Vec::new();
    let mut i: usize = 0;
    while i < v.len()
        invariant
            i <= v.len(),
            out@.len() == i,
            forall|j: int| 0 <= j < i ==> out@[j]@ == v@[j]@,
        decreases v.len() - i,
    {
        out.push(v[i].clone());
        i = i + 1;
    }
    assert(texts(out@) =~= texts(v@));
    out
}

/// The position of the first string of a list that equals a text.
pub open spec fn first_index(v: Seq<Seq<char>>, s: Seq<char>, i: int) -> bool {
    &&& 0 <= i < v.len()
    &&& v[i] == s
    &&& forall|j: int| 0 <= j < i ==> v[j] != s
}

/// The position of the first string of a list that equals a text.
pub open spec fn pos(v: Seq<Seq<char>>, s: Seq<char>) -> Option<int> {
    if v.contains(s) {
        Some(choose|i: int| first_index(v, s, i))
    } else {
        None
    }
}

/// There is one first position.
pub proof fn lemma_pos(v: Seq<Seq<char>>, s: Seq<char>, i: int)
    requires
        first_index(v, s, i),
    ensures
        pos(v, s) == Some(i),
{
    assert(v.contains(s));
    let w = choose|w: int| first_index(v, s, w);
    assert(first_index(v, s, w));
    if w < i {
        assert(v[w] != s);
    }
    if i < w {
        assert(v[i] != s);
    }
}

/// A text that a list holds has a first position in it.
pub proof fn lemma_pos_exists(v: Seq<Seq<char>>, s: Seq<char>, k: int)
    requires
        0 <= k < v.len(),
        v[k] == s,
    ensures
        pos(v, s) is Some,
        first_index(v, s, pos(v, s)->0),
        pos(v, s)->0 <= k,
    decreases k,
{
    if forall|j: int| 0 <= j < k ==> v[j] != s {
        lemma_pos(v, s, k);
    } else {
        let j = choose|j: int| 0 <= j < k && v[j] == s;
        lemma_pos_exists(v, s, j);
    }
}

/// The position of the first string of a list that equals a text.
pub fn position_of(v: &Vec<String>, s: &str) -> (r: Option<usize>)
    ensures
        match r {
            Some(i) => pos(texts(v@), s@) == Some(i as int) && first_index(texts(v@), s@, i as int),
            None => pos(texts(v@), s@) is None,
        },
{
    let mut i: usize = 0;
    while i < v.len()
        invariant
            i <= v.len(),
            forall|j: int| 0 <= j < i ==> texts(v@)[j] != s@,
        decreases v.len() - i,
    {
        if str_eq(v[i].as_str(), s) {
            proof {
                lemma_pos(texts(v@), s@, i as int);
            }
            return Some(i);
        }
        i = i + 1;
    }
    None
}

/// The characters from position `from` up to, not including, position `to`.
pub fn sub_chars(v: &Vec<char>, from: usize, to: usize) -> (r: Vec<char>)
    requires
        from <= to <= v@.len(),
    ensures
        r@ == v@.subrange(from as int, to as int),
{
    let mut out: Vec<char> = Vec::new();
    let mut i: usize = from;
    while i < to
        invariant
            from <= i <= to <= v@.len(),
            out@ == v@.subrange(from as int, i as int),
        decreases to - i,
    {
        out.push(v[i]);
        i = i + 1;
        assert(v@.subrange(from as int, i as int) =~= v@.subrange(from as int, i - 1).push(v@[i - 1]));
    }
    out
}

/// A copy of a character buffer.
pub fn copy_chars(v: &Vec<char>) -> (r: Vec<char>)
    ensures
        r@ == v@,
{
    let r = sub_chars(v, 0, v.len());
    assert(r@ =~= v@);
    r
}

/// Appends the characters of `tail` to `v`.
pub fn push_chars(v: &mut Vec<char>, tail: &Vec<char>)
    ensures
        final(v)@ == old(v)@ + tail@,
{
    let ghost start = v@;
    let mut i: usize = 0;
    while i < tail.len()
        invariant
            i <= tail.len(),
            v@ == start + tail@.subrange(0, i as int),
        decreases tail.len() - i,
    {
        v.push(tail[i]);
        i = i + 1;
        assert(tail@.subrange(0, i as int) =~= tail@.subrange(0, i - 1).push(tail@[i - 1]));
        assert(v@ =~= start + tail@.subrange(0, i as int));
    }
    assert(tail@.subrange(0, tail@.len() as int) =~= tail@);
}

// ---------------------------------------------------------------------------
// Searching
// ---------------------------------------------------------------------------

/// Whether `p` stands in `s` at position `i`.
pub open spec fn text_at(s: Seq<char>, p: Seq<char>, i: int) -> bool {
    &&& 0 <= i
    &&& i + p.len() <= s.len()
    &&& s.subrange(i, i + p.len()) == p
}

/// Whether `s` begins with `p`.
pub open spec fn begins_with(s: Seq<char>, p: Seq<char>) -> bool {
    text_at(s, p, 0)
}

/// Whether `p` occurs somewhere in `s`.
pub open spec fn has_text(s: Seq<char>, p: Seq<char>) -> bool {
    exists|i: int| text_at(s, p, i)
}

/// Whether `i` is the position of the first occurrence of `p` in `s`.
pub open spec fn first_text(s: Seq<char>, p: Seq<char>, i: int) -> bool {
    &&& text_at(s, p, i)
    &&& forall|j: int| 0 <= j < i ==> !text_at(s, p, j)
}

/// Whether `p` stands in `s` at position `i`.
pub fn is_text_at(s: &Vec<char>, p: &Vec<char>, i: usize) -> (r: bool)
    ensures
        r == text_at(s@, p@, i as int),
{
    if i > s.len() || p.len() > s.len() - i {
        return false;
    }
    let mut k: usize = 0;
    while k < p.len()
        invariant
            k <= p.len(),
            i + p.len() <= s.len(),
            forall|j: int| 0 <= j < k ==> s@[i + j] == p@[j],
        decreases p.len() - k,
    {
        if s[i + k] != p[k] {
            assert(s@.subrange(i as int, i + p@.len())[k as int] != p@[k as int]);
            return false;
        }
        k = k + 1;
    }
    assert(s@.subrange(i as int, i + p@.len()) =~= p@);
    true
}

/// The position of the first occurrence of `p` in `s`.
pub fn find_text(s: &Vec<char>, p: &Vec<char>) -> (r: Option<usize>)
    ensures
        match r {
            Some(i) => first_text(s@, p@, i as int),
            None => !has_text(s@, p@),
        },
{
    let mut i: usize = 0;
    while i < s.len()
        invariant
            i <= s.len(),
            forall|j: int| 0 <= j < i ==> !text_at(s@, p@, j),
        decreases s.len() - i,
    {
        if is_text_at(s, p, i) {
            return Some(i);
        }
        i = i + 1;
    }
    if is_text_at(s, p, i) {
        return Some(i);
    }
    None
}

/// The position of the first occurrence of `p` in `s`, or the end of `s` where there is
/// none.
pub open spec fn text_pos(s: Seq<char>, p: Seq<char>) -> int {
    if has_text(s, p) {
        choose|i: int| first_text(s, p, i)
    } else {
        s.len() as int
    }
}

/// The position of the first occurrence of `p` in `s`, or the end of `s`.
pub fn find_or_end(s: &Vec<char>, p: &Vec<char>) -> (r: usize)
    ensures
        r == text_pos(s@, p@),
        r <= s@.len(),
{
    match find_text(s, p) {
        Some(i) => {
            proof {
                let w = choose|w: int| first_text(s@, p@, w);
                assert(first_text(s@, p@, i as int));
                assert(has_text(s@, p@));
                if w < i {
                    assert(text_at(s@, p@, w));
                } else if w > i {
                    assert(text_at(s@, p@, i as int));
                }
            }
            i
        },
        None => s.len(),
    }
}

/// Whether `p` occurs in `s`.
pub fn str_contains(s: &str, p: &str) -> (r: bool)
    ensures
        r == has_text(s@, p@),
{
    find_text(&chars_of(s), &chars_of(p)).is_some()
}

/// Whether `s` begins with `p`.
pub fn str_starts_with(s: &str, p: &str) -> (r: bool)
    ensures
        r == begins_with(s@, p@),
{
    is_text_at(&chars_of(s), &chars_of(p), 0)
}

/// The position of the last `c` in `s`, -1 where there is none.
pub open spec fn last_index(s: Seq<char>, c: char) -> int
    decreases s.len(),
{
    if s.len() == 0 {
        -1
    } else if s.last() == c {
        s.len() - 1
    } else {
        last_index(s.drop_last(), c)
    }
}

/// The position of the last `c` in `s`.
pub fn rfind_char(s: &Vec<char>, c: char) -> (r: Option<usize>)
    ensures
        match r {
            Some(i) => i < s@.len() && i == last_index(s@, c),
            None => last_index(s@, c) == -1,
        },
{
    let mut i: usize = s.len();
    assert(s@.subrange(0, s@.len() as int) =~= s@);
    while i > 0
        invariant
            i <= s.len(),
            last_index(s@, c) == last_index(s@.subrange(0, i as int), c),
        decreases i,
    {
        assert(s@.subrange(0, i as int).drop_last() =~= s@.subrange(0, i - 1));
        if s[i - 1] == c {
            return Some(i - 1);
        }
        i = i - 1;
    }
    None
}

/// Whether two texts are equal when ASCII letters are compared without case.
pub open spec fn same_ignoring_case(a: Seq<char>, b: Seq<char>) -> bool {
    &&& a.len() == b.len()
    &&& forall|i: int| 0 <= i < a.len() ==> lower(#[trigger] a[i]) == lower(b[i])
}

/// Whether two texts are equal when ASCII letters are compared without case.
pub fn eq_ignoring_case(a: &str, b: &str) -> (r: bool)
    ensures
        r == same_ignoring_case(a@, b@),
{
    let x = chars_of(a);
    let y = chars_of(b);
    if x.len() != y.len() {
        return false;
    }
    let mut i: usize = 0;
    while i < x.len()
        invariant
            i <= x.len(),
            x@ == a@,
            y@ == b@,
            x.len() == y.len(),
            forall|j: int| 0 <= j < i ==> lower(#[trigger] a@[j]) == lower(b@[j]),
        decreases x.len() - i,
    {
        if char_lower(x[i]) != char_lower(y[i]) {
            assert(lower(a@[i as int]) != lower(b@[i as int]));
            return false;
        }
        i = i + 1;
    }
    true
}

// ---------------------------------------------------------------------------
// Trimming
// ---------------------------------------------------------------------------

/// `s` without its leading white space.
pub open spec fn trim_start(s: Seq<char>) -> Seq<char>
    decreases s.len(),
{
    if s.len() > 0 && is_whitespace(s[0]) {
        trim_start(s.subrange(1, s.len() as int))
    } else {
        s
    }
}

/// `s` without its trailing white space.
pub open spec fn trim_end(s: Seq<char>) -> Seq<char>
    decreases s.len(),
{
    if s.len() > 0 && is_whitespace(s.last()) {
        trim_end(s.drop_last())
    } else {
        s
    }
}

/// `s` without its leading and trailing white space.
pub open spec fn trim(s: Seq<char>) -> Seq<char> {
    trim_end(trim_start(s))
}

/// `s` without the leading characters that are in `set`.
pub open spec fn trim_start_of(s: Seq<char>, set: Seq<char>) -> Seq<char>
    decreases s.len(),
{
    if s.len() > 0 && set.contains(s[0]) {
        trim_start_of(s.subrange(1, s.len() as int), set)
    } else {
        s
    }
}

/// `s` without the trailing characters that are in `set`.
pub open spec fn trim_end_of(s: Seq<char>, set: Seq<char>) -> Seq<char>
    decreases s.len(),
{
    if s.len() > 0 && set.contains(s.last()) {
        trim_end_of(s.drop_last(), set)
    } else {
        s
    }
}

/// Whether a character is one of a set.
pub fn char_in(c: char, set: &Vec<char>) -> (r: bool)
    ensures
        r == set@.contains(c),
{
    let mut i: usize = 0;
    while i < set.len()
        invariant
            i <= set.len(),
            forall|j: int| 0 <= j < i ==> set@[j] != c,
        decreases set.len() - i,
    {
        if set[i] == c {
            return true;
        }
        i = i + 1;
    }
    false
}

/// `s` without its leading and trailing white space.
pub fn trim_chars(s: &Vec<char>) -> (r: Vec<char>)
    ensures
        r@ == trim(s@),
{
    let mut a: usize = 0;
    assert(s@.subrange(0, s@.len() as int) =~= s@);
    while a < s.len() && char_is_whitespace(s[a])
        invariant
            a <= s.len(),
            trim_start(s@) == trim_start(s@.subrange(a as int, s@.len() as int)),
        decreases s.len() - a,
    {
        assert(s@.subrange(a as int, s@.len() as int).subrange(1, s@.len() - a)
            =~= s@.subrange(a + 1, s@.len() as int));
        a = a + 1;
    }
    let ghost t = s@.subrange(a as int, s@.len() as int);
    assert(trim_start(s@) == t);
    let mut b: usize = s.len();
    while b > a && char_is_whitespace(s[b - 1])
        invariant
            a <= b <= s.len(),
            trim_end(t) == trim_end(s@.subrange(a as int, b as int)),
        decreases b - a,
    {
        assert(s@.subrange(a as int, b as int).drop_last() =~= s@.subrange(a as int, b - 1));
        b = b - 1;
    }
    sub_chars(s, a, b)
}

/// `s` without its leading and trailing white space.
pub fn trim_str(s: &str) -> (r: String)
    ensures
        r@ == trim(s@),
{
    string_of(&trim_chars(&chars_of(s)))
}

/// `s` without its leading white space.
pub fn trim_start_chars(s: &Vec<char>) -> (r: Vec<char>)
    ensures
        r@ == trim_start(s@),
{
    let mut a: usize = 0;
    assert(s@.subrange(0, s@.len() as int) =~= s@);
    while a < s.len() && char_is_whitespace(s[a])
        invariant
            a <= s.len(),
            trim_start(s@) == trim_start(s@.subrange(a as int, s@.len() as int)),
        decreases s.len() - a,
    {
        let ghost rest = s@.subrange(a as int, s@.len() as int);
        assert(rest.subrange(1, rest.len() as int) =~= s@.subrange(a + 1, s@.len() as int));
        a = a + 1;
    }
    sub_chars(s, a, s.len())
}

/// `s` without the leading characters that are in `set`.
pub fn trim_start_set(s: &Vec<char>, set: &Vec<char>) -> (r: Vec<char>)
    ensures
        r@ == trim_start_of(s@, set@),
{
    let mut a: usize = 0;
    assert(s@.subrange(0, s@.len() as int) =~= s@);
    while a < s.len() && char_in(s[a], set)
        invariant
            a <= s.len(),
            trim_start_of(s@, set@) == trim_start_of(s@.subrange(a as int, s@.len() as int), set@),
        decreases s.len() - a,
    {
        assert(s@.subrange(a as int, s@.len() as int).subrange(1, s@.len() - a)
            =~= s@.subrange(a + 1, s@.len() as int));
        a = a + 1;
    }
    sub_chars(s, a, s.len())
}

/// `s` without the trailing characters that are in `set`.
pub fn trim_end_set(s: &Vec<char>, set: &Vec<char>) -> (r: Vec<char>)
    ensures
        r@ == trim_end_of(s@, set@),
{
    let mut b: usize = s.len();
    assert(s@.subrange(0, s@.len() as int) =~= s@);
    while b > 0 && char_in(s[b - 1], set)
        invariant
            b <= s.len(),
            trim_end_of(s@, set@) == trim_end_of(s@.subrange(0, b as int), set@),
        decreases b,
    {
        assert(s@.subrange(0, b as int).drop_last() =~= s@.subrange(0, b - 1));
        b = b - 1;
    }
    sub_chars(s, 0, b)
}

// ---------------------------------------------------------------------------
// Splitting and joining
// ---------------------------------------------------------------------------

/// The pieces of `s` between the characters that are in `seps`.
pub open spec fn split(s: Seq<char>, seps: Seq<char>) -> Seq<Seq<char>>
    decreases s.len(),
{
    if s.len() == 0 {
        seq![Seq::<char>::empty()]
    } else {
        let before = split(s.drop_last(), seps);
        if seps.contains(s.last()) {
            before.push(Seq::<char>::empty())
        } else {
            before.drop_last().push(before.last().push(s.last()))
        }
    }
}

/// There is always a piece.
pub proof fn lemma_split_len(s: Seq<char>, seps: Seq<char>)
    ensures
        split(s, seps).len() >= 1,
    decreases s.len(),
{
    if s.len() > 0 {
        lemma_split_len(s.drop_last(), seps);
    }
}

/// The pieces of `s` between the characters that are in `seps`.
pub fn split_chars(s: &Vec<char>, seps: &Vec<char>) -> (r: Vec<Vec<char>>)
    ensures
        buffers(r@) == split(s@, seps@),
        r@.len() >= 1,
{
    let mut done: Vec<Vec<char>> = Vec::new();
    let mut cur: Vec<char> = Vec::new();
    let mut i: usize = 0;
    assert(s@.subrange(0, 0) =~= Seq::<char>::empty());
    assert(buffers(done@).push(cur@) =~= split(s@.subrange(0, 0), seps@));
    while i < s.len()
        invariant
            i <= s.len(),
            buffers(done@).push(cur@) == split(s@.subrange(0, i as int), seps@),
        decreases s.len() - i,
    {
        let ghost before = buffers(done@).push(cur@);
        let c = s[i];
        assert(s@.subrange(0, i + 1).drop_last() =~= s@.subrange(0, i as int));
        assert(s@.subrange(0, i + 1).last() == c);
        assert(before.drop_last() =~= buffers(done@));
        if char_in(c, seps) {
            let ghost old_done = done@;
            done.push(cur);
            cur = Vec::new();
            assert(buffers(done@) =~= before);
        } else {
            cur.push(c);
        }
        i = i + 1;
        assert(buffers(done@).push(cur@) =~= split(s@.subrange(0, i as int), seps@));
    }
    assert(s@.subrange(0, s@.len() as int) =~= s@);
    let ghost last = cur@;
    let ghost old_done = done@;
    done.push(cur);
    assert(buffers(done@) =~= buffers(old_done).push(last));
    done
}

/// The texts of a list, one after the other, with `sep` between two of them.
pub open spec fn join(parts: Seq<Seq<char>>, sep: Seq<char>) -> Seq<char>
    decreases parts.len(),
{
    if parts.len() == 0 {
        Seq::<char>::empty()
    } else if parts.len() == 1 {
        parts[0]
    } else {
        join(parts.drop_last(), sep) + sep + parts.last()
    }
}

/// The texts of a list, one after the other, with `sep` between two of them.
pub fn join_strings(parts: &Vec<String>, sep: &str) -> (r: String)
    ensures
        r@ == join(texts(parts@), sep@),
{
    if parts.len() == 0 {
        return String::new();
    }
    let mut out = parts[0].clone();
    let mut i: usize = 1;
    assert(texts(parts@).subrange(0, 1).len() == 1);
    while i < parts.len()
        invariant
            1 <= i <= parts.len(),
            out@ == join(texts(parts@).subrange(0, i as int), sep@),
        decreases parts.len() - i,
    {
        out.append(sep);
        out.append(parts[i].as_str());
        i = i + 1;
        assert(texts(parts@).subrange(0, i as int).drop_last() =~= texts(parts@).subrange(0, i - 1));
    }
    assert(texts(parts@).subrange(0, parts@.len() as int) =~= texts(parts@));
    out
}

/// A line without its carriage return.
pub open spec fn chomp(line: Seq<char>) -> Seq<char> {
    if line.len() > 0 && line.last() == '\r' {
        line.drop_last()
    } else {
        line
    }
}

/// Whether `i` is the position of the first `c` in `s`.
pub open spec fn first_char(s: Seq<char>, c: char, i: int) -> bool {
    &&& 0 <= i < s.len()
    &&& s[i] == c
    &&& forall|j: int| 0 <= j < i ==> s[j] != c
}

/// The lines of `s`. A line ends with a line feed, before which one carriage
/// return is dropped; after the last line feed only a non-empty rest is a line.
pub open spec fn lines(s: Seq<char>) -> Seq<Seq<char>>
    decreases s.len(),
{
    if s.len() == 0 {
        Seq::<Seq<char>>::empty()
    } else if s.contains('\n') {
        let i = choose|i: int| first_char(s, '\n', i);
        if first_char(s, '\n', i) {
            seq![chomp(s.subrange(0, i))] + lines(s.subrange(i + 1, s.len() as int))
        } else {
            Seq::<Seq<char>>::empty()
        }
    } else {
        seq![s]
    }
}

/// The position of the first `c` at or after `from`.
pub fn find_char_from(s: &Vec<char>, c: char, from: usize) -> (r: Option<usize>)
    requires
        from <= s@.len(),
    ensures
        match r {
            Some(i) => from <= i < s@.len() && first_char(s@.subrange(from as int, s@.len() as int), c, i - from),
            None => !s@.subrange(from as int, s@.len() as int).contains(c),
        },
{
    let mut i: usize = from;
    let ghost rest = s@.subrange(from as int, s@.len() as int);
    while i < s.len()
        invariant
            from <= i <= s.len(),
            rest == s@.subrange(from as int, s@.len() as int),
            forall|j: int| 0 <= j < i - from ==> rest[j] != c,
        decreases s.len() - i,
    {
        assert(rest[i - from] == s@[i as int]);
        if s[i] == c {
            return Some(i);
        }
        i = i + 1;
    }
    None
}

/// The lines of `s`.
pub fn lines_of(s: &Vec<char>) -> (r: Vec<Vec<char>>)
    ensures
        buffers(r@) == lines(s@),
{
    let mut out: Vec<Vec<char>> = Vec::new();
    let mut start: usize = 0;
    assert(s@.subrange(0, s@.len() as int) =~= s@);
    assert(buffers(out@) + lines(s@) =~= lines(s@));
    while start < s.len()
        invariant
            start <= s.len(),
            buffers(out@) + lines(s@.subrange(start as int, s@.len() as int)) == lines(s@),
        decreases s.len() - start,
    {
        let ghost rest = s@.subrange(start as int, s@.len() as int);
        let ghost before = out@;
        match find_char_from(s, '\n', start) {
            Some(i) => {
                let ghost k = i - start;
                proof {
                    assert(rest[k] == '\n');
                    assert(rest.contains('\n'));
                    let w = choose|w: int| first_char(rest, '\n', w);
                    assert(first_char(rest, '\n', k));
                    assert(w == k);
                    assert(rest.subrange(0, k) =~= s@.subrange(start as int, i as int));
                    assert(rest.subrange(k + 1, rest.len() as int) =~= s@.subrange(i + 1, s@.len() as int));
                }
                let mut end: usize = i;
                if end > start && s[end - 1] == '\r' {
                    end = end - 1;
                }
                let line = sub_chars(s, start, end);
                assert(line@ =~= chomp(s@.subrange(start as int, i as int)));
                out.push(line);
                assert(buffers(out@) =~= buffers(before).push(chomp(rest.subrange(0, k))));
                start = i + 1;
                assert(buffers(out@) + lines(s@.subrange(start as int, s@.len() as int))
                    =~= buffers(before) + lines(rest));
            },
            None => {
                let line = sub_chars(s, start, s.len());
                out.push(line);
                assert(buffers(out@) =~= buffers(before).push(rest));
                start = s.len();
                assert(s@.subrange(start as int, s@.len() as int) =~= Seq::<char>::empty());
                assert(buffers(out@) + lines(s@.subrange(start as int, s@.len() as int))
                    =~= buffers(before) + lines(rest));
            },
        }
    }
    assert(s@.subrange(start as int, s@.len() as int) =~= Seq::<char>::empty());
    assert(buffers(out@) + lines(Seq::<char>::empty()) =~= buffers(out@));
    out
}

/// The pieces of `s` between the occurrences of the text `p`, found from the left.
pub open spec fn pieces(s: Seq<char>, p: Seq<char>) -> Seq<Seq<char>>
    decreases s.len(),
{
    if p.len() > 0 && has_text(s, p) {
        let i = choose|i: int| first_text(s, p, i);
        if first_text(s, p, i) {
            seq![s.subrange(0, i)] + pieces(s.subrange(i + p.len(), s.len() as int), p)
        } else {
            seq![s]
        }
    } else {
        seq![s]
    }
}

/// The pieces of `s` between the occurrences of the text `p`.
pub fn split_text(s: &Vec<char>, p: &Vec<char>) -> (r: Vec<Vec<char>>)
    requires
        p@.len() > 0,
    ensures
        buffers(r@) == pieces(s@, p@),
        r@.len() >= 1,
{
    let mut out: Vec<Vec<char>> = Vec::new();
    let mut rest = copy_chars(s);
    assert(buffers(out@) + pieces(rest@, p@) =~= pieces(s@, p@));
    loop
        invariant
            p@.len() > 0,
            buffers(out@) + pieces(rest@, p@) == pieces(s@, p@),
        decreases rest@.len(),
    {
        let ghost before = out@;
        match find_text(&rest, p) {
            Some(i) => {
                proof {
                    let w = choose|w: int| first_text(rest@, p@, w);
                    assert(first_text(rest@, p@, i as int));
                    assert(has_text(rest@, p@));
                    assert(w == i) by {
                        if w < i {
                            assert(text_at(rest@, p@, w));
                        } else if w > i {
                            assert(text_at(rest@, p@, i as int));
                        }
                    }
                }
                let total: usize = rest.len();
                let piece = sub_chars(&rest, 0, i);
                let ghost pt = piece@;
                let tail = sub_chars(&rest, i + p.len(), total);
                out.push(piece);
                assert(buffers(out@) =~= buffers(before).push(pt));
                assert(buffers(out@) + pieces(tail@, p@) =~= buffers(before) + pieces(rest@, p@));
                rest = tail;
            },
            None => {
                let ghost last = rest@;
                out.push(rest);
                assert(buffers(out@) =~= buffers(before) + seq![last]);
                return out;
            },
        }
    }
}

/// Whether `s` ends with `p`.
pub open spec fn ends_with(s: Seq<char>, p: Seq<char>) -> bool {
    text_at(s, p, s.len() - p.len())
}

/// Whether `s` ends with `p`.
pub fn is_ending(s: &Vec<char>, p: &Vec<char>) -> (r: bool)
    ensures
        r == ends_with(s@, p@),
{
    if p.len() > s.len() {
        return false;
    }
    is_text_at(s, p, s.len() - p.len())
}

/// `s` without the text `p` at its end, as often as it stands there.
pub open spec fn without_ending(s: Seq<char>, p: Seq<char>) -> Seq<char>
    decreases s.len(),
{
    if p.len() > 0 && ends_with(s, p) {
        without_ending(s.subrange(0, s.len() - p.len()), p)
    } else {
        s
    }
}

/// `s` without the text `p` at its end.
pub fn drop_endings(s: &Vec<char>, p: &Vec<char>) -> (r: Vec<char>)
    requires
        p@.len() > 0,
    ensures
        r@ == without_ending(s@, p@),
{
    let mut rest = copy_chars(s);
    while is_ending(&rest, p)
        invariant
            p@.len() > 0,
            without_ending(rest@, p@) == without_ending(s@, p@),
        decreases rest@.len(),
    {
        let end: usize = rest.len() - p.len();
        rest = sub_chars(&rest, 0, end);
    }
    rest
}

// ---------------------------------------------------------------------------
// Rewriting
// ---------------------------------------------------------------------------

/// `s` with every `c` replaced by `to`.
pub open spec fn replace_each(s: Seq<char>, c: char, to: Seq<char>) -> Seq<char>
    decreases s.len(),
{
    if s.len() == 0 {
        Seq::<char>::empty()
    } else if s.last() == c {
        replace_each(s.drop_last(), c, to) + to
    } else {
        replace_each(s.drop_last(), c, to).push(s.last())
    }
}

/// `s` with every `c` replaced by `to`.
pub fn replace_char(s: &Vec<char>, c: char, to: &Vec<char>) -> (r: Vec<char>)
    ensures
        r@ == replace_each(s@, c, to@),
{
    let mut out: Vec<char> = Vec::new();
    let mut i: usize = 0;
    assert(s@.subrange(0, 0) =~= Seq::<char>::empty());
    while i < s.len()
        invariant
            i <= s.len(),
            out@ == replace_each(s@.subrange(0, i as int), c, to@),
        decreases s.len() - i,
    {
        assert(s@.subrange(0, i + 1).drop_last() =~= s@.subrange(0, i as int));
        if s[i] == c {
            push_chars(&mut out, to);
        } else {
            out.push(s[i]);
        }
        i = i + 1;
    }
    assert(s@.subrange(0, s@.len() as int) =~= s@);
    out
}

// ---------------------------------------------------------------------------
// Numbers
// ---------------------------------------------------------------------------

/// The character of a decimal digit.
pub open spec fn digit_char(d: nat) -> char {
    (d + 48) as char
}

/// The decimal notation of a number, without leading zeros.
pub open spec fn decimal(n: nat) -> Seq<char>
    decreases n,
{
    if n < 10 {
        seq![digit_char(n)]
    } else {
        decimal(n / 10).push(digit_char(n % 10))
    }
}

/// The decimal notation of a number.
fn decimal_chars(n: u64) -> (r: Vec<char>)
    ensures
        r@ == decimal(n as nat),
    decreases n,
{
    if n < 10 {
        let c = (n as u8 + 48u8) as char;
        let mut v: Vec<char> = Vec::new();
        v.push(c);
        assert(v@ =~= seq![digit_char(n as nat)]);
        v
    } else {
        let mut v = decimal_chars(n / 10);
        let d = (n % 10) as u8;
        v.push((d + 48u8) as char);
        v
    }
}

/// The decimal notation of a number.
pub fn decimal_of(n: u64) -> (r: String)
    ensures
        r@ == decimal(n as nat),
{
    string_of(&decimal_chars(n))
}

/// The value of a run of decimal digits.
pub open spec fn digits_value(s: Seq<char>) -> nat
    decreases s.len(),
{
    if s.len() == 0 {
        0
    } else {
        (digits_value(s.drop_last()) * 10 + (s.last() as int - 48)) as nat
    }
}

/// The decimal notation of a number has its value.
pub proof fn lemma_decimal_value(n: nat)
    ensures
        digits_value(decimal(n)) == n,
        decimal(n).len() > 0,
    decreases n,
{
    if n < 10 {
        let d = decimal(n);
        assert(d.drop_last() =~= Seq::<char>::empty());
        assert(digits_value(d.drop_last()) == 0);
        assert(d.last() as int == n + 48);
    } else {
        lemma_decimal_value(n / 10);
        let d = decimal(n);
        assert(d.drop_last() =~= decimal(n / 10));
        assert(d.last() as int == n % 10 + 48);
    }
}

/// Whether every character is a decimal digit.
pub open spec fn all_digits(s: Seq<char>) -> bool {
    forall|i: int| 0 <= i < s.len() ==> is_digit(#[trigger] s[i])
}

/// `s` without one leading plus sign.
pub open spec fn after_plus(s: Seq<char>) -> Seq<char> {
    if s.len() > 0 && s[0] == '+' {
        s.subrange(1, s.len() as int)
    } else {
        s
    }
}

/// The number that `s` writes: an optional plus sign and at least one decimal
/// digit, with a value of at most `max`.
pub open spec fn number(s: Seq<char>, max: nat) -> Option<nat> {
    let d = after_plus(s);
    if d.len() > 0 && all_digits(d) && digits_value(d) <= max {
        Some(digits_value(d))
    } else {
        None
    }
}

/// The number that `s` writes, when it is at most `max`.
pub fn parse_number(s: &Vec<char>, max: u64) -> (r: Option<u64>)
    ensures
        match r {
            Some(n) => number(s@, max as nat) == Some(n as nat),
            None => number(s@, max as nat) is None,
        },
{
    let from: usize = if s.len() > 0 && s[0] == '+' { 1 } else { 0 };
    let ghost d = after_plus(s@);
    assert(d =~= s@.subrange(from as int, s@.len() as int));
    if from == s.len() {
        return None;
    }
    let mut i: usize = from;
    let mut value: u64 = 0;
    let mut over: bool = false;
    assert(d.subrange(0, 0) =~= Seq::<char>::empty());
    while i < s.len()
        invariant
            from <= i <= s.len(),
            from <= 1,
            d == s@.subrange(from as int, s@.len() as int),
            d == after_plus(s@),
            all_digits(d.subrange(0, i - from)),
            !over ==> value == digits_value(d.subrange(0, i - from)) && value <= max,
            over ==> digits_value(d.subrange(0, i - from)) > max,
        decreases s.len() - i,
    {
        let c = s[i];
        let ghost k = i - from;
        assert(d[k] == c);
        if !char_is_digit(c) {
            assert(!is_digit(d[k]));
            return None;
        }
        let digit: u64 = (c as u8 - 48u8) as u64;
        assert(d.subrange(0, k + 1).drop_last() =~= d.subrange(0, k));
        assert(d.subrange(0, k + 1).last() == c);
        assert(all_digits(d.subrange(0, k + 1))) by {
            assert forall|j: int| 0 <= j < k + 1 implies is_digit(#[trigger] d.subrange(0, k + 1)[j]) by {
                if j < k {
                    assert(d.subrange(0, k + 1)[j] == d.subrange(0, k)[j]);
                }
            }
        }
        if !over {
            if value > (u64::MAX - digit) / 10 {
                assert(value * 10 + digit > u64::MAX);
                over = true;
            } else {
                let next: u64 = value * 10 + digit;
                if next > max {
                    over = true;
                } else {
                    value = next;
                }
            }
        }
        i = i + 1;
    }
    assert(d.subrange(0, s@.len() - from) =~= d);
    if over {
        None
    } else {
        Some(value)
    }
}

// ---------------------------------------------------------------------------
// Laws
// ---------------------------------------------------------------------------

/// The last index of a character is where it stands with none behind it.
pub proof fn law_last_index_is_last(s: Seq<char>, c: char, i: int)
    requires
        0 <= i < s.len(),
        s[i] == c,
        forall|j: int| i < j < s.len() ==> s[j] != c,
    ensures
        last_index(s, c) == i,
    decreases s.len(),
{
    if i < s.len() - 1 {
        assert(s[s.len() - 1] != c);
        law_last_index_is_last(s.drop_last(), c, i);
    }
}

/// A character that is not in a text has no index in it.
pub proof fn law_missing_character_has_no_index(s: Seq<char>, c: char)
    requires
        !s.contains(c),
    ensures
        last_index(s, c) < 0,
    decreases s.len(),
{
    if s.len() > 0 {
        assert(s[s.len() - 1] != c);
        assert forall|i: int| 0 <= i < s.drop_last().len() implies s.drop_last()[i] != c by {
            assert(s[i] != c);
        }
        law_missing_character_has_no_index(s.drop_last(), c);
    }
}

/// Blanks, tabs and the ends of lines are white space; letters, digits and signs of ASCII
/// are not.
pub proof fn law_white_space_is_not_seen(c: char)
    ensures
        c == ' ' || c == '\t' || c == '\n' || c == '\r' ==> is_whitespace(c),
        '!' <= c <= '~' ==> !is_whitespace(c),
{
}

/// Whether a part of a text is what is left when white space is taken off both ends.
pub open spec fn is_trimmed(s: Seq<char>, a: int, b: int) -> bool {
    &&& 0 <= a <= b <= s.len()
    &&& forall|i: int| 0 <= i < a || b <= i < s.len() ==> is_whitespace(#[trigger] s[i])
    &&& a < b ==> !is_whitespace(s[a]) && !is_whitespace(s[b - 1])
}

/// Trimming takes the white space off both ends and nothing else.
pub proof fn law_trimming_takes_white_space_off(s: Seq<char>)
    ensures
        exists|a: int, b: int| #[trigger] is_trimmed(s, a, b) && trim(s) == s.subrange(a, b),
{
    let a = lemma_trim_start(s);
    let rest = trim_start(s);
    let b = lemma_trim_end(rest);
    assert(rest.subrange(0, b) =~= s.subrange(a, a + b));
    assert forall|i: int| 0 <= i < a || a + b <= i < s.len() implies is_whitespace(#[trigger] s[i]) by {
        if i >= a {
            assert(rest[i - a] == s[i]);
        }
    }
    if b > 0 {
        assert(rest[0] == s[a]);
        assert(rest[b - 1] == s[a + b - 1]);
    }
    assert(is_trimmed(s, a, a + b));
}

proof fn lemma_trim_start(s: Seq<char>) -> (a: int)
    ensures
        0 <= a <= s.len(),
        trim_start(s) == s.subrange(a, s.len() as int),
        forall|i: int| 0 <= i < a ==> is_whitespace(#[trigger] s[i]),
        a < s.len() ==> !is_whitespace(s[a]),
    decreases s.len(),
{
    if s.len() > 0 && is_whitespace(s[0]) {
        let rest = s.subrange(1, s.len() as int);
        let a = lemma_trim_start(rest);
        assert(rest.subrange(a, rest.len() as int) =~= s.subrange(a + 1, s.len() as int));
        assert forall|i: int| 0 <= i < a + 1 implies is_whitespace(#[trigger] s[i]) by {
            if i > 0 {
                assert(rest[i - 1] == s[i]);
            }
        }
        a + 1
    } else {
        assert(s.subrange(0, s.len() as int) =~= s);
        0
    }
}

proof fn lemma_trim_end(s: Seq<char>) -> (b: int)
    ensures
        0 <= b <= s.len(),
        trim_end(s) == s.subrange(0, b),
        forall|i: int| b <= i < s.len() ==> is_whitespace(#[trigger] s[i]),
        b > 0 ==> !is_whitespace(s[b - 1]),
    decreases s.len(),
{
    if s.len() > 0 && is_whitespace(s.last()) {
        let rest = s.drop_last();
        let b = lemma_trim_end(rest);
        assert(rest.subrange(0, b) =~= s.subrange(0, b));
        assert forall|i: int| b <= i < s.len() implies is_whitespace(#[trigger] s[i]) by {
            if i < rest.len() {
                assert(rest[i] == s[i]);
            }
        }
        b
    } else {
        assert(s.subrange(0, s.len() as int) =~= s);
        s.len() as int
    }
}

/// A number that is written down is read back, unless it is too large.
pub proof fn law_numbers_are_read_back(n: nat, max: nat)
    ensures
        n <= max ==> number(decimal(n), max) == Some(n),
        n > max ==> number(decimal(n), max) is None,
        n >= 10 ==> decimal(n)[0] != '0',
{
    lemma_decimal_value(n);
    lemma_decimal_digits(n);
}

proof fn lemma_decimal_digits(n: nat)
    ensures
        all_digits(decimal(n)),
        decimal(n).len() > 0,
        n > 0 ==> decimal(n)[0] != '0',
    decreases n,
{
    if n < 10 {
        assert(decimal(n)[0] as int == n + 48);
    } else {
        lemma_decimal_digits(n / 10);
        let before = decimal(n / 10);
        let d = decimal(n);
        assert(d[before.len() as int] as int == n % 10 + 48);
        assert forall|i: int| 0 <= i < d.len() implies is_digit(#[trigger] d[i]) by {
            if i < before.len() {
                assert(before[i] == d[i]);
            }
        }
        assert(d[0] == before[0]);
    }
}

/// What is no run of digits, behind a plus sign or not, is no number.
pub proof fn law_other_texts_are_no_numbers(s: Seq<char>, i: int, max: nat)
    requires
        s.len() == 0 || 0 <= i < s.len() && !('0' <= s[i] <= '9') && !(i == 0 && s[i] == '+'),
    ensures
        number(s, max) is None,
{
    if s.len() > 0 {
        let d = after_plus(s);
        if s[0] == '+' {
            assert(d[i - 1] == s[i]);
        } else {
            assert(d[i] == s[i]);
        }
    }
}

/// The pieces between the separators hold no separator, and with the separators between
/// them they are the text.
pub proof fn law_split_texts_can_be_joined(s: Seq<char>, c: char)
    ensures
        join(split(s, seq![c]), seq![c]) == s,
        forall|i: int| 0 <= i < split(s, seq![c]).len() ==> !(#[trigger] split(s, seq![c])[i]).contains(c),
    decreases s.len(),
{
    let seps = seq![c];
    assert(seps[0] == c);
    lemma_split_len(s, seps);
    if s.len() > 0 {
        let d = s.drop_last();
        let before = split(d, seps);
        let all = split(s, seps);
        lemma_split_len(d, seps);
        law_split_texts_can_be_joined(d, c);
        if s.last() == c {
            assert(all.drop_last() =~= before);
            assert(join(all, seps) =~= s);
            assert forall|i: int| 0 <= i < all.len() implies !(#[trigger] all[i]).contains(c) by {
                if i < before.len() {
                    assert(all[i] == before[i]);
                }
            }
        } else {
            assert(all.drop_last() =~= before.drop_last());
            if before.len() == 1 {
                assert(join(all, seps) =~= s);
            } else {
                assert(join(all, seps) =~= join(before, seps).push(s.last()));
                assert(join(all, seps) =~= s);
            }
            assert forall|i: int| 0 <= i < all.len() implies !(#[trigger] all[i]).contains(c) by {
                if i < before.len() - 1 {
                    assert(all[i] == before[i]);
                } else {
                    assert(all[i] == before[i].push(s.last()));
                    if all[i].contains(c) {
                        let k = choose|k: int| 0 <= k < all[i].len() && all[i][k] == c;
                        assert(before[i][k] == c);
                    }
                }
            }
        }
    }
}

/// Only capitals have a small letter of their own, and only small letters a capital: each
/// is the other's.
pub proof fn law_letters_have_two_cases(c: char)
    ensures
        'A' <= c <= 'Z' ==> 'a' <= lower(c) <= 'z' && upper(lower(c)) == c && lower(c) as int - 'a' as int == c as int
            - 'A' as int,
        'a' <= c <= 'z' ==> 'A' <= upper(c) <= 'Z' && lower(upper(c)) == c,
        !('A' <= c <= 'Z') ==> lower(c) == c,
        !('a' <= c <= 'z') ==> upper(c) == c,
{
}

/// Replacing works character by character: what is replaced becomes the other text, and
/// what is not stays.
pub proof fn law_replacing_goes_by_characters(a: Seq<char>, b: Seq<char>, c: char, to: Seq<char>)
    ensures
        replace_each(a + b, c, to) == replace_each(a, c, to) + replace_each(b, c, to),
        b.len() == 1 ==> replace_each(b, c, to) == (if b[0] == c {
            to
        } else {
            b
        }),
    decreases b.len(),
{
    if b.len() == 0 {
        assert(a + b =~= a);
        assert(replace_each(a, c, to) + replace_each(b, c, to) =~= replace_each(a, c, to));
    } else {
        let d = b.drop_last();
        law_replacing_goes_by_characters(a, d, c, to);
        assert((a + b).drop_last() =~= a + d);
        assert((a + b).last() == b.last());
        assert(replace_each(a + b, c, to) =~= replace_each(a, c, to) + replace_each(b, c, to));
        if b.len() == 1 {
            assert(d =~= Seq::<char>::empty());
            assert(replace_each(b, c, to) =~= (if b[0] == c {
                to
            } else {
                b
            }));
        }
    }
}

/// A text is cut at the ends of its lines: what stands before the first line feed is the
/// first line, without a carriage return at its end, and the other lines are those of the
/// rest. What stands behind the last line feed is a line where it is not empty.
pub proof fn law_lines_end_at_line_feeds(line: Seq<char>, rest: Seq<char>)
    requires
        !line.contains('\n'),
    ensures
        lines(line.push('\n') + rest) == seq![
            if line.len() > 0 && line.last() == '\r' {
                line.drop_last()
            } else {
                line
            },
        ] + lines(rest),
        line.len() > 0 ==> lines(line) == seq![line],
        lines(Seq::empty()) == Seq::<Seq<char>>::empty(),
{
    let s = line.push('\n') + rest;
    let n = line.len() as int;
    assert(s[n] == '\n');
    assert forall|j: int| 0 <= j < n implies s[j] != '\n' by {
        assert(s[j] == line[j]);
    }
    assert(first_char(s, '\n', n));
    let i = choose|i: int| first_char(s, '\n', i);
    assert(i == n) by {
        if i < n {
            assert(s[i] != '\n');
        }
        if n < i {
            assert(s[n] != '\n');
        }
    }
    assert(s.contains('\n'));
    assert(s.subrange(0, n) =~= line);
    assert(s.subrange(n + 1, s.len() as int) =~= rest);
}

/// A text is cut where another stands in it: the first piece ends at the first place, and
/// the other pieces are those of what stands behind it.
pub proof fn law_pieces_end_where_the_text_stands(piece: Seq<char>, p: Seq<char>, rest: Seq<char>)
    requires
        p.len() > 0,
        forall|j: int| 0 <= j < piece.len() ==> !#[trigger] text_at(piece + p + rest, p, j),
    ensures
        pieces(piece + p + rest, p) == seq![piece] + pieces(rest, p),
        !has_text(rest, p) ==> pieces(rest, p) == seq![rest],
{
    let s = piece + p + rest;
    let n = piece.len() as int;
    assert(s.subrange(n, n + p.len()) =~= p);
    assert(first_text(s, p, n));
    let i = choose|i: int| first_text(s, p, i);
    assert(first_text(s, p, i));
    assert(i == n) by {
        if i < n {
            assert(!text_at(s, p, i));
        }
        if n < i {
            assert(!text_at(s, p, n));
        }
    }
    assert(has_text(s, p));
    assert(s.subrange(0, n) =~= piece);
    assert(s.subrange(n + p.len(), s.len() as int) =~= rest);
}

/// The position of a string in a list is the first place where it stands.
pub proof fn law_positions_are_first(v: Seq<Seq<char>>, s: Seq<char>)
    ensures
        match pos(v, s) {
            Some(i) => 0 <= i < v.len() && v[i] == s && forall|j: int| 0 <= j < i ==> v[j] != s,
            None => forall|j: int| 0 <= j < v.len() ==> v[j] != s,
        },
{
    if v.contains(s) {
        let k = choose|k: int| 0 <= k < v.len() && v[k] == s;
        lemma_pos_exists(v, s, k);
    }
}

/// A text without an ending does not have it any more, and a text that does not have it
/// stays as it is.
pub proof fn law_endings_are_taken_off(s: Seq<char>, p: Seq<char>)
    requires
        p.len() > 0,
    ensures
        !ends_with(without_ending(s, p), p),
        without_ending(s + p, p) == without_ending(s, p),
        !ends_with(s, p) ==> without_ending(s, p) == s,
    decreases s.len(),
{
    assert((s + p).subrange((s + p).len() - p.len(), (s + p).len() as int) =~= p);
    assert((s + p).subrange(0, (s + p).len() - p.len()) =~= s);
    if ends_with(s, p) {
        law_endings_are_taken_off(s.subrange(0, s.len() - p.len()), p);
    }
}

/// Characters of a set are taken off at one end: what is taken off is of the set, and
/// what is left does not start or end with one of it.
pub proof fn law_sets_are_taken_off(s: Seq<char>, set: Seq<char>)
    ensures
        exists|a: int|
            0 <= a <= s.len() && #[trigger] s.subrange(a, s.len() as int) == trim_start_of(s, set) && (forall|i: int|
                0 <= i < a ==> set.contains(#[trigger] s[i])) && (a < s.len() ==> !set.contains(s[a])),
        exists|b: int|
            0 <= b <= s.len() && #[trigger] s.subrange(0, b) == trim_end_of(s, set) && (forall|i: int|
                b <= i < s.len() ==> set.contains(#[trigger] s[i])) && (b > 0 ==> !set.contains(s[b - 1])),
{
    lemma_set_taken_off_in_front(s, set);
    lemma_set_taken_off_behind(s, set);
}

proof fn lemma_set_taken_off_in_front(s: Seq<char>, set: Seq<char>)
    ensures
        exists|a: int|
            0 <= a <= s.len() && #[trigger] s.subrange(a, s.len() as int) == trim_start_of(s, set) && (forall|i: int|
                0 <= i < a ==> set.contains(#[trigger] s[i])) && (a < s.len() ==> !set.contains(s[a])),
    decreases s.len(),
{
    let n = s.len() as int;
    if s.len() > 0 && set.contains(s[0]) {
        let t = s.subrange(1, n);
        lemma_set_taken_off_in_front(t, set);
        let a = choose|a: int|
            0 <= a <= t.len() && #[trigger] t.subrange(a, t.len() as int) == trim_start_of(t, set) && (forall|i: int|
                0 <= i < a ==> set.contains(#[trigger] t[i])) && (a < t.len() ==> !set.contains(t[a]));
        assert(s.subrange(a + 1, n) =~= t.subrange(a, t.len() as int));
        assert forall|i: int| 0 <= i < a + 1 implies set.contains(#[trigger] s[i]) by {
            if i > 0 {
                assert(t[i - 1] == s[i]);
            }
        }
    } else {
        assert(s.subrange(0, n) =~= s);
    }
}

proof fn lemma_set_taken_off_behind(s: Seq<char>, set: Seq<char>)
    ensures
        exists|b: int|
            0 <= b <= s.len() && #[trigger] s.subrange(0, b) == trim_end_of(s, set) && (forall|i: int|
                b <= i < s.len() ==> set.contains(#[trigger] s[i])) && (b > 0 ==> !set.contains(s[b - 1])),
    decreases s.len(),
{
    let n = s.len() as int;
    if s.len() > 0 && set.contains(s.last()) {
        let t = s.drop_last();
        lemma_set_taken_off_behind(t, set);
        let b = choose|b: int|
            0 <= b <= t.len() && #[trigger] t.subrange(0, b) == trim_end_of(t, set) && (forall|i: int|
                b <= i < t.len() ==> set.contains(#[trigger] t[i])) && (b > 0 ==> !set.contains(t[b - 1]));
        assert(s.subrange(0, b) =~= t.subrange(0, b));
        assert forall|i: int| b <= i < s.len() implies set.contains(#[trigger] s[i]) by {
            if i < n - 1 {
                assert(t[i] == s[i]);
            }
        }
    } else {
        assert(s.subrange(0, n) =~= s);
    }
}

/// What starts and ends with no character of a set stays as it is, and so does what
/// stands between characters of the set.
pub proof fn law_inner_texts_stay(front: Seq<char>, s: Seq<char>, behind: Seq<char>, set: Seq<char>)
    requires
        s.len() > 0,
        !set.contains(s[0]),
        !set.contains(s.last()),
        forall|i: int| 0 <= i < front.len() ==> set.contains(#[trigger] front[i]),
        forall|i: int| 0 <= i < behind.len() ==> set.contains(#[trigger] behind[i]),
    ensures
        trim_end_of(trim_start_of(front + s + behind, set), set) == s,
    decreases front.len() + behind.len(),
{
    let all = front + s + behind;
    if front.len() > 0 {
        assert(all[0] == front[0]);
        let f = front.subrange(1, front.len() as int);
        assert(all.subrange(1, all.len() as int) =~= f + s + behind);
        assert forall|i: int| 0 <= i < f.len() implies set.contains(#[trigger] f[i]) by {
            assert(f[i] == front[i + 1]);
        }
        law_inner_texts_stay(f, s, behind, set);
    } else {
        assert(all =~= s + behind);
        assert(all[0] == s[0]);
        assert(trim_start_of(all, set) == all);
        if behind.len() > 0 {
            assert(all.last() == behind.last());
            assert(behind[behind.len() - 1] == behind.last());
            let b = behind.drop_last();
            assert(all.drop_last() =~= s + b);
            assert(front + s + b =~= s + b);
            assert forall|i: int| 0 <= i < b.len() implies set.contains(#[trigger] b[i]) by {
                assert(b[i] == behind[i]);
            }
            law_inner_texts_stay(front, s, b, set);
            assert((s + b)[0] == s[0]);
            assert(trim_start_of(s + b, set) == s + b);
        } else {
            assert(all =~= s);
        }
    }
}

/// A text that starts and ends with what is no white space stands by itself once it is
/// trimmed, whatever white space stands around it.
pub proof fn law_trimmed_texts_stay(front: Seq<char>, s: Seq<char>, behind: Seq<char>)
    requires
        s.len() > 0,
        !is_whitespace(s[0]),
        !is_whitespace(s.last()),
        forall|i: int| 0 <= i < front.len() ==> is_whitespace(#[trigger] front[i]),
        forall|i: int| 0 <= i < behind.len() ==> is_whitespace(#[trigger] behind[i]),
    ensures
        trim(front + s + behind) == s,
        trim_start(front + s + behind) == s + behind,
    decreases front.len() + behind.len(),
{
    let all = front + s + behind;
    if front.len() > 0 {
        assert(all[0] == front[0]);
        let f = front.subrange(1, front.len() as int);
        assert(all.subrange(1, all.len() as int) =~= f + s + behind);
        assert forall|i: int| 0 <= i < f.len() implies is_whitespace(#[trigger] f[i]) by {
            assert(f[i] == front[i + 1]);
        }
        law_trimmed_texts_stay(f, s, behind);
    } else {
        assert(all =~= s + behind);
        assert(all[0] == s[0]);
        assert(trim_start(all) == all);
        if behind.len() > 0 {
            assert(all.last() == behind.last());
            assert(behind[behind.len() - 1] == behind.last());
            let b = behind.drop_last();
            assert(all.drop_last() =~= s + b);
            assert(front + s + b =~= s + b);
            assert forall|i: int| 0 <= i < b.len() implies is_whitespace(#[trigger] b[i]) by {
                assert(b[i] == behind[i]);
            }
            law_trimmed_texts_stay(front, s, b);
            assert((s + b)[0] == s[0]);
            assert(trim_start(s + b) == s + b);
        } else {
            assert(all =~= s);
        }
    }
}

/// A text is split where a separator stands: what is before the first one is the first
/// part, and what is behind it is split in the same way.
pub proof fn law_texts_are_split_at_separators(part: Seq<char>, c: char, rest: Seq<char>, seps: Seq<char>)
    requires
        forall|i: int| 0 <= i < part.len() ==> !seps.contains(#[trigger] part[i]),
        seps.contains(c),
    ensures
        split(part, seps) == seq![part],
        split(part.push(c) + rest, seps) == seq![part] + split(rest, seps),
    decreases part.len() + rest.len(),
{
    if rest.len() > 0 {
        let r = rest.drop_last();
        law_texts_are_split_at_separators(part, c, r, seps);
        let all = part.push(c) + rest;
        assert(all.drop_last() =~= part.push(c) + r);
        assert(all.last() == rest.last());
        lemma_some_part(r, seps);
        let before = split(r, seps);
        assert((seq![part] + before).last() == before.last());
        if seps.contains(rest.last()) {
            assert(split(all, seps) =~= seq![part] + split(rest, seps));
        } else {
            assert((seq![part] + before).drop_last() =~= seq![part] + before.drop_last());
            assert(split(all, seps) =~= seq![part] + split(rest, seps));
        }
    } else {
        if part.len() > 0 {
            let d = part.drop_last();
            assert(forall|i: int| 0 <= i < d.len() ==> #[trigger] d[i] == part[i]);
            law_texts_are_split_at_separators(d, c, rest, seps);
            assert(part[part.len() - 1] == part.last());
            assert(!seps.contains(part.last()));
            assert(d.push(part.last()) =~= part);
            assert(split(part, seps) =~= seq![part]);
        } else {
            assert(part =~= Seq::<char>::empty());
            assert(split(part, seps) =~= seq![part]);
        }
        let all = part.push(c) + rest;
        assert(all =~= part.push(c));
        assert(all.drop_last() =~= part);
        assert(all.last() == c);
        assert(rest =~= Seq::<char>::empty());
        assert(split(rest, seps) =~= seq![Seq::<char>::empty()]);
        assert(split(all, seps) =~= seq![part] + split(rest, seps));
    }
}

proof fn lemma_some_part(s: Seq<char>, seps: Seq<char>)
    ensures
        split(s, seps).len() > 0,
    decreases s.len(),
{
    if s.len() > 0 {
        lemma_some_part(s.drop_last(), seps);
    }
}

/// A text stands where its characters stand.
pub proof fn law_texts_stand_where_their_characters_do(s: Seq<char>, p: Seq<char>, i: int)
    ensures
        text_at(s, p, i) <==> 0 <= i && i + p.len() <= s.len() && forall|k: int|
            0 <= k < p.len() ==> s[i + k] == #[trigger] p[k],
        begins_with(s, p) <==> p.len() <= s.len() && forall|k: int| 0 <= k < p.len() ==> s[k] == #[trigger] p[k],
        ends_with(s, p) <==> p.len() <= s.len() && forall|k: int|
            0 <= k < p.len() ==> s[s.len() - p.len() + k] == #[trigger] p[k],
        text_at(s, p, i) ==> has_text(s, p),
        has_text(s, p) ==> text_at(s, p, text_pos(s, p)) && (text_at(s, p, i) ==> text_pos(s, p) <= i),
        !has_text(s, p) ==> text_pos(s, p) == s.len(),
{
    lemma_stands(s, p, i);
    lemma_stands(s, p, 0);
    lemma_stands(s, p, s.len() - p.len());
    if has_text(s, p) {
        let at = choose|at: int| text_at(s, p, at);
        lemma_some_first_text(s, p, at);
    }
}

proof fn lemma_stands(s: Seq<char>, p: Seq<char>, i: int)
    ensures
        text_at(s, p, i) <==> 0 <= i && i + p.len() <= s.len() && forall|k: int|
            0 <= k < p.len() ==> s[i + k] == #[trigger] p[k],
{
    if 0 <= i && i + p.len() <= s.len() {
        let t = s.subrange(i, i + p.len());
        assert(forall|k: int| 0 <= k < p.len() ==> s[i + k] == #[trigger] t[k]);
        if text_at(s, p, i) {
            assert(t == p);
        }
        if forall|k: int| 0 <= k < p.len() ==> s[i + k] == #[trigger] p[k] {
            assert forall|k: int| 0 <= k < p.len() implies #[trigger] t[k] == p[k] by {
                assert(s[i + k] == p[k]);
            }
            assert(t =~= p);
        }
    }
}

proof fn lemma_some_first_text(s: Seq<char>, p: Seq<char>, at: int)
    requires
        text_at(s, p, at),
    ensures
        exists|i: int| first_text(s, p, i),
    decreases at,
{
    if forall|j: int| 0 <= j < at ==> !text_at(s, p, j) {
        assert(first_text(s, p, at));
    } else {
        let j = choose|j: int| 0 <= j < at && text_at(s, p, j);
        lemma_some_first_text(s, p, j);
    }
}

/// Letters are those of the English alphabet in both cases, and words are made of them and
/// of digits.
pub proof fn law_words_have_letters_and_digits(c: char)
    ensures
        is_letter(c) <==> 97 <= c as int <= 122 || 65 <= c as int <= 90,
        is_digit(c) <==> 48 <= c as int <= 57,
        is_ascii_word(c) <==> is_letter(c) || is_digit(c),
        lower(c) != c ==> is_letter(c),
        upper(c) != c ==> is_letter(c),
{
    law_letters_have_two_cases(c);
}

/// Texts are the same but for the case of their letters where they are the same in lower
/// case; a text in lower case has no capitals.
pub proof fn law_case_is_ignored(a: Seq<char>, b: Seq<char>, i: int)
    ensures
        same_ignoring_case(a, b) <==> ascii_lowered(a) == ascii_lowered(b),
        no_capitals(ascii_lowered(a)),
        no_capitals(a) && 0 <= i < a.len() ==> !('A' <= a[i] <= 'Z'),
        no_capitals(a) ==> ascii_lowered(a) == a,
        ascii_lowered(a).len() == a.len(),
        0 <= i < a.len() ==> ascii_lowered(a)[i] == lower(a[i]),
        all_ascii(a) && 0 <= i < a.len() ==> a[i] as int <= 127,
{
    let x = ascii_lowered(a);
    let y = ascii_lowered(b);
    assert forall|k: int| 0 <= k < x.len() implies !('A' <= #[trigger] x[k] <= 'Z') by {
        law_letters_have_two_cases(a[k]);
    }
    if same_ignoring_case(a, b) {
        assert forall|k: int| 0 <= k < x.len() implies x[k] == y[k] by {
            assert(lower(a[k]) == lower(b[k]));
        }
        assert(x =~= y);
    }
    if x == y {
        assert forall|k: int| 0 <= k < a.len() implies lower(#[trigger] a[k]) == lower(b[k]) by {
            assert(x[k] == y[k]);
        }
    }
    if no_capitals(a) {
        assert forall|k: int| 0 <= k < a.len() implies x[k] == #[trigger] a[k] by {
            law_letters_have_two_cases(a[k]);
        }
        assert(x =~= a);
    }
}

} // verus!
