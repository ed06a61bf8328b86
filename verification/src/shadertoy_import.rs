//! Shadertoy exports turned into wallpaper packages.
//!
//! An export is a list of render passes with GLSL code and channel inputs. A
//! package is a `manifest.toml`, one `.glsl` file per pass and, where the export
//! has one, a `common.glsl`. Textures and cubemaps are referenced by file name
//! and have to be among the shared assets.
use vstd::prelude::*;

use crate::preprocessor;
use crate::preprocessor::{preprocess_shader, ShaderStage, SourceMap};
use crate::text;
use crate::text::{
    char_is_ascii_word, char_is_digit, char_is_letter, char_upper, chars_of, copy_strings, decimal_of, eq_ignoring_case, find_text,
    is_text_at, join_strings, list_has, parse_number, push_chars, replace_char, rfind_char, split_chars, str_contains,
    str_eq, string_of, sub_chars, trim_end_set, trim_str,
};

verus! {

broadcast use vstd::string::group_string_axioms;

// ---------------------------------------------------------------------------
// The export
// ---------------------------------------------------------------------------

/// The id of a render target: exports write a number or a text.
pub enum TargetId {
    /// No id.
    Null,
    /// An id given as text.
    Text(String),
    /// The notation of any other id.
    Other(String),
}

/// An input of a render pass.
pub struct StInput {
    pub channel: u32,
    pub itype: String,
    pub id: TargetId,
    pub filepath: String,
}

/// An output of a render pass.
pub struct StOutput {
    pub id: TargetId,
}

/// A render pass.
pub struct StPass {
    pub inputs: Vec<StInput>,
    pub outputs: Vec<StOutput>,
    pub code: String,
    pub name: String,
    pub ptype: String,
}

/// What an export says about itself.
pub struct StInfo {
    pub id: String,
    pub name: String,
    pub username: String,
    pub tags: Vec<String>,
}

/// A Shadertoy export.
pub struct StExport {
    pub renderpass: Vec<StPass>,
    pub info: StInfo,
}

/// What a successful conversion reports.
pub struct ImportReport {
    /// The name of the shader, as shown to the user.
    pub name: String,
    /// Notes on passes and inputs that were left out.
    pub warnings: Vec<String>,
}

// ---------------------------------------------------------------------------
// Names and ids
// ---------------------------------------------------------------------------

/// The key by which a buffer input is matched with the pass that produces it.
pub open spec fn key_of(id: TargetId) -> Seq<char> {
    match id {
        TargetId::Null => Seq::<char>::empty(),
        TargetId::Text(s) => s@,
        TargetId::Other(s) => s@,
    }
}

/// The key by which a buffer input is matched with the pass that produces it.
pub fn id_key(id: &TargetId) -> (r: String)
    ensures
        r@ == key_of(*id),
{
    match id {
        TargetId::Null => String::new(),
        TargetId::Text(s) => s.clone(),
        TargetId::Other(s) => s.clone(),
    }
}

/// The last ASCII letter of a name in uppercase, `A` where it has none.
pub open spec fn buffer_letter(name: Seq<char>) -> char
    decreases name.len(),
{
    if name.len() == 0 {
        'A'
    } else if text::is_letter(name.last()) {
        text::upper(name.last())
    } else {
        buffer_letter(name.drop_last())
    }
}

/// The pass that a Shadertoy pass becomes; none for kinds that are not rendered.
pub open spec fn target_of(ptype: Seq<char>, name: Seq<char>) -> Option<Seq<char>> {
    if ptype == "image"@ {
        Some("image"@)
    } else if ptype == "buffer"@ {
        Some("buffer"@.push(buffer_letter(name)))
    } else {
        None
    }
}

/// The last ASCII letter of a name in uppercase, `A` where it has none.
fn letter_of(name: &Vec<char>) -> (r: char)
    ensures
        r == buffer_letter(name@),
{
    let mut i: usize = name.len();
    assert(name@.subrange(0, name@.len() as int) =~= name@);
    while i > 0
        invariant
            i <= name.len(),
            buffer_letter(name@) == buffer_letter(name@.subrange(0, i as int)),
        decreases i,
    {
        assert(name@.subrange(0, i as int).drop_last() =~= name@.subrange(0, i - 1));
        if char_is_letter(name[i - 1]) {
            return char_upper(name[i - 1]);
        }
        i = i - 1;
    }
    'A'
}

/// The name of the pass and of its source file that a Shadertoy pass becomes:
/// `image` for the image pass, `buffer` and a letter for a buffer, and nothing
/// for the kinds of pass that are not rendered.
pub fn pass_target(ptype: &str, name: &str) -> (r: Option<(String, String)>)
    ensures
        match r {
            Some(t) => target_of(ptype@, name@) == Some(t.0@) && t.1@ == t.0@ + ".glsl"@,
            None => target_of(ptype@, name@) is None,
        },
{
    if str_eq(ptype, "image") {
        let n = "image".to_owned();
        let mut f = n.clone();
        f.append(".glsl");
        Some((n, f))
    } else if str_eq(ptype, "buffer") {
        let mut n = "buffer".to_owned();
        n.push(letter_of(&chars_of(name)));
        let mut f = n.clone();
        f.append(".glsl");
        Some((n, f))
    } else {
        None
    }
}

/// The name that the user sees.
pub open spec fn shown_name(name: Seq<char>) -> Seq<char> {
    if text::trim(name).len() == 0 {
        "Imported Shader"@
    } else {
        text::trim(name)
    }
}

/// The name that the user sees: the trimmed name of the export, or a stock name
/// where that is empty.
pub fn display_name(info: &StInfo) -> (r: String)
    ensures
        r@ == shown_name(info.name@),
{
    let t = trim_str(info.name.as_str());
    if t.as_str().is_empty() {
        "Imported Shader".to_owned()
    } else {
        t
    }
}

/// The name of an export, without converting it.
pub fn peek_name(export: &StExport) -> (r: String)
    ensures
        r@ == shown_name(export.info.name@),
{
    display_name(&export.info)
}

/// The last component of a path, separators at its end aside.
pub open spec fn base_of(filepath: Seq<char>) -> Option<Seq<char>> {
    let trimmed = text::trim_end_of(filepath, seq!['/']);
    let name = text::split(trimmed, seq!['/', '\\']).last();
    if trimmed.len() == 0 || name.len() == 0 {
        None
    } else {
        Some(name)
    }
}

/// The last component of a path such as `/media/a/<hash>.<ext>`.
pub fn basename(filepath: &str) -> (r: Option<String>)
    ensures
        match r {
            Some(b) => base_of(filepath@) == Some(b@),
            None => base_of(filepath@) is None,
        },
{
    let slash = vec!['/'];
    assert(slash@ =~= seq!['/']);
    let trimmed = trim_end_set(&chars_of(filepath), &slash);
    if trimmed.len() == 0 {
        return None;
    }
    let seps = vec!['/', '\\'];
    assert(seps@ =~= seq!['/', '\\']);
    let pieces = split_chars(&trimmed, &seps);
    let name = &pieces[pieces.len() - 1];
    assert(name@ == text::buffers(pieces@).last());
    if name.len() == 0 {
        None
    } else {
        Some(string_of(name))
    }
}

/// A text as a TOML basic string: quoted, with backslashes and quotes escaped.
pub open spec fn quoted(s: Seq<char>) -> Seq<char> {
    seq!['"'] + text::replace_each(
        text::replace_each(s, '\\', seq!['\\', '\\']),
        '"',
        seq!['\\', '"'],
    ) + seq!['"']
}

/// A text as a TOML basic string.
pub fn toml_str(s: &str) -> (r: String)
    ensures
        r@ == quoted(s@),
{
    let two = vec!['\\', '\\'];
    let esc = vec!['\\', '"'];
    assert(two@ =~= seq!['\\', '\\']);
    assert(esc@ =~= seq!['\\', '"']);
    let a = replace_char(&chars_of(s), '\\', &two);
    let b = replace_char(&a, '"', &esc);
    let mut out: Vec<char> = vec!['"'];
    assert(out@ =~= seq!['"']);
    push_chars(&mut out, &b);
    out.push('"');
    assert(out@ =~= quoted(s@));
    string_of(&out)
}

// ---------------------------------------------------------------------------
// The matrix constructor
// ---------------------------------------------------------------------------

/// A character of a GLSL identifier.
pub open spec fn is_ident(c: char) -> bool {
    text::is_ascii_word(c) || c == '_'
}

/// A character of a GLSL identifier.
pub fn is_ident_char(c: char) -> (r: bool)
    ensures
        r == is_ident(c),
{
    char_is_ascii_word(c) || c == '_'
}

/// How many of the parentheses in `s[open..k]` are still open.
pub open spec fn paren_depth(s: Seq<char>, open: int, k: int) -> int
    decreases k - open,
{
    if k <= open {
        0
    } else {
        let before = paren_depth(s, open, k - 1);
        if s[k - 1] == '(' {
            before + 1
        } else if s[k - 1] == ')' {
            before - 1
        } else {
            before
        }
    }
}

/// Whether the parenthesis at `open` is closed by the one at `close`.
pub open spec fn closes(s: Seq<char>, open: int, close: int) -> bool {
    &&& open <= close < s.len()
    &&& s[close] == ')'
    &&& paren_depth(s, open, close + 1) == 0
    &&& forall|k: int| open < k <= close ==> #[trigger] paren_depth(s, open, k) > 0
}

/// Whether a comma stands in `s[open..end]` between the arguments of the call
/// that opens at `open`.
pub open spec fn top_comma(s: Seq<char>, open: int, end: int) -> bool {
    exists|k: int| open <= k < end && s[k] == ',' && #[trigger] paren_depth(s, open, k) == 1
}

/// For the opening parenthesis at `open`: the position of its closing
/// parenthesis, if there is one, and whether the argument list has a comma of
/// its own.
pub fn scan_call_args(s: &Vec<char>, open: usize) -> (r: (Option<usize>, bool))
    requires
        open < s@.len(),
        s@[open as int] == '(',
    ensures
        match r.0 {
            Some(close) => closes(s@, open as int, close as int) && r.1 == top_comma(s@, open as int, close as int),
            None => {
                &&& forall|close: int| !closes(s@, open as int, close)
                &&& r.1 == top_comma(s@, open as int, s@.len() as int)
            },
        },
{
    let mut depth: usize = 0;
    let mut comma: bool = false;
    let mut k: usize = open;
    while k < s.len()
        invariant
            open <= k <= s.len(),
            open < s.len(),
            s@[open as int] == '(',
            depth == paren_depth(s@, open as int, k as int),
            depth <= k - open,
            k > open ==> depth > 0,
            forall|j: int| open < j <= k ==> #[trigger] paren_depth(s@, open as int, j) > 0,
            comma == top_comma(s@, open as int, k as int),
        decreases s.len() - k,
    {
        let c = s[k];
        proof {
            assert(paren_depth(s@, open as int, k + 1) == paren_depth(s@, open as int, k as int) + (if c == '(' {
                1int
            } else if c == ')' {
                -1int
            } else {
                0int
            }));
            if c == ',' && depth == 1 {
                assert(top_comma(s@, open as int, k + 1));
            } else if top_comma(s@, open as int, k + 1) {
                let w = choose|w: int|
                    open <= w < k + 1 && s@[w] == ',' && #[trigger] paren_depth(s@, open as int, w) == 1;
                assert(w < k);
                assert(top_comma(s@, open as int, k as int));
            }
            if top_comma(s@, open as int, k as int) {
                let w = choose|w: int|
                    open <= w < k && s@[w] == ',' && #[trigger] paren_depth(s@, open as int, w) == 1;
                assert(paren_depth(s@, open as int, w) == 1);
                assert(top_comma(s@, open as int, k + 1));
            }
        }
        if c == '(' {
            depth = depth + 1;
        } else if c == ')' {
            depth = depth - 1;
            if depth == 0 {
                return (Some(k), comma);
            }
        } else if c == ',' && depth == 1 {
            comma = true;
        }
        k = k + 1;
    }
    (None, comma)
}

/// The first position at or after `i` that is neither a space nor a tab.
pub open spec fn after_blanks(s: Seq<char>, i: int) -> int
    decreases s.len() - i,
{
    if 0 <= i < s.len() && (s[i] == ' ' || s[i] == '\t') {
        after_blanks(s, i + 1)
    } else {
        i
    }
}

/// Blanks are skipped forwards.
pub proof fn lemma_after_blanks(s: Seq<char>, i: int)
    ensures
        after_blanks(s, i) >= i,
    decreases s.len() - i,
{
    if 0 <= i < s.len() && (s[i] == ' ' || s[i] == '\t') {
        lemma_after_blanks(s, i + 1);
    }
}

/// Whether the word `mat2` at `i` is a constructor call with one argument, whose
/// closing parenthesis is at `close`.
pub open spec fn single_argument_call(s: Seq<char>, i: int, close: int) -> bool {
    let open = after_blanks(s, i + 4);
    &&& i == 0 || !is_ident(s[i - 1])
    &&& open < s.len()
    &&& s[open] == '('
    &&& closes(s, open, close)
    &&& !top_comma(s, open, close)
}

/// Whether the word `mat2` at `i` is a constructor call with one argument.
pub open spec fn single_argument(s: Seq<char>, i: int) -> bool {
    exists|close: int| single_argument_call(s, i, close)
}

/// The text of `s` from position `i` on, with the constructor calls rewritten: every
/// call of `mat2` with one argument has `_stm2` in place of `mat2`, those inside the
/// argument of another call as well.
pub open spec fn patched_from(s: Seq<char>, i: int) -> Seq<char>
    decreases s.len() - i,
{
    if i < 0 || i >= s.len() {
        Seq::<char>::empty()
    } else if text::text_at(s, seq!['m', 'a', 't', '2'], i) {
        let open = after_blanks(s, i + 4);
        if single_argument(s, i) {
            proof {
                lemma_after_blanks(s, i + 4);
            }
            "_stm2"@ + s.subrange(i + 4, open + 1) + patched_from(s, open + 1)
        } else {
            seq!['m', 'a', 't', '2'] + patched_from(s, i + 4)
        }
    } else {
        seq![s[i]] + patched_from(s, i + 1)
    }
}

/// A parenthesis is closed at one place only.
proof fn lemma_closes_unique(s: Seq<char>, open: int, a: int, b: int)
    requires
        closes(s, open, a),
        closes(s, open, b),
    ensures
        a == b,
{
    if a < b {
        assert(paren_depth(s, open, a + 1) > 0);
    }
    if b < a {
        assert(paren_depth(s, open, b + 1) > 0);
    }
}

/// GLSL source with the constructor calls of `mat2` that have one argument, nested ones
/// as well, rewritten to `_stm2`, which the engine's header defines. The forms with more
/// arguments are left as they are.
pub fn patch_naga_mat2(src: &str) -> (r: String)
    ensures
        r@ == patched_from(src@, 0),
{
    let s = chars_of(src);
    let word = vec!['m', 'a', 't', '2'];
    assert(word@ =~= seq!['m', 'a', 't', '2']);
    let safe = chars_of("_stm2");
    let mut out: Vec<char> = Vec::new();
    let mut i: usize = 0;
    assert(out@ + patched_from(s@, 0) =~= patched_from(s@, 0));
    while i < s.len()
        invariant
            i <= s.len(),
            s@ == src@,
            word@ == seq!['m', 'a', 't', '2'],
            safe@ == "_stm2"@,
            out@ + patched_from(s@, i as int) == patched_from(s@, 0),
        decreases s.len() - i,
    {
        let ghost before = out@;
        if is_text_at(&s, &word, i) {
            let after: usize = i + 4;
            let mut j: usize = after;
            while j < s.len() && (s[j] == ' ' || s[j] == '\t')
                invariant
                    after <= j <= s.len(),
                    after_blanks(s@, after as int) == after_blanks(s@, j as int),
                decreases s.len() - j,
            {
                j = j + 1;
            }
            assert(after_blanks(s@, after as int) == j);
            let alone = i == 0 || !is_ident_char(s[i - 1]);
            let mut single: bool = false;
            if alone && j < s.len() && s[j] == '(' {
                let (close, comma) = scan_call_args(&s, j);
                single = close.is_some() && !comma;
                proof {
                    if let Some(c) = close {
                        if !comma {
                            assert(single_argument_call(s@, i as int, c as int));
                        }
                        if single_argument(s@, i as int) {
                            let c2 = choose|c2: int| single_argument_call(s@, i as int, c2);
                            lemma_closes_unique(s@, j as int, c2, c as int);
                        }
                    }
                }
            }
            assert(single == single_argument(s@, i as int));
            if single {
                push_chars(&mut out, &safe);
                let opening = sub_chars(&s, after, j + 1);
                push_chars(&mut out, &opening);
                i = j + 1;
                assert(out@ + patched_from(s@, i as int) =~= before + ("_stm2"@ + s@.subrange(
                    after as int,
                    j + 1,
                ) + patched_from(s@, i as int)));
            } else {
                push_chars(&mut out, &word);
                i = after;
                assert(out@ + patched_from(s@, i as int) =~= before + (word@ + patched_from(s@, i as int)));
            }
        } else {
            out.push(s[i]);
            i = i + 1;
            assert(out@ + patched_from(s@, i as int) =~= before + (seq![s@[i - 1]] + patched_from(s@, i as int)));
        }
    }
    assert(out@ + patched_from(s@, i as int) =~= out@);
    string_of(&out)
}

// ---------------------------------------------------------------------------
// Assets
// ---------------------------------------------------------------------------

/// The file name of face `f` (1 to 5) of a cubemap.
pub open spec fn face_of(base: Seq<char>, f: nat) -> Seq<char> {
    let dot = text::last_index(base, '.');
    base.subrange(0, dot) + "_"@ + text::decimal(f) + "."@ + base.subrange(dot + 1, base.len() as int)
}

/// The first of the faces `f` to 5 that is not among the assets.
pub open spec fn missing_face(base: Seq<char>, assets: Seq<Seq<char>>, f: nat) -> Option<nat>
    decreases 6 - f,
{
    if f > 5 {
        None
    } else if assets.contains(face_of(base, f)) {
        missing_face(base, assets, f + 1)
    } else {
        Some(f)
    }
}

/// Why a texture cannot be used; nothing where it is among the assets.
pub open spec fn texture_fault(base: Seq<char>, assets: Seq<Seq<char>>) -> Option<Seq<char>> {
    if assets.contains(base) {
        None
    } else {
        Some("Required texture '"@ + base + "' isn't in the Strata-Library asset directory"@)
    }
}

/// Why a cubemap cannot be used; nothing where its six faces are assets.
pub open spec fn cubemap_fault(base: Seq<char>, assets: Seq<Seq<char>>) -> Option<Seq<char>> {
    if text::last_index(base, '.') < 0 {
        Some("cubemap '"@ + base + "' has no extension"@)
    } else if texture_fault(base, assets) is Some {
        texture_fault(base, assets)
    } else {
        match missing_face(base, assets, 1) {
            Some(f) => Some(
                "cubemap '"@ + base + "' is missing face "@ + face_of(base, f) + " in the asset directory"@,
            ),
            None => None,
        }
    }
}

/// The file name of face `f` of a cubemap whose name has its last dot at `dot`.
fn face_name(base: &Vec<char>, dot: usize, f: u64) -> (r: String)
    requires
        dot < base@.len(),
        dot == text::last_index(base@, '.'),
    ensures
        r@ == face_of(base@, f as nat),
{
    let mut r = string_of(&sub_chars(base, 0, dot));
    r.append("_");
    r.append(decimal_of(f).as_str());
    r.append(".");
    let end: usize = base.len();
    r.append(string_of(&sub_chars(base, dot + 1, end)).as_str());
    r
}

/// Checks that a texture is among the shared assets.
pub fn require_asset(base: &str, assets: &Vec<String>) -> (r: Result<(), String>)
    ensures
        match r {
            Ok(_) => texture_fault(base@, text::texts(assets@)) is None,
            Err(e) => texture_fault(base@, text::texts(assets@)) == Some(e@),
        },
{
    if list_has(assets, base) {
        Ok(())
    } else {
        let mut e = "Required texture '".to_owned();
        e.append(base);
        e.append("' isn't in the Strata-Library asset directory");
        Err(e)
    }
}

/// Checks that the six faces of a cubemap, `<stem>.<ext>` and
/// `<stem>_1.<ext>` to `<stem>_5.<ext>`, are among the shared assets.
pub fn require_cubemap(base: &str, assets: &Vec<String>) -> (r: Result<(), String>)
    ensures
        match r {
            Ok(_) => cubemap_fault(base@, text::texts(assets@)) is None,
            Err(e) => cubemap_fault(base@, text::texts(assets@)) == Some(e@),
        },
{
    let b = chars_of(base);
    let dot = match rfind_char(&b, '.') {
        Some(d) => d,
        None => {
            let mut e = "cubemap '".to_owned();
            e.append(base);
            e.append("' has no extension");
            return Err(e);
        },
    };
    match require_asset(base, assets) {
        Ok(_) => {},
        Err(e) => {
            return Err(e);
        },
    }
    let mut f: u64 = 1;
    while f <= 5
        invariant
            1 <= f <= 6,
            b@ == base@,
            dot < b@.len(),
            dot == text::last_index(b@, '.'),
            missing_face(base@, text::texts(assets@), 1) == missing_face(base@, text::texts(assets@), f as nat),
            texture_fault(base@, text::texts(assets@)) is None,
        decreases 6 - f,
    {
        let face = face_name(&b, dot, f);
        if !list_has(assets, face.as_str()) {
            let mut e = "cubemap '".to_owned();
            e.append(base);
            e.append("' is missing face ");
            e.append(face.as_str());
            e.append(" in the asset directory");
            return Err(e);
        }
        f = f + 1;
    }
    Ok(())
}

// ---------------------------------------------------------------------------
// Passes
// ---------------------------------------------------------------------------

/// Whether a pass produces the render target with the given key.
pub open spec fn produces(p: StPass, key: Seq<char>) -> bool {
    &&& target_of(p.ptype@, p.name@) is Some
    &&& key.len() > 0
    &&& exists|o: int| 0 <= o < p.outputs@.len() && key_of((#[trigger] p.outputs@[o]).id) == key
}

/// The pass that a buffer input with the given key reads: the last one that
/// produces the key.
pub open spec fn buffer_of(passes: Seq<StPass>, key: Seq<char>) -> Option<Seq<char>>
    decreases passes.len(),
{
    if passes.len() == 0 {
        None
    } else if produces(passes.last(), key) {
        target_of(passes.last().ptype@, passes.last().name@)
    } else {
        buffer_of(passes.drop_last(), key)
    }
}

fn pass_produces(p: &StPass, key: &str) -> (r: bool)
    ensures
        r == produces(*p, key@),
{
    if pass_target(p.ptype.as_str(), p.name.as_str()).is_none() || key.is_empty() {
        return false;
    }
    let mut i: usize = 0;
    while i < p.outputs.len()
        invariant
            i <= p.outputs.len(),
            target_of(p.ptype@, p.name@) is Some,
            key@.len() > 0,
            forall|o: int| 0 <= o < i ==> key_of((#[trigger] p.outputs@[o]).id) != key@,
        decreases p.outputs.len() - i,
    {
        if str_eq(id_key(&p.outputs[i].id).as_str(), key) {
            return true;
        }
        i = i + 1;
    }
    false
}

fn find_buffer(passes: &Vec<StPass>, key: &str) -> (r: Option<String>)
    ensures
        match r {
            Some(t) => buffer_of(passes@, key@) == Some(t@),
            None => buffer_of(passes@, key@) is None,
        },
{
    let mut i: usize = passes.len();
    assert(passes@.subrange(0, passes@.len() as int) =~= passes@);
    while i > 0
        invariant
            i <= passes.len(),
            buffer_of(passes@, key@) == buffer_of(passes@.subrange(0, i as int), key@),
        decreases i,
    {
        assert(passes@.subrange(0, i as int).drop_last() =~= passes@.subrange(0, i - 1));
        let p = &passes[i - 1];
        if pass_produces(p, key) {
            match pass_target(p.ptype.as_str(), p.name.as_str()) {
                Some(t) => {
                    return Some(t.0);
                },
                None => {
                    return None;
                },
            }
        }
        i = i - 1;
    }
    None
}

/// What becomes of an input: a binding of the manifest, a note to the user, or an
/// error that ends the import.
#[verifier::ext_equal]
pub enum InputText {
    Line(Seq<char>),
    Note(Seq<char>),
    Fail(Seq<char>),
}

/// What becomes of an input, in executable form.
pub enum InputOut {
    Line(String),
    Note(String),
    Fail(String),
}

impl View for InputOut {
    type V = InputText;

    open spec fn view(&self) -> InputText {
        match self {
            InputOut::Line(s) => InputText::Line(s@),
            InputOut::Note(s) => InputText::Note(s@),
            InputOut::Fail(s) => InputText::Fail(s@),
        }
    }
}

/// A binding that names a file or a pass.
pub open spec fn named_line(channel: nat, middle: Seq<char>, value: Seq<char>) -> Seq<char> {
    "    { channel = "@ + text::decimal(channel) + middle + value + "\" }"@
}

/// What becomes of one input of the pass `pass`.
pub open spec fn input_of(pass: Seq<char>, inp: StInput, passes: Seq<StPass>, assets: Seq<Seq<char>>) -> InputText {
    let channel = text::decimal(inp.channel as nat);
    let kind = inp.itype@;
    if inp.channel >= 4 {
        InputText::Note(pass + ": ignoring input on channel "@ + channel + " (>3)"@)
    } else if kind == "texture"@ {
        match base_of(inp.filepath@) {
            None => InputText::Fail(pass + ": texture input has no filepath"@),
            Some(base) => match texture_fault(base, assets) {
                Some(e) => InputText::Fail(e),
                None => InputText::Line(named_line(inp.channel as nat, ", type = \"texture\", path = \""@, base)),
            },
        }
    } else if kind == "cubemap"@ {
        match base_of(inp.filepath@) {
            None => InputText::Fail(pass + ": cubemap input has no filepath"@),
            Some(base) => match cubemap_fault(base, assets) {
                Some(e) => InputText::Fail(e),
                None => InputText::Line(named_line(inp.channel as nat, ", type = \"cubemap\", path = \""@, base)),
            },
        }
    } else if kind == "buffer"@ {
        match buffer_of(passes, key_of(inp.id)) {
            Some(target) => InputText::Line(
                named_line(inp.channel as nat, ", type = \"buffer\", target = \""@, target),
            ),
            None => InputText::Note(
                pass + ": channel "@ + channel + " references unknown buffer (id "@ + key_of(inp.id)
                    + "); left unbound"@,
            ),
        }
    } else if kind == "music"@ || kind == "musicstream"@ || kind == "mic"@ {
        InputText::Line("    { channel = "@ + channel + ", type = \"audio\" }"@)
    } else {
        InputText::Note(pass + ": channel "@ + channel + " input type '"@ + kind + "' is unsupported; left unbound"@)
    }
}

fn named_binding(channel: u32, middle: &str, value: &str) -> (r: String)
    ensures
        r@ == named_line(channel as nat, middle@, value@),
{
    let mut r = "    { channel = ".to_owned();
    r.append(decimal_of(channel as u64).as_str());
    r.append(middle);
    r.append(value);
    r.append("\" }");
    r
}

fn bind_file(pass: &str, inp: &StInput, cube: bool, assets: &Vec<String>) -> (r: InputOut)
    requires
        inp.channel < 4,
        cube ==> inp.itype@ == "cubemap"@ && inp.itype@ != "texture"@,
        !cube ==> inp.itype@ == "texture"@,
    ensures
        forall|passes: Seq<StPass>| r@ == #[trigger] input_of(pass@, *inp, passes, text::texts(assets@)),
{
    match basename(inp.filepath.as_str()) {
        None => {
            let mut e = pass.to_owned();
            if cube {
                e.append(": cubemap input has no filepath");
            } else {
                e.append(": texture input has no filepath");
            }
            InputOut::Fail(e)
        },
        Some(base) => {
            if cube {
                match require_cubemap(base.as_str(), assets) {
                    Err(e) => InputOut::Fail(e),
                    Ok(_) => InputOut::Line(
                        named_binding(inp.channel, ", type = \"cubemap\", path = \"", base.as_str()),
                    ),
                }
            } else {
                match require_asset(base.as_str(), assets) {
                    Err(e) => InputOut::Fail(e),
                    Ok(_) => InputOut::Line(
                        named_binding(inp.channel, ", type = \"texture\", path = \"", base.as_str()),
                    ),
                }
            }
        },
    }
}

/// What becomes of one input of the pass `pass`.
pub fn bind_input(pass: &str, inp: &StInput, passes: &Vec<StPass>, assets: &Vec<String>) -> (r: InputOut)
    ensures
        r@ == input_of(pass@, *inp, passes@, text::texts(assets@)),
{
    let kind = inp.itype.as_str();
    if inp.channel >= 4 {
        let mut n = pass.to_owned();
        n.append(": ignoring input on channel ");
        n.append(decimal_of(inp.channel as u64).as_str());
        n.append(" (>3)");
        return InputOut::Note(n);
    }
    if str_eq(kind, "texture") {
        let r = bind_file(pass, inp, false, assets);
        assert(r@ == input_of(pass@, *inp, passes@, text::texts(assets@)));
        r
    } else if str_eq(kind, "cubemap") {
        let r = bind_file(pass, inp, true, assets);
        assert(r@ == input_of(pass@, *inp, passes@, text::texts(assets@)));
        r
    } else if str_eq(kind, "buffer") {
        let key = id_key(&inp.id);
        match find_buffer(passes, key.as_str()) {
            Some(target) => InputOut::Line(
                named_binding(inp.channel, ", type = \"buffer\", target = \"", target.as_str()),
            ),
            None => {
                let mut n = pass.to_owned();
                n.append(": channel ");
                n.append(decimal_of(inp.channel as u64).as_str());
                n.append(" references unknown buffer (id ");
                n.append(key.as_str());
                n.append("); left unbound");
                InputOut::Note(n)
            },
        }
    } else if str_eq(kind, "music") || str_eq(kind, "musicstream") || str_eq(kind, "mic") {
        let mut l = "    { channel = ".to_owned();
        l.append(decimal_of(inp.channel as u64).as_str());
        l.append(", type = \"audio\" }");
        InputOut::Line(l)
    } else {
        let mut n = pass.to_owned();
        n.append(": channel ");
        n.append(decimal_of(inp.channel as u64).as_str());
        n.append(" input type '");
        n.append(kind);
        n.append("' is unsupported; left unbound");
        InputOut::Note(n)
    }
}

/// A pass of the package, as it stands in the manifest.
#[verifier::ext_equal]
pub struct PassText {
    pub name: Seq<char>,
    pub source: Seq<char>,
    pub bindings: Seq<Seq<char>>,
}

/// A pass of the package.
pub struct PassOut {
    pub name: String,
    pub source: String,
    pub bindings: Vec<String>,
}

impl View for PassOut {
    type V = PassText;

    open spec fn view(&self) -> PassText {
        PassText { name: self.name@, source: self.source@, bindings: text::texts(self.bindings@) }
    }
}

/// The passes of a list, as they stand in the manifest.
pub open spec fn pass_texts(v: Seq<PassOut>) -> Seq<PassText> {
    Seq::new(v.len(), |i: int| v[i]@)
}

/// The bindings and notes of the inputs of a pass, or the first error.
pub open spec fn inputs_of(
    pass: Seq<char>,
    inputs: Seq<StInput>,
    passes: Seq<StPass>,
    assets: Seq<Seq<char>>,
) -> Result<(Seq<Seq<char>>, Seq<Seq<char>>), Seq<char>>
    decreases inputs.len(),
{
    if inputs.len() == 0 {
        Ok((Seq::empty(), Seq::empty()))
    } else {
        match inputs_of(pass, inputs.drop_last(), passes, assets) {
            Err(e) => Err(e),
            Ok((lines, notes)) => match input_of(pass, inputs.last(), passes, assets) {
                InputText::Line(l) => Ok((lines.push(l), notes)),
                InputText::Note(n) => Ok((lines, notes.push(n))),
                InputText::Fail(e) => Err(e),
            },
        }
    }
}

/// The passes of the package in the order of the export and the notes to the
/// user, or the first error. `all` are the passes of the export.
pub open spec fn passes_of(
    todo: Seq<StPass>,
    all: Seq<StPass>,
    assets: Seq<Seq<char>>,
) -> Result<(Seq<PassText>, Seq<Seq<char>>), Seq<char>>
    decreases todo.len(),
{
    if todo.len() == 0 {
        Ok((Seq::empty(), Seq::empty()))
    } else {
        match passes_of(todo.drop_last(), all, assets) {
            Err(e) => Err(e),
            Ok((outs, notes)) => {
                let p = todo.last();
                if p.ptype@ == "common"@ {
                    Ok((outs, notes))
                } else {
                    match target_of(p.ptype@, p.name@) {
                        None => Ok(
                            (
                                outs,
                                notes.push(
                                    "Skipped unsupported pass type '"@ + p.ptype@ + "' ("@ + p.name@ + ")"@,
                                ),
                            ),
                        ),
                        Some(name) => match inputs_of(name, p.inputs@, all, assets) {
                            Err(e) => Err(e),
                            Ok((lines, more)) => Ok(
                                (
                                    outs.push(PassText { name, source: name + ".glsl"@, bindings: lines }),
                                    notes + more,
                                ),
                            ),
                        },
                    }
                }
            },
        }
    }
}

/// The inputs of a pass: the bindings, while the notes go to `notes`.
fn bind_inputs(
    pass: &str,
    inputs: &Vec<StInput>,
    passes: &Vec<StPass>,
    assets: &Vec<String>,
    notes: &mut Vec<String>,
) -> (r: Result<Vec<String>, String>)
    ensures
        match inputs_of(pass@, inputs@, passes@, text::texts(assets@)) {
            Ok((lines, more)) => {
                &&& r matches Ok(l)
                &&& text::texts(l@) == lines
                &&& text::texts(final(notes)@) == text::texts(old(notes)@) + more
            },
            Err(e) => r matches Err(e2) && e2@ == e,
        },
{
    let mut lines: Vec<String> = Vec::new();
    let mut i: usize = 0;
    let ghost start = text::texts(notes@);
    let ghost known = text::texts(assets@);
    assert(inputs@.subrange(0, 0) =~= Seq::<StInput>::empty());
    assert(text::texts(lines@) =~= Seq::<Seq<char>>::empty());
    let ghost mut more = Seq::<Seq<char>>::empty();
    assert(start + more =~= start);
    while i < inputs.len()
        invariant
            i <= inputs.len(),
            known == text::texts(assets@),
            inputs_of(pass@, inputs@.subrange(0, i as int), passes@, known) == Ok::<_, Seq<char>>(
                (text::texts(lines@), more),
            ),
            text::texts(notes@) == start + more,
        decreases inputs.len() - i,
    {
        assert(inputs@.subrange(0, i + 1).drop_last() =~= inputs@.subrange(0, i as int));
        let ghost old_lines = lines@;
        let ghost old_notes = notes@;
        match bind_input(pass, &inputs[i], passes, assets) {
            InputOut::Line(l) => {
                let ghost lt = l@;
                lines.push(l);
                assert(text::texts(lines@) =~= text::texts(old_lines).push(lt));
            },
            InputOut::Note(n) => {
                let ghost nt = n@;
                notes.push(n);
                assert(text::texts(notes@) =~= text::texts(old_notes).push(nt));
                proof {
                    more = more.push(nt);
                }
                assert(text::texts(notes@) =~= start + more);
            },
            InputOut::Fail(e) => {
                proof {
                    lemma_inputs_fail(pass@, inputs@, passes@, known, i as int, e@);
                }
                return Err(e);
            },
        }
        i = i + 1;
    }
    assert(inputs@.subrange(0, inputs@.len() as int) =~= inputs@);
    Ok(lines)
}

proof fn lemma_inputs_fail(
    pass: Seq<char>,
    inputs: Seq<StInput>,
    passes: Seq<StPass>,
    assets: Seq<Seq<char>>,
    i: int,
    e: Seq<char>,
)
    requires
        0 <= i < inputs.len(),
        inputs_of(pass, inputs.subrange(0, i), passes, assets) is Ok,
        input_of(pass, inputs[i], passes, assets) == InputText::Fail(e),
    ensures
        inputs_of(pass, inputs, passes, assets) == Err::<(Seq<Seq<char>>, Seq<Seq<char>>), Seq<char>>(e),
    decreases inputs.len(),
{
    if i == inputs.len() - 1 {
        assert(inputs.drop_last() =~= inputs.subrange(0, i));
    } else {
        let d = inputs.drop_last();
        assert(d.subrange(0, i) =~= inputs.subrange(0, i));
        assert(d[i] == inputs[i]);
        lemma_inputs_fail(pass, d, passes, assets, i, e);
    }
}

proof fn lemma_passes_fail(
    todo: Seq<StPass>,
    all: Seq<StPass>,
    assets: Seq<Seq<char>>,
    i: int,
    e: Seq<char>,
)
    requires
        0 <= i < todo.len(),
        passes_of(todo.subrange(0, i + 1), all, assets) == Err::<(Seq<PassText>, Seq<Seq<char>>), Seq<char>>(e),
    ensures
        passes_of(todo, all, assets) == Err::<(Seq<PassText>, Seq<Seq<char>>), Seq<char>>(e),
    decreases todo.len(),
{
    if i == todo.len() - 1 {
        assert(todo =~= todo.subrange(0, i + 1));
    } else {
        let d = todo.drop_last();
        assert(d.subrange(0, i + 1) =~= todo.subrange(0, i + 1));
        lemma_passes_fail(d, all, assets, i, e);
    }
}

/// The passes of the package in the order of the export, and the notes.
fn convert_passes(passes: &Vec<StPass>, assets: &Vec<String>) -> (r: Result<(Vec<PassOut>, Vec<String>), String>)
    ensures
        match passes_of(passes@, passes@, text::texts(assets@)) {
            Ok((outs, notes)) => r matches Ok((o, n)) && pass_texts(o@) == outs && text::texts(n@) == notes,
            Err(e) => r matches Err(e2) && e2@ == e,
        },
{
    let mut outs: Vec<PassOut> = Vec::new();
    let mut notes: Vec<String> = Vec::new();
    let mut i: usize = 0;
    let ghost known = text::texts(assets@);
    assert(passes@.subrange(0, 0) =~= Seq::<StPass>::empty());
    assert(pass_texts(outs@) =~= Seq::<PassText>::empty());
    assert(text::texts(notes@) =~= Seq::<Seq<char>>::empty());
    while i < passes.len()
        invariant
            i <= passes.len(),
            known == text::texts(assets@),
            passes_of(passes@.subrange(0, i as int), passes@, known) == Ok::<_, Seq<char>>(
                (pass_texts(outs@), text::texts(notes@)),
            ),
        decreases passes.len() - i,
    {
        assert(passes@.subrange(0, i + 1).drop_last() =~= passes@.subrange(0, i as int));
        let p = &passes[i];
        let ghost old_outs = outs@;
        let ghost old_notes = notes@;
        if !str_eq(p.ptype.as_str(), "common") {
            match pass_target(p.ptype.as_str(), p.name.as_str()) {
                None => {
                    let mut n = "Skipped unsupported pass type '".to_owned();
                    n.append(p.ptype.as_str());
                    n.append("' (");
                    n.append(p.name.as_str());
                    n.append(")");
                    let ghost nt = n@;
                    notes.push(n);
                    assert(text::texts(notes@) =~= text::texts(old_notes).push(nt));
                },
                Some((name, source)) => {
                    match bind_inputs(name.as_str(), &p.inputs, passes, assets, &mut notes) {
                        Err(e) => {
                            proof {
                                lemma_passes_fail(passes@, passes@, known, i as int, e@);
                            }
                            return Err(e);
                        },
                        Ok(bindings) => {
                            let out = PassOut { name, source, bindings };
                            let ghost ot = out@;
                            outs.push(out);
                            assert(pass_texts(outs@) =~= pass_texts(old_outs).push(ot));
                        },
                    }
                },
            }
        }
        i = i + 1;
    }
    assert(passes@.subrange(0, passes@.len() as int) =~= passes@);
    Ok((outs, notes))
}

// ---------------------------------------------------------------------------
// The order of the passes
// ---------------------------------------------------------------------------

/// The place of a pass in the manifest: the buffers by their letter, then the
/// image.
pub open spec fn rank(name: Seq<char>) -> nat {
    if name == "image"@ {
        27
    } else if name.len() > 0 && 'A' <= name.last() <= 'Z' {
        (name.last() as int - 65) as nat
    } else {
        26
    }
}

/// The passes of rank `r`, in their order.
pub open spec fn of_rank(ps: Seq<PassText>, r: nat) -> Seq<PassText>
    decreases ps.len(),
{
    if ps.len() == 0 {
        Seq::empty()
    } else if rank(ps.last().name) == r {
        of_rank(ps.drop_last(), r).push(ps.last())
    } else {
        of_rank(ps.drop_last(), r)
    }
}

/// The passes of a rank below `r`, by rank; those of one rank in their order.
pub open spec fn below_rank(ps: Seq<PassText>, r: nat) -> Seq<PassText>
    decreases r,
{
    if r == 0 {
        Seq::empty()
    } else {
        below_rank(ps, (r - 1) as nat) + of_rank(ps, (r - 1) as nat)
    }
}

/// The passes in the order of the manifest.
pub open spec fn in_order(ps: Seq<PassText>) -> Seq<PassText> {
    below_rank(ps, 28)
}

fn rank_of(name: &str) -> (r: usize)
    ensures
        r == rank(name@),
        r < 28,
{
    if str_eq(name, "image") {
        return 27;
    }
    let n = chars_of(name);
    if n.len() > 0 {
        let c = n[n.len() - 1];
        if 'A' <= c && c <= 'Z' {
            return (c as u8 - 65u8) as usize;
        }
    }
    26
}

fn copy_pass(p: &PassOut) -> (r: PassOut)
    ensures
        r@ == p@,
{
    PassOut { name: p.name.clone(), source: p.source.clone(), bindings: copy_strings(&p.bindings) }
}

/// The passes in the order of the manifest.
fn order_passes(ps: &Vec<PassOut>) -> (r: Vec<PassOut>)
    ensures
        pass_texts(r@) == in_order(pass_texts(ps@)),
{
    let mut out: Vec<PassOut> = Vec::new();
    let ghost all = pass_texts(ps@);
    let mut k: usize = 0;
    assert(pass_texts(out@) =~= below_rank(all, 0));
    while k < 28
        invariant
            k <= 28,
            all == pass_texts(ps@),
            pass_texts(out@) == below_rank(all, k as nat),
        decreases 28 - k,
    {
        let mut i: usize = 0;
        assert(all.subrange(0, 0) =~= Seq::<PassText>::empty());
        assert(below_rank(all, k as nat) + of_rank(all.subrange(0, 0), k as nat) =~= below_rank(all, k as nat));
        while i < ps.len()
            invariant
                i <= ps.len(),
                k < 28,
                all == pass_texts(ps@),
                pass_texts(out@) == below_rank(all, k as nat) + of_rank(all.subrange(0, i as int), k as nat),
            decreases ps.len() - i,
        {
            assert(all.subrange(0, i + 1).drop_last() =~= all.subrange(0, i as int));
            if rank_of(ps[i].name.as_str()) == k {
                let ghost before = out@;
                let c = copy_pass(&ps[i]);
                let ghost ct = c@;
                out.push(c);
                assert(pass_texts(out@) =~= pass_texts(before).push(ct));
                assert(pass_texts(out@) =~= below_rank(all, k as nat) + of_rank(all.subrange(0, i + 1), k as nat));
            }
            i = i + 1;
        }
        assert(all.subrange(0, ps@.len() as int) =~= all);
        k = k + 1;
    }
    out
}

// ---------------------------------------------------------------------------
// The manifest
// ---------------------------------------------------------------------------

/// Whether a list of tags holds a tag, case aside.
pub open spec fn has_tag(tags: Seq<Seq<char>>, tag: Seq<char>) -> bool {
    exists|i: int| 0 <= i < tags.len() && text::same_ignoring_case(#[trigger] tags[i], tag)
}

/// The tags of an export: trimmed, without empty ones and repetitions.
pub open spec fn own_tags(tags: Seq<Seq<char>>) -> Seq<Seq<char>>
    decreases tags.len(),
{
    if tags.len() == 0 {
        Seq::empty()
    } else {
        let before = own_tags(tags.drop_last());
        let t = text::trim(tags.last());
        if t.len() > 0 && !has_tag(before, t) {
            before.push(t)
        } else {
            before
        }
    }
}

/// The tags of the package: those of the export and the mark of an import.
pub open spec fn package_tags(tags: Seq<Seq<char>>) -> Seq<Seq<char>> {
    let own = own_tags(tags);
    if has_tag(own, "Imported"@) {
        own
    } else {
        own.push("Imported"@)
    }
}

/// Texts as TOML strings.
pub open spec fn all_quoted(v: Seq<Seq<char>>) -> Seq<Seq<char>> {
    Seq::new(v.len(), |i: int| quoted(v[i]))
}

/// The names of passes.
pub open spec fn names_of(ps: Seq<PassText>) -> Seq<Seq<char>> {
    Seq::new(ps.len(), |i: int| ps[i].name)
}

/// The part of the manifest on one pass.
pub open spec fn pass_section(p: PassText) -> Seq<char> {
    "[render_targets."@ + p.name + "]\nsource = "@ + quoted(p.source) + (if p.bindings.len() == 0 {
        "\nbindings = []\n\n"@
    } else {
        "\nbindings = [\n"@ + text::join(p.bindings, ",\n"@) + "\n]\n\n"@
    })
}

/// The parts of the manifest on the passes.
pub open spec fn pass_sections(ps: Seq<PassText>) -> Seq<char>
    decreases ps.len(),
{
    if ps.len() == 0 {
        Seq::empty()
    } else {
        pass_sections(ps.drop_last()) + pass_section(ps.last())
    }
}

/// The line with the page of the shader; nothing for an export without an id.
pub open spec fn source_line(id: Seq<char>) -> Seq<char> {
    if id.len() == 0 {
        Seq::empty()
    } else {
        "source_url = "@ + quoted("https://www.shadertoy.com/view/"@ + id) + "\n"@
    }
}

/// The part of the manifest on the wallpaper.
pub open spec fn wallpaper_section(info: StInfo, names: Seq<Seq<char>>) -> Seq<char> {
    "[wallpaper]\nname = "@ + quoted(shown_name(info.name@)) + "\nauthor = "@ + quoted(
        if info.username@.len() == 0 {
            "Shadertoy"@
        } else {
            info.username@
        },
    ) + "\nversion = \"1.0.0\"\n"@ + source_line(info.id@) + "tags = ["@ + text::join(
        all_quoted(package_tags(text::texts(info.tags@))),
        ", "@,
    ) + "]\npasses = ["@ + text::join(all_quoted(names), ", "@) + "]\n\n"@
}

/// The manifest of a package.
pub open spec fn manifest_of(info: StInfo, ps: Seq<PassText>) -> Seq<char> {
    wallpaper_section(info, names_of(ps)) + pass_sections(ps)
}

fn tag_in(tags: &Vec<String>, tag: &str) -> (r: bool)
    ensures
        r == has_tag(text::texts(tags@), tag@),
{
    let mut i: usize = 0;
    while i < tags.len()
        invariant
            i <= tags.len(),
            forall|j: int| 0 <= j < i ==> !text::same_ignoring_case(#[trigger] text::texts(tags@)[j], tag@),
        decreases tags.len() - i,
    {
        if eq_ignoring_case(tags[i].as_str(), tag) {
            assert(text::same_ignoring_case(text::texts(tags@)[i as int], tag@));
            return true;
        }
        i = i + 1;
    }
    false
}

/// The tags of the package.
fn collect_tags(tags: &Vec<String>) -> (r: Vec<String>)
    ensures
        text::texts(r@) == package_tags(text::texts(tags@)),
{
    let mut out: Vec<String> = Vec::new();
    let ghost all = text::texts(tags@);
    let mut i: usize = 0;
    assert(all.subrange(0, 0) =~= Seq::<Seq<char>>::empty());
    assert(text::texts(out@) =~= Seq::<Seq<char>>::empty());
    while i < tags.len()
        invariant
            i <= tags.len(),
            all == text::texts(tags@),
            text::texts(out@) == own_tags(all.subrange(0, i as int)),
        decreases tags.len() - i,
    {
        assert(all.subrange(0, i + 1).drop_last() =~= all.subrange(0, i as int));
        let t = trim_str(tags[i].as_str());
        if !t.as_str().is_empty() && !tag_in(&out, t.as_str()) {
            let ghost before = out@;
            let ghost tt = t@;
            out.push(t);
            assert(text::texts(out@) =~= text::texts(before).push(tt));
        }
        i = i + 1;
    }
    assert(all.subrange(0, tags@.len() as int) =~= all);
    if !tag_in(&out, "Imported") {
        let ghost before = out@;
        out.push("Imported".to_owned());
        assert(text::texts(out@) =~= text::texts(before).push("Imported"@));
    }
    out
}

fn quote_all(v: &Vec<String>) -> (r: Vec<String>)
    ensures
        text::texts(r@) == all_quoted(text::texts(v@)),
{
    let mut out: Vec<String> = Vec::new();
    let mut i: usize = 0;
    while i < v.len()
        invariant
            i <= v.len(),
            out@.len() == i,
            forall|j: int| 0 <= j < i ==> out@[j]@ == quoted(v@[j]@),
        decreases v.len() - i,
    {
        out.push(toml_str(v[i].as_str()));
        i = i + 1;
    }
    assert(text::texts(out@) =~= all_quoted(text::texts(v@)));
    out
}

fn pass_names(ps: &Vec<PassOut>) -> (r: Vec<String>)
    ensures
        text::texts(r@) == names_of(pass_texts(ps@)),
{
    let mut out: Vec<String> = Vec::new();
    let mut i: usize = 0;
    while i < ps.len()
        invariant
            i <= ps.len(),
            out@.len() == i,
            forall|j: int| 0 <= j < i ==> out@[j]@ == ps@[j].name@,
        decreases ps.len() - i,
    {
        out.push(ps[i].name.clone());
        i = i + 1;
    }
    assert(text::texts(out@) =~= names_of(pass_texts(ps@)));
    out
}

fn write_pass(p: &PassOut) -> (r: String)
    ensures
        r@ == pass_section(p@),
{
    let mut r = "[render_targets.".to_owned();
    r.append(p.name.as_str());
    r.append("]\nsource = ");
    r.append(toml_str(p.source.as_str()).as_str());
    if p.bindings.len() == 0 {
        r.append("\nbindings = []\n\n");
    } else {
        let mut b = "\nbindings = [\n".to_owned();
        b.append(join_strings(&p.bindings, ",\n").as_str());
        b.append("\n]\n\n");
        r.append(b.as_str());
    }
    r
}

/// The manifest of a package.
fn write_manifest(info: &StInfo, ps: &Vec<PassOut>) -> (r: String)
    ensures
        r@ == manifest_of(*info, pass_texts(ps@)),
{
    let mut r = "[wallpaper]\nname = ".to_owned();
    r.append(toml_str(display_name(info).as_str()).as_str());
    r.append("\nauthor = ");
    let author = if info.username.as_str().is_empty() { "Shadertoy" } else { info.username.as_str() };
    r.append(toml_str(author).as_str());
    r.append("\nversion = \"1.0.0\"\n");
    let mut line = String::new();
    if !info.id.as_str().is_empty() {
        let mut url = "https://www.shadertoy.com/view/".to_owned();
        url.append(info.id.as_str());
        line = "source_url = ".to_owned();
        line.append(toml_str(url.as_str()).as_str());
        line.append("\n");
    }
    assert(line@ =~= source_line(info.id@));
    r.append(line.as_str());
    r.append("tags = [");
    r.append(join_strings(&quote_all(&collect_tags(&info.tags)), ", ").as_str());
    r.append("]\npasses = [");
    r.append(join_strings(&quote_all(&pass_names(ps)), ", ").as_str());
    r.append("]\n\n");
    let ghost head = r@;
    assert(head == wallpaper_section(*info, names_of(pass_texts(ps@))));
    let ghost all = pass_texts(ps@);
    let mut i: usize = 0;
    assert(all.subrange(0, 0) =~= Seq::<PassText>::empty());
    assert(head + pass_sections(all.subrange(0, 0)) =~= head);
    while i < ps.len()
        invariant
            i <= ps.len(),
            all == pass_texts(ps@),
            r@ == head + pass_sections(all.subrange(0, i as int)),
        decreases ps.len() - i,
    {
        assert(all.subrange(0, i + 1).drop_last() =~= all.subrange(0, i as int));
        r.append(write_pass(&ps[i]).as_str());
        i = i + 1;
        assert(r@ =~= head + pass_sections(all.subrange(0, i as int)));
    }
    assert(all.subrange(0, ps@.len() as int) =~= all);
    r
}

// ---------------------------------------------------------------------------
// Cubemap channels
// ---------------------------------------------------------------------------

/// What stands behind the first `channel = ` of a binding, up to the next one.
pub open spec fn behind_channel(b: Seq<char>) -> Option<Seq<char>> {
    let mark = "channel = "@;
    if text::has_text(b, mark) {
        let i = choose|i: int| text::first_text(b, mark, i);
        let rest = b.subrange(i + mark.len(), b.len() as int);
        if text::has_text(rest, mark) {
            Some(rest.subrange(0, choose|j: int| text::first_text(rest, mark, j)))
        } else {
            Some(rest)
        }
    } else {
        None
    }
}

/// The digits at the start of a text.
pub open spec fn leading_digits(s: Seq<char>) -> Seq<char>
    decreases s.len(),
{
    if s.len() > 0 && text::is_digit(s[0]) {
        seq![s[0]] + leading_digits(s.subrange(1, s.len() as int))
    } else {
        Seq::empty()
    }
}

/// The first run of digits in a text.
pub open spec fn first_digits(s: Seq<char>) -> Seq<char>
    decreases s.len(),
{
    if s.len() == 0 || text::is_digit(s[0]) {
        leading_digits(s)
    } else {
        first_digits(s.subrange(1, s.len() as int))
    }
}

/// Whether a binding puts a cubemap on channel `ch`.
pub open spec fn binds_cube(b: Seq<char>, ch: nat) -> bool {
    &&& text::has_text(b, "type = \"cubemap\""@)
    &&& behind_channel(b) matches Some(rest) && text::number(first_digits(rest), usize::MAX as nat) == Some(ch)
}

/// Whether one of the bindings puts a cubemap on channel `ch`.
pub open spec fn some_cube(bindings: Seq<Seq<char>>, ch: nat) -> bool {
    exists|i: int| 0 <= i < bindings.len() && binds_cube(#[trigger] bindings[i], ch)
}

proof fn lemma_first_text_unique(s: Seq<char>, p: Seq<char>, a: int, b: int)
    requires
        text::first_text(s, p, a),
        text::first_text(s, p, b),
    ensures
        a == b,
{
    if a < b {
        assert(!text::text_at(s, p, a));
    }
    if b < a {
        assert(!text::text_at(s, p, b));
    }
}

fn digits_from(s: &Vec<char>) -> (r: Vec<char>)
    ensures
        r@ == first_digits(s@),
{
    let mut a: usize = 0;
    assert(s@.subrange(0, s@.len() as int) =~= s@);
    while a < s.len() && !char_is_digit(s[a])
        invariant
            a <= s.len(),
            first_digits(s@) == first_digits(s@.subrange(a as int, s@.len() as int)),
        decreases s.len() - a,
    {
        assert(s@.subrange(a as int, s@.len() as int).subrange(1, s@.len() - a) =~= s@.subrange(
            a + 1,
            s@.len() as int,
        ));
        a = a + 1;
    }
    let ghost run = s@.subrange(a as int, s@.len() as int);
    let mut out: Vec<char> = Vec::new();
    let mut b: usize = a;
    assert(out@ + leading_digits(run) =~= leading_digits(run));
    while b < s.len() && char_is_digit(s[b])
        invariant
            a <= b <= s.len(),
            out@ + leading_digits(s@.subrange(b as int, s@.len() as int)) == leading_digits(run),
        decreases s.len() - b,
    {
        let ghost before = out@;
        let ghost rest = s@.subrange(b as int, s@.len() as int);
        assert(rest.subrange(1, rest.len() as int) =~= s@.subrange(b + 1, s@.len() as int));
        out.push(s[b]);
        b = b + 1;
        assert(out@ + leading_digits(s@.subrange(b as int, s@.len() as int)) =~= before + leading_digits(rest));
    }
    assert(out@ + leading_digits(s@.subrange(b as int, s@.len() as int)) =~= out@);
    out
}

/// The channel on which a binding puts a cubemap.
fn cube_channel(binding: &str) -> (r: Option<usize>)
    ensures
        match r {
            Some(ch) => forall|n: nat| binds_cube(binding@, n) == (n == ch),
            None => forall|n: nat| !binds_cube(binding@, n),
        },
{
    if !str_contains(binding, "type = \"cubemap\"") {
        return None;
    }
    let b = chars_of(binding);
    let mark = chars_of("channel = ");
    match find_text(&b, &mark) {
        None => None,
        Some(i) => {
            proof {
                assert(text::text_at(b@, mark@, i as int));
                let w = choose|w: int| text::first_text(b@, mark@, w);
                lemma_first_text_unique(b@, mark@, w, i as int);
            }
            let end: usize = b.len();
            let rest = sub_chars(&b, i + mark.len(), end);
            let piece = match find_text(&rest, &mark) {
                Some(j) => {
                    proof {
                        assert(text::text_at(rest@, mark@, j as int));
                        let w = choose|w: int| text::first_text(rest@, mark@, w);
                        lemma_first_text_unique(rest@, mark@, w, j as int);
                    }
                    sub_chars(&rest, 0, j)
                },
                None => rest,
            };
            assert(behind_channel(binding@) == Some(piece@));
            let digits = digits_from(&piece);
            match parse_number(&digits, usize::MAX as u64) {
                Some(n) => Some(n as usize),
                None => None,
            }
        },
    }
}

/// Which of the four channels the bindings of a pass put a cubemap on.
pub fn cube_mask_from_bindings(bindings: &Vec<String>) -> (r: [bool; 4])
    ensures
        forall|ch: int| 0 <= ch < 4 ==> #[trigger] r@[ch] == some_cube(text::texts(bindings@), ch as nat),
{
    let mut m0: bool = false;
    let mut m1: bool = false;
    let mut m2: bool = false;
    let mut m3: bool = false;
    let ghost all = text::texts(bindings@);
    let mut i: usize = 0;
    while i < bindings.len()
        invariant
            i <= bindings.len(),
            all == text::texts(bindings@),
            m0 == some_cube(all.subrange(0, i as int), 0),
            m1 == some_cube(all.subrange(0, i as int), 1),
            m2 == some_cube(all.subrange(0, i as int), 2),
            m3 == some_cube(all.subrange(0, i as int), 3),
        decreases bindings.len() - i,
    {
        let c = cube_channel(bindings[i].as_str());
        proof {
            lemma_some_cube_step(all, i as int, 0);
            lemma_some_cube_step(all, i as int, 1);
            lemma_some_cube_step(all, i as int, 2);
            lemma_some_cube_step(all, i as int, 3);
        }
        match c {
            Some(ch) => {
                if ch == 0 {
                    m0 = true;
                } else if ch == 1 {
                    m1 = true;
                } else if ch == 2 {
                    m2 = true;
                } else if ch == 3 {
                    m3 = true;
                }
            },
            None => {},
        }
        i = i + 1;
    }
    assert(all.subrange(0, bindings@.len() as int) =~= all);
    let r = [m0, m1, m2, m3];
    assert(r@[0] == m0 && r@[1] == m1 && r@[2] == m2 && r@[3] == m3);
    r
}

proof fn lemma_some_cube_step(all: Seq<Seq<char>>, i: int, ch: nat)
    requires
        0 <= i < all.len(),
    ensures
        some_cube(all.subrange(0, i + 1), ch) == (some_cube(all.subrange(0, i), ch) || binds_cube(all[i], ch)),
{
    let a = all.subrange(0, i);
    let b = all.subrange(0, i + 1);
    if some_cube(a, ch) {
        let k = choose|k: int| 0 <= k < a.len() && binds_cube(#[trigger] a[k], ch);
        assert(b[k] == a[k]);
    }
    if binds_cube(all[i], ch) {
        assert(b[i] == all[i]);
    }
    if some_cube(b, ch) {
        let k = choose|k: int| 0 <= k < b.len() && binds_cube(#[trigger] b[k], ch);
        if k < i {
            assert(a[k] == b[k]);
        }
    }
}

// ---------------------------------------------------------------------------
// The conversion
// ---------------------------------------------------------------------------

/// A file of a package.
pub struct PackFile {
    pub name: String,
    pub contents: String,
}

/// A file of a package.
#[verifier::ext_equal]
pub struct FileText {
    pub name: Seq<char>,
    pub contents: Seq<char>,
}

impl View for PackFile {
    type V = FileText;

    open spec fn view(&self) -> FileText {
        FileText { name: self.name@, contents: self.contents@ }
    }
}

/// A pass whose source has to compile before the package is kept.
pub struct PassCheck {
    pub pass: String,
    pub source: String,
    pub map: SourceMap,
}

/// A package: the files in the order in which they are written, the sources that
/// have to compile, and what is reported when they do.
pub struct ImportPlan {
    pub files: Vec<PackFile>,
    pub checks: Vec<PassCheck>,
    pub report: ImportReport,
}

/// The files of a list.
pub open spec fn file_texts(v: Seq<PackFile>) -> Seq<FileText> {
    Seq::new(v.len(), |i: int| v[i]@)
}

/// The source that all passes share: that of the last common pass.
pub open spec fn common_of(passes: Seq<StPass>) -> Option<Seq<char>>
    decreases passes.len(),
{
    if passes.len() == 0 {
        None
    } else if passes.last().ptype@ == "common"@ {
        Some(passes.last().code@)
    } else {
        common_of(passes.drop_last())
    }
}

/// The source files of the rendered passes, in the order of the export.
pub open spec fn pass_files(passes: Seq<StPass>) -> Seq<FileText>
    decreases passes.len(),
{
    if passes.len() == 0 {
        Seq::empty()
    } else {
        let before = pass_files(passes.drop_last());
        let p = passes.last();
        match target_of(p.ptype@, p.name@) {
            Some(name) if p.ptype@ != "common"@ => before.push(
                FileText { name: name + ".glsl"@, contents: patched_from(p.code@, 0) },
            ),
            _ => before,
        }
    }
}

/// The files of a package.
pub open spec fn package_files(export: StExport, ordered: Seq<PassText>) -> Seq<FileText> {
    (match common_of(export.renderpass@) {
        Some(c) => seq![FileText { name: "common.glsl"@, contents: patched_from(c, 0) }],
        None => Seq::empty(),
    }) + pass_files(export.renderpass@) + seq![
        FileText { name: "manifest.toml"@, contents: manifest_of(export.info, ordered) },
    ]
}

/// What a file holds after all files have been written: a later file replaces an
/// earlier one of the same name.
pub open spec fn read_back(files: Seq<FileText>, name: Seq<char>) -> Option<Seq<char>>
    decreases files.len(),
{
    if files.len() == 0 {
        None
    } else if files.last().name == name {
        Some(files.last().contents)
    } else {
        read_back(files.drop_last(), name)
    }
}

/// Whether a list of passes has an image pass.
pub open spec fn has_image(passes: Seq<StPass>) -> bool {
    exists|i: int| 0 <= i < passes.len() && (#[trigger] passes[i]).ptype@ == "image"@
}

/// Why an export cannot be converted; nothing where it can.
pub open spec fn import_error(export: StExport, assets: Seq<Seq<char>>) -> Option<Seq<char>> {
    let passes = export.renderpass@;
    if passes.len() == 0 {
        Some("Shadertoy export has no render passes"@)
    } else if !has_image(passes) {
        Some("Shadertoy export has no Image pass"@)
    } else {
        match passes_of(passes, passes, assets) {
            Err(e) => Some(e),
            Ok(_) => None,
        }
    }
}

/// The passes of the package, in the order of the manifest.
pub open spec fn package_passes(export: StExport, assets: Seq<Seq<char>>) -> Seq<PassText> {
    match passes_of(export.renderpass@, export.renderpass@, assets) {
        Ok((outs, _)) => in_order(outs),
        Err(_) => Seq::empty(),
    }
}

/// The notes to the user.
pub open spec fn package_notes(export: StExport, assets: Seq<Seq<char>>) -> Seq<Seq<char>> {
    match passes_of(export.renderpass@, export.renderpass@, assets) {
        Ok((_, notes)) => notes,
        Err(_) => Seq::empty(),
    }
}

/// The channels of a pass that sample a cubemap.
pub open spec fn cube_flags(bindings: Seq<Seq<char>>) -> Seq<bool> {
    Seq::new(4, |ch: int| some_cube(bindings, ch as nat))
}

/// Whether a check compiles the source of the pass `p` as it was written.
pub open spec fn checks_pass(c: PassCheck, p: PassText, files: Seq<FileText>, common: Option<Seq<char>>) -> bool {
    let cube = cube_flags(p.bindings);
    &&& c.pass@ == p.name
    &&& read_back(files, p.source) matches Some(glsl) && {
        &&& c.source@ == preprocessor::prelude(common, cube) + preprocessor::stripped(glsl) + preprocessor::entry(
            ShaderStage::Fragment,
            p.name == "image"@,
        )
        &&& c.map.header_newlines == preprocessor::newlines(preprocessor::header(cube))
        &&& c.map.prelude_newlines == preprocessor::newlines(preprocessor::prelude(common, cube))
        &&& c.map.body_lines == preprocessor::newlines(preprocessor::stripped(glsl))
        &&& c.map.has_common == (common matches Some(s) && preprocessor::stripped(s).len() > 0)
    }
}

/// The common source as it is written.
pub open spec fn written_common(passes: Seq<StPass>) -> Option<Seq<char>> {
    match common_of(passes) {
        Some(c) => Some(patched_from(c, 0)),
        None => None,
    }
}

/// Whether a plan is the package of an export.
pub open spec fn is_package(plan: ImportPlan, export: StExport, assets: Seq<Seq<char>>) -> bool {
    let ordered = package_passes(export, assets);
    &&& file_texts(plan.files@) == package_files(export, ordered)
    &&& plan.report.name@ == shown_name(export.info.name@)
    &&& text::texts(plan.report.warnings@) == package_notes(export, assets)
    &&& plan.checks@.len() == ordered.len()
    &&& forall|i: int|
        0 <= i < ordered.len() ==> checks_pass(
            #[trigger] plan.checks@[i],
            ordered[i],
            package_files(export, ordered),
            written_common(export.renderpass@),
        )
}

fn find_common(passes: &Vec<StPass>) -> (r: Option<String>)
    ensures
        match r {
            Some(c) => common_of(passes@) == Some(c@),
            None => common_of(passes@) is None,
        },
{
    let mut i: usize = passes.len();
    assert(passes@.subrange(0, passes@.len() as int) =~= passes@);
    while i > 0
        invariant
            i <= passes.len(),
            common_of(passes@) == common_of(passes@.subrange(0, i as int)),
        decreases i,
    {
        assert(passes@.subrange(0, i as int).drop_last() =~= passes@.subrange(0, i - 1));
        if str_eq(passes[i - 1].ptype.as_str(), "common") {
            return Some(passes[i - 1].code.clone());
        }
        i = i - 1;
    }
    None
}

fn any_image(passes: &Vec<StPass>) -> (r: bool)
    ensures
        r == has_image(passes@),
{
    let mut i: usize = 0;
    while i < passes.len()
        invariant
            i <= passes.len(),
            forall|j: int| 0 <= j < i ==> (#[trigger] passes@[j]).ptype@ != "image"@,
        decreases passes.len() - i,
    {
        if str_eq(passes[i].ptype.as_str(), "image") {
            return true;
        }
        i = i + 1;
    }
    false
}

/// Appends the source files of the rendered passes.
fn push_pass_files(files: &mut Vec<PackFile>, passes: &Vec<StPass>)
    ensures
        file_texts(final(files)@) == file_texts(old(files)@) + pass_files(passes@),
{
    let ghost start = file_texts(files@);
    let mut i: usize = 0;
    assert(passes@.subrange(0, 0) =~= Seq::<StPass>::empty());
    assert(start + pass_files(passes@.subrange(0, 0)) =~= start);
    while i < passes.len()
        invariant
            i <= passes.len(),
            file_texts(files@) == start + pass_files(passes@.subrange(0, i as int)),
        decreases passes.len() - i,
    {
        assert(passes@.subrange(0, i + 1).drop_last() =~= passes@.subrange(0, i as int));
        let p = &passes[i];
        if !str_eq(p.ptype.as_str(), "common") {
            match pass_target(p.ptype.as_str(), p.name.as_str()) {
                Some((_, source)) => {
                    let ghost before = files@;
                    let f = PackFile { name: source, contents: patch_naga_mat2(p.code.as_str()) };
                    let ghost ft = f@;
                    files.push(f);
                    assert(file_texts(files@) =~= file_texts(before).push(ft));
                    assert(file_texts(files@) =~= start + pass_files(passes@.subrange(0, i + 1)));
                },
                None => {},
            }
        }
        i = i + 1;
    }
    assert(passes@.subrange(0, passes@.len() as int) =~= passes@);
}

fn written(files: &Vec<PackFile>, name: &str) -> (r: Option<String>)
    ensures
        match r {
            Some(c) => read_back(file_texts(files@), name@) == Some(c@),
            None => read_back(file_texts(files@), name@) is None,
        },
{
    let ghost all = file_texts(files@);
    let mut i: usize = files.len();
    assert(all.subrange(0, all.len() as int) =~= all);
    while i > 0
        invariant
            i <= files.len(),
            all == file_texts(files@),
            read_back(all, name@) == read_back(all.subrange(0, i as int), name@),
        decreases i,
    {
        assert(all.subrange(0, i as int).drop_last() =~= all.subrange(0, i - 1));
        if str_eq(files[i - 1].name.as_str(), name) {
            return Some(files[i - 1].contents.clone());
        }
        i = i - 1;
    }
    None
}

proof fn lemma_read_back_prefix(a: Seq<FileText>, b: Seq<FileText>, name: Seq<char>)
    ensures
        read_back(a, name) is Some ==> read_back(a + b, name) is Some,
    decreases b.len(),
{
    if b.len() == 0 {
        assert(a + b =~= a);
    } else {
        assert((a + b).drop_last() =~= a + b.drop_last());
        lemma_read_back_prefix(a, b.drop_last(), name);
    }
}

proof fn lemma_read_back_suffix(a: Seq<FileText>, b: Seq<FileText>, name: Seq<char>)
    ensures
        read_back(b, name) is Some ==> read_back(a + b, name) is Some,
    decreases b.len(),
{
    if b.len() > 0 {
        assert((a + b).drop_last() =~= a + b.drop_last());
        assert((a + b).last() == b.last());
        lemma_read_back_suffix(a, b.drop_last(), name);
    }
}

/// The file of every pass is among the written ones.
proof fn lemma_pass_has_file(todo: Seq<StPass>, all: Seq<StPass>, assets: Seq<Seq<char>>, i: int)
    requires
        passes_of(todo, all, assets) is Ok,
        0 <= i < passes_of(todo, all, assets)->Ok_0.0.len(),
    ensures
        read_back(pass_files(todo), passes_of(todo, all, assets)->Ok_0.0[i].source) is Some,
    decreases todo.len(),
{
    let d = todo.drop_last();
    let outs = passes_of(todo, all, assets)->Ok_0.0;
    let before = passes_of(d, all, assets)->Ok_0.0;
    let files = pass_files(todo);
    if i < before.len() {
        lemma_pass_has_file(d, all, assets, i);
        assert(outs[i] == before[i]);
        if files.len() == pass_files(d).len() + 1 {
            assert(files.drop_last() =~= pass_files(d));
        }
    } else {
        assert(files.last().name == outs[i].source);
    }
}

proof fn lemma_of_rank_member(ps: Seq<PassText>, r: nat, i: int)
    requires
        0 <= i < of_rank(ps, r).len(),
    ensures
        exists|j: int| 0 <= j < ps.len() && ps[j] == of_rank(ps, r)[i],
        rank(of_rank(ps, r)[i].name) == r,
    decreases ps.len(),
{
    let d = ps.drop_last();
    let before = of_rank(d, r);
    if i < before.len() {
        lemma_of_rank_member(d, r, i);
        assert(of_rank(ps, r)[i] == before[i]);
        let j = choose|j: int| 0 <= j < d.len() && d[j] == before[i];
        assert(ps[j] == before[i]);
    } else {
        assert(ps[ps.len() - 1] == of_rank(ps, r)[i]);
    }
}

proof fn lemma_below_rank_member(ps: Seq<PassText>, r: nat, i: int)
    requires
        0 <= i < below_rank(ps, r).len(),
    ensures
        exists|j: int| 0 <= j < ps.len() && ps[j] == below_rank(ps, r)[i],
        rank(below_rank(ps, r)[i].name) < r,
    decreases r,
{
    let low = below_rank(ps, (r - 1) as nat);
    if i < low.len() {
        lemma_below_rank_member(ps, (r - 1) as nat, i);
        assert(below_rank(ps, r)[i] == low[i]);
    } else {
        lemma_of_rank_member(ps, (r - 1) as nat, i - low.len());
    }
}

/// The sources that have to compile.
fn plan_checks(ps: &Vec<PassOut>, files: &Vec<PackFile>, common: &Option<String>) -> (r: Vec<PassCheck>)
    requires
        forall|i: int|
            0 <= i < ps@.len() ==> read_back(file_texts(files@), (#[trigger] ps@[i])@.source) is Some,
    ensures
        r@.len() == ps@.len(),
        forall|i: int|
            0 <= i < ps@.len() ==> checks_pass(
                #[trigger] r@[i],
                ps@[i]@,
                file_texts(files@),
                match common {
                    Some(c) => Some(c@),
                    None => None,
                },
            ),
{
    let ghost shared: Option<Seq<char>> = match common {
        Some(c) => Some(c@),
        None => None,
    };
    let mut out: Vec<PassCheck> = Vec::new();
    let mut i: usize = 0;
    while i < ps.len()
        invariant
            i <= ps.len(),
            out@.len() == i,
            shared == (match common {
                Some(c) => Some(c@),
                None => None,
            }),
            forall|j: int|
                0 <= j < ps@.len() ==> read_back(file_texts(files@), (#[trigger] ps@[j])@.source) is Some,
            forall|j: int|
                0 <= j < i ==> checks_pass(#[trigger] out@[j], ps@[j]@, file_texts(files@), shared),
        decreases ps.len() - i,
    {
        let p = &ps[i];
        assert(read_back(file_texts(files@), ps@[i as int]@.source) is Some);
        match written(files, p.source.as_str()) {
            Some(glsl) => {
                let cube = cube_mask_from_bindings(&p.bindings);
                assert(cube@ =~= cube_flags(p@.bindings));
                let shared_text: Option<&str> = match common {
                    Some(c) => Some(c.as_str()),
                    None => None,
                };
                let (source, map) = preprocess_shader(
                    glsl.as_str(),
                    shared_text,
                    ShaderStage::Fragment,
                    str_eq(p.name.as_str(), "image"),
                    cube,
                );
                assert(preprocessor::option_text(shared_text) == shared);
                out.push(PassCheck { pass: p.name.clone(), source, map });
            },
            None => {
                assert(false);
            },
        }
        i = i + 1;
    }
    out
}

/// The package of a Shadertoy export, whose textures and cubemaps are looked up
/// in `assets`; an error where the export has no image pass, or where an asset is
/// missing.
pub fn convert_shadertoy(export: &StExport, assets: &Vec<String>) -> (r: Result<ImportPlan, String>)
    ensures
        match r {
            Ok(plan) => import_error(*export, text::texts(assets@)) is None && is_package(
                plan,
                *export,
                text::texts(assets@),
            ),
            Err(e) => import_error(*export, text::texts(assets@)) == Some(e@),
        },
{
    let ghost known = text::texts(assets@);
    if export.renderpass.len() == 0 {
        return Err("Shadertoy export has no render passes".to_owned());
    }
    if !any_image(&export.renderpass) {
        return Err("Shadertoy export has no Image pass".to_owned());
    }
    let (outs, warnings) = match convert_passes(&export.renderpass, assets) {
        Ok(p) => p,
        Err(e) => {
            return Err(e);
        },
    };
    let ordered = order_passes(&outs);
    assert(pass_texts(ordered@) == package_passes(*export, known));
    let common = match find_common(&export.renderpass) {
        Some(c) => Some(patch_naga_mat2(c.as_str())),
        None => None,
    };
    let mut files: Vec<PackFile> = Vec::new();
    match &common {
        Some(c) => {
            files.push(PackFile { name: "common.glsl".to_owned(), contents: c.clone() });
            assert(file_texts(files@) =~= seq![FileText { name: "common.glsl"@, contents: c@ }]);
        },
        None => {
            assert(file_texts(files@) =~= Seq::<FileText>::empty());
        },
    }
    let ghost first = file_texts(files@);
    push_pass_files(&mut files, &export.renderpass);
    let ghost second = files@;
    files.push(
        PackFile { name: "manifest.toml".to_owned(), contents: write_manifest(&export.info, &ordered) },
    );
    let ghost last = FileText { name: "manifest.toml"@, contents: manifest_of(export.info, pass_texts(ordered@)) };
    assert(file_texts(files@) =~= file_texts(second) + seq![last]);
    assert(file_texts(files@) == package_files(*export, pass_texts(ordered@)));
    proof {
        let got = pass_texts(outs@);
        let ghost own = pass_files(export.renderpass@);
        assert forall|i: int| 0 <= i < ordered@.len() implies read_back(
            file_texts(files@),
            (#[trigger] ordered@[i])@.source,
        ) is Some by {
            assert(pass_texts(ordered@)[i] == ordered@[i]@);
            lemma_below_rank_member(got, 28, i);
            let j = choose|j: int| 0 <= j < got.len() && got[j] == in_order(got)[i];
            lemma_pass_has_file(export.renderpass@, export.renderpass@, known, j);
            lemma_read_back_suffix(first, own, got[j].source);
            lemma_read_back_prefix(first + own, seq![last], got[j].source);
        }
    }
    let checks = plan_checks(&ordered, &files, &common);
    proof {
        assert forall|i: int| 0 <= i < ordered@.len() implies checks_pass(
            #[trigger] checks@[i],
            pass_texts(ordered@)[i],
            file_texts(files@),
            written_common(export.renderpass@),
        ) by {
            assert(pass_texts(ordered@)[i] == ordered@[i]@);
        }
    }
    let report = ImportReport { name: display_name(&export.info), warnings };
    Ok(ImportPlan { files, checks, report })
}

/// The message for a pass that did not compile.
pub fn compile_failure(pass: &str, error: &str) -> (r: String)
    ensures
        r@ == "Pass '"@ + pass@ + "' failed to compile on the wgpu backend:\n"@ + error@,
{
    let mut r = "Pass '".to_owned();
    r.append(pass);
    r.append("' failed to compile on the wgpu backend:\n");
    r.append(error);
    r
}

// ---------------------------------------------------------------------------
// The assets an export asks for
// ---------------------------------------------------------------------------

/// The faces 1 to `n` of a cubemap.
pub open spec fn face_names(base: Seq<char>, n: nat) -> Seq<Seq<char>>
    decreases n,
{
    if n == 0 {
        Seq::empty()
    } else {
        face_names(base, (n - 1) as nat).push(face_of(base, n))
    }
}

/// The assets that one input may need.
pub open spec fn input_assets(inp: StInput) -> Seq<Seq<char>> {
    if inp.channel >= 4 {
        Seq::empty()
    } else if inp.itype@ == "texture"@ {
        match base_of(inp.filepath@) {
            Some(base) => seq![base],
            None => Seq::empty(),
        }
    } else if inp.itype@ == "cubemap"@ {
        match base_of(inp.filepath@) {
            Some(base) if text::last_index(base, '.') >= 0 => seq![base] + face_names(base, 5),
            _ => Seq::empty(),
        }
    } else {
        Seq::empty()
    }
}

/// The assets that a list of inputs may need.
pub open spec fn inputs_assets(inputs: Seq<StInput>) -> Seq<Seq<char>>
    decreases inputs.len(),
{
    if inputs.len() == 0 {
        Seq::empty()
    } else {
        inputs_assets(inputs.drop_last()) + input_assets(inputs.last())
    }
}

/// The assets that the rendered passes may need.
pub open spec fn passes_assets(passes: Seq<StPass>) -> Seq<Seq<char>>
    decreases passes.len(),
{
    if passes.len() == 0 {
        Seq::empty()
    } else {
        let before = passes_assets(passes.drop_last());
        let p = passes.last();
        if target_of(p.ptype@, p.name@) is Some && p.ptype@ != "common"@ {
            before + inputs_assets(p.inputs@)
        } else {
            before
        }
    }
}

fn push_input_assets(out: &mut Vec<String>, inp: &StInput)
    ensures
        text::texts(final(out)@) == text::texts(old(out)@) + input_assets(*inp),
{
    let ghost start = text::texts(out@);
    let texture = str_eq(inp.itype.as_str(), "texture");
    let cubemap = !texture && str_eq(inp.itype.as_str(), "cubemap");
    assert(start + Seq::<Seq<char>>::empty() =~= start);
    if inp.channel >= 4 || !(texture || cubemap) {
        return;
    }
    match basename(inp.filepath.as_str()) {
        Some(base) => {
            let b = chars_of(base.as_str());
            if texture {
                out.push(base);
                assert(text::texts(out@) =~= start + seq![b@]);
                return;
            }
            match rfind_char(&b, '.') {
                Some(dot) => {
                    out.push(base);
                    assert(text::texts(out@) =~= start + (seq![b@] + face_names(b@, 0)));
                    let mut f: u64 = 1;
                    while f <= 5
                        invariant
                            1 <= f <= 6,
                            dot < b@.len(),
                            dot == text::last_index(b@, '.'),
                            text::texts(out@) == start + (seq![b@] + face_names(b@, (f - 1) as nat)),
                        decreases 6 - f,
                    {
                        let ghost before = out@;
                        let face = face_name(&b, dot, f);
                        let ghost ft = face@;
                        out.push(face);
                        assert(text::texts(out@) =~= text::texts(before).push(ft));
                        f = f + 1;
                        assert(text::texts(out@) =~= start + (seq![b@] + face_names(b@, (f - 1) as nat)));
                    }
                },
                None => {},
            }
        },
        None => {},
    }
}

/// The file names of the shared assets that the conversion of an export looks up.
pub fn required_assets(export: &StExport) -> (r: Vec<String>)
    ensures
        text::texts(r@) == passes_assets(export.renderpass@),
{
    let passes = &export.renderpass;
    let mut out: Vec<String> = Vec::new();
    let mut i: usize = 0;
    assert(passes@.subrange(0, 0) =~= Seq::<StPass>::empty());
    assert(text::texts(out@) =~= Seq::<Seq<char>>::empty());
    while i < passes.len()
        invariant
            i <= passes.len(),
            text::texts(out@) == passes_assets(passes@.subrange(0, i as int)),
        decreases passes.len() - i,
    {
        assert(passes@.subrange(0, i + 1).drop_last() =~= passes@.subrange(0, i as int));
        let p = &passes[i];
        if !str_eq(p.ptype.as_str(), "common") && pass_target(p.ptype.as_str(), p.name.as_str()).is_some() {
            let ghost start = text::texts(out@);
            let mut k: usize = 0;
            assert(p.inputs@.subrange(0, 0) =~= Seq::<StInput>::empty());
            assert(start + inputs_assets(p.inputs@.subrange(0, 0)) =~= start);
            while k < p.inputs.len()
                invariant
                    k <= p.inputs.len(),
                    text::texts(out@) == start + inputs_assets(p.inputs@.subrange(0, k as int)),
                decreases p.inputs.len() - k,
            {
                assert(p.inputs@.subrange(0, k + 1).drop_last() =~= p.inputs@.subrange(0, k as int));
                push_input_assets(&mut out, &p.inputs[k]);
                k = k + 1;
                assert(text::texts(out@) =~= start + inputs_assets(p.inputs@.subrange(0, k as int)));
            }
            assert(p.inputs@.subrange(0, p.inputs@.len() as int) =~= p.inputs@);
        }
        i = i + 1;
    }
    assert(passes@.subrange(0, passes@.len() as int) =~= passes@);
    out
}

// ---------------------------------------------------------------------------
// Laws
// ---------------------------------------------------------------------------

/// Whether two lists of assets agree on the given names.
pub open spec fn agree_on(a: Seq<Seq<char>>, b: Seq<Seq<char>>, names: Seq<Seq<char>>) -> bool {
    forall|i: int| 0 <= i < names.len() ==> a.contains(#[trigger] names[i]) == b.contains(names[i])
}

proof fn lemma_faces(base: Seq<char>, n: nat, f: nat)
    requires
        1 <= f <= n,
    ensures
        face_names(base, n).len() == n,
        face_names(base, n)[f - 1] == face_of(base, f),
    decreases n,
{
    if f < n {
        lemma_faces(base, (n - 1) as nat, f);
    } else if n > 1 {
        lemma_faces(base, (n - 1) as nat, 1);
    } else {
        assert(face_names(base, 0).len() == 0);
    }
}

proof fn lemma_missing_face_agrees(base: Seq<char>, a: Seq<Seq<char>>, b: Seq<Seq<char>>, f: nat)
    requires
        1 <= f,
        agree_on(a, b, seq![base] + face_names(base, 5)),
    ensures
        missing_face(base, a, f) == missing_face(base, b, f),
    decreases 6 - f,
{
    if f <= 5 {
        lemma_faces(base, 5, f);
        assert((seq![base] + face_names(base, 5))[f as int] == face_of(base, f));
        lemma_missing_face_agrees(base, a, b, f + 1);
    }
}

proof fn lemma_input_agrees(
    pass: Seq<char>,
    inp: StInput,
    passes: Seq<StPass>,
    a: Seq<Seq<char>>,
    b: Seq<Seq<char>>,
)
    requires
        agree_on(a, b, input_assets(inp)),
    ensures
        input_of(pass, inp, passes, a) == input_of(pass, inp, passes, b),
{
    if inp.channel < 4 && (inp.itype@ == "texture"@ || inp.itype@ == "cubemap"@) {
        match base_of(inp.filepath@) {
            Some(base) => {
                if inp.itype@ == "texture"@ {
                    assert(input_assets(inp)[0] == base);
                } else if text::last_index(base, '.') >= 0 {
                    assert(input_assets(inp)[0] == base);
                    lemma_missing_face_agrees(base, a, b, 1);
                }
            },
            None => {},
        }
    }
}

proof fn lemma_agree_parts(a: Seq<Seq<char>>, b: Seq<Seq<char>>, x: Seq<Seq<char>>, y: Seq<Seq<char>>)
    requires
        agree_on(a, b, x + y),
    ensures
        agree_on(a, b, x),
        agree_on(a, b, y),
{
    assert forall|i: int| 0 <= i < x.len() implies a.contains(#[trigger] x[i]) == b.contains(x[i]) by {
        assert((x + y)[i] == x[i]);
    }
    assert forall|i: int| 0 <= i < y.len() implies a.contains(#[trigger] y[i]) == b.contains(y[i]) by {
        assert((x + y)[x.len() + i] == y[i]);
    }
}

proof fn lemma_inputs_agree(
    pass: Seq<char>,
    inputs: Seq<StInput>,
    passes: Seq<StPass>,
    a: Seq<Seq<char>>,
    b: Seq<Seq<char>>,
)
    requires
        agree_on(a, b, inputs_assets(inputs)),
    ensures
        inputs_of(pass, inputs, passes, a) == inputs_of(pass, inputs, passes, b),
    decreases inputs.len(),
{
    if inputs.len() > 0 {
        lemma_agree_parts(a, b, inputs_assets(inputs.drop_last()), input_assets(inputs.last()));
        lemma_inputs_agree(pass, inputs.drop_last(), passes, a, b);
        lemma_input_agrees(pass, inputs.last(), passes, a, b);
    }
}

proof fn lemma_passes_agree(todo: Seq<StPass>, all: Seq<StPass>, a: Seq<Seq<char>>, b: Seq<Seq<char>>)
    requires
        agree_on(a, b, passes_assets(todo)),
    ensures
        passes_of(todo, all, a) == passes_of(todo, all, b),
    decreases todo.len(),
{
    if todo.len() > 0 {
        let p = todo.last();
        if target_of(p.ptype@, p.name@) is Some && p.ptype@ != "common"@ {
            lemma_agree_parts(a, b, passes_assets(todo.drop_last()), inputs_assets(p.inputs@));
            lemma_inputs_agree(target_of(p.ptype@, p.name@)->0, p.inputs@, all, a, b);
        }
        lemma_passes_agree(todo.drop_last(), all, a, b);
    }
}

/// A conversion looks at no asset beyond those that `required_assets` names: two
/// lists of assets that agree on these names give the same package.
pub proof fn law_only_required_assets_matter(export: StExport, a: Seq<Seq<char>>, b: Seq<Seq<char>>)
    requires
        agree_on(a, b, passes_assets(export.renderpass@)),
    ensures
        import_error(export, a) == import_error(export, b),
        package_passes(export, a) == package_passes(export, b),
        package_notes(export, a) == package_notes(export, b),
{
    lemma_passes_agree(export.renderpass@, export.renderpass@, a, b);
}

/// No tag is listed twice, case aside, and the mark of an import is among them.
pub proof fn law_tags_are_distinct(tags: Seq<Seq<char>>)
    ensures
        has_tag(package_tags(tags), "Imported"@),
        forall|i: int, j: int|
            0 <= i < j < package_tags(tags).len() ==> !text::same_ignoring_case(
                #[trigger] package_tags(tags)[i],
                #[trigger] package_tags(tags)[j],
            ),
{
    lemma_own_tags_distinct(tags);
    let own = own_tags(tags);
    let all = package_tags(tags);
    if !has_tag(own, "Imported"@) {
        assert(all[own.len() as int] == "Imported"@);
        assert forall|i: int, j: int| 0 <= i < j < all.len() implies !text::same_ignoring_case(
            #[trigger] all[i],
            #[trigger] all[j],
        ) by {
            assert(all[i] == own[i]);
            if j < own.len() {
                assert(all[j] == own[j]);
            }
        }
    }
}

proof fn lemma_own_tags_distinct(tags: Seq<Seq<char>>)
    ensures
        forall|i: int, j: int|
            0 <= i < j < own_tags(tags).len() ==> !text::same_ignoring_case(
                #[trigger] own_tags(tags)[i],
                #[trigger] own_tags(tags)[j],
            ),
    decreases tags.len(),
{
    if tags.len() > 0 {
        lemma_own_tags_distinct(tags.drop_last());
        let before = own_tags(tags.drop_last());
        let all = own_tags(tags);
        assert forall|i: int, j: int| 0 <= i < j < all.len() implies !text::same_ignoring_case(
            #[trigger] all[i],
            #[trigger] all[j],
        ) by {
            assert(all[i] == before[i]);
            if j < before.len() {
                assert(all[j] == before[j]);
            }
        }
    }
}

proof fn lemma_of_rank_covers(ps: Seq<PassText>, j: int)
    requires
        0 <= j < ps.len(),
    ensures
        of_rank(ps, rank(ps[j].name)).contains(ps[j]),
    decreases ps.len(),
{
    let r = rank(ps[j].name);
    let all = of_rank(ps, r);
    if j == ps.len() - 1 {
        assert(all[all.len() - 1] == ps[j]);
    } else {
        let d = ps.drop_last();
        lemma_of_rank_covers(d, j);
        assert(d[j] == ps[j]);
        let k = choose|k: int| 0 <= k < of_rank(d, r).len() && of_rank(d, r)[k] == ps[j];
        assert(all[k] == ps[j]);
    }
}

proof fn lemma_below_rank_covers(ps: Seq<PassText>, r: nat, j: int)
    requires
        0 <= j < ps.len(),
        rank(ps[j].name) < r,
    ensures
        below_rank(ps, r).contains(ps[j]),
    decreases r,
{
    let low = below_rank(ps, (r - 1) as nat);
    let top = of_rank(ps, (r - 1) as nat);
    if rank(ps[j].name) == r - 1 {
        lemma_of_rank_covers(ps, j);
        let k = choose|k: int| 0 <= k < top.len() && top[k] == ps[j];
        assert(below_rank(ps, r)[low.len() + k] == ps[j]);
    } else {
        lemma_below_rank_covers(ps, (r - 1) as nat, j);
        let k = choose|k: int| 0 <= k < low.len() && low[k] == ps[j];
        assert(below_rank(ps, r)[k] == ps[j]);
    }
}

proof fn lemma_below_rank_sorted(ps: Seq<PassText>, r: nat, i: int, j: int)
    requires
        0 <= i <= j < below_rank(ps, r).len(),
    ensures
        rank(below_rank(ps, r)[i].name) <= rank(below_rank(ps, r)[j].name),
    decreases r,
{
    let low = below_rank(ps, (r - 1) as nat);
    if j < low.len() {
        lemma_below_rank_sorted(ps, (r - 1) as nat, i, j);
    } else {
        lemma_of_rank_member(ps, (r - 1) as nat, j - low.len());
        if i < low.len() {
            lemma_below_rank_member(ps, (r - 1) as nat, i);
        } else {
            lemma_of_rank_member(ps, (r - 1) as nat, i - low.len());
        }
    }
}

/// The manifest lists every pass, the buffers by their letter and the image behind
/// them all.
pub proof fn law_image_comes_last(ps: Seq<PassText>)
    ensures
        forall|p: PassText| ps.contains(p) <==> #[trigger] in_order(ps).contains(p),
        forall|i: int, j: int|
            0 <= i <= j < in_order(ps).len() ==> rank((#[trigger] in_order(ps)[i]).name) <= rank(
                (#[trigger] in_order(ps)[j]).name,
            ),
        (exists|i: int| 0 <= i < ps.len() && (#[trigger] ps[i]).name == "image"@) ==> in_order(ps).len() > 0
            && in_order(ps).last().name == "image"@,
{
    let all = in_order(ps);
    assert forall|p: PassText| ps.contains(p) <==> #[trigger] all.contains(p) by {
        if ps.contains(p) {
            let j = choose|j: int| 0 <= j < ps.len() && ps[j] == p;
            lemma_below_rank_covers(ps, 28, j);
        }
        if all.contains(p) {
            let i = choose|i: int| 0 <= i < all.len() && all[i] == p;
            lemma_below_rank_member(ps, 28, i);
            let j = choose|j: int| 0 <= j < ps.len() && ps[j] == all[i];
            assert(ps.contains(p));
        }
    }
    assert forall|i: int, j: int| 0 <= i <= j < all.len() implies rank((#[trigger] all[i]).name) <= rank(
        (#[trigger] all[j]).name,
    ) by {
        lemma_below_rank_sorted(ps, 28, i, j);
    }
    if exists|i: int| 0 <= i < ps.len() && (#[trigger] ps[i]).name == "image"@ {
        let i = choose|i: int| 0 <= i < ps.len() && (#[trigger] ps[i]).name == "image"@;
        lemma_below_rank_covers(ps, 28, i);
        let k = choose|k: int| 0 <= k < all.len() && all[k] == ps[i];
        lemma_below_rank_sorted(ps, 28, k, all.len() - 1);
        lemma_below_rank_member(ps, 28, all.len() - 1);
    }
}

/// A pass that a buffer input is bound to is a pass of the package.
pub proof fn law_buffers_are_passes(
    todo: Seq<StPass>,
    all: Seq<StPass>,
    assets: Seq<Seq<char>>,
    key: Seq<char>,
)
    requires
        passes_of(todo, all, assets) is Ok,
        buffer_of(todo, key) is Some,
    ensures
        exists|i: int|
            0 <= i < passes_of(todo, all, assets)->Ok_0.0.len() && (#[trigger] passes_of(
                todo,
                all,
                assets,
            )->Ok_0.0[i]).name == buffer_of(todo, key)->0,
    decreases todo.len(),
{
    let outs = passes_of(todo, all, assets)->Ok_0.0;
    let d = todo.drop_last();
    let p = todo.last();
    if produces(p, key) {
        assert(p.ptype@ != "common"@) by {
            reveal_strlit("common");
            reveal_strlit("image");
            reveal_strlit("buffer");
            assert("common"@[0] == 'c');
            assert("image"@[0] == 'i');
            assert("buffer"@[0] == 'b');
        }
        assert(outs[outs.len() - 1].name == buffer_of(todo, key)->0);
    } else {
        law_buffers_are_passes(d, all, assets, key);
        let before = passes_of(d, all, assets)->Ok_0.0;
        let i = choose|i: int| 0 <= i < before.len() && (#[trigger] before[i]).name == buffer_of(d, key)->0;
        assert(outs[i] == before[i]);
    }
}

/// Source without a one-argument call of the matrix constructor is left as it is:
/// the forms with more arguments are untouched.
pub proof fn law_other_source_is_untouched(s: Seq<char>)
    requires
        forall|i: int, close: int|
            text::text_at(s, seq!['m', 'a', 't', '2'], i) ==> !#[trigger] single_argument_call(s, i, close),
    ensures
        patched_from(s, 0) == s,
{
    lemma_untouched_from(s, 0);
    assert(s.subrange(0, s.len() as int) =~= s);
}

proof fn lemma_untouched_from(s: Seq<char>, i: int)
    requires
        0 <= i <= s.len(),
        forall|j: int, close: int|
            text::text_at(s, seq!['m', 'a', 't', '2'], j) ==> !#[trigger] single_argument_call(s, j, close),
    ensures
        patched_from(s, i) == s.subrange(i, s.len() as int),
    decreases s.len() - i,
{
    if i < s.len() {
        if text::text_at(s, seq!['m', 'a', 't', '2'], i) {
            lemma_untouched_from(s, i + 4);
            assert(s.subrange(i, i + 4) == seq!['m', 'a', 't', '2']);
            assert(s.subrange(i, s.len() as int) =~= s.subrange(i, i + 4) + s.subrange(i + 4, s.len() as int));
        } else {
            lemma_untouched_from(s, i + 1);
            assert(s.subrange(i, s.len() as int) =~= seq![s[i]] + s.subrange(i + 1, s.len() as int));
        }
    } else {
        assert(s.subrange(i, s.len() as int) =~= Seq::<char>::empty());
    }
}

/// Pieces of text with `name` between them.
pub open spec fn joined(pieces: Seq<Seq<char>>, name: Seq<char>) -> Seq<char>
    decreases pieces.len(),
{
    if pieces.len() == 0 {
        Seq::empty()
    } else if pieces.len() == 1 {
        pieces[0]
    } else {
        pieces[0] + name + joined(pieces.subrange(1, pieces.len() as int), name)
    }
}

/// Rewritten source differs from the source in the name of the constructor alone: both
/// are the same pieces of text, with `mat2` between them in the source and with `_stm2`
/// in its place. Putting `mat2` back gives the source again.
pub proof fn law_patched_source_can_be_restored(s: Seq<char>)
    ensures
        exists|pieces: Seq<Seq<char>>|
            #[trigger] joined(pieces, "mat2"@) == s && joined(pieces, "_stm2"@) == patched_from(s, 0),
{
    reveal_strlit("mat2");
    assert("mat2"@ =~= seq!['m', 'a', 't', '2']);
    let pieces = lemma_pieces(s, 0);
    assert(s.subrange(0, s.len() as int) =~= s);
    assert(joined(pieces, "mat2"@) == s);
}

proof fn lemma_pieces(s: Seq<char>, i: int) -> (pieces: Seq<Seq<char>>)
    requires
        0 <= i <= s.len(),
    ensures
        pieces.len() > 0,
        joined(pieces, seq!['m', 'a', 't', '2']) == s.subrange(i, s.len() as int),
        joined(pieces, "_stm2"@) == patched_from(s, i),
    decreases s.len() - i,
{
    let word = seq!['m', 'a', 't', '2'];
    let end = s.len() as int;
    if i >= end {
        let pieces = seq![Seq::<char>::empty()];
        assert(s.subrange(i, end) =~= pieces[0]);
        pieces
    } else if text::text_at(s, word, i) {
        assert(s.subrange(i, i + 4) == word);
        let open = after_blanks(s, i + 4);
        if single_argument(s, i) {
            lemma_after_blanks(s, i + 4);
            let rest = lemma_pieces(s, open + 1);
            let called = s.subrange(i + 4, open + 1);
            let tail = rest.update(0, called + rest[0]);
            let pieces = seq![Seq::<char>::empty()] + tail;
            lemma_joined_front(rest, called, word);
            lemma_joined_front(rest, called, "_stm2"@);
            assert(pieces.subrange(1, pieces.len() as int) =~= tail);
            assert(s.subrange(i, end) =~= s.subrange(i, i + 4) + (called + s.subrange(open + 1, end)));
            assert(joined(pieces, word) =~= s.subrange(i, end));
            assert(joined(pieces, "_stm2"@) =~= "_stm2"@ + called + patched_from(s, open + 1));
            pieces
        } else {
            let rest = lemma_pieces(s, i + 4);
            lemma_joined_front(rest, word, word);
            lemma_joined_front(rest, word, "_stm2"@);
            assert(s.subrange(i, end) =~= s.subrange(i, i + 4) + s.subrange(i + 4, end));
            rest.update(0, word + rest[0])
        }
    } else {
        let rest = lemma_pieces(s, i + 1);
        lemma_joined_front(rest, seq![s[i]], word);
        lemma_joined_front(rest, seq![s[i]], "_stm2"@);
        assert(s.subrange(i, end) =~= seq![s[i]] + s.subrange(i + 1, end));
        rest.update(0, seq![s[i]] + rest[0])
    }
}

proof fn lemma_joined_front(pieces: Seq<Seq<char>>, front: Seq<char>, name: Seq<char>)
    requires
        pieces.len() > 0,
    ensures
        joined(pieces.update(0, front + pieces[0]), name) == front + joined(pieces, name),
{
    let longer = pieces.update(0, front + pieces[0]);
    assert(longer.subrange(1, longer.len() as int) =~= pieces.subrange(1, pieces.len() as int));
    assert(joined(longer, name) =~= front + joined(pieces, name));
}

/// The kinds of input are different words.
proof fn lemma_kinds()
    ensures
        "texture"@ != "cubemap"@,
        "texture"@ != "buffer"@,
        "cubemap"@ != "buffer"@,
        "music"@ != "texture"@ && "music"@ != "cubemap"@ && "music"@ != "buffer"@,
        "musicstream"@ != "texture"@ && "musicstream"@ != "cubemap"@ && "musicstream"@ != "buffer"@,
        "mic"@ != "texture"@ && "mic"@ != "cubemap"@ && "mic"@ != "buffer"@,
{
    reveal_strlit("texture");
    reveal_strlit("cubemap");
    reveal_strlit("buffer");
    reveal_strlit("music");
    reveal_strlit("musicstream");
    reveal_strlit("mic");
    assert("texture"@[0] == 't' && "cubemap"@[0] == 'c' && "buffer"@[0] == 'b');
    assert("music"@[0] == 'm' && "musicstream"@[0] == 'm' && "mic"@[0] == 'm');
}

/// What becomes of an input that can be used: a texture or a cubemap whose files are among
/// the assets is bound by its file name, a buffer by the pass that produces it, and music,
/// a stream and the microphone become the audio that is heard; the binding is of the
/// input's own kind and on its own channel.
pub proof fn law_inputs_are_bound_as_what_they_are(
    pass: Seq<char>,
    inp: StInput,
    passes: Seq<StPass>,
    assets: Seq<Seq<char>>,
    file: Seq<char>,
)
    requires
        inp.channel < 4,
    ensures
        inp.itype@ == "texture"@ && base_of(inp.filepath@) == Some(file) && assets.contains(file) ==> input_of(
            pass,
            inp,
            passes,
            assets,
        ) == InputText::Line(
            "    { channel = "@ + text::decimal(inp.channel as nat) + ", type = \"texture\", path = \""@ + file + "\" }"@,
        ),
        inp.itype@ == "cubemap"@ && base_of(inp.filepath@) == Some(file) && file.contains('.') && assets.contains(file)
            && (forall|f: nat| 1 <= f <= 5 ==> assets.contains(#[trigger] face_of(file, f))) ==> input_of(
            pass,
            inp,
            passes,
            assets,
        ) == InputText::Line(
            "    { channel = "@ + text::decimal(inp.channel as nat) + ", type = \"cubemap\", path = \""@ + file + "\" }"@,
        ),
        inp.itype@ == "buffer"@ && buffer_of(passes, key_of(inp.id)) == Some(file) ==> input_of(
            pass,
            inp,
            passes,
            assets,
        ) == InputText::Line(
            "    { channel = "@ + text::decimal(inp.channel as nat) + ", type = \"buffer\", target = \""@ + file + "\" }"@,
        ),
        inp.itype@ == "music"@ || inp.itype@ == "musicstream"@ || inp.itype@ == "mic"@ ==> input_of(
            pass,
            inp,
            passes,
            assets,
        ) == InputText::Line("    { channel = "@ + text::decimal(inp.channel as nat) + ", type = \"audio\" }"@),
{
    lemma_kinds();
    if file.contains('.') {
        lemma_dot_found(file);
        lemma_faces_there(file, assets, 1);
    }
}

proof fn lemma_dot_found(s: Seq<char>)
    requires
        s.contains('.'),
    ensures
        0 <= text::last_index(s, '.') < s.len(),
        s[text::last_index(s, '.')] == '.',
    decreases s.len(),
{
    if s.last() != '.' {
        let k = choose|k: int| 0 <= k < s.len() && s[k] == '.';
        assert(s.drop_last()[k] == '.');
        lemma_dot_found(s.drop_last());
    }
}

proof fn lemma_faces_there(base: Seq<char>, assets: Seq<Seq<char>>, f: nat)
    ensures
        missing_face(base, assets, f) is None <==> forall|g: nat|
            f <= g <= 5 ==> assets.contains(#[trigger] face_of(base, g)),
        missing_face(base, assets, f) matches Some(g) ==> f <= g <= 5 && !assets.contains(face_of(base, g)),
    decreases 6 - f,
{
    if f <= 5 {
        lemma_faces_there(base, assets, f + 1);
        if assets.contains(face_of(base, f)) && missing_face(base, assets, f + 1) is None {
            assert forall|g: nat| f <= g <= 5 implies assets.contains(#[trigger] face_of(base, g)) by {
                if g > f {
                    assert(f + 1 <= g);
                }
            }
        }
    }
}

/// What becomes of an input that cannot be used: one on a channel that does not exist, of a
/// kind that is not known or from a buffer that nothing produces is left out with a note; a
/// texture or a cubemap without its files ends the import.
pub proof fn law_other_inputs_are_told(pass: Seq<char>, inp: StInput, passes: Seq<StPass>, assets: Seq<Seq<char>>)
    ensures
        inp.channel >= 4 ==> input_of(pass, inp, passes, assets) is Note,
        inp.channel < 4 && inp.itype@ == "buffer"@ && buffer_of(passes, key_of(inp.id)) is None ==> input_of(
            pass,
            inp,
            passes,
            assets,
        ) is Note,
        inp.channel < 4 && inp.itype@ != "texture"@ && inp.itype@ != "cubemap"@ && inp.itype@ != "buffer"@
            && inp.itype@ != "music"@ && inp.itype@ != "musicstream"@ && inp.itype@ != "mic"@ ==> input_of(
            pass,
            inp,
            passes,
            assets,
        ) is Note,
        inp.channel < 4 && inp.itype@ == "texture"@ ==> (input_of(pass, inp, passes, assets) is Fail <==> !(base_of(
            inp.filepath@,
        ) matches Some(f) && assets.contains(f))),
        inp.channel < 4 && inp.itype@ == "cubemap"@ ==> (input_of(pass, inp, passes, assets) is Fail <==> !(base_of(
            inp.filepath@,
        ) matches Some(f) && f.contains('.') && assets.contains(f) && forall|g: nat|
            1 <= g <= 5 ==> assets.contains(#[trigger] face_of(f, g)))),
        input_of(pass, inp, passes, assets) is Fail ==> inp.itype@ == "texture"@ || inp.itype@ == "cubemap"@,
{
    lemma_kinds();
    if let Some(f) = base_of(inp.filepath@) {
        lemma_faces_there(f, assets, 1);
        if f.contains('.') {
            lemma_dot_found(f);
        } else {
            text::law_missing_character_has_no_index(f, '.');
        }
    }
}

/// The faces of a cubemap are named by its file, with the number of the face before the
/// extension.
pub proof fn law_faces_are_numbered(stem: Seq<char>, ext: Seq<char>, f: nat)
    requires
        !ext.contains('.'),
    ensures
        face_of(stem + seq!['.'] + ext, f) == stem + "_"@ + text::decimal(f) + "."@ + ext,
{
    let name = stem + seq!['.'] + ext;
    let n = stem.len() as int;
    assert(name[n] == '.');
    assert forall|i: int| n < i < name.len() implies name[i] != '.' by {
        assert(name[i] == ext[i - n - 1]);
    }
    text::law_last_index_is_last(name, '.', n);
    assert(name.subrange(0, n) =~= stem);
    assert(name.subrange(n + 1, name.len() as int) =~= ext);
}

/// The mark that opens a binding, the digit of its channel, and what follows.
pub open spec fn line_with(channel: nat, rest: Seq<char>) -> Seq<char> {
    "    { channel = "@ + text::decimal(channel) + rest
}

proof fn lemma_channel_of_line(channel: nat, rest: Seq<char>)
    requires
        channel < 4,
        rest.len() > 0,
        rest[0] == ',',
    ensures
        behind_channel(line_with(channel, rest)) matches Some(b) && text::number(
            first_digits(b),
            usize::MAX as nat,
        ) == Some(channel),
{
    reveal_strlit("    { channel = ");
    reveal_strlit("channel = ");
    let b = line_with(channel, rest);
    let mark = "channel = "@;
    let digits = text::decimal(channel);
    assert(digits.len() == 1);
    assert(digits[0] as int == channel + 48);
    assert(b.subrange(6, 16) =~= mark);
    assert(text::text_at(b, mark, 6));
    assert forall|j: int| 0 <= j < 6 implies !text::text_at(b, mark, j) by {
        assert(b[j] == "    { channel = "@[j]);
        assert(j == 0 || j == 1 || j == 2 || j == 3 || j == 4 || j == 5);
        if text::text_at(b, mark, j) {
            assert(b.subrange(j, j + 10)[0] == mark[0]);
            assert(b[j] == 'c');
        }
    }
    assert(text::first_text(b, mark, 6));
    let i = choose|i: int| text::first_text(b, mark, i);
    assert(text::first_text(b, mark, i));
    assert(i == 6) by {
        if i < 6 {
            assert(!text::text_at(b, mark, i));
        }
        if i > 6 {
            assert(!text::text_at(b, mark, 6));
        }
    }
    assert(text::has_text(b, mark));
    let after = b.subrange(16, b.len() as int);
    assert(after[0] == digits[0]);
    assert(after[1] == ',');
    if text::has_text(after, mark) {
        let w = choose|w: int| text::text_at(after, mark, w);
        lemma_first_text(after, mark, w);
        let j = choose|j: int| text::first_text(after, mark, j);
        assert(text::first_text(after, mark, j));
        assert(after.subrange(j, j + 10)[0] == mark[0]);
        assert(after[j] == 'c');
        assert(j >= 2);
        lemma_one_digit(after.subrange(0, j), digits[0]);
    } else {
        lemma_one_digit(after, digits[0]);
    }
    assert(seq![digits[0]] =~= digits);
    text::law_numbers_are_read_back(channel, usize::MAX as nat);
}

proof fn lemma_first_text(s: Seq<char>, p: Seq<char>, w: int)
    requires
        text::text_at(s, p, w),
    ensures
        exists|i: int| text::first_text(s, p, i),
    decreases w,
{
    if exists|j: int| 0 <= j < w && text::text_at(s, p, j) {
        let j = choose|j: int| 0 <= j < w && text::text_at(s, p, j);
        lemma_first_text(s, p, j);
    } else {
        assert(text::first_text(s, p, w));
    }
}

proof fn lemma_one_digit(s: Seq<char>, d: char)
    requires
        s.len() >= 2,
        s[0] == d,
        text::is_digit(d),
        s[1] == ',',
    ensures
        first_digits(s) == seq![d],
{
    let rest = s.subrange(1, s.len() as int);
    assert(rest[0] == ',');
    assert(leading_digits(rest) =~= Seq::<char>::empty());
    assert(seq![s[0]] + leading_digits(rest) =~= seq![d]);
}

proof fn lemma_line_parts(channel: nat, kind: Seq<char>, value: Seq<char>)
    requires
        channel < 4,
        kind.len() > 0,
        kind[0] == ',',
    ensures
        named_line(channel, kind, value) == line_with(channel, kind + value + "\" }"@),
        forall|n: nat| n != channel ==> !binds_cube(named_line(channel, kind, value), n),
        binds_cube(named_line(channel, kind, value), channel) == text::has_text(
            named_line(channel, kind, value),
            "type = \"cubemap\""@,
        ),
{
    let rest = kind + value + "\" }"@;
    assert(named_line(channel, kind, value) =~= line_with(channel, rest));
    assert(rest[0] == kind[0]);
    lemma_channel_of_line(channel, rest);
}

proof fn lemma_cubemap_line(channel: nat, file: Seq<char>)
    requires
        channel < 4,
    ensures
        forall|n: nat|
            #[trigger] binds_cube(named_line(channel, ", type = \"cubemap\", path = \""@, file), n) == (n == channel),
{
    reveal_strlit(", type = \"cubemap\", path = \"");
    reveal_strlit("type = \"cubemap\"");
    reveal_strlit("    { channel = ");
    let kind = ", type = \"cubemap\", path = \""@;
    let word = "type = \"cubemap\""@;
    let l = named_line(channel, kind, file);
    lemma_line_parts(channel, kind, file);
    assert(text::decimal(channel).len() == 1);
    assert(l.subrange(19, 35) =~= word);
    assert(text::text_at(l, word, 19));
}

/// A line whose quotes stand around other words puts no cubemap anywhere.
proof fn lemma_texture_line(channel: nat, file: Seq<char>)
    requires
        channel < 4,
        !file.contains('"'),
    ensures
        forall|n: nat| !#[trigger] binds_cube(named_line(channel, ", type = \"texture\", path = \""@, file), n),
{
    reveal_strlit(", type = \"texture\", path = \"");
    reveal_strlit("type = \"cubemap\"");
    reveal_strlit("    { channel = ");
    reveal_strlit("\" }");
    let a = "    { channel = "@;
    let kind = ", type = \"texture\", path = \""@;
    let tail = "\" }"@;
    let word = "type = \"cubemap\""@;
    let l = named_line(channel, kind, file);
    lemma_line_parts(channel, kind, file);
    let d = text::decimal(channel);
    assert(d.len() == 1);
    assert(d[0] as int == channel + 48);
    assert(l.len() == 16 + 1 + 28 + file.len() + 3);
    assert forall|i: int| !text::text_at(l, word, i) by {
        if text::text_at(l, word, i) {
            let w = l.subrange(i, i + 16);
            assert(w[7] == word[7] && w[8] == word[8] && w[0] == word[0]);
            let k = i + 7;
            assert(l[k] == '"' && l[k + 1] == 'c' && l[i] == 't');
            if k < 16 {
                assert(l[k] == a[k]);
                assert(k == 7 || k == 8 || k == 9 || k == 10 || k == 11 || k == 12 || k == 13 || k == 14 || k == 15);
            } else if k == 16 {
                assert(l[k] == d[0]);
            } else if k < 45 {
                let m = k - 17;
                assert(l[k] == kind[m]);
                assert(m == 0 || m == 1 || m == 2 || m == 3 || m == 4 || m == 5 || m == 6 || m == 7 || m == 8 || m == 9
                    || m == 10 || m == 11 || m == 12 || m == 13 || m == 14 || m == 15 || m == 16 || m == 17 || m == 18
                    || m == 19 || m == 20 || m == 21 || m == 22 || m == 23 || m == 24 || m == 25 || m == 26 || m == 27);
                if m == 9 {
                    assert(l[k + 1] == kind[10]);
                } else if m == 17 {
                    assert(l[k + 1] == kind[18]);
                } else {
                    assert(m == 27);
                    assert(l[i] == kind[20]);
                }
            } else if k < 45 + file.len() {
                assert(l[k] == file[k - 45]);
                assert(file.contains('"'));
            } else {
                let m = k - 45 - file.len();
                assert(l[k] == tail[m]);
                assert(l[k + 1] == tail[m + 1]);
                assert(m == 0 || m == 1);
            }
        }
    }
}

proof fn lemma_buffer_line(channel: nat, file: Seq<char>)
    requires
        channel < 4,
        !file.contains('"'),
    ensures
        forall|n: nat| !#[trigger] binds_cube(named_line(channel, ", type = \"buffer\", target = \""@, file), n),
{
    reveal_strlit(", type = \"buffer\", target = \"");
    reveal_strlit("type = \"cubemap\"");
    reveal_strlit("    { channel = ");
    reveal_strlit("\" }");
    let a = "    { channel = "@;
    let kind = ", type = \"buffer\", target = \""@;
    let tail = "\" }"@;
    let word = "type = \"cubemap\""@;
    let l = named_line(channel, kind, file);
    lemma_line_parts(channel, kind, file);
    let d = text::decimal(channel);
    assert(d.len() == 1);
    assert(d[0] as int == channel + 48);
    assert(l.len() == 16 + 1 + 29 + file.len() + 3);
    assert forall|i: int| !text::text_at(l, word, i) by {
        if text::text_at(l, word, i) {
            let w = l.subrange(i, i + 16);
            assert(w[7] == word[7] && w[8] == word[8] && w[0] == word[0]);
            let k = i + 7;
            assert(l[k] == '"' && l[k + 1] == 'c' && l[i] == 't');
            if k < 16 {
                assert(l[k] == a[k]);
                assert(k == 7 || k == 8 || k == 9 || k == 10 || k == 11 || k == 12 || k == 13 || k == 14 || k == 15);
            } else if k == 16 {
                assert(l[k] == d[0]);
            } else if k < 46 {
                let m = k - 17;
                assert(l[k] == kind[m]);
                assert(m == 0 || m == 1 || m == 2 || m == 3 || m == 4 || m == 5 || m == 6 || m == 7 || m == 8 || m == 9
                    || m == 10 || m == 11 || m == 12 || m == 13 || m == 14 || m == 15 || m == 16 || m == 17 || m == 18
                    || m == 19 || m == 20 || m == 21 || m == 22 || m == 23 || m == 24 || m == 25 || m == 26 || m == 27 || m == 28);
                if m == 9 {
                    assert(l[k + 1] == kind[10]);
                } else if m == 16 {
                    assert(l[k + 1] == kind[17]);
                } else {
                    assert(m == 28);
                    assert(l[i] == kind[21]);
                }
            } else if k < 46 + file.len() {
                assert(l[k] == file[k - 46]);
                assert(file.contains('"'));
            } else {
                let m = k - 46 - file.len();
                assert(l[k] == tail[m]);
                assert(l[k + 1] == tail[m + 1]);
                assert(m == 0 || m == 1);
            }
        }
    }
}

proof fn lemma_audio_line(channel: nat)
    requires
        channel < 4,
    ensures
        forall|n: nat|
            !#[trigger] binds_cube("    { channel = "@ + text::decimal(channel) + ", type = \"audio\" }"@, n),
{
    reveal_strlit(", type = \"audio\" }");
    reveal_strlit("type = \"cubemap\"");
    reveal_strlit("    { channel = ");
    let word = "type = \"cubemap\""@;
    let l = "    { channel = "@ + text::decimal(channel) + ", type = \"audio\" }"@;
    let d = text::decimal(channel);
    assert(d.len() == 1);
    assert(l.len() == 35);
    assert forall|i: int| !text::text_at(l, word, i) by {
        if text::text_at(l, word, i) {
            let w = l.subrange(i, i + 16);
            assert(w[0] == word[0] && w[1] == word[1]);
            assert(l[i] == 't' && l[i + 1] == 'y');
            assert(i <= 19);
            if i == 19 {
                assert(w[8] == word[8]);
                assert(l[27] == ", type = \"audio\" }"@[10]);
            } else if i < 16 {
                assert(l[i] == "    { channel = "@[i]);
                assert(i == 0 || i == 1 || i == 2 || i == 3 || i == 4 || i == 5 || i == 6 || i == 7 || i == 8 || i == 9
                    || i == 10 || i == 11 || i == 12 || i == 13 || i == 14 || i == 15);
            } else if i == 16 {
                assert(l[i] == d[0]);
            } else {
                assert(l[i] == ", type = \"audio\" }"@[i - 17]);
                assert(i == 17 || i == 18);
            }
        }
    }
}

/// The shader of a pass samples as cubemaps exactly the channels that the export has
/// cubemaps on: the bindings of the pass put a cubemap on a channel where one of its inputs
/// is a cubemap on that channel, and nowhere else. File names have no quotes.
pub proof fn law_cubemaps_are_bound_as_cubemaps(
    pass: Seq<char>,
    inputs: Seq<StInput>,
    passes: Seq<StPass>,
    assets: Seq<Seq<char>>,
    ch: nat,
)
    requires
        inputs_of(pass, inputs, passes, assets) is Ok,
        ch < 4,
        forall|k: int| 0 <= k < inputs.len() ==> (base_of((#[trigger] inputs[k]).filepath@) matches Some(f) ==> !f.contains(
            '"',
        )),
    ensures
        some_cube(inputs_of(pass, inputs, passes, assets)->Ok_0.0, ch) <==> exists|k: int|
            0 <= k < inputs.len() && (#[trigger] inputs[k]).channel == ch && inputs[k].itype@ == "cubemap"@,
    decreases inputs.len(),
{
    if inputs.len() > 0 {
        let d = inputs.drop_last();
        let inp = inputs.last();
        assert(inputs[inputs.len() - 1] == inp);
        assert forall|k: int| 0 <= k < d.len() implies (base_of((#[trigger] d[k]).filepath@) matches Some(f) ==> !f.contains(
            '"',
        )) by {
            assert(d[k] == inputs[k]);
        }
        law_cubemaps_are_bound_as_cubemaps(pass, d, passes, assets, ch);
        let before = inputs_of(pass, d, passes, assets)->Ok_0.0;
        let all = inputs_of(pass, inputs, passes, assets)->Ok_0.0;
        if some_cube(before, ch) {
            let i = choose|i: int| 0 <= i < before.len() && binds_cube(#[trigger] before[i], ch);
            assert(binds_cube(all[i], ch));
        }
        if exists|k: int| 0 <= k < d.len() && (#[trigger] d[k]).channel == ch && d[k].itype@ == "cubemap"@ {
            let k = choose|k: int| 0 <= k < d.len() && (#[trigger] d[k]).channel == ch && d[k].itype@ == "cubemap"@;
            assert(inputs[k] == d[k]);
        }
        if exists|k: int| 0 <= k < inputs.len() && (#[trigger] inputs[k]).channel == ch && inputs[k].itype@ == "cubemap"@ {
            let k = choose|k: int|
                0 <= k < inputs.len() && (#[trigger] inputs[k]).channel == ch && inputs[k].itype@ == "cubemap"@;
            if k < d.len() {
                assert(d[k] == inputs[k]);
            }
        }
        lemma_kinds();
        match input_of(pass, inp, passes, assets) {
            InputText::Line(l) => {
                assert(all =~= before.push(l));
                let n = inp.channel as nat;
                if inp.itype@ == "cubemap"@ {
                    lemma_cubemap_line(n, base_of(inp.filepath@)->0);
                } else if inp.itype@ == "texture"@ {
                    lemma_texture_line(n, base_of(inp.filepath@)->0);
                } else if inp.itype@ == "buffer"@ {
                    lemma_buffer_has_no_quote(passes, key_of(inp.id));
                    lemma_buffer_line(n, buffer_of(passes, key_of(inp.id))->0);
                } else {
                    lemma_audio_line(n);
                }
                assert(binds_cube(l, ch) == (inp.itype@ == "cubemap"@ && inp.channel == ch));
                assert(all[before.len() as int] == l);
                if some_cube(all, ch) && !some_cube(before, ch) {
                    let i = choose|i: int| 0 <= i < all.len() && binds_cube(#[trigger] all[i], ch);
                    if i < before.len() {
                        assert(binds_cube(before[i], ch));
                    }
                }
            },
            InputText::Note(_) => {
                assert(all == before);
                law_other_inputs_are_told(pass, inp, passes, assets);
                if inp.itype@ == "cubemap"@ && inp.channel == ch {
                    assert(false);
                }
            },
            InputText::Fail(_) => {},
        }
    }
}

proof fn lemma_buffer_has_no_quote(passes: Seq<StPass>, key: Seq<char>)
    ensures
        buffer_of(passes, key) matches Some(t) ==> !t.contains('"'),
    decreases passes.len(),
{
    if passes.len() > 0 {
        let p = passes.last();
        lemma_buffer_has_no_quote(passes.drop_last(), key);
        reveal_strlit("image");
        reveal_strlit("buffer");
        lemma_letter_is_capital(p.name@);
        if let Some(t) = target_of(p.ptype@, p.name@) {
            assert forall|i: int| 0 <= i < t.len() implies t[i] != '"' by {
                assert(i == 0 || i == 1 || i == 2 || i == 3 || i == 4 || i == 5 || i == 6);
            }
        }
    }
}

proof fn lemma_letter_is_capital(name: Seq<char>)
    ensures
        'A' <= buffer_letter(name) <= 'Z',
    decreases name.len(),
{
    if name.len() > 0 && !text::is_letter(name.last()) {
        lemma_letter_is_capital(name.drop_last());
    }
}

/// The buffer that a pass becomes has the letter of its name: the last one in it, as a
/// capital, and `A` where there is none. The image pass is the image, and other kinds are
/// not rendered.
pub proof fn law_passes_keep_their_letters(ptype: Seq<char>, name: Seq<char>, k: int)
    requires
        -1 <= k < name.len(),
        k >= 0 ==> text::is_letter(name[k]),
        forall|j: int| k < j < name.len() ==> !text::is_letter(#[trigger] name[j]),
    ensures
        ptype == "image"@ ==> target_of(ptype, name) == Some("image"@),
        ptype == "buffer"@ && k >= 0 ==> target_of(ptype, name) == Some("buffer"@ + seq![text::upper(name[k])]),
        ptype == "buffer"@ && k < 0 ==> target_of(ptype, name) == Some("buffer"@ + seq!['A']),
        ptype != "image"@ && ptype != "buffer"@ ==> target_of(ptype, name) is None,
{
    reveal_strlit("image");
    reveal_strlit("buffer");
    assert("image"@[0] == 'i' && "buffer"@[0] == 'b');
    lemma_letter(name, k);
    assert("buffer"@.push(buffer_letter(name)) =~= "buffer"@ + seq![buffer_letter(name)]);
}

proof fn lemma_letter(name: Seq<char>, k: int)
    requires
        -1 <= k < name.len(),
        k >= 0 ==> text::is_letter(name[k]),
        forall|j: int| k < j < name.len() ==> !text::is_letter(#[trigger] name[j]),
    ensures
        buffer_letter(name) == (if k >= 0 {
            text::upper(name[k])
        } else {
            'A'
        }),
    decreases name.len(),
{
    if k < name.len() - 1 {
        let d = name.drop_last();
        assert(!text::is_letter(name[name.len() - 1]));
        assert forall|j: int| k < j < d.len() implies !text::is_letter(#[trigger] d[j]) by {
            assert(d[j] == name[j]);
        }
        lemma_letter(d, k);
    }
}

/// An imported shader is shown by its own name, without white space around it, and by a
/// stock name only where it has none.
pub proof fn law_names_are_kept(name: Seq<char>)
    ensures
        text::trim(name).len() > 0 ==> shown_name(name) == text::trim(name),
        text::trim(name).len() == 0 ==> shown_name(name) == "Imported Shader"@,
        shown_name(name).len() > 0,
{
    reveal_strlit("Imported Shader");
}

/// The file of an input is the last part of its path, whichever separator stands before it
/// and however many slashes stand behind it.
pub proof fn law_files_are_the_last_part(dir: Seq<char>, sep: char, file: Seq<char>)
    requires
        sep == '/' || sep == '\\',
        file.len() > 0,
        !file.contains('/') && !file.contains('\\'),
    ensures
        base_of(dir.push(sep) + file) == Some(file),
        base_of(file) == Some(file),
        base_of(dir.push('/')) == base_of(dir),
        base_of(Seq::empty()) is None,
{
    let seps = seq!['/', '\\'];
    assert(seps[0] == '/' && seps[1] == '\\');
    let slash = seq!['/'];
    assert(slash[0] == '/');
    let s = dir.push(sep) + file;
    assert(s.last() == file[file.len() - 1]);
    assert(file[file.len() - 1] != '/' && file[file.len() - 1] != '\\');
    assert(text::trim_end_of(s, slash) == s);
    assert(text::trim_end_of(file, slash) == file);
    lemma_last_piece(dir.push(sep), file, seps);
    assert(dir.push(sep).last() == sep);
    lemma_last_piece(Seq::empty(), file, seps);
    assert(Seq::<char>::empty() + file =~= file);
    assert(dir.push('/').drop_last() =~= dir);
}

proof fn lemma_last_piece(head: Seq<char>, file: Seq<char>, seps: Seq<char>)
    requires
        forall|i: int| 0 <= i < file.len() ==> !seps.contains(#[trigger] file[i]),
        head.len() == 0 || seps.contains(head.last()),
    ensures
        text::split(head + file, seps).last() == file,
        text::split(head + file, seps).len() > 0,
    decreases file.len(),
{
    text::lemma_split_len(head + file, seps);
    if file.len() == 0 {
        assert(head + file =~= head);
    } else {
        let d = file.drop_last();
        let s = head + file;
        assert forall|i: int| 0 <= i < d.len() implies !seps.contains(#[trigger] d[i]) by {
            assert(d[i] == file[i]);
        }
        lemma_last_piece(head, d, seps);
        assert(s.drop_last() =~= head + d);
        assert(s.last() == file[file.len() - 1]);
        assert(!seps.contains(s.last()));
        assert(d.push(file.last()) =~= file);
    }
}

/// A text is written as TOML reads it: between quotes, character by character, with a
/// backslash before every quote and every backslash.
pub proof fn law_quoted_texts_are_escaped(a: Seq<char>, c: char)
    ensures
        quoted(Seq::empty()) == seq!['"', '"'],
        quoted(a.push(c)) == quoted(a).drop_last() + (if c == '"' {
            seq!['\\', '"']
        } else if c == '\\' {
            seq!['\\', '\\']
        } else {
            seq![c]
        }) + seq!['"'],
        quoted(a).len() >= 2 && quoted(a)[0] == '"' && quoted(a).last() == '"',
{
    let bs = seq!['\\', '\\'];
    let q = seq!['\\', '"'];
    let one = seq![c];
    let first = text::replace_each(a, '\\', bs);
    assert(a.push(c) =~= a + one);
    text::law_replacing_goes_by_characters(a, one, '\\', bs);
    let mid = text::replace_each(one, '\\', bs);
    text::law_replacing_goes_by_characters(first, mid, '"', q);
    if c == '\\' {
        let half = seq!['\\'];
        assert(bs =~= half + half);
        text::law_replacing_goes_by_characters(half, half, '"', q);
        assert(text::replace_each(mid, '"', q) =~= bs);
    } else {
        text::law_replacing_goes_by_characters(Seq::empty(), one, '"', q);
    }
    let inner = text::replace_each(first, '"', q);
    assert(quoted(a) =~= seq!['"'] + inner + seq!['"']);
    assert(quoted(a).drop_last() =~= seq!['"'] + inner);
    assert(quoted(a.push(c)) =~= quoted(a).drop_last() + (if c == '"' {
        q
    } else if c == '\\' {
        bs
    } else {
        one
    }) + seq!['"']);
    assert(text::replace_each(Seq::empty(), '\\', bs) =~= Seq::<char>::empty());
    assert(quoted(Seq::empty()) =~= seq!['"', '"']);
}

/// A buffer input reads the last pass of the export that has an output with its id. An id
/// of no characters names nothing.
pub proof fn law_buffer_inputs_find_their_pass(passes: Seq<StPass>, key: Seq<char>, k: int, o: int)
    ensures
        0 <= k < passes.len() && 0 <= o < passes[k].outputs@.len() && key.len() > 0 && key_of(
            passes[k].outputs@[o].id,
        ) == key && (passes[k].ptype@ == "image"@ || passes[k].ptype@ == "buffer"@) && (forall|j: int|
            k < j < passes.len() ==> forall|n: int|
                0 <= n < (#[trigger] passes[j]).outputs@.len() ==> key_of((#[trigger] passes[j].outputs@[n]).id) != key)
            ==> buffer_of(passes, key) == target_of(passes[k].ptype@, passes[k].name@) && buffer_of(passes, key) is Some,
        key.len() == 0 ==> buffer_of(passes, key) is None,
        (forall|j: int|
            0 <= j < passes.len() ==> forall|n: int|
                0 <= n < (#[trigger] passes[j]).outputs@.len() ==> key_of((#[trigger] passes[j].outputs@[n]).id) != key)
            ==> buffer_of(passes, key) is None,
    decreases passes.len(),
{
    if passes.len() > 0 {
        let d = passes.drop_last();
        law_buffer_inputs_find_their_pass(d, key, k, o);
        assert(forall|j: int| 0 <= j < d.len() ==> d[j] == passes[j]);
        assert(passes[passes.len() - 1] == passes.last());
        if k == passes.len() - 1 && 0 <= o < passes[k].outputs@.len() && key_of(passes[k].outputs@[o].id) == key {
            assert(passes.last().outputs@[o] == passes[k].outputs@[o]);
        }
        if produces(passes.last(), key) {
            let n = choose|n: int|
                0 <= n < passes.last().outputs@.len() && key_of((#[trigger] passes.last().outputs@[n]).id) == key;
            assert(key_of(passes[passes.len() - 1].outputs@[n].id) == key);
        }
    }
}

/// The key of an id is what the export writes: nothing where it writes none.
pub proof fn law_keys_are_what_is_written(id: TargetId)
    ensures
        id is Null ==> key_of(id).len() == 0,
        id matches TargetId::Text(s) ==> key_of(id) == s@,
        id matches TargetId::Other(s) ==> key_of(id) == s@,
{
}

/// Every pass that can be rendered is imported, under its name, with a source of its own
/// and the bindings of its inputs; for every other pass, but the common one, there is a
/// note.
pub proof fn law_every_pass_is_imported(todo: Seq<StPass>, all: Seq<StPass>, assets: Seq<Seq<char>>, k: int)
    requires
        passes_of(todo, all, assets) is Ok,
        0 <= k < todo.len(),
    ensures
        ({
            let (outs, notes) = passes_of(todo, all, assets)->Ok_0;
            let p = todo[k];
            &&& p.ptype@ == "image"@ || p.ptype@ == "buffer"@ ==> {
                &&& target_of(p.ptype@, p.name@) is Some
                &&& inputs_of(target_of(p.ptype@, p.name@)->0, p.inputs@, all, assets) is Ok
                &&& outs.contains(
                    PassText {
                        name: target_of(p.ptype@, p.name@)->0,
                        source: target_of(p.ptype@, p.name@)->0 + ".glsl"@,
                        bindings: inputs_of(target_of(p.ptype@, p.name@)->0, p.inputs@, all, assets)->Ok_0.0,
                    },
                )
            }
            &&& p.ptype@ != "image"@ && p.ptype@ != "buffer"@ && p.ptype@ != "common"@ ==> notes.contains(
                "Skipped unsupported pass type '"@ + p.ptype@ + "' ("@ + p.name@ + ")"@,
            )
        }),
    decreases todo.len(),
{
    reveal_strlit("image");
    reveal_strlit("buffer");
    reveal_strlit("common");
    assert("image"@[0] == 'i' && "buffer"@[0] == 'b' && "common"@[0] == 'c');
    let d = todo.drop_last();
    let (outs, notes) = passes_of(todo, all, assets)->Ok_0;
    let (outs0, notes0) = passes_of(d, all, assets)->Ok_0;
    let p = todo[k];
    let name = target_of(p.ptype@, p.name@)->0;
    let out = PassText {
        name,
        source: name + ".glsl"@,
        bindings: inputs_of(name, p.inputs@, all, assets)->Ok_0.0,
    };
    let note = "Skipped unsupported pass type '"@ + p.ptype@ + "' ("@ + p.name@ + ")"@;
    if k < d.len() {
        law_every_pass_is_imported(d, all, assets, k);
        assert(d[k] == todo[k]);
        if outs0.contains(out) {
            let i = choose|i: int| 0 <= i < outs0.len() && outs0[i] == out;
            assert(outs[i] == out);
        }
        if notes0.contains(note) {
            let i = choose|i: int| 0 <= i < notes0.len() && notes0[i] == note;
            assert(notes[i] == note);
        }
    } else {
        assert(todo.last() == p);
        if p.ptype@ == "image"@ || p.ptype@ == "buffer"@ {
            assert(outs[outs.len() - 1] == out);
        } else if p.ptype@ != "common"@ {
            assert(notes[notes.len() - 1] == note);
        }
    }
}

/// Nothing else is imported: every imported pass comes from a pass of the export that is
/// rendered.
pub proof fn law_nothing_else_is_imported(todo: Seq<StPass>, all: Seq<StPass>, assets: Seq<Seq<char>>, i: int)
    requires
        passes_of(todo, all, assets) is Ok,
        0 <= i < passes_of(todo, all, assets)->Ok_0.0.len(),
    ensures
        exists|k: int|
            0 <= k < todo.len() && ((#[trigger] todo[k]).ptype@ == "image"@ || todo[k].ptype@ == "buffer"@) && target_of(
                todo[k].ptype@,
                todo[k].name@,
            ) == Some(passes_of(todo, all, assets)->Ok_0.0[i].name),
        passes_of(todo, all, assets)->Ok_0.0.len() <= todo.len(),
    decreases todo.len(),
{
    if todo.len() > 0 {
        let d = todo.drop_last();
        let (outs, notes) = passes_of(todo, all, assets)->Ok_0;
        let (outs0, notes0) = passes_of(d, all, assets)->Ok_0;
        assert(todo[todo.len() - 1] == todo.last());
        if i < outs0.len() {
            law_nothing_else_is_imported(d, all, assets, i);
            assert(outs[i] == outs0[i]);
            let k = choose|k: int|
                0 <= k < d.len() && ((#[trigger] d[k]).ptype@ == "image"@ || d[k].ptype@ == "buffer"@) && target_of(
                    d[k].ptype@,
                    d[k].name@,
                ) == Some(outs0[i].name);
            assert(todo[k] == d[k]);
        } else if outs0.len() > 0 {
            law_nothing_else_is_imported(d, all, assets, 0);
        }
    }
}

/// The bindings of a pass are those of its inputs, in their order, each input giving one
/// binding, one note or the error that ends the import.
pub proof fn law_inputs_become_bindings(
    pass: Seq<char>,
    inputs: Seq<StInput>,
    inp: StInput,
    passes: Seq<StPass>,
    assets: Seq<Seq<char>>,
)
    ensures
        inputs_of(pass, Seq::empty(), passes, assets) == Ok::<_, Seq<char>>(
            (Seq::<Seq<char>>::empty(), Seq::<Seq<char>>::empty()),
        ),
        inputs_of(pass, inputs, passes, assets) matches Err(e) ==> inputs_of(pass, inputs.push(inp), passes, assets)
            == Err::<(Seq<Seq<char>>, Seq<Seq<char>>), _>(e),
        inputs_of(pass, inputs, passes, assets) matches Ok((lines, notes)) ==> match input_of(pass, inp, passes, assets) {
            InputText::Line(l) => inputs_of(pass, inputs.push(inp), passes, assets) == Ok::<_, Seq<char>>(
                (lines.push(l), notes),
            ),
            InputText::Note(n) => inputs_of(pass, inputs.push(inp), passes, assets) == Ok::<_, Seq<char>>(
                (lines, notes.push(n)),
            ),
            InputText::Fail(e) => inputs_of(pass, inputs.push(inp), passes, assets) == Err::<
                (Seq<Seq<char>>, Seq<Seq<char>>),
                _,
            >(e),
        },
{
    assert(inputs.push(inp).drop_last() =~= inputs);
}

/// The manifest lists the buffers by their letters, and the image behind them all.
pub proof fn law_letters_order_the_passes(a: char, b: char)
    requires
        'A' <= a <= 'Z' && 'A' <= b <= 'Z',
    ensures
        a < b ==> rank("buffer"@.push(a)) < rank("buffer"@.push(b)),
        rank("buffer"@.push(a)) < rank("image"@),
{
    reveal_strlit("image");
    reveal_strlit("buffer");
    assert("image"@.len() == 5 && "buffer"@.push(a).len() == 7 && "buffer"@.push(b).len() == 7);
}

/// Every tag of the export is kept, without white space around it; a tag that is there
/// already, case aside, is not listed again, and nothing but the mark of an import is added.
pub proof fn law_tags_are_kept(tags: Seq<Seq<char>>, k: int)
    ensures
        0 <= k < tags.len() && text::trim(tags[k]).len() > 0 ==> exists|i: int|
            0 <= i < package_tags(tags).len() && text::same_ignoring_case(
                #[trigger] package_tags(tags)[i],
                text::trim(tags[k]),
            ),
        forall|i: int|
            0 <= i < package_tags(tags).len() ==> (#[trigger] package_tags(tags)[i]) == "Imported"@ || exists|j: int|
                0 <= j < tags.len() && text::trim(#[trigger] tags[j]) == package_tags(tags)[i] && package_tags(
                    tags,
                )[i].len() > 0,
{
    lemma_own_tags(tags, k);
    let own = own_tags(tags);
    let all = package_tags(tags);
    if 0 <= k < tags.len() && text::trim(tags[k]).len() > 0 {
        let i = choose|i: int| 0 <= i < own.len() && text::same_ignoring_case(#[trigger] own[i], text::trim(tags[k]));
        assert(all[i] == own[i]);
    }
    assert forall|i: int| 0 <= i < all.len() implies (#[trigger] all[i]) == "Imported"@ || exists|j: int|
        0 <= j < tags.len() && text::trim(#[trigger] tags[j]) == all[i] && all[i].len() > 0 by {
        if i < own.len() {
            assert(all[i] == own[i]);
        }
    }
}

proof fn lemma_own_tags(tags: Seq<Seq<char>>, k: int)
    ensures
        0 <= k < tags.len() && text::trim(tags[k]).len() > 0 ==> has_tag(own_tags(tags), text::trim(tags[k])),
        forall|i: int|
            0 <= i < own_tags(tags).len() ==> exists|j: int|
                0 <= j < tags.len() && text::trim(#[trigger] tags[j]) == (#[trigger] own_tags(tags)[i]) && own_tags(
                    tags,
                )[i].len() > 0,
    decreases tags.len(),
{
    if tags.len() > 0 {
        let d = tags.drop_last();
        let before = own_tags(d);
        let all = own_tags(tags);
        let t = text::trim(tags.last());
        lemma_own_tags(d, k);
        assert(tags[tags.len() - 1] == tags.last());
        if 0 <= k < d.len() && text::trim(tags[k]).len() > 0 {
            assert(d[k] == tags[k]);
            let i = choose|i: int| 0 <= i < before.len() && text::same_ignoring_case(#[trigger] before[i], text::trim(tags[k]));
            assert(all[i] == before[i]);
        }
        if k == tags.len() - 1 && t.len() > 0 {
            if has_tag(before, t) {
                assert(all == before);
            } else {
                assert(all[before.len() as int] == t);
                assert(text::same_ignoring_case(t, t));
            }
        }
        assert forall|i: int| 0 <= i < all.len() implies exists|j: int|
            0 <= j < tags.len() && text::trim(#[trigger] tags[j]) == (#[trigger] all[i]) && all[i].len() > 0 by {
            if i < before.len() {
                assert(all[i] == before[i]);
                let j = choose|j: int| 0 <= j < d.len() && text::trim(#[trigger] d[j]) == before[i];
                assert(tags[j] == d[j]);
            } else {
                assert(text::trim(tags[tags.len() - 1]) == all[i]);
            }
        }
    }
}

/// The manifest tells what the export tells: the name, the author, the page of the shader
/// where it has an id, the tags and the passes.
pub proof fn law_manifests_tell_of_the_shader(info: StInfo, ps: Seq<PassText>)
    ensures
        ({
            let m = manifest_of(info, ps);
            &&& text::begins_with(m, "[wallpaper]\nname = "@ + quoted(shown_name(info.name@)) + "\nauthor = "@)
            &&& info.username@.len() > 0 ==> text::has_text(m, "\nauthor = "@ + quoted(info.username@))
            &&& info.username@.len() == 0 ==> text::has_text(m, "\nauthor = "@ + quoted("Shadertoy"@))
            &&& info.id@.len() > 0 ==> text::has_text(
                m,
                "source_url = "@ + quoted("https://www.shadertoy.com/view/"@ + info.id@) + "\n"@,
            )
            &&& text::has_text(
                m,
                "tags = ["@ + text::join(all_quoted(package_tags(text::texts(info.tags@))), ", "@) + "]\npasses = ["@
                    + text::join(all_quoted(names_of(ps)), ", "@) + "]\n\n"@,
            )
            &&& text::ends_with(m, pass_sections(ps))
        }),
{
    let m = manifest_of(info, ps);
    let author = quoted(
        if info.username@.len() == 0 {
            "Shadertoy"@
        } else {
            info.username@
        },
    );
    let start = "[wallpaper]\nname = "@ + quoted(shown_name(info.name@));
    let version = "\nversion = \"1.0.0\"\n"@;
    let src = source_line(info.id@);
    let tags = "tags = ["@ + text::join(all_quoted(package_tags(text::texts(info.tags@))), ", "@) + "]\npasses = ["@
        + text::join(all_quoted(names_of(ps)), ", "@) + "]\n\n"@;
    let by = "\nauthor = "@ + author;
    let rest = pass_sections(ps);
    assert(m =~= start + by + version + src + tags + rest);
    let opening = start + "\nauthor = "@;
    assert(m.subrange(0, opening.len() as int) =~= opening);
    assert(m.subrange(start.len() as int, (start.len() + by.len()) as int) =~= by);
    assert(text::text_at(m, by, start.len() as int));
    let at = start.len() + by.len() + version.len();
    assert(m.subrange(at as int, (at + src.len()) as int) =~= src);
    assert(text::text_at(m, src, at as int));
    let then = at + src.len();
    assert(m.subrange(then as int, (then + tags.len()) as int) =~= tags);
    assert(text::text_at(m, tags, then as int));
    assert(m.subrange(m.len() - rest.len(), m.len() as int) =~= rest);
}

/// Each pass has a part of its own in the manifest, with its source and its bindings, and
/// the names of the passes are listed as they are.
pub proof fn law_manifests_describe_every_pass(ps: Seq<PassText>, k: int)
    requires
        0 <= k < ps.len(),
    ensures
        ps[k].bindings.len() > 0 ==> text::has_text(
            pass_sections(ps),
            "[render_targets."@ + ps[k].name + "]\nsource = "@ + quoted(ps[k].source) + "\nbindings = [\n"@ + text::join(
                ps[k].bindings,
                ",\n"@,
            ) + "\n]\n\n"@,
        ),
        ps[k].bindings.len() == 0 ==> text::has_text(
            pass_sections(ps),
            "[render_targets."@ + ps[k].name + "]\nsource = "@ + quoted(ps[k].source) + "\nbindings = []\n\n"@,
        ),
        names_of(ps)[k] == ps[k].name,
        names_of(ps).len() == ps.len(),
        all_quoted(names_of(ps))[k] == quoted(ps[k].name),
    decreases ps.len(),
{
    let d = ps.drop_last();
    let before = pass_sections(d);
    let last = pass_section(ps.last());
    let all = pass_sections(ps);
    let s = pass_section(ps[k]);
    if k < d.len() {
        law_manifests_describe_every_pass(d, k);
        assert(d[k] == ps[k]);
        lemma_section(ps[k]);
        let i = choose|i: int| text::text_at(before, s, i);
        assert(all.subrange(i, i + s.len()) =~= before.subrange(i, i + s.len()));
        assert(text::text_at(all, s, i));
    } else {
        assert(all.subrange(before.len() as int, all.len() as int) =~= last);
        assert(text::text_at(all, s, before.len() as int));
        lemma_section(ps[k]);
    }
}

proof fn lemma_section(p: PassText)
    ensures
        p.bindings.len() > 0 ==> pass_section(p) == "[render_targets."@ + p.name + "]\nsource = "@ + quoted(p.source)
            + "\nbindings = [\n"@ + text::join(p.bindings, ",\n"@) + "\n]\n\n"@,
        p.bindings.len() == 0 ==> pass_section(p) == "[render_targets."@ + p.name + "]\nsource = "@ + quoted(p.source)
            + "\nbindings = []\n\n"@,
{
    if p.bindings.len() > 0 {
        assert(pass_section(p) =~= "[render_targets."@ + p.name + "]\nsource = "@ + quoted(p.source)
            + "\nbindings = [\n"@ + text::join(p.bindings, ",\n"@) + "\n]\n\n"@);
    }
}

/// The source of every rendered pass is a file of the package, with its calls of the matrix
/// constructor rewritten, and so is the common source, that of the last common pass, where
/// the export has one. The manifest is written last.
pub proof fn law_packages_hold_every_source(export: StExport, ordered: Seq<PassText>, k: int)
    requires
        0 <= k < export.renderpass@.len(),
    ensures
        ({
            let p = export.renderpass@[k];
            let files = package_files(export, ordered);
            &&& p.ptype@ == "image"@ || p.ptype@ == "buffer"@ ==> target_of(p.ptype@, p.name@) is Some && files.contains(
                FileText { name: target_of(p.ptype@, p.name@)->0 + ".glsl"@, contents: patched_from(p.code@, 0) },
            )
            &&& p.ptype@ == "common"@ && (forall|j: int|
                k < j < export.renderpass@.len() ==> (#[trigger] export.renderpass@[j]).ptype@ != "common"@)
                ==> files.contains(FileText { name: "common.glsl"@, contents: patched_from(p.code@, 0) })
                && written_common(export.renderpass@) == Some(patched_from(p.code@, 0))
            &&& files.len() > 0 && files.last() == (FileText {
                name: "manifest.toml"@,
                contents: manifest_of(export.info, ordered),
            })
        }),
{
    reveal_strlit("image");
    reveal_strlit("buffer");
    reveal_strlit("common");
    assert("image"@[0] == 'i' && "buffer"@[0] == 'b' && "common"@[0] == 'c');
    let passes = export.renderpass@;
    let p = passes[k];
    let files = package_files(export, ordered);
    let own = pass_files(passes);
    let first = match common_of(passes) {
        Some(c) => seq![FileText { name: "common.glsl"@, contents: patched_from(c, 0) }],
        None => Seq::<FileText>::empty(),
    };
    if p.ptype@ == "image"@ || p.ptype@ == "buffer"@ {
        lemma_pass_file(passes, k);
        let f = FileText { name: target_of(p.ptype@, p.name@)->0 + ".glsl"@, contents: patched_from(p.code@, 0) };
        let i = choose|i: int| 0 <= i < own.len() && own[i] == f;
        assert(files[first.len() + i] == f);
    }
    if p.ptype@ == "common"@ && (forall|j: int|
        k < j < passes.len() ==> (#[trigger] passes[j]).ptype@ != "common"@) {
        lemma_common(passes, k);
        assert(files[0] == first[0]);
    }
}

proof fn lemma_pass_file(passes: Seq<StPass>, k: int)
    requires
        0 <= k < passes.len(),
        passes[k].ptype@ == "image"@ || passes[k].ptype@ == "buffer"@,
        "image"@ != "common"@ && "buffer"@ != "common"@,
    ensures
        target_of(passes[k].ptype@, passes[k].name@) is Some,
        pass_files(passes).contains(
            FileText {
                name: target_of(passes[k].ptype@, passes[k].name@)->0 + ".glsl"@,
                contents: patched_from(passes[k].code@, 0),
            },
        ),
    decreases passes.len(),
{
    let d = passes.drop_last();
    let f = FileText {
        name: target_of(passes[k].ptype@, passes[k].name@)->0 + ".glsl"@,
        contents: patched_from(passes[k].code@, 0),
    };
    if k < d.len() {
        assert(d[k] == passes[k]);
        lemma_pass_file(d, k);
        let i = choose|i: int| 0 <= i < pass_files(d).len() && pass_files(d)[i] == f;
        assert(pass_files(passes)[i] == f);
    } else {
        assert(passes.last() == passes[k]);
        assert(pass_files(passes)[pass_files(d).len() as int] == f);
    }
}

proof fn lemma_common(passes: Seq<StPass>, k: int)
    requires
        0 <= k < passes.len(),
        passes[k].ptype@ == "common"@,
        forall|j: int| k < j < passes.len() ==> (#[trigger] passes[j]).ptype@ != "common"@,
    ensures
        common_of(passes) == Some(passes[k].code@),
    decreases passes.len(),
{
    if k < passes.len() - 1 {
        let d = passes.drop_last();
        assert(passes[passes.len() - 1].ptype@ != "common"@);
        assert(d[k] == passes[k]);
        assert forall|j: int| k < j < d.len() implies (#[trigger] d[j]).ptype@ != "common"@ by {
            assert(d[j] == passes[j]);
        }
        lemma_common(d, k);
    }
}

/// An export without passes or without an image pass cannot be imported, and says so; any
/// other can, unless one of its passes cannot.
pub proof fn law_exports_need_an_image(export: StExport, assets: Seq<Seq<char>>)
    ensures
        ({
            let ps = export.renderpass@;
            &&& ps.len() == 0 ==> import_error(export, assets) == Some("Shadertoy export has no render passes"@)
            &&& ps.len() > 0 && (forall|i: int| 0 <= i < ps.len() ==> (#[trigger] ps[i]).ptype@ != "image"@)
                ==> import_error(export, assets) == Some("Shadertoy export has no Image pass"@)
            &&& (exists|i: int| 0 <= i < ps.len() && (#[trigger] ps[i]).ptype@ == "image"@) ==> match passes_of(
                ps,
                ps,
                assets,
            ) {
                Err(e) => import_error(export, assets) == Some(e),
                Ok(_) => import_error(export, assets) is None,
            }
        }),
{
}

/// A call of the matrix constructor with a plain argument: it is renamed where the argument
/// has no comma, and left alone where it has one.
pub proof fn law_plain_calls_are_renamed(arg: Seq<char>, rest: Seq<char>)
    requires
        !arg.contains('(') && !arg.contains(')'),
    ensures
        !arg.contains(',') ==> text::begins_with(
            patched_from("mat2("@ + arg + ")"@ + rest, 0),
            "_stm2("@,
        ),
        arg.contains(',') ==> text::begins_with(patched_from("mat2("@ + arg + ")"@ + rest, 0), "mat2"@),
{
    reveal_strlit("mat2(");
    reveal_strlit("mat2");
    reveal_strlit(")");
    reveal_strlit("_stm2(");
    reveal_strlit("_stm2");
    let s = "mat2("@ + arg + ")"@ + rest;
    let word = seq!['m', 'a', 't', '2'];
    let close = 5 + arg.len() as int;
    assert(s.subrange(0, 4) =~= word);
    assert(text::text_at(s, word, 0));
    assert(s[4] == '(');
    assert(after_blanks(s, 4) == 4);
    assert forall|i: int| 5 <= i < close implies s[i] == arg[i - 5] by {
    }
    assert(s[close] == ')');
    lemma_flat_depth(s, 4, close);
    assert(closes(s, 4, close));
    if arg.contains(',') {
        let c = choose|c: int| 0 <= c < arg.len() && arg[c] == ',';
        assert(s[5 + c] == ',');
        assert(paren_depth(s, 4, 5 + c) == 1);
        assert(top_comma(s, 4, close));
        assert forall|k: int| !single_argument_call(s, 0, k) by {
            if single_argument_call(s, 0, k) {
                lemma_closes_unique(s, 4, k, close);
            }
        }
        let p = patched_from(s, 0);
        assert(p =~= word + patched_from(s, 4));
        assert("mat2"@ =~= word);
        assert(p.subrange(0, 4) =~= word);
    } else {
        assert forall|k: int| 4 <= k < close && s[k] == ',' implies #[trigger] paren_depth(s, 4, k) != 1 by {
            if k > 4 {
                assert(arg[k - 5] == ',');
            }
        }
        assert(single_argument_call(s, 0, close));
        let p = patched_from(s, 0);
        assert(p =~= "_stm2"@ + s.subrange(4, 5) + patched_from(s, 5));
        assert(p.subrange(0, 6) =~= "_stm2("@);
    }
}

proof fn lemma_flat_depth(s: Seq<char>, open: int, close: int)
    requires
        0 <= open < close < s.len(),
        s[open] == '(',
        s[close] == ')',
        forall|i: int| open < i < close ==> s[i] != '(' && s[i] != ')',
    ensures
        forall|k: int| open < k <= close ==> #[trigger] paren_depth(s, open, k) == 1,
        paren_depth(s, open, close + 1) == 0,
{
    assert forall|k: int| open < k <= close implies #[trigger] paren_depth(s, open, k) == 1 by {
        lemma_flat_depth_at(s, open, close, k);
    }
    assert(paren_depth(s, open, close) == 1);
}

proof fn lemma_flat_depth_at(s: Seq<char>, open: int, close: int, k: int)
    requires
        0 <= open < k <= close < s.len(),
        s[open] == '(',
        forall|i: int| open < i < close ==> s[i] != '(' && s[i] != ')',
    ensures
        paren_depth(s, open, k) == 1,
    decreases k,
{
    if k > open + 1 {
        lemma_flat_depth_at(s, open, close, k - 1);
    } else {
        assert(paren_depth(s, open, open) == 0);
    }
}

/// What is no call stays: a character that does not begin the word of the constructor is
/// taken over, and so is the word where it is a part of another one.
pub proof fn law_other_words_stay(s: Seq<char>, i: int)
    requires
        0 <= i < s.len(),
    ensures
        !text::text_at(s, seq!['m', 'a', 't', '2'], i) ==> patched_from(s, i) == seq![s[i]] + patched_from(s, i + 1),
        text::text_at(s, seq!['m', 'a', 't', '2'], i) && i > 0 && ('a' <= s[i - 1] <= 'z' || 'A' <= s[i - 1] <= 'Z' || '0'
            <= s[i - 1] <= '9' || s[i - 1] == '_') ==> patched_from(s, i) == seq!['m', 'a', 't', '2'] + patched_from(
            s,
            i + 4,
        ),
{
}

/// What a file holds in the end is what was written to it last.
pub proof fn law_last_write_counts(before: Seq<FileText>, f: FileText, after: Seq<FileText>)
    requires
        forall|i: int| 0 <= i < after.len() ==> (#[trigger] after[i]).name != f.name,
    ensures
        read_back(before.push(f) + after, f.name) == Some(f.contents),
        read_back(after, f.name) is None,
    decreases after.len(),
{
    let all = before.push(f) + after;
    if after.len() > 0 {
        let d = after.drop_last();
        assert(forall|i: int| 0 <= i < d.len() ==> #[trigger] d[i] == after[i]);
        assert(after[after.len() - 1] == after.last());
        law_last_write_counts(before, f, d);
        assert(all.drop_last() =~= before.push(f) + d);
        assert(all.last() == after.last());
    } else {
        assert(all =~= before.push(f));
        assert(all.last() == f);
    }
}

/// A check compiles the pass that it names, as it is written, with the common source in
/// front and the entry point of the pass behind; the image pass is the one that is shown.
pub proof fn law_checks_compile_what_is_written(
    c: PassCheck,
    p: PassText,
    files: Seq<FileText>,
    common: Option<Seq<char>>,
    glsl: Seq<char>,
    ch: int,
)
    requires
        checks_pass(c, p, files, common),
        read_back(files, p.source) == Some(glsl),
        0 <= ch < 4,
    ensures
        c.pass@ == p.name,
        cube_flags(p.bindings).len() == 4,
        cube_flags(p.bindings)[ch] == some_cube(p.bindings, ch as nat),
        ({
            let cube = cube_flags(p.bindings);
            let front = preprocessor::prelude(common, cube) + preprocessor::stripped(glsl);
            &&& p.name == "image"@ ==> c.source@ == front + preprocessor::entry(ShaderStage::Fragment, true)
            &&& p.name != "image"@ ==> c.source@ == front + preprocessor::entry(ShaderStage::Fragment, false)
            &&& c.map.header_newlines == preprocessor::newlines(preprocessor::header(cube))
            &&& c.map.prelude_newlines == preprocessor::newlines(preprocessor::prelude(common, cube))
            &&& c.map.body_lines == preprocessor::newlines(preprocessor::stripped(glsl))
        }),
        common is None ==> !c.map.has_common,
        common matches Some(s) ==> c.map.has_common == (preprocessor::stripped(s).len() > 0),
{
}

/// A package holds the files of the export, is called as the shader, tells its notes, and
/// every one of its passes is checked.
pub proof fn law_packages_are_whole(plan: ImportPlan, export: StExport, assets: Seq<Seq<char>>, i: int)
    requires
        is_package(plan, export, assets),
    ensures
        file_texts(plan.files@) == package_files(export, package_passes(export, assets)),
        plan.report.name@ == shown_name(export.info.name@),
        text::texts(plan.report.warnings@) == package_notes(export, assets),
        plan.checks@.len() == package_passes(export, assets).len(),
        0 <= i < plan.checks@.len() ==> plan.checks@[i].pass@ == package_passes(export, assets)[i].name,
        common_of(export.renderpass@) is None ==> written_common(export.renderpass@) is None,
        common_of(export.renderpass@) matches Some(c) ==> written_common(export.renderpass@) == Some(
            patched_from(c, 0),
        ),
{
    if 0 <= i < plan.checks@.len() {
        assert(checks_pass(
            plan.checks@[i],
            package_passes(export, assets)[i],
            package_files(export, package_passes(export, assets)),
            written_common(export.renderpass@),
        ));
    }
}

/// An input that cannot be used is told with its pass or its file, and with the reason.
pub proof fn law_reasons_are_told(
    pass: Seq<char>,
    inp: StInput,
    passes: Seq<StPass>,
    assets: Seq<Seq<char>>,
    g: nat,
)
    ensures
        ({
            let r = input_of(pass, inp, passes, assets);
            let ch = text::decimal(inp.channel as nat);
            let kind = inp.itype@;
            let known = kind == "texture"@ || kind == "cubemap"@ || kind == "buffer"@ || kind == "music"@ || kind
                == "musicstream"@ || kind == "mic"@;
            &&& inp.channel >= 4 ==> r == InputText::Note(pass + ": ignoring input on channel "@ + ch + " (>3)"@)
            &&& inp.channel < 4 && kind == "buffer"@ && buffer_of(passes, key_of(inp.id)) is None ==> r
                == InputText::Note(
                pass + ": channel "@ + ch + " references unknown buffer (id "@ + key_of(inp.id) + "); left unbound"@,
            )
            &&& inp.channel < 4 && !known ==> r == InputText::Note(
                pass + ": channel "@ + ch + " input type '"@ + kind + "' is unsupported; left unbound"@,
            )
            &&& inp.channel < 4 && kind == "texture"@ && base_of(inp.filepath@) is None ==> r == InputText::Fail(
                pass + ": texture input has no filepath"@,
            )
            &&& inp.channel < 4 && kind == "cubemap"@ && base_of(inp.filepath@) is None ==> r == InputText::Fail(
                pass + ": cubemap input has no filepath"@,
            )
            &&& base_of(inp.filepath@) matches Some(f) ==> {
                &&& inp.channel < 4 && kind == "texture"@ && !assets.contains(f) ==> r == InputText::Fail(
                    "Required texture '"@ + f + "' isn't in the Strata-Library asset directory"@,
                )
                &&& inp.channel < 4 && kind == "cubemap"@ && !f.contains('.') ==> r == InputText::Fail(
                    "cubemap '"@ + f + "' has no extension"@,
                )
                &&& inp.channel < 4 && kind == "cubemap"@ && f.contains('.') && !assets.contains(f) ==> r
                    == InputText::Fail(
                    "Required texture '"@ + f + "' isn't in the Strata-Library asset directory"@,
                )
                &&& inp.channel < 4 && kind == "cubemap"@ && f.contains('.') && assets.contains(f) && 1 <= g <= 5
                    && !assets.contains(face_of(f, g)) && (forall|k: nat|
                    1 <= k < g ==> assets.contains(#[trigger] face_of(f, k))) ==> r == InputText::Fail(
                    "cubemap '"@ + f + "' is missing face "@ + face_of(f, g) + " in the asset directory"@,
                )
            }
        }),
{
    lemma_kinds();
    reveal_with_fuel(missing_face, 6);
    if let Some(f) = base_of(inp.filepath@) {
        if f.contains('.') {
            lemma_dot_found(f);
        } else {
            text::law_missing_character_has_no_index(f, '.');
        }
        if forall|k: nat| 1 <= k < g ==> assets.contains(#[trigger] face_of(f, k)) {
            if 1 < g {
                assert(assets.contains(face_of(f, 1)));
            }
            if 2 < g {
                assert(assets.contains(face_of(f, 2)));
            }
            if 3 < g {
                assert(assets.contains(face_of(f, 3)));
            }
            if 4 < g {
                assert(assets.contains(face_of(f, 4)));
            }
        }
    }
}

} // verus!
