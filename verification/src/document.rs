//! Documents in JSON and TOML, as far as the library reads them: fields that hold a
//! text, and lists of such records.
use vstd::prelude::*;
use crate::text;

verus! {

/// A JSON document.
#[verifier::external_type_specification]
#[verifier::external_body]
pub struct ExJsonDocument(serde_json::Value);

/// A TOML document.
#[verifier::external_type_specification]
#[verifier::external_body]
pub struct ExTomlDocument(toml::Value);

/// The fields of a JSON document that hold a text; a document that is no object has
/// none.
pub uninterp spec fn json_fields(v: serde_json::Value) -> Map<Seq<char>, Seq<char>>;

/// The elements of a JSON document that is a list, each by its fields that hold a
/// text; missing for a document that is no list.
pub uninterp spec fn json_rows(v: serde_json::Value) -> Option<Seq<Map<Seq<char>, Seq<char>>>>;

/// The lists of a TOML document by their keys, each element by its fields that hold a
/// text.
pub uninterp spec fn toml_rows(v: toml::Value) -> Map<Seq<char>, Seq<Map<Seq<char>, Seq<char>>>>;

/// What `serde_json::from_str` makes of a text: the fields and the rows of the
/// document, or the message of the error.
pub uninterp spec fn json_document(s: Seq<char>) -> Result<
    (Map<Seq<char>, Seq<char>>, Option<Seq<Map<Seq<char>, Seq<char>>>>),
    Seq<char>,
>;

/// What `toml::from_str` makes of a text: the lists of the document, if it is one.
pub uninterp spec fn toml_document(s: Seq<char>) -> Option<Map<Seq<char>, Seq<Map<Seq<char>, Seq<char>>>>>;

/// The text under a key.
pub open spec fn under(m: Map<Seq<char>, Seq<char>>, key: Seq<char>) -> Option<Seq<char>> {
    if m.contains_key(key) {
        Some(m[key])
    } else {
        None
    }
}

/// The list under a key; none where there is no such list.
pub open spec fn rows_under(
    m: Map<Seq<char>, Seq<Map<Seq<char>, Seq<char>>>>,
    key: Seq<char>,
) -> Seq<Map<Seq<char>, Seq<char>>> {
    if m.contains_key(key) {
        m[key]
    } else {
        Seq::empty()
    }
}

/// Calls `serde_json::from_str`. The result depends on the text alone: a document with
/// the fields and rows that `json_document` names, or the message of the error.
#[verifier::external_body]
pub(crate) fn parse_json(s: &str) -> (r: Result<serde_json::Value, String>)
    ensures
        match r {
            Ok(v) => json_document(s@) == Ok::<_, Seq<char>>((json_fields(v), json_rows(v))),
            Err(e) => json_document(s@) == Err::<
                (Map<Seq<char>, Seq<char>>, Option<Seq<Map<Seq<char>, Seq<char>>>>),
                _,
            >(e@),
        },
{
    serde_json::from_str::<serde_json::Value>(s).map_err(|e| e.to_string())
}

/// Calls `serde_json::Value::get` with a key and `as_str` on what it gives: the text in
/// that field, if the document is an object and the field holds a text.
#[verifier::external_body]
pub(crate) fn json_field(v: &serde_json::Value, key: &str) -> (r: Option<String>)
    ensures
        text::opt_text(r) == under(json_fields(*v), key@),
{
    v.get(key).and_then(|x| x.as_str()).map(|x| x.to_owned())
}

/// Calls `serde_json::Value::as_array`: the number of elements, if the document is a
/// list.
#[verifier::external_body]
pub(crate) fn json_row_count(v: &serde_json::Value) -> (r: Option<usize>)
    ensures
        match r {
            Some(n) => json_rows(*v) matches Some(rows) && rows.len() == n,
            None => json_rows(*v) is None,
        },
{
    v.as_array().map(|a| a.len())
}

/// Calls `serde_json::Value::get` with an index, and then with a key, and `as_str` on
/// what it gives: the text in a field of an element of a list.
#[verifier::external_body]
pub(crate) fn json_row_field(v: &serde_json::Value, i: usize, key: &str) -> (r: Option<String>)
    requires
        json_rows(*v) matches Some(rows) && i < rows.len(),
    ensures
        text::opt_text(r) == under(json_rows(*v)->0[i as int], key@),
{
    v.get(i).and_then(|row| row.get(key)).and_then(|x| x.as_str()).map(|x| x.to_owned())
}

/// Calls `toml::from_str`. The result depends on the text alone: a document with the
/// lists that `toml_document` names, or none where the text is no document.
#[verifier::external_body]
pub(crate) fn parse_toml(s: &str) -> (r: Option<toml::Value>)
    ensures
        match r {
            Some(v) => toml_document(s@) == Some(toml_rows(v)),
            None => toml_document(s@) is None,
        },
{
    toml::from_str::<toml::Value>(s).ok()
}

/// Calls `toml::Value::get` with a key and `as_array` on what it gives: the number of
/// elements of the list under the key, zero where there is none.
#[verifier::external_body]
pub(crate) fn toml_row_count(v: &toml::Value, key: &str) -> (r: usize)
    ensures
        r == rows_under(toml_rows(*v), key@).len(),
{
    v.get(key).and_then(|x| x.as_array()).map_or(0, |a| a.len())
}

/// Calls `toml::Value::get` with a key, an index and a field, and `as_str` on what it
/// gives: the text in a field of an element of a list.
#[verifier::external_body]
pub(crate) fn toml_row_field(v: &toml::Value, key: &str, i: usize, field: &str) -> (r: Option<String>)
    requires
        i < rows_under(toml_rows(*v), key@).len(),
    ensures
        text::opt_text(r) == under(rows_under(toml_rows(*v), key@)[i as int], field@),
{
    v.get(key).and_then(|x| x.get(i)).and_then(|x| x.get(field)).and_then(|x| x.as_str()).map(|x| x.to_owned())
}

/// What stands under a key is found there, and nothing where there is no such key.
pub proof fn law_fields_stand_under_their_key(
    m: Map<Seq<char>, Seq<char>>,
    rows: Map<Seq<char>, Seq<Map<Seq<char>, Seq<char>>>>,
    key: Seq<char>,
    value: Seq<char>,
    list: Seq<Map<Seq<char>, Seq<char>>>,
)
    ensures
        under(m.insert(key, value), key) == Some(value),
        under(m.remove(key), key) is None,
        rows_under(rows.insert(key, list), key) == list,
        rows_under(rows.remove(key), key).len() == 0,
{
}

} // verus!
