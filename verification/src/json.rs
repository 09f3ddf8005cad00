//! Values in JSON texts.
//!
//! A value is found by its path, a JSON pointer: `/a/0` is the first element
//! of the list under the key `a`, and the empty path is the whole text.
use crate::seqs::{all_read, lemma_read_on};
use vstd::prelude::*;

verus! {

/// What `serde_json::Value::as_array` gives at a path of a text, each element
/// written as text by `to_string`. None too where the text is no JSON.
pub uninterp spec fn json_items(text: Seq<char>, path: Seq<char>) -> Option<Seq<Seq<char>>>;

/// What `serde_json::Value::as_str` gives at a path of a text.
pub uninterp spec fn json_text(text: Seq<char>, path: Seq<char>) -> Option<Seq<char>>;

/// What `serde_json::Value::as_u64` gives at a path of a text.
pub uninterp spec fn json_whole(text: Seq<char>, path: Seq<char>) -> Option<u64>;

/// What `serde_json::Value::as_i64` gives at a path of a text.
pub uninterp spec fn json_integer(text: Seq<char>, path: Seq<char>) -> Option<i64>;

/// What `serde_json::Value::as_bool` gives at a path of a text.
pub uninterp spec fn json_flag(text: Seq<char>, path: Seq<char>) -> Option<bool>;

/// What `serde_json::Value::to_string` gives at a path of a text.
pub uninterp spec fn json_written(text: Seq<char>, path: Seq<char>) -> Option<Seq<char>>;

/// Strings as sequences.
pub open spec fn texts(v: Seq<String>) -> Seq<Seq<char>> {
    Seq::new(v.len(), |i: int| v[i]@)
}

/// Calls `serde_json::from_str`, `serde_json::Value::pointer`, `as_array`, and
/// on each element `to_string`. Trusted: the result is a function of the text
/// and the path, here named `json_items`.
#[verifier::external_body]
pub(crate) fn items_at(text: &str, path: &str) -> (r: Option<Vec<String>>)
    ensures
        match r {
            Some(v) => json_items(text@, path@) == Some(texts(v@)),
            None => json_items(text@, path@) is None,
        },
{
    let value: serde_json::Value = serde_json::from_str(text).ok()?;
    let items = value.pointer(path)?.as_array()?;
    Some(items.iter().map(|item| item.to_string()).collect())
}

/// Calls `serde_json::from_str`, `serde_json::Value::pointer` and `as_str`.
/// Trusted: the result is a function of the text and the path, here named
/// `json_text`.
#[verifier::external_body]
pub(crate) fn text_at(text: &str, path: &str) -> (r: Option<String>)
    ensures
        match r {
            Some(s) => json_text(text@, path@) == Some(s@),
            None => json_text(text@, path@) is None,
        },
{
    let value: serde_json::Value = serde_json::from_str(text).ok()?;
    value.pointer(path)?.as_str().map(String::from)
}

/// Calls `serde_json::from_str`, `serde_json::Value::pointer` and `as_u64`.
/// Trusted: the result is a function of the text and the path, here named
/// `json_whole`.
#[verifier::external_body]
pub(crate) fn whole_at(text: &str, path: &str) -> (r: Option<u64>)
    ensures
        r == json_whole(text@, path@),
{
    serde_json::from_str::<serde_json::Value>(text).ok()?.pointer(path)?.as_u64()
}

/// Calls `serde_json::from_str`, `serde_json::Value::pointer` and `as_i64`.
/// Trusted: the result is a function of the text and the path, here named
/// `json_integer`.
#[verifier::external_body]
pub(crate) fn integer_at(text: &str, path: &str) -> (r: Option<i64>)
    ensures
        r == json_integer(text@, path@),
{
    serde_json::from_str::<serde_json::Value>(text).ok()?.pointer(path)?.as_i64()
}

/// Calls `serde_json::from_str`, `serde_json::Value::pointer` and `as_bool`.
/// Trusted: the result is a function of the text and the path, here named
/// `json_flag`.
#[verifier::external_body]
pub(crate) fn flag_at(text: &str, path: &str) -> (r: Option<bool>)
    ensures
        r == json_flag(text@, path@),
{
    serde_json::from_str::<serde_json::Value>(text).ok()?.pointer(path)?.as_bool()
}

/// Calls `serde_json::from_str`, `serde_json::Value::pointer` and `to_string`.
/// Trusted: the result is a function of the text and the path, here named
/// `json_written`.
#[verifier::external_body]
pub(crate) fn written_at(text: &str, path: &str) -> (r: Option<String>)
    ensures
        match r {
            Some(s) => json_written(text@, path@) == Some(s@),
            None => json_written(text@, path@) is None,
        },
{
    let value: serde_json::Value = serde_json::from_str(text).ok()?;
    value.pointer(path).map(|part| part.to_string())
}

/// The whole number that a text writes.
pub open spec fn whole_read() -> spec_fn(Seq<char>) -> Option<u64> {
    |s: Seq<char>| json_whole(s, ""@)
}

/// The list of whole numbers at a path.
pub open spec fn json_wholes(text: Seq<char>, path: Seq<char>) -> Option<Seq<u64>> {
    match json_items(text, path) {
        Some(items) => all_read(items, whole_read()),
        None => None,
    }
}

/// The list of whole numbers at a path.
pub fn wholes_at(text: &str, path: &str) -> (r: Option<Vec<u64>>)
    ensures
        match r {
            Some(v) => json_wholes(text@, path@) == Some(v@),
            None => json_wholes(text@, path@) is None,
        },
{
    let items = match items_at(text, path) {
        Some(items) => items,
        None => return None,
    };
    let n = items.len();
    let mut v: Vec<u64> = Vec::new();
    let mut i: usize = 0;
    assert(texts(items@).take(0) =~= seq![]);
    assert(v@ =~= seq![]);
    while i < n
        invariant
            n == items@.len(),
            json_items(text@, path@) == Some(texts(items@)),
            i <= n,
            all_read(texts(items@).take(i as int), whole_read()) == Some(v@),
        decreases n - i,
    {
        proof {
            lemma_read_on(texts(items@), whole_read(), i as int);
        }
        match whole_at(items[i].as_str(), "") {
            Some(x) => v.push(x),
            None => return None,
        }
        i += 1;
    }
    assert(texts(items@).take(n as int) =~= texts(items@));
    Some(v)
}

/// The integer that a text writes.
pub open spec fn integer_read() -> spec_fn(Seq<char>) -> Option<i64> {
    |s: Seq<char>| json_integer(s, ""@)
}

/// The list of integers at a path.
pub open spec fn json_integers(text: Seq<char>, path: Seq<char>) -> Option<Seq<i64>> {
    match json_items(text, path) {
        Some(items) => all_read(items, integer_read()),
        None => None,
    }
}

/// The list of integers at a path.
pub fn integers_at(text: &str, path: &str) -> (r: Option<Vec<i64>>)
    ensures
        match r {
            Some(v) => json_integers(text@, path@) == Some(v@),
            None => json_integers(text@, path@) is None,
        },
{
    let items = match items_at(text, path) {
        Some(items) => items,
        None => return None,
    };
    let n = items.len();
    let mut v: Vec<i64> = Vec::new();
    let mut i: usize = 0;
    assert(texts(items@).take(0) =~= seq![]);
    assert(v@ =~= seq![]);
    while i < n
        invariant
            n == items@.len(),
            json_items(text@, path@) == Some(texts(items@)),
            i <= n,
            all_read(texts(items@).take(i as int), integer_read()) == Some(v@),
        decreases n - i,
    {
        proof {
            lemma_read_on(texts(items@), integer_read(), i as int);
        }
        match integer_at(items[i].as_str(), "") {
            Some(x) => v.push(x),
            None => return None,
        }
        i += 1;
    }
    assert(texts(items@).take(n as int) =~= texts(items@));
    Some(v)
}

/// The string that a text writes.
pub open spec fn text_read() -> spec_fn(Seq<char>) -> Option<Seq<char>> {
    |s: Seq<char>| json_text(s, ""@)
}

/// The list of strings at a path.
pub open spec fn json_texts(text: Seq<char>, path: Seq<char>) -> Option<Seq<Seq<char>>> {
    match json_items(text, path) {
        Some(items) => all_read(items, text_read()),
        None => None,
    }
}

/// The list of strings at a path.
pub fn texts_at(text: &str, path: &str) -> (r: Option<Vec<String>>)
    ensures
        match r {
            Some(v) => json_texts(text@, path@) == Some(texts(v@)),
            None => json_texts(text@, path@) is None,
        },
{
    let items = match items_at(text, path) {
        Some(items) => items,
        None => return None,
    };
    let n = items.len();
    let mut v: Vec<String> = Vec::new();
    let mut i: usize = 0;
    assert(texts(items@).take(0) =~= seq![]);
    assert(texts(v@) =~= seq![]);
    while i < n
        invariant
            n == items@.len(),
            json_items(text@, path@) == Some(texts(items@)),
            i <= n,
            all_read(texts(items@).take(i as int), text_read()) == Some(texts(v@)),
        decreases n - i,
    {
        proof {
            lemma_read_on(texts(items@), text_read(), i as int);
        }
        let ghost before = texts(v@);
        match text_at(items[i].as_str(), "") {
            Some(x) => {
                v.push(x);
                assert(texts(v@) =~= before.push(x@));
            },
            None => return None,
        }
        i += 1;
    }
    assert(texts(items@).take(n as int) =~= texts(items@));
    Some(v)
}

/// Whether there is nothing at a path, or the value `null`.
pub open spec fn json_nothing(text: Seq<char>, path: Seq<char>) -> bool {
    match json_written(text, path) {
        Some(s) => s == "null"@,
        None => true,
    }
}

/// Whether there is nothing at a path, or the value `null`.
pub fn nothing_at(text: &str, path: &str) -> (b: bool)
    ensures
        b == json_nothing(text@, path@),
{
    match written_at(text, path) {
        Some(s) => crate::text::same_text(s.as_str(), "null"),
        None => true,
    }
}

} // verus!
