//! The header of a frame that is handed in for detection: one line of JSON,
//! followed by the pixels.
use crate::json::{
    flag_at, items_at, json_flag, json_items, json_text, json_whole, text_at, texts, whole_at,
};
use crate::marker::{by_name, default_variants, parameters_of, MarkerSpec, Parameters};
use crate::registry::{are, default_parameters, parameters_named, variants_named};
use crate::text::{fields, same_text};
use vstd::prelude::*;

verus! {

/// What the elements of a list are as text, where they are.
pub open spec fn listed_texts(items: Seq<Seq<char>>) -> Seq<Option<Seq<char>>> {
    Seq::new(items.len(), |i: int| json_text(items[i], ""@))
}

/// The list of names in a header.
pub open spec fn listed_names(line: Seq<char>) -> Option<Seq<Option<Seq<char>>>> {
    match json_items(line, "/versions"@) {
        Some(items) => Some(listed_texts(items)),
        None => None,
    }
}

/// Strings that may be missing, as sequences.
pub open spec fn seqs_of(v: Seq<Option<String>>) -> Seq<Option<Seq<char>>> {
    Seq::new(
        v.len(),
        |i: int|
            match v[i] {
                Some(s) => Some(s@),
                None => None,
            },
    )
}

/// The list of names in a header.
fn names_listed(line: &str) -> (r: Option<Vec<Option<String>>>)
    ensures
        match r {
            Some(v) => listed_names(line@) == Some(seqs_of(v@)),
            None => listed_names(line@) is None,
        },
{
    let items = match items_at(line, "/versions") {
        Some(items) => items,
        None => return None,
    };
    let n = items.len();
    let mut v: Vec<Option<String>> = Vec::new();
    let mut i: usize = 0;
    while i < n
        invariant
            n == items@.len(),
            i <= n,
            v@.len() == i,
            forall|k: int|
                0 <= k < i ==> seqs_of(v@)[k] == #[trigger] json_text(texts(items@)[k], ""@),
        decreases n - i,
    {
        let ghost before = v@;
        let name = text_at(items[i].as_str(), "");
        v.push(name);
        assert(forall|k: int| 0 <= k < i ==> seqs_of(v@)[k] == seqs_of(before)[k]);
        i += 1;
    }
    assert(seqs_of(v@) =~= listed_texts(texts(items@)));
    Some(v)
}

/// What a header asks for.
#[derive(Debug)]
pub struct Header {
    /// The width of the frame.
    pub w: usize,
    /// The height of the frame.
    pub h: usize,
    /// The variants to look for.
    pub variants: Vec<MarkerSpec>,
    /// Whether candidates are kept apart and poses reported, rather than tags
    /// alone.
    pub markers: bool,
    /// Whether candidates without a tag are reported.
    pub pose_only: bool,
}

/// The parameters of the variants that the first `n` entries of a list name.
/// Entries that are no text or name none are passed over.
pub open spec fn parameters_listed(list: Seq<Option<Seq<char>>>, n: nat) -> Seq<Parameters>
    decreases n,
{
    if n == 0 {
        seq![]
    } else {
        let before = parameters_listed(list, (n - 1) as nat);
        match list[n - 1] {
            Some(name) => match parameters_of(name) {
                Some(p) => before.push(p),
                None => before,
            },
            None => before,
        }
    }
}

/// The parameters of the variants to look for: those named in a text or a
/// list, and the default ones where there is neither.
pub open spec fn requested(
    text: Option<Seq<char>>,
    list: Option<Seq<Option<Seq<char>>>>,
) -> Seq<Parameters> {
    match (text, list) {
        (Some(s), _) => if s.len() > 0 && s != "auto"@ {
            parameters_named(fields(s), fields(s).len())
        } else {
            default_parameters()
        },
        (None, Some(l)) => parameters_listed(l, l.len()),
        (None, None) => default_parameters(),
    }
}

/// The variants to look for.
pub fn requested_variants(text: Option<&str>, list: Option<&Vec<Option<String>>>) -> (r: Vec<
    MarkerSpec,
>)
    ensures
        are(
            r@,
            requested(
                match text {
                    Some(s) => Some(s@),
                    None => None,
                },
                match list {
                    Some(v) => Some(seqs_of(v@)),
                    None => None,
                },
            ),
        ),
{
    if let Some(s) = text {
        if s.unicode_len() > 0 && !same_text(s, "auto") {
            return variants_named(s);
        }
        return default_variants();
    }
    if let Some(v) = list {
        let n = v.len();
        let mut r: Vec<MarkerSpec> = Vec::new();
        let mut i: usize = 0;
        while i < n
            invariant
                n == v@.len(),
                i <= n,
                are(r@, parameters_listed(seqs_of(v@), i as nat)),
            decreases n - i,
        {
            if let Some(name) = &v[i] {
                if let Some(m) = by_name(name.as_str()) {
                    r.push(m);
                }
            }
            i += 1;
        }
        return r;
    }
    default_variants()
}

/// Whether a size can be that of a frame: its pixels can be counted.
pub open spec fn size_ok(w: int, h: int) -> bool {
    w <= usize::MAX && h <= usize::MAX && w * h <= usize::MAX
}

/// A size that can be that of a frame.
fn frame_size(w: u64, h: u64) -> (r: Option<(usize, usize)>)
    ensures
        match r {
            Some(s) => size_ok(w as int, h as int) && s.0 == w && s.1 == h,
            None => !size_ok(w as int, h as int),
        },
{
    let most: u64 = usize::MAX as u64;
    if w > most || h > most {
        return None;
    }
    let (w, h) = (w as usize, h as usize);
    match w.checked_mul(h) {
        Some(_) => Some((w, h)),
        None => None,
    }
}

/// The header in a line of text. None where it gives no size that a frame can
/// have.
pub fn parse_header(line: &str) -> (r: Option<Header>)
    ensures
        match (json_whole(line@, "/w"@), json_whole(line@, "/h"@)) {
            (Some(w), Some(h)) => if size_ok(w as int, h as int) {
                r matches Some(header) && {
                    &&& header.w == w
                    &&& header.h == h
                    &&& are(
                        header.variants@,
                        requested(json_text(line@, "/versions"@), listed_names(line@)),
                    )
                    &&& header.markers == (json_text(line@, "/mode"@) == Some("markers"@))
                    &&& header.pose_only == match json_flag(line@, "/pose_only"@) {
                        Some(b) => b,
                        None => true,
                    }
                }
            } else {
                r is None
            },
            _ => r is None,
        },
{
    let w = match whole_at(line, "/w") {
        Some(w) => w,
        None => return None,
    };
    let h = match whole_at(line, "/h") {
        Some(h) => h,
        None => return None,
    };
    let (w, h) = match frame_size(w, h) {
        Some(size) => size,
        None => return None,
    };
    let text = text_at(line, "/versions");
    let list = names_listed(line);
    let text_ref: Option<&str> = match &text {
        Some(s) => Some(s.as_str()),
        None => None,
    };
    let list_ref: Option<&Vec<Option<String>>> = match &list {
        Some(v) => Some(v),
        None => None,
    };
    let variants = requested_variants(text_ref, list_ref);
    let markers = match text_at(line, "/mode") {
        Some(s) => same_text(s.as_str(), "markers"),
        None => false,
    };
    let pose_only = match flag_at(line, "/pose_only") {
        Some(b) => b,
        None => true,
    };
    Some(Header { w, h, variants, markers, pose_only })
}

} // verus!
