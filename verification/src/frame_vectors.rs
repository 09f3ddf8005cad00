//! Test vectors of whole frames: the variants that are looked for, and the
//! tags that are found.
use crate::expect::{meets, value_matches, Place};
use crate::json::{
    flag_at, items_at, json_flag, json_items, json_text, json_texts, json_written, text_at, texts,
    texts_at, written_at,
};
use crate::marker::{by_name, default_variants, parameters_of, MarkerSpec, Parameters};
use crate::payload::Value;
use crate::registry::{are, default_parameters};
use crate::seqs::{all_read, lemma_read_on};
use crate::text::same_text;
use vstd::prelude::*;

verus! {

/// The parameters of the variant with a name.
pub open spec fn named() -> spec_fn(Seq<char>) -> Option<Parameters> {
    |name: Seq<char>| parameters_of(name)
}

/// The parameters of variants by their names, where all are names of variants.
pub open spec fn all_parameters(names: Seq<Seq<char>>) -> Option<Seq<Parameters>> {
    all_read(names, named())
}

/// The parameters of the variants that are looked for in a frame: the one that
/// `versions` names, those that it lists, or the default ones. None where a
/// name is that of no variant.
pub open spec fn frame_parameters(entry: Seq<char>) -> Option<Seq<Parameters>> {
    match (json_text(entry, "/versions"@), json_items(entry, "/versions"@)) {
        (Some(name), _) => all_parameters(seq![name]),
        (None, Some(_)) => match json_texts(entry, "/versions"@) {
            Some(names) => all_parameters(names),
            None => None,
        },
        (None, None) => Some(default_parameters()),
    }
}

/// The variants with some names.
fn variants_with_names(names: &Vec<String>) -> (r: Option<Vec<MarkerSpec>>)
    ensures
        match all_parameters(texts(names@)) {
            Some(p) => r matches Some(v) && are(v@, p),
            None => r is None,
        },
{
    let n = names.len();
    let mut v: Vec<MarkerSpec> = Vec::new();
    let mut i: usize = 0;
    assert(texts(names@).take(0) =~= seq![]);
    while i < n
        invariant
            n == names@.len(),
            i <= n,
            all_read(texts(names@).take(i as int), named()) matches Some(p) && are(v@, p),
        decreases n - i,
    {
        proof {
            lemma_read_on(texts(names@), named(), i as int);
        }
        match by_name(names[i].as_str()) {
            Some(m) => v.push(m),
            None => return None,
        }
        i += 1;
    }
    assert(texts(names@).take(n as int) =~= texts(names@));
    Some(v)
}

/// The variants that are looked for in a frame.
pub fn frame_variants(entry: &str) -> (r: Option<Vec<MarkerSpec>>)
    ensures
        match frame_parameters(entry@) {
            Some(p) => r matches Some(v) && are(v@, p),
            None => r is None,
        },
{
    if let Some(name) = text_at(entry, "/versions") {
        let mut names: Vec<String> = Vec::new();
        let ghost alone = seq![name@];
        names.push(name);
        assert(texts(names@) =~= alone);
        return variants_with_names(&names);
    }
    if let Some(_) = items_at(entry, "/versions") {
        return match texts_at(entry, "/versions") {
            Some(names) => variants_with_names(&names),
            None => None,
        };
    }
    Some(default_variants())
}

/// A tag that was found.
pub struct Tag<'a> {
    /// The name of its variant.
    pub variant: &'a str,
    /// The mode of its payload.
    pub mode: &'a str,
    /// The value of its payload.
    pub value: &'a Value,
    /// Whether it is light on dark.
    pub inverted: bool,
}

/// Whether a tag is expected: always where every expected detection is one,
/// and otherwise where it is `decoded`.
pub open spec fn expects_tag(want: Seq<char>, all_tags: bool) -> bool {
    all_tags || json_flag(want, "/decoded"@) == Some(true)
}

/// Whether what was found is what is expected: no tag where none is, and
/// otherwise one of the variant `variant` in the mode `mode` with the value
/// `value`. Where every expected detection is a tag, its polarity `inverted`
/// counts too.
pub open spec fn tag_meets(found: Option<Tag>, want: Seq<char>, all_tags: bool, place: Place) -> bool {
    match found {
        None => !expects_tag(want, all_tags),
        Some(tag) => {
            &&& expects_tag(want, all_tags)
            &&& json_text(want, "/variant"@) == Some(tag.variant@)
            &&& json_text(want, "/mode"@) == Some(tag.mode@)
            &&& json_written(want, "/value"@) matches Some(value) && meets(tag.value@, value, place)
            &&& all_tags ==> json_flag(want, "/inverted"@) == Some(tag.inverted)
        },
    }
}

/// Whether a member is a text.
fn text_is(want: &str, path: &str, s: &str) -> (b: bool)
    ensures
        b == (json_text(want@, path@) == Some(s@)),
{
    match text_at(want, path) {
        Some(t) => same_text(t.as_str(), s),
        None => false,
    }
}

/// Whether what was found is what is expected.
pub fn tag_matches(found: Option<Tag>, want: &str, all_tags: bool, place: &Place) -> (b: bool)
    ensures
        b == tag_meets(found, want@, all_tags, *place),
{
    let expected = all_tags || match flag_at(want, "/decoded") {
        Some(b) => b,
        None => false,
    };
    match found {
        None => !expected,
        Some(tag) => {
            let same_value = match written_at(want, "/value") {
                Some(value) => value_matches(tag.value, value.as_str(), place),
                None => false,
            };
            let same_polarity = !all_tags || match flag_at(want, "/inverted") {
                Some(b) => b == tag.inverted,
                None => false,
            };
            expected && text_is(want, "/variant", tag.variant) && text_is(want, "/mode", tag.mode)
                && same_value && same_polarity
        },
    }
}

} // verus!
