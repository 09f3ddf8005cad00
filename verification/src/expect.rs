//! Values that are expected of a payload, as test vectors write them.
use crate::json::{
    integer_at, items_at, json_integer, json_items, json_text, json_written, text_at, texts,
    written_at,
};
use crate::payload::{Meaning, Value};
use crate::text::{bytes_to_hex, hex_of, number_text, number_text_of, same_text};
use vstd::prelude::*;

verus! {

/// An expected place, in the units of `Value::Geo`. A coordinate is missing
/// where it is that of no place that a payload can give.
#[derive(Clone, Copy, Debug)]
pub struct Place {
    /// The latitude.
    pub lat: Option<u32>,
    /// The longitude.
    pub lon: Option<u32>,
    /// The altitude in meters.
    pub alt_m: i64,
}

/// Whether a value is the expected one, which is written in JSON: the object
/// holds a number under the key `int`, bytes in hexadecimal under `hex`, or
/// under `list` the three coordinates of a place or a namespace and a number.
/// The coordinates are given, for those in the text are in degrees.
pub open spec fn meets(value: Meaning, want: Seq<char>, place: Place) -> bool {
    match (json_written(want, "/int"@), json_written(want, "/hex"@), json_items(want, "/list"@)) {
        (Some(digits), _, _) => value matches Meaning::Int(v) && number_text_of(v, 10) == digits,
        (None, Some(_), _) => value matches Meaning::Bytes(b) && json_text(want, "/hex"@) == Some(
            hex_of(b),
        ),
        (None, None, Some(list)) => match value {
            Meaning::Geo { lat, lon, alt_m } => {
                &&& list.len() == 3
                &&& place.lat matches Some(x) && x == lat
                &&& place.lon matches Some(y) && y == lon
                &&& place.alt_m == alt_m
            },
            Meaning::Tagged { namespace, id } => {
                &&& list.len() == 2
                &&& json_integer(list[0], ""@) == Some(namespace as i64)
                &&& number_text_of(id, 10) == list[1]
            },
            _ => false,
        },
        (None, None, None) => false,
    }
}

/// Whether a coordinate is the expected one.
fn same_coordinate(got: u32, want: Option<u32>) -> (b: bool)
    ensures
        b == (want == Some(got)),
{
    match want {
        Some(w) => w == got,
        None => false,
    }
}

/// Whether a value is the expected one, which is written in JSON.
pub fn value_matches(value: &Value, want: &str, place: &Place) -> (b: bool)
    ensures
        b == meets(value@, want@, *place),
{
    if let Some(digits) = written_at(want, "/int") {
        return match value {
            Value::Int(v) => same_text(number_text(*v, 10).as_str(), digits.as_str()),
            _ => false,
        };
    }
    if let Some(_) = written_at(want, "/hex") {
        let digits = text_at(want, "/hex");
        return match (value, digits) {
            (Value::Bytes(b), Some(digits)) => {
                same_text(bytes_to_hex(b).as_str(), digits.as_str())
            },
            _ => false,
        };
    }
    let list = match items_at(want, "/list") {
        Some(list) => list,
        None => return false,
    };
    match value {
        Value::Geo { lat, lon, alt_m } => {
            list.len() == 3 && same_coordinate(*lat, place.lat) && same_coordinate(*lon, place.lon)
                && place.alt_m == *alt_m as i64
        },
        Value::Tagged { namespace, id } => {
            if list.len() != 2 {
                return false;
            }
            assert(texts(list@)[0] == list@[0]@ && texts(list@)[1] == list@[1]@);
            let same = match integer_at(list[0].as_str(), "") {
                Some(n) => n == *namespace as i64,
                None => false,
            };
            same && same_text(number_text(*id, 10).as_str(), list[1].as_str())
        },
        _ => false,
    }
}

} // verus!
