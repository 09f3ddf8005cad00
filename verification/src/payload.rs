//! Payload modes. A payload starts with a header byte, the format version in
//! its high and the mode in its low half; the variants without headers hold a
//! bare number. Mode 2 is reserved.
use crate::codec::lemma_sizes;
use crate::digits::{
    all_digits, digits, from_digits, lemma_digits_of_value, lemma_power_monotonic, lemma_powers,
    power, to_digits, value,
};
use crate::marker::MarkerSpec;
use crate::seqs::copied;
use crate::text::{number_text, number_text_of};
use vstd::prelude::*;

verus! {

pub const VERSION: u8 = 0;

pub const MODE_ID: u8 = 0;

pub const MODE_GEO: u8 = 1;

pub const MODE_RAW: u8 = 3;

pub const MODE_TAGGED: u8 = 4;

/// The largest latitude, in units of 1e-7 degrees north of the south pole.
pub const MAX_LAT: u32 = 1_800_000_000;

/// The largest longitude, in units of 1e-7 degrees east of the antimeridian.
pub const MAX_LON: u32 = 3_600_000_000;

/// What a payload says.
#[derive(Debug, PartialEq, Eq)]
pub enum Value {
    /// A number.
    Int(u128),
    /// Opaque bytes.
    Bytes(Vec<u8>),
    /// A place: latitude and longitude in units of 1e-7 degrees from the south
    /// pole and the antimeridian, altitude in meters.
    Geo { lat: u32, lon: u32, alt_m: i32 },
    /// A number within a namespace.
    Tagged { namespace: u8, id: u128 },
}

/// A value as contracts speak of it.
pub enum Meaning {
    Int(nat),
    Bytes(Seq<u8>),
    Geo { lat: nat, lon: nat, alt_m: int },
    Tagged { namespace: u8, id: nat },
}

impl View for Value {
    type V = Meaning;

    open spec fn view(&self) -> Meaning {
        match self {
            Value::Int(v) => Meaning::Int(*v as nat),
            Value::Bytes(b) => Meaning::Bytes(b@),
            Value::Geo { lat, lon, alt_m } => Meaning::Geo {
                lat: *lat as nat,
                lon: *lon as nat,
                alt_m: *alt_m as int,
            },
            Value::Tagged { namespace, id } => Meaning::Tagged {
                namespace: *namespace,
                id: *id as nat,
            },
        }
    }
}

impl Clone for Value {
    fn clone(&self) -> (r: Value)
        ensures
            r@ == self@,
    {
        match self {
            Value::Int(v) => Value::Int(*v),
            Value::Bytes(b) => Value::Bytes(copied(b)),
            Value::Geo { lat, lon, alt_m } => Value::Geo { lat: *lat, lon: *lon, alt_m: *alt_m },
            Value::Tagged { namespace, id } => Value::Tagged { namespace: *namespace, id: *id },
        }
    }
}

/// Why a value cannot be written or a payload cannot be read.
#[derive(Clone, Copy, Debug, PartialEq, Eq, Structural)]
pub enum PayloadError {
    /// The number does not fit the variant.
    IdTooBig,
    /// The variant holds bare numbers only.
    IdOnly,
    /// The variant has too few bytes for a place.
    GeoTooSmall,
    /// The latitude is out of range.
    Latitude,
    /// The longitude is out of range.
    Longitude,
    /// The altitude is out of range.
    Altitude,
    /// There are more bytes than fit.
    RawTooLong { len: usize, max: usize },
    /// The namespace is out of range.
    Namespace,
    /// The number does not fit beside its namespace.
    TaggedTooBig,
    /// The payload has the wrong length.
    Length,
    /// The payload is of another format version.
    Version { version: u8 },
    /// The payload is too short for a place.
    GeoTruncated { len: usize },
    /// The length byte is missing.
    RawEmpty,
    /// The length byte claims more bytes than there are.
    RawOverrun { length: usize, capacity: usize },
    /// The namespace or the number is missing.
    TaggedTruncated,
    /// The mode is reserved or unknown.
    Mode { mode: u8 },
}

/// Words around a number.
pub open spec fn around(before: Seq<char>, n: nat, after: Seq<char>) -> Seq<char> {
    before + number_text_of(n, 10) + after
}

/// Words around a number.
fn words_around(before: &str, n: u128, after: &str) -> (s: String)
    ensures
        s@ == around(before@, n as nat, after@),
{
    let mut s = String::from_str(before);
    s.append(number_text(n, 10).as_str());
    s.append(after);
    s
}

/// Words before a name.
fn words_before(words: &str, name: &str) -> (s: String)
    ensures
        s@ == words@ + name@,
{
    let mut s = String::from_str(words);
    s.append(name);
    s
}

impl PayloadError {
    /// The error in words, for a variant.
    pub open spec fn words(self, variant: Seq<char>) -> Seq<char> {
        match self {
            PayloadError::IdTooBig => "ID too big for variant "@ + variant,
            PayloadError::IdOnly => "variant "@ + variant + " is ID-only"@,
            PayloadError::GeoTooSmall => "GEO needs 10 body bytes; use sim180c88, not "@ + variant,
            PayloadError::Latitude => "lat out of range [-90, 90]"@,
            PayloadError::Longitude => "lon out of range [-180, 180)"@,
            PayloadError::Altitude => "altitude out of range [-32768, 32767] m"@,
            PayloadError::RawTooLong { len, max } => around(
                around("RAW too long: "@, len as nat, " > "@),
                max as nat,
                " bytes"@,
            ),
            PayloadError::Namespace => "namespace out of range [0, 255]"@,
            PayloadError::TaggedTooBig => "TAGGED id too big for variant "@ + variant,
            PayloadError::Length => "wrong payload length"@,
            PayloadError::Version { version } => around(
                around("payload version "@, version as nat, " is not supported (current "@),
                VERSION as nat,
                ")"@,
            ),
            PayloadError::GeoTruncated { len } => around(
                "GEO body is truncated: "@,
                len as nat,
                " < 10 bytes"@,
            ),
            PayloadError::RawEmpty => "RAW body has no length byte"@,
            PayloadError::RawOverrun { length, capacity } => around(
                around("RAW length "@, length as nat, " exceeds body capacity "@),
                capacity as nat,
                ""@,
            ),
            PayloadError::TaggedTruncated => "TAGGED body needs a namespace and ID"@,
            PayloadError::Mode { mode } => around(
                around("mode "@, mode as nat, " not implemented in v"@),
                VERSION as nat,
                ""@,
            ),
        }
    }

    /// The error in words, for a variant.
    pub fn text(self, variant: &str) -> (s: String)
        ensures
            s@ == self.words(variant@),
    {
        match self {
            PayloadError::IdTooBig => words_before("ID too big for variant ", variant),
            PayloadError::IdOnly => {
                let mut s = words_before("variant ", variant);
                s.append(" is ID-only");
                s
            },
            PayloadError::GeoTooSmall => words_before(
                "GEO needs 10 body bytes; use sim180c88, not ",
                variant,
            ),
            PayloadError::Latitude => String::from_str("lat out of range [-90, 90]"),
            PayloadError::Longitude => String::from_str("lon out of range [-180, 180)"),
            PayloadError::Altitude => String::from_str("altitude out of range [-32768, 32767] m"),
            PayloadError::RawTooLong { len, max } => words_around(
                words_around("RAW too long: ", len as u128, " > ").as_str(),
                max as u128,
                " bytes",
            ),
            PayloadError::Namespace => String::from_str("namespace out of range [0, 255]"),
            PayloadError::TaggedTooBig => words_before("TAGGED id too big for variant ", variant),
            PayloadError::Length => String::from_str("wrong payload length"),
            PayloadError::Version { version } => words_around(
                words_around(
                    "payload version ",
                    version as u128,
                    " is not supported (current ",
                ).as_str(),
                VERSION as u128,
                ")",
            ),
            PayloadError::GeoTruncated { len } => words_around(
                "GEO body is truncated: ",
                len as u128,
                " < 10 bytes",
            ),
            PayloadError::RawEmpty => String::from_str("RAW body has no length byte"),
            PayloadError::RawOverrun { length, capacity } => words_around(
                words_around("RAW length ", length as u128, " exceeds body capacity ").as_str(),
                capacity as u128,
                "",
            ),
            PayloadError::TaggedTruncated => {
                String::from_str("TAGGED body needs a namespace and ID")
            },
            PayloadError::Mode { mode } => words_around(
                words_around("mode ", mode as u128, " not implemented in v").as_str(),
                VERSION as u128,
                "",
            ),
        }
    }
}

impl MarkerSpec {
    /// The number of payload bytes behind the header.
    pub open spec fn body(&self) -> nat {
        if self.use_header {
            (self.bytes() - 1) as nat
        } else {
            self.bytes()
        }
    }

    /// Whether a number is an ID of the variant: it fits behind the header,
    /// and into the payload bits.
    pub open spec fn holds_id(&self, v: nat) -> bool {
        v < power(256, self.body()) && v < power(2, self.bits())
    }

    /// The payload of a number.
    pub open spec fn id_payload(&self, v: nat) -> Seq<u8> {
        if self.use_header {
            seq![header_byte(MODE_ID)] + digits(v, 256, self.body())
        } else {
            digits(v, 256, self.body())
        }
    }

    /// The payload of a place.
    pub open spec fn geo_payload(&self, lat: nat, lon: nat, alt_m: int) -> Seq<u8> {
        seq![header_byte(MODE_GEO)] + digits(lat, 256, 4) + digits(lon, 256, 4) + digits(
            (alt_m % 65536) as nat,
            256,
            2,
        ) + padding((self.bytes() - 11) as nat)
    }

    /// The payload of bytes.
    pub open spec fn raw_payload(&self, data: Seq<u8>) -> Seq<u8> {
        seq![header_byte(MODE_RAW), data.len() as u8] + data + padding((self.bytes() - 2 - data.len()) as nat)
    }

    /// The payload of a number within a namespace.
    pub open spec fn tagged_payload(&self, namespace: u8, v: nat) -> Seq<u8> {
        seq![header_byte(MODE_TAGGED), namespace] + digits(v, 256, (self.body() - 1) as nat)
    }

    /// What a payload means, or why it means nothing.
    pub open spec fn meaning(&self, p: Seq<u8>) -> Result<(Seq<char>, Meaning), PayloadError> {
        let body = p.skip(1);
        let mode = p[0] % 16;
        if p.len() != self.bytes() {
            Err(PayloadError::Length)
        } else if !self.use_header {
            Ok(("ID"@, Meaning::Int(value(p, 256))))
        } else if p[0] / 16 != VERSION {
            Err(PayloadError::Version { version: (p[0] / 16) as u8 })
        } else if mode == MODE_ID {
            Ok(("ID"@, Meaning::Int(value(body, 256))))
        } else if mode == MODE_GEO {
            if body.len() < 10 {
                Err(PayloadError::GeoTruncated { len: body.len() as usize })
            } else {
                Ok(
                    (
                        "GEO"@,
                        Meaning::Geo {
                            lat: value(body.subrange(0, 4), 256),
                            lon: value(body.subrange(4, 8), 256),
                            alt_m: signed(value(body.subrange(8, 10), 256)),
                        },
                    ),
                )
            }
        } else if mode == MODE_RAW {
            if body.len() == 0 {
                Err(PayloadError::RawEmpty)
            } else if body[0] > body.len() - 1 {
                Err(
                    PayloadError::RawOverrun {
                        length: body[0] as usize,
                        capacity: (body.len() - 1) as usize,
                    },
                )
            } else {
                Ok(("RAW"@, Meaning::Bytes(body.subrange(1, 1 + body[0]))))
            }
        } else if mode == MODE_TAGGED {
            if body.len() < 2 {
                Err(PayloadError::TaggedTruncated)
            } else {
                Ok(
                    (
                        "TAGGED"@,
                        Meaning::Tagged { namespace: body[0], id: value(body.skip(1), 256) },
                    ),
                )
            }
        } else {
            Err(PayloadError::Mode { mode: mode as u8 })
        }
    }

    /// What a verified payload is reported as: its meaning or, where it has
    /// none, its bytes.
    pub open spec fn reported(&self, p: Seq<u8>) -> (Seq<char>, Meaning) {
        match self.meaning(p) {
            Ok(m) => m,
            Err(_) => ("UNKNOWN"@, Meaning::Bytes(p)),
        }
    }
}

/// The header byte of a mode.
pub open spec fn header_byte(mode: u8) -> u8 {
    (VERSION % 16 * 16 + mode % 16) as u8
}

/// Zero bytes.
pub open spec fn padding(n: nat) -> Seq<u8> {
    Seq::new(n, |i: int| 0u8)
}

/// A 16-bit number in two's complement.
pub open spec fn signed(v: nat) -> int {
    if v < 32768 {
        v as int
    } else {
        v - 65536
    }
}

/// The header byte of a mode.
fn header(mode: u8) -> (h: u8)
    ensures
        h == header_byte(mode),
{
    VERSION % 16 * 16 + mode % 16
}

/// The number of payload bytes behind the header.
fn body_bytes(marker: &MarkerSpec) -> (n: usize)
    requires
        marker.wf(),
    ensures
        n == marker.body(),
        n <= 16,
{
    proof {
        lemma_sizes(marker);
    }
    let n = marker.payload_bytes();
    if marker.use_header {
        n - 1
    } else {
        n
    }
}

/// Whether a number has at most `n` digits.
fn fits(v: u128, n: usize, base: u128) -> (b: bool)
    requires
        base == 2 || base == 256,
    ensures
        b == (v < power(base as nat, n as nat)),
{
    let mut rest: u128 = v;
    let mut i: usize = 0;
    proof {
        assert(power(base as nat, 0) == 1);
    }
    while i < n && rest > 0
        invariant
            base == 2 || base == 256,
            i <= n,
            v < power(base as nat, n as nat) <==> rest < power(base as nat, (n - i) as nat),
        decreases n - i,
    {
        proof {
            let p = power(base as nat, (n - i - 1) as nat);
            assert(power(base as nat, (n - i) as nat) == p * base);
            assert(rest < p * base <==> rest / base < p) by {
                if base == 2 {
                    assert(rest < p * 2 <==> rest / 2 < p);
                } else {
                    assert(rest < p * 256 <==> rest / 256 < p);
                }
            }
        }
        rest = rest / base;
        i += 1;
    }
    proof {
        lemma_power_monotonic(base as nat, 0, (n - i) as nat);
    }
    rest == 0
}

/// Appends bytes to a payload.
fn extend(out: &mut Vec<u8>, more: &[u8])
    ensures
        final(out)@ == old(out)@ + more@,
{
    let mut m = copied(more);
    out.append(&mut m);
}

/// Fills a payload up with zeros.
fn pad(out: &mut Vec<u8>, n: usize)
    requires
        old(out)@.len() <= n,
    ensures
        final(out)@ == old(out)@ + padding((n - old(out)@.len()) as nat),
{
    let ghost before = out@;
    assert(out@ =~= before + padding(0));
    while out.len() < n
        invariant
            before.len() <= out@.len() <= n,
            out@ == before + padding((out@.len() - before.len()) as nat),
        decreases n - out@.len(),
    {
        let ghost k = out@.len();
        out.push(0);
        assert(out@ =~= before + padding((k + 1 - before.len()) as nat));
    }
}

/// The payload of a number.
pub fn encode_id(v: u128, marker: &MarkerSpec) -> (r: Result<Vec<u8>, PayloadError>)
    requires
        marker.wf(),
    ensures
        match r {
            Ok(p) => marker.holds_id(v as nat) && p@ == marker.id_payload(v as nat),
            Err(e) => !marker.holds_id(v as nat) && e == PayloadError::IdTooBig,
        },
{
    proof {
        lemma_sizes(marker);
    }
    let n = body_bytes(marker);
    if !fits(v, n, 256) || !fits(v, marker.payload_bits(), 2) {
        return Err(PayloadError::IdTooBig);
    }
    let mut out: Vec<u8> = Vec::new();
    if marker.use_header {
        out.push(header(MODE_ID));
        assert(out@ =~= seq![header_byte(MODE_ID)]);
    }
    let ghost head = out@;
    let mut d = to_digits(v, 256, n);
    let ghost dd = d@;
    out.append(&mut d);
    assert(out@ =~= head + dd);
    assert(out@ =~= marker.id_payload(v as nat));
    Ok(out)
}

/// Whether a place can be written, and if not, why: the first of the reasons
/// that applies.
pub open spec fn geo_refused(
    marker: &MarkerSpec,
    lat: int,
    lon: int,
    alt_m: int,
) -> Option<PayloadError> {
    if !marker.use_header {
        Some(PayloadError::IdOnly)
    } else if marker.body() < 10 {
        Some(PayloadError::GeoTooSmall)
    } else if !(0 <= lat <= MAX_LAT) {
        Some(PayloadError::Latitude)
    } else if !(0 <= lon <= MAX_LON) {
        Some(PayloadError::Longitude)
    } else if !(-32768 <= alt_m <= 32767) {
        Some(PayloadError::Altitude)
    } else {
        None
    }
}

/// The payload of a place: latitude and longitude in units of 1e-7 degrees
/// from the south pole and the antimeridian, altitude in meters.
pub fn encode_geo(lat: i64, lon: i64, alt_m: i64, marker: &MarkerSpec) -> (r: Result<
    Vec<u8>,
    PayloadError,
>)
    requires
        marker.wf(),
    ensures
        match r {
            Ok(p) => geo_refused(marker, lat as int, lon as int, alt_m as int) is None && p@
                == marker.geo_payload(lat as nat, lon as nat, alt_m as int),
            Err(e) => geo_refused(marker, lat as int, lon as int, alt_m as int) == Some(e),
        },
{
    if !marker.use_header {
        return Err(PayloadError::IdOnly);
    }
    if body_bytes(marker) < 10 {
        return Err(PayloadError::GeoTooSmall);
    }
    if lat < 0 || lat > MAX_LAT as i64 {
        return Err(PayloadError::Latitude);
    }
    if lon < 0 || lon > MAX_LON as i64 {
        return Err(PayloadError::Longitude);
    }
    if alt_m < -32768 || alt_m > 32767 {
        return Err(PayloadError::Altitude);
    }
    proof {
        lemma_sizes(marker);
    }
    let ualt: u128 = if alt_m < 0 {
        (alt_m + 65536) as u128
    } else {
        alt_m as u128
    };
    assert(ualt == (alt_m as int) % 65536);
    let d1 = to_digits(lat as u128, 256, 4);
    let d2 = to_digits(lon as u128, 256, 4);
    let d3 = to_digits(ualt, 256, 2);
    let mut out: Vec<u8> = Vec::new();
    out.push(header(MODE_GEO));
    assert(out@ =~= seq![header_byte(MODE_GEO)]);
    extend(&mut out, &d1);
    extend(&mut out, &d2);
    extend(&mut out, &d3);
    pad(&mut out, marker.payload_bytes());
    Ok(out)
}

/// The payload of bytes.
pub fn encode_raw(data: &[u8], marker: &MarkerSpec) -> (r: Result<Vec<u8>, PayloadError>)
    requires
        marker.wf(),
        marker.use_header ==> marker.body() >= 1,
    ensures
        match r {
            Ok(p) => marker.use_header && data@.len() < marker.body() && p@ == marker.raw_payload(
                data@,
            ),
            Err(e) => if !marker.use_header {
                e == PayloadError::IdOnly
            } else {
                data@.len() >= marker.body() && e == (PayloadError::RawTooLong {
                    len: data@.len() as usize,
                    max: (marker.body() - 1) as usize,
                })
            },
        },
{
    if !marker.use_header {
        return Err(PayloadError::IdOnly);
    }
    proof {
        lemma_sizes(marker);
    }
    let n = body_bytes(marker);
    if data.len() > n - 1 {
        return Err(PayloadError::RawTooLong { len: data.len(), max: n - 1 });
    }
    let mut out: Vec<u8> = Vec::new();
    out.push(header(MODE_RAW));
    out.push(data.len() as u8);
    assert(out@ =~= seq![header_byte(MODE_RAW), data@.len() as u8]);
    extend(&mut out, data);
    pad(&mut out, marker.payload_bytes());
    Ok(out)
}

/// The payload of a number within a namespace.
pub fn encode_tagged(namespace: u16, v: u128, marker: &MarkerSpec) -> (r: Result<
    Vec<u8>,
    PayloadError,
>)
    requires
        marker.wf(),
        marker.use_header ==> marker.body() >= 1,
    ensures
        match r {
            Ok(p) => marker.use_header && namespace <= 255 && v < power(
                256,
                (marker.body() - 1) as nat,
            ) && p@ == marker.tagged_payload(namespace as u8, v as nat),
            Err(e) => e == if !marker.use_header {
                PayloadError::IdOnly
            } else if namespace > 255 {
                PayloadError::Namespace
            } else {
                PayloadError::TaggedTooBig
            } && (marker.use_header && namespace <= 255 ==> v >= power(
                256,
                (marker.body() - 1) as nat,
            )),
        },
{
    if !marker.use_header {
        return Err(PayloadError::IdOnly);
    }
    if namespace > 255 {
        return Err(PayloadError::Namespace);
    }
    let n = body_bytes(marker) - 1;
    if !fits(v, n, 256) {
        return Err(PayloadError::TaggedTooBig);
    }
    let mut out: Vec<u8> = Vec::new();
    out.push(header(MODE_TAGGED));
    out.push(namespace as u8);
    assert(out@ =~= seq![header_byte(MODE_TAGGED), namespace as u8]);
    let d = to_digits(v, 256, n);
    extend(&mut out, &d);
    Ok(out)
}

/// The bytes from `from` up to `to`.
fn slice(s: &[u8], from: usize, to: usize) -> (r: Vec<u8>)
    requires
        from <= to <= s@.len(),
    ensures
        r@ == s@.subrange(from as int, to as int),
{
    let mut r: Vec<u8> = Vec::new();
    let mut i: usize = from;
    while i < to
        invariant
            from <= i <= to <= s@.len(),
            r@ == s@.subrange(from as int, i as int),
        decreases to - i,
    {
        r.push(s[i]);
        i += 1;
        assert(r@ =~= s@.subrange(from as int, i as int));
    }
    r
}

/// The number that the bytes from `from` up to `to` write.
fn be_to_int(s: &[u8], from: usize, to: usize) -> (v: u128)
    requires
        from <= to <= s@.len(),
        to - from <= 16,
    ensures
        v == value(s@.subrange(from as int, to as int), 256),
        v < power(256, (to - from) as nat),
{
    let d = slice(s, from, to);
    proof {
        lemma_powers();
        lemma_power_monotonic(256, d@.len(), 16);
        assert(all_digits(d@, 256));
        lemma_digits_of_value(d@, 256);
    }
    from_digits(&d, 256)
}

/// The mode and value of a payload.
pub fn decode(payload: &[u8], marker: &MarkerSpec) -> (r: Result<
    (&'static str, Value),
    PayloadError,
>)
    requires
        marker.wf(),
    ensures
        match r {
            Ok((mode, v)) => marker.meaning(payload@) == Ok::<(Seq<char>, Meaning), PayloadError>(
                (mode@, v@),
            ),
            Err(e) => marker.meaning(payload@) == Err::<(Seq<char>, Meaning), PayloadError>(e),
        },
{
    proof {
        lemma_sizes(marker);
        lemma_powers();
    }
    let n = payload.len();
    if n != marker.payload_bytes() {
        return Err(PayloadError::Length);
    }
    if !marker.use_header {
        let v = be_to_int(payload, 0, n);
        assert(payload@.subrange(0, n as int) =~= payload@);
        return Ok(("ID", Value::Int(v)));
    }
    let ghost body = payload@.skip(1);
    let version = payload[0] / 16;
    let mode = payload[0] % 16;
    if version != VERSION {
        return Err(PayloadError::Version { version });
    }
    if mode == MODE_ID {
        let v = be_to_int(payload, 1, n);
        assert(payload@.subrange(1, n as int) =~= body);
        Ok(("ID", Value::Int(v)))
    } else if mode == MODE_GEO {
        if n - 1 < 10 {
            return Err(PayloadError::GeoTruncated { len: n - 1 });
        }
        let lat = be_to_int(payload, 1, 5);
        let lon = be_to_int(payload, 5, 9);
        let alt = be_to_int(payload, 9, 11);
        assert(payload@.subrange(1, 5) =~= body.subrange(0, 4));
        assert(payload@.subrange(5, 9) =~= body.subrange(4, 8));
        assert(payload@.subrange(9, 11) =~= body.subrange(8, 10));
        let alt_m: i32 = if alt < 32768 {
            alt as i32
        } else {
            alt as i32 - 65536
        };
        Ok(("GEO", Value::Geo { lat: lat as u32, lon: lon as u32, alt_m }))
    } else if mode == MODE_RAW {
        if n == 1 {
            return Err(PayloadError::RawEmpty);
        }
        let length = payload[1] as usize;
        assert(body[0] == payload@[1]);
        if length > n - 2 {
            return Err(PayloadError::RawOverrun { length, capacity: n - 2 });
        }
        let data = slice(payload, 2, 2 + length);
        assert(data@ =~= body.subrange(1, 1 + body[0]));
        Ok(("RAW", Value::Bytes(data)))
    } else if mode == MODE_TAGGED {
        if n - 1 < 2 {
            return Err(PayloadError::TaggedTruncated);
        }
        let id = be_to_int(payload, 2, n);
        assert(payload@.subrange(2, n as int) =~= body.skip(1));
        assert(body[0] == payload@[1]);
        Ok(("TAGGED", Value::Tagged { namespace: payload[1], id }))
    } else {
        Err(PayloadError::Mode { mode })
    }
}

/// What a verified payload is reported as. One that is in an unknown mode or
/// malformed comes out as bytes, never as something that it is not.
pub fn interpret(payload: Vec<u8>, marker: &MarkerSpec) -> (r: (&'static str, Value))
    requires
        marker.wf(),
    ensures
        (r.0@, r.1@) == marker.reported(payload@),
{
    match decode(&payload, marker) {
        Ok(v) => v,
        Err(_) => ("UNKNOWN", Value::Bytes(payload)),
    }
}

} // verus!
