//! Text: comparison, lists of names, hexadecimal, and the labels of values.
use crate::payload::{Meaning, Value};
use vstd::prelude::*;
use vstd::string::*;

verus! {

/// Whether two strings are the same.
pub fn same_text(a: &str, b: &str) -> (r: bool)
    ensures
        r == (a@ == b@),
{
    let n = a.unicode_len();
    if n != b.unicode_len() {
        return false;
    }
    let mut i: usize = 0;
    while i < n
        invariant
            n == a@.len(),
            n == b@.len(),
            i <= n,
            forall|k: int| 0 <= k < i ==> #[trigger] a@[k] == b@[k],
        decreases n - i,
    {
        if a.get_char(i) != b.get_char(i) {
            return false;
        }
        i += 1;
    }
    assert(a@ =~= b@);
    true
}

/// The parts of a list that is separated by commas.
pub open spec fn fields(s: Seq<char>) -> Seq<Seq<char>>
    decreases s.len(),
{
    if s.len() == 0 {
        seq![seq![]]
    } else {
        let before = fields(s.drop_last());
        if s.last() == ',' {
            before.push(seq![])
        } else {
            before.update(before.len() - 1, before.last().push(s.last()))
        }
    }
}

/// The parts of a list that is separated by commas.
pub fn split_commas(list: &str) -> (r: Vec<&str>)
    ensures
        r@.len() == fields(list@).len(),
        forall|i: int| 0 <= i < r@.len() ==> (#[trigger] r@[i])@ == fields(list@)[i],
{
    let n = list.unicode_len();
    let mut r: Vec<&str> = Vec::new();
    let mut start: usize = 0;
    let mut i: usize = 0;
    proof {
        assert(list@.take(0) =~= seq![]);
        assert(fields(list@.take(0)).last() =~= list@.subrange(0, 0));
    }
    while i < n
        invariant
            n == list@.len(),
            start <= i <= n,
            r@.len() + 1 == fields(list@.take(i as int)).len(),
            forall|k: int|
                0 <= k < r@.len() ==> (#[trigger] r@[k])@ == fields(list@.take(i as int))[k],
            fields(list@.take(i as int)).last() == list@.subrange(start as int, i as int),
        decreases n - i,
    {
        let ghost before = fields(list@.take(i as int));
        proof {
            assert(list@.take(i + 1).drop_last() =~= list@.take(i as int));
            assert(list@.take(i + 1).last() == list@[i as int]);
        }
        let c = list.get_char(i);
        if c == ',' {
            r.push(list.substring_char(start, i));
            start = i + 1;
            assert(list@.subrange(start as int, i + 1) =~= seq![]);
        } else {
            assert(list@.subrange(start as int, i + 1) =~= list@.subrange(
                start as int,
                i as int,
            ).push(c));
        }
        i += 1;
    }
    assert(list@.take(n as int) =~= list@);
    r.push(list.substring_char(start, n));
    r
}

/// The digit of a number below 16.
pub open spec fn hex_char(d: int) -> char {
    if d == 0 {
        '0'
    } else if d == 1 {
        '1'
    } else if d == 2 {
        '2'
    } else if d == 3 {
        '3'
    } else if d == 4 {
        '4'
    } else if d == 5 {
        '5'
    } else if d == 6 {
        '6'
    } else if d == 7 {
        '7'
    } else if d == 8 {
        '8'
    } else if d == 9 {
        '9'
    } else if d == 10 {
        'a'
    } else if d == 11 {
        'b'
    } else if d == 12 {
        'c'
    } else if d == 13 {
        'd'
    } else if d == 14 {
        'e'
    } else {
        'f'
    }
}

/// The digit of a number below 16, as text.
fn digit_text(d: u8) -> (s: &'static str)
    requires
        d < 16,
    ensures
        s@ == seq![hex_char(d as int)],
{
    proof {
        reveal_strlit("0");
        reveal_strlit("1");
        reveal_strlit("2");
        reveal_strlit("3");
        reveal_strlit("4");
        reveal_strlit("5");
        reveal_strlit("6");
        reveal_strlit("7");
        reveal_strlit("8");
        reveal_strlit("9");
        reveal_strlit("a");
        reveal_strlit("b");
        reveal_strlit("c");
        reveal_strlit("d");
        reveal_strlit("e");
        reveal_strlit("f");
    }
    let s = if d == 0 {
        "0"
    } else if d == 1 {
        "1"
    } else if d == 2 {
        "2"
    } else if d == 3 {
        "3"
    } else if d == 4 {
        "4"
    } else if d == 5 {
        "5"
    } else if d == 6 {
        "6"
    } else if d == 7 {
        "7"
    } else if d == 8 {
        "8"
    } else if d == 9 {
        "9"
    } else if d == 10 {
        "a"
    } else if d == 11 {
        "b"
    } else if d == 12 {
        "c"
    } else if d == 13 {
        "d"
    } else if d == 14 {
        "e"
    } else {
        "f"
    };
    assert(s@ =~= seq![hex_char(d as int)]);
    s
}

/// The hexadecimal digits of bytes.
pub open spec fn hex_of(b: Seq<u8>) -> Seq<char>
    decreases b.len(),
{
    if b.len() == 0 {
        seq![]
    } else {
        hex_of(b.drop_last()) + seq![
            hex_char((b.last() / 16) as int),
            hex_char((b.last() % 16) as int),
        ]
    }
}

/// The hexadecimal digits of bytes.
pub fn bytes_to_hex(b: &[u8]) -> (s: String)
    ensures
        s@ == hex_of(b@),
{
    let mut s = String::new();
    let mut i: usize = 0;
    proof {
        reveal_strlit("");
        assert(s@ =~= hex_of(b@.take(0)));
    }
    while i < b.len()
        invariant
            i <= b@.len(),
            s@ == hex_of(b@.take(i as int)),
        decreases b.len() - i,
    {
        let ghost before = s@;
        let v = b[i];
        s.append(digit_text(v / 16));
        s.append(digit_text(v % 16));
        proof {
            assert(b@.take(i + 1).drop_last() =~= b@.take(i as int));
            assert(s@ =~= hex_of(b@.take(i + 1)));
        }
        i += 1;
    }
    assert(b@.take(i as int) =~= b@);
    s
}

/// The number that a hexadecimal digit writes, in either case.
pub open spec fn hex_value(c: char) -> Option<u8> {
    if '0' <= c <= '9' {
        Some((c as int - '0' as int) as u8)
    } else if 'a' <= c <= 'f' {
        Some((c as int - 'a' as int + 10) as u8)
    } else if 'A' <= c <= 'F' {
        Some((c as int - 'A' as int + 10) as u8)
    } else {
        None
    }
}

/// The byte that two characters write: two digits, or a plus sign and a digit.
pub open spec fn byte_value(a: char, b: char) -> Option<u8> {
    match (hex_value(a), hex_value(b)) {
        (Some(h), Some(l)) => Some((h * 16 + l) as u8),
        (None, Some(l)) => if a == '+' {
            Some(l)
        } else {
            None
        },
        _ => None,
    }
}

/// The bytes that hexadecimal text writes, if it does.
pub open spec fn bytes_of(s: Seq<char>) -> Option<Seq<u8>>
    decreases s.len(),
{
    if s.len() == 0 {
        Some(seq![])
    } else if s.len() == 1 {
        None
    } else {
        match (
            bytes_of(s.take(s.len() - 2)),
            byte_value(s[s.len() - 2], s[s.len() - 1]),
        ) {
            (Some(before), Some(b)) => Some(before.push(b)),
            _ => None,
        }
    }
}

/// The number that a hexadecimal digit writes.
fn digit_value(c: char) -> (r: Option<u8>)
    ensures
        r == hex_value(c),
        r matches Some(v) ==> v < 16,
{
    let u = c as u32;
    if 48 <= u && u <= 57 {
        Some((u - 48) as u8)
    } else if 97 <= u && u <= 102 {
        Some((u - 87) as u8)
    } else if 65 <= u && u <= 70 {
        Some((u - 55) as u8)
    } else {
        None
    }
}

/// The bytes that hexadecimal text writes, if it does.
pub fn hex_to_bytes(s: &str) -> (r: Option<Vec<u8>>)
    ensures
        match r {
            Some(b) => bytes_of(s@) == Some(b@),
            None => bytes_of(s@) is None,
        },
{
    let n = s.unicode_len();
    let mut out: Vec<u8> = Vec::new();
    let mut i: usize = 0;
    assert(s@.take(0) =~= seq![]);
    assert(out@ =~= seq![]);
    while n - i >= 2
        invariant
            n == s@.len(),
            i <= n,
            i % 2 == 0,
            bytes_of(s@.take(i as int)) == Some(out@),
        decreases n - i,
    {
        let (a, b) = (s.get_char(i), s.get_char(i + 1));
        let ghost t = s@.take(i + 2);
        proof {
            assert(t.take(t.len() - 2) =~= s@.take(i as int));
        }
        let v: u8 = match (digit_value(a), digit_value(b)) {
            (Some(h), Some(l)) => h * 16 + l,
            (None, Some(l)) => if a == '+' {
                l
            } else {
                proof {
                    lemma_bytes_prefix(s@, i + 2);
                }
                return None;
            },
            _ => {
                proof {
                    lemma_bytes_prefix(s@, i + 2);
                }
                return None;
            },
        };
        out.push(v);
        i += 2;
    }
    if i < n {
        proof {
            lemma_bytes_odd(s@);
        }
        return None;
    }
    assert(s@.take(i as int) =~= s@);
    Some(out)
}

/// Text writes bytes only where its beginnings do.
proof fn lemma_bytes_prefix(s: Seq<char>, i: int)
    requires
        0 <= i <= s.len(),
        i % 2 == 0,
        bytes_of(s.take(i)) is None,
    ensures
        bytes_of(s) is None,
    decreases s.len(),
{
    if i < s.len() {
        if s.len() >= 2 && i <= s.len() - 2 {
            let t = s.take(s.len() - 2);
            assert(t.take(i) =~= s.take(i));
            lemma_bytes_prefix(t, i);
        } else {
            lemma_bytes_odd(s);
        }
    } else {
        assert(s.take(i) =~= s);
    }
}

/// Text of an odd length writes no bytes.
proof fn lemma_bytes_odd(s: Seq<char>)
    requires
        s.len() % 2 == 1,
    ensures
        bytes_of(s) is None,
    decreases s.len(),
{
    if s.len() > 1 {
        lemma_bytes_odd(s.take(s.len() - 2));
    }
}

/// Hexadecimal text reads back.
pub proof fn law_hex_reads_back(b: Seq<u8>)
    ensures
        bytes_of(hex_of(b)) == Some(b),
        hex_of(b).len() == 2 * b.len(),
    decreases b.len(),
{
    if b.len() > 0 {
        let c = b.drop_last();
        law_hex_reads_back(c);
        let s = hex_of(b);
        assert(s.take(s.len() - 2) =~= hex_of(c));
        let v = b.last();
        lemma_hex_char((v / 16) as int);
        lemma_hex_char((v % 16) as int);
        assert(c.push(v) =~= b);
    } else {
        assert(bytes_of(hex_of(b)) == Some(Seq::<u8>::empty()));
        assert(b =~= Seq::<u8>::empty());
    }
}

/// Digits read back.
proof fn lemma_hex_char(d: int)
    requires
        0 <= d < 16,
    ensures
        hex_value(hex_char(d)) == Some(d as u8),
{
}

/// The digits of a number to a base of up to 16.
pub open spec fn number_text_of(v: nat, base: nat) -> Seq<char>
    decreases v,
{
    if v < base || base < 2 {
        seq![hex_char(v as int)]
    } else {
        proof {
            vstd::arithmetic::div_mod::lemma_div_decreases(v as int, base as int);
        }
        number_text_of(v / base, base).push(hex_char((v % base) as int))
    }
}

/// A number in text.
pub fn number_text(v: u128, base: u128) -> (s: String)
    requires
        2 <= base <= 16,
    ensures
        s@ == number_text_of(v as nat, base as nat),
    decreases v,
{
    if v < base {
        String::from_str(digit_text(v as u8))
    } else {
        proof {
            vstd::arithmetic::div_mod::lemma_div_decreases(v as int, base as int);
        }
        let mut s = number_text(v / base, base);
        let ghost before = s@;
        s.append(digit_text((v % base) as u8));
        assert(s@ =~= before.push(hex_char(((v as nat) % (base as nat)) as int)));
        s
    }
}

/// The label of a value: the variant, the kind of value and the value. The
/// text of a place is given.
pub open spec fn label_of(variant: Seq<char>, value: Meaning, place: Seq<char>) -> Seq<char> {
    variant + ":"@ + match value {
        Meaning::Int(v) => "id:0x"@ + number_text_of(v, 16),
        Meaning::Geo { .. } => "geo:"@ + place,
        Meaning::Tagged { namespace, id } => "tag:"@ + number_text_of(namespace as nat, 10)
            + ":0x"@ + number_text_of(id, 16),
        Meaning::Bytes(b) => "raw:"@ + hex_of(b),
    }
}

/// The label of a value, such as `sim96c32:id:0x2a` or `sim96c32:tag:7:0x2a`.
/// The text of a place, with as many decimals as are wanted, is given.
pub fn format_value(variant: &str, value: &Value, place: &str) -> (s: String)
    ensures
        s@ == label_of(variant@, value@, place@),
{
    let mut body = match value {
        Value::Int(v) => {
            let mut t = String::from_str("id:0x");
            let n = number_text(*v, 16);
            t.append(n.as_str());
            t
        },
        Value::Geo { .. } => {
            let mut t = String::from_str("geo:");
            t.append(place);
            t
        },
        Value::Tagged { namespace, id } => {
            let mut t = String::from_str("tag:");
            let n = number_text(*namespace as u128, 10);
            t.append(n.as_str());
            t.append(":0x");
            let m = number_text(*id, 16);
            t.append(m.as_str());
            t
        },
        Value::Bytes(b) => {
            let mut t = String::from_str("raw:");
            let h = bytes_to_hex(b);
            t.append(h.as_str());
            t
        },
    };
    let mut s = String::from_str(variant);
    s.append(":");
    s.append(body.as_str());
    s
}

/// The members of a JSON object that hold a value. The text of a place is
/// given. A number within a namespace is written as a list or, with keys, as
/// an object.
pub open spec fn members_of(value: Meaning, place: Seq<char>, keys: bool) -> Seq<char> {
    match value {
        Meaning::Int(v) => ",\"value\":"@ + number_text_of(v, 10),
        Meaning::Bytes(b) => ",\"value_hex\":\""@ + hex_of(b) + "\""@,
        Meaning::Geo { .. } => ",\"geo\":"@ + place,
        Meaning::Tagged { namespace, id } => if keys {
            ",\"tagged\":{\"ns\":"@ + number_text_of(namespace as nat, 10) + ",\"id\":"@
                + number_text_of(id, 10) + "}"@
        } else {
            ",\"tagged\":["@ + number_text_of(namespace as nat, 10) + ","@ + number_text_of(id, 10)
                + "]"@
        },
    }
}

/// The members of a JSON object that hold a value, each with a comma before
/// it.
pub fn value_members(value: &Value, place: &str, keys: bool) -> (s: String)
    ensures
        s@ == members_of(value@, place@, keys),
{
    match value {
        Value::Int(v) => {
            let mut t = String::from_str(",\"value\":");
            t.append(number_text(*v, 10).as_str());
            t
        },
        Value::Bytes(b) => {
            let mut t = String::from_str(",\"value_hex\":\"");
            t.append(bytes_to_hex(b).as_str());
            t.append("\"");
            t
        },
        Value::Geo { .. } => {
            let mut t = String::from_str(",\"geo\":");
            t.append(place);
            t
        },
        Value::Tagged { namespace, id } => {
            let n = number_text(*namespace as u128, 10);
            let m = number_text(*id, 10);
            if keys {
                let mut t = String::from_str(",\"tagged\":{\"ns\":");
                t.append(n.as_str());
                t.append(",\"id\":");
                t.append(m.as_str());
                t.append("}");
                t
            } else {
                let mut t = String::from_str(",\"tagged\":[");
                t.append(n.as_str());
                t.append(",");
                t.append(m.as_str());
                t.append("]");
                t
            }
        },
    }
}

/// The number that decimal digits write.
pub open spec fn decimal_value(s: Seq<char>) -> Option<nat>
    decreases s.len(),
{
    if s.len() == 0 {
        Some(0)
    } else {
        match decimal_value(s.drop_last()) {
            Some(v) => if '0' <= s.last() <= '9' {
                Some((v * 10 + (s.last() as int - '0' as int)) as nat)
            } else {
                None
            },
            None => None,
        }
    }
}

/// The number that a text writes: at least one digit, with or without a plus
/// sign before.
pub open spec fn number_of(s: Seq<char>) -> Option<nat> {
    let digits = if s.len() > 0 && s[0] == '+' {
        s.skip(1)
    } else {
        s
    };
    if digits.len() == 0 {
        None
    } else {
        decimal_value(digits)
    }
}

/// Further digits make a number no smaller.
proof fn lemma_decimal_grows(s: Seq<char>, n: int)
    requires
        0 <= n <= s.len(),
    ensures
        decimal_value(s) matches Some(v) ==> (decimal_value(s.take(n)) matches Some(u) && u <= v),
    decreases s.len(),
{
    if n == s.len() {
        assert(s.take(n) =~= s);
    } else {
        lemma_decimal_grows(s.drop_last(), n);
        assert(s.drop_last().take(n) =~= s.take(n));
    }
}

/// Reads a number. None where the text writes none, or one above `most`.
pub fn parse_number(s: &str, most: u128) -> (r: Option<u128>)
    ensures
        match number_of(s@) {
            Some(v) => if v <= most {
                r matches Some(n) && n == v
            } else {
                r is None
            },
            None => r is None,
        },
{
    let n = s.unicode_len();
    let start: usize = if n > 0 && s.get_char(0) == '+' {
        1
    } else {
        0
    };
    if start == n {
        return None;
    }
    let ghost digits = s@.skip(start as int);
    assert(start == 0 ==> digits =~= s@);
    let mut v: u128 = 0;
    let mut i: usize = start;
    assert(digits.take(0) =~= seq![]);
    while i < n
        invariant
            n == s@.len(),
            start <= i <= n,
            start < n,
            digits == s@.skip(start as int),
            number_of(s@) == decimal_value(digits),
            decimal_value(digits.take(i - start)) == Some(v as nat),
            v <= most,
        decreases n - i,
    {
        let c = s.get_char(i);
        proof {
            let k = i - start;
            assert(digits.take(k + 1).drop_last() =~= digits.take(k));
            assert(digits.take(k + 1).last() == c);
            lemma_decimal_grows(digits, k + 1);
        }
        if !('0' <= c && c <= '9') {
            return None;
        }
        let d = (c as u32 - '0' as u32) as u128;
        if v > most / 10 || d > most - v * 10 {
            return None;
        }
        v = v * 10 + d;
        i += 1;
    }
    assert(digits.take(n - start) =~= digits);
    Some(v)
}

/// Whether a character can stand in the name of a frame.
pub open spec fn in_frame(c: char) -> bool {
    '0' <= c <= '9' || 'a' <= c <= 'z' || 'A' <= c <= 'Z' || c == '.' || c == '-'
}

/// A label as the name of a frame.
pub open spec fn frame_of(label: Seq<char>) -> Seq<char> {
    Seq::new(
        label.len(),
        |i: int|
            if in_frame(label[i]) {
                label[i]
            } else {
                '_'
            },
    )
}

/// A label as the name of a frame: every character that cannot stand in one is
/// replaced by an underscore.
pub fn sanitize_frame(label: &str) -> (s: String)
    ensures
        s@ == frame_of(label@),
{
    let n = label.unicode_len();
    let mut s = String::new();
    let mut i: usize = 0;
    proof {
        reveal_strlit("");
        reveal_strlit("_");
        assert(s@ =~= frame_of(label@).take(0));
    }
    while i < n
        invariant
            n == label@.len(),
            i <= n,
            s@ == frame_of(label@).take(i as int),
            "_"@ == seq!['_'],
        decreases n - i,
    {
        let c = label.get_char(i);
        let u = c as u32;
        let ghost before = s@;
        if (48 <= u && u <= 57) || (97 <= u && u <= 122) || (65 <= u && u <= 90) || c == '.' || c
            == '-' {
            s.append(label.substring_char(i, i + 1));
            assert(s@ =~= before.push(c));
        } else {
            s.append("_");
            assert(s@ =~= before.push('_'));
        }
        i += 1;
        assert(s@ =~= frame_of(label@).take(i as int));
    }
    assert(s@ =~= frame_of(label@));
    s
}

/// The digits of cells.
pub open spec fn cells_text(cells: Seq<u8>) -> Seq<char> {
    Seq::new(cells.len(), |i: int| hex_char(cells[i] as int))
}

/// The end of row `k`.
pub open spec fn row_end(len: int, n: int, k: int) -> int {
    if (k + 1) * n < len {
        (k + 1) * n
    } else {
        len
    }
}

/// A grid in text, ring by ring.
pub fn grid_to_rows(grid: &[u8], sectors: usize) -> (rows: Vec<String>)
    requires
        sectors >= 1,
        forall|i: int| 0 <= i < grid@.len() ==> #[trigger] grid@[i] <= 9,
    ensures
        rows@.len() == (grid@.len() + sectors - 1) / (sectors as int),
        forall|k: int|
            0 <= k < rows@.len() ==> (#[trigger] rows@[k])@ == cells_text(
                grid@.subrange(
                    k * sectors,
                    row_end(grid@.len() as int, sectors as int, k),
                ),
            ),
{
    let len = grid.len();
    let mut rows: Vec<String> = Vec::new();
    let mut start: usize = 0;
    proof {
        reveal_strlit("");
        assert(0 * sectors == 0) by (nonlinear_arith);
    }
    while start < len
        invariant
            len == grid@.len(),
            sectors >= 1,
            forall|i: int| 0 <= i < grid@.len() ==> #[trigger] grid@[i] <= 9,
            start == if rows@.len() * sectors < len {
                rows@.len() * sectors
            } else {
                len as int
            },
            rows@.len() >= 1 ==> (rows@.len() - 1) * sectors < len,
            forall|k: int|
                0 <= k < rows@.len() ==> (#[trigger] rows@[k])@ == cells_text(
                    grid@.subrange(k * sectors, row_end(len as int, sectors as int, k)),
                ),
            ""@ == Seq::<char>::empty(),
        decreases len - start,
    {
        let ghost k = rows@.len() as int;
        assert((k + 1) * sectors == k * sectors + sectors) by (nonlinear_arith);
        let end = if len - start > sectors {
            start + sectors
        } else {
            len
        };
        let mut row = String::new();
        let mut i: usize = start;
        assert(row@ =~= cells_text(grid@.subrange(start as int, start as int)));
        while i < end
            invariant
                len == grid@.len(),
                forall|i: int| 0 <= i < grid@.len() ==> #[trigger] grid@[i] <= 9,
                start <= i <= end <= len,
                row@ == cells_text(grid@.subrange(start as int, i as int)),
            decreases end - i,
        {
            let ghost before = row@;
            row.append(digit_text(grid[i]));
            i += 1;
            assert(row@ =~= before.push(hex_char(grid@[i - 1] as int)));
            assert(row@ =~= cells_text(grid@.subrange(start as int, i as int)));
        }
        rows.push(row);
        start = end;
    }
    proof {
        let (m, n, l) = (rows@.len() as int, sectors as int, len as int);
        if m == 0 {
            vstd::arithmetic::div_mod::lemma_basic_div(l + n - 1, n);
        } else {
            let r = l + n - 1 - m * n;
            assert(m * n == (m - 1) * n + n) by (nonlinear_arith);
            vstd::arithmetic::div_mod::lemma_fundamental_div_mod_converse(l + n - 1, n, m, r);
        }
    }
    rows
}

} // verus!
