//! What texts guarantee: numbers and lists read back.
use crate::text::{
    byte_value, bytes_of, cells_text, decimal_value, fields, frame_of, hex_char, hex_value,
    number_of, number_text_of,
};
use vstd::prelude::*;

verus! {

/// Parts put together, with commas between them.
pub open spec fn joined(parts: Seq<Seq<char>>) -> Seq<char>
    decreases parts.len(),
{
    if parts.len() == 0 {
        seq![]
    } else if parts.len() == 1 {
        parts[0]
    } else {
        joined(parts.drop_last()).push(',') + parts.last()
    }
}

/// The parts of a list are the texts between its commas: put together with
/// commas they are the list, and none of them has one.
pub proof fn law_fields_between_commas(s: Seq<char>)
    ensures
        fields(s).len() >= 1,
        joined(fields(s)) == s,
        forall|i: int, k: int|
            0 <= i < fields(s).len() && 0 <= k < fields(s)[i].len() ==> #[trigger] fields(s)[i][k]
                != ',',
    decreases s.len(),
{
    if s.len() == 0 {
        assert(joined(fields(s)) =~= s);
    } else {
        let less = s.drop_last();
        law_fields_between_commas(less);
        let (before, all) = (fields(less), fields(s));
        assert(less.push(s.last()) =~= s);
        if s.last() == ',' {
            assert(all.drop_last() =~= before);
            assert(joined(all) =~= s);
        } else {
            let n = before.len();
            assert(all.drop_last() =~= before.drop_last());
            if n == 1 {
                assert(joined(all) =~= s);
            } else {
                assert(joined(before) == joined(before.drop_last()).push(',') + before.last());
                assert(joined(all) == joined(before.drop_last()).push(',') + before.last().push(
                    s.last(),
                ));
                assert(joined(all) =~= joined(before).push(s.last()));
            }
            assert forall|i: int, k: int|
                0 <= i < all.len() && 0 <= k < all[i].len() implies #[trigger] all[i][k] != ',' by {
                if i < n - 1 {
                    assert(all[i] == before[i]);
                    assert(before[i][k] != ',');
                } else if k < before[i].len() {
                    assert(all[i][k] == before[i][k]);
                    assert(before[i][k] != ',');
                }
            }
        }
    }
}

/// The number that digits write to a base.
pub open spec fn read_digits(s: Seq<char>, base: nat) -> nat
    decreases s.len(),
{
    if s.len() == 0 {
        0
    } else {
        read_digits(s.drop_last(), base) * base + hex_value(s.last()).unwrap() as nat
    }
}

/// A number in text reads back, and has no leading zero unless it is zero.
pub proof fn law_number_reads_back(v: nat, base: nat)
    requires
        2 <= base <= 16,
    ensures
        number_text_of(v, base).len() >= 1,
        read_digits(number_text_of(v, base), base) == v,
        v > 0 ==> number_text_of(v, base)[0] != '0',
        forall|i: int|
            0 <= i < number_text_of(v, base).len() ==> (hex_value(
                #[trigger] number_text_of(v, base)[i],
            ) matches Some(d) && d < base),
    decreases v,
{
    let s = number_text_of(v, base);
    if v < base {
        assert(s.drop_last() =~= seq![]);
        assert(read_digits(seq![], base) == 0);
        assert(0 * base == 0) by (nonlinear_arith);
    } else {
        vstd::arithmetic::div_mod::lemma_div_decreases(v as int, base as int);
        vstd::arithmetic::div_mod::lemma_fundamental_div_mod(v as int, base as int);
        let q = v / base;
        assert(q >= 1 && v % base < base) by (nonlinear_arith)
            requires
                v == base * q + v % base,
                v >= base,
                base >= 2,
        ;
        law_number_reads_back(q, base);
        let before = number_text_of(q, base);
        assert(s.drop_last() =~= before);
        assert(s[0] == before[0]);
        assert(q * base == base * q) by (nonlinear_arith);
        assert forall|i: int| 0 <= i < s.len() implies (hex_value(#[trigger] s[i]) matches Some(d)
            && d < base) by {
            if i < before.len() {
                assert(s[i] == before[i]);
            }
        }
    }
}

/// What decimal digits write is read as such: a number in text is the number
/// read.
pub proof fn law_decimal_reads_back(v: nat)
    ensures
        decimal_value(number_text_of(v, 10)) == Some(v),
    decreases v,
{
    let s = number_text_of(v, 10);
    if v < 10 {
        assert(s.drop_last() =~= seq![]);
        assert(decimal_value(seq![]) == Some(0nat));
    } else {
        law_decimal_reads_back(v / 10);
        assert(s.drop_last() =~= number_text_of(v / 10, 10));
    }
}

/// The name of a frame has a character for each of the label, made of letters
/// and digits, dots, dashes and underscores; those that are such are kept.
pub proof fn law_frame_names(label: Seq<char>, i: int)
    requires
        0 <= i < label.len(),
    ensures
        frame_of(label).len() == label.len(),
        ({
            let (c, d) = (label[i], frame_of(label)[i]);
            let plain = ('0' <= c <= '9') || ('a' <= c <= 'z') || ('A' <= c <= 'Z') || c == '.' || c
                == '-' || c == '_';
            d == if plain {
                c
            } else {
                '_'
            }
        }),
{
}

/// Bytes are read from pairs of characters, one after the other, and only where
/// every pair writes one.
pub proof fn law_hex_pairs(s: Seq<char>)
    ensures
        bytes_of(s) is Some <==> s.len() % 2 == 0 && forall|i: int|
            0 <= i < s.len() / 2 ==> (#[trigger] byte_value(s[2 * i], s[2 * i + 1])) is Some,
        bytes_of(s) matches Some(b) ==> {
            &&& 2 * b.len() == s.len()
            &&& forall|i: int|
                0 <= i < b.len() ==> Some(#[trigger] b[i]) == byte_value(s[2 * i], s[2 * i + 1])
        },
    decreases s.len(),
{
    if s.len() >= 2 {
        let n = s.len();
        let less = s.take(n - 2);
        law_hex_pairs(less);
        assert forall|i: int| 0 <= i < less.len() / 2 implies byte_value(
            less[2 * i],
            less[2 * i + 1],
        ) == #[trigger] byte_value(s[2 * i], s[2 * i + 1]) by {}
        if n % 2 == 0 {
            let k = n / 2 - 1;
            assert(2 * k == n - 2);
            let last = byte_value(s[2 * k], s[2 * k + 1]);
            if forall|i: int|
                0 <= i < n / 2 ==> (#[trigger] byte_value(s[2 * i], s[2 * i + 1])) is Some {
                assert(last is Some);
                assert forall|i: int| 0 <= i < less.len() / 2 implies (#[trigger] byte_value(
                    less[2 * i],
                    less[2 * i + 1],
                )) is Some by {
                    assert(byte_value(s[2 * i], s[2 * i + 1]) is Some);
                }
            }
            if bytes_of(s) is Some {
                let b = bytes_of(s).unwrap();
                let before = bytes_of(less).unwrap();
                assert forall|i: int| 0 <= i < n / 2 implies (#[trigger] byte_value(
                    s[2 * i],
                    s[2 * i + 1],
                )) is Some by {
                    if i < k {
                        assert(byte_value(less[2 * i], less[2 * i + 1]) is Some);
                    }
                }
                assert forall|i: int| 0 <= i < b.len() implies Some(#[trigger] b[i]) == byte_value(
                    s[2 * i],
                    s[2 * i + 1],
                ) by {
                    if i < before.len() {
                        assert(Some(before[i]) == byte_value(less[2 * i], less[2 * i + 1]));
                    }
                }
            }
        }
    }
}

/// The text of cells has a digit for each.
pub proof fn law_cells_text(cells: Seq<u8>, i: int)
    requires
        0 <= i < cells.len(),
        cells[i] <= 9,
    ensures
        cells_text(cells).len() == cells.len(),
        cells_text(cells)[i] as int == '0' as int + cells[i],
{
    assert(cells_text(cells)[i] == hex_char(cells[i] as int));
}

/// Whether a text has decimal digits only.
pub open spec fn is_decimal(s: Seq<char>) -> bool {
    forall|i: int| 0 <= i < s.len() ==> '0' <= #[trigger] s[i] <= '9'
}

/// Digits write a number, and nothing else does.
proof fn lemma_decimal(s: Seq<char>)
    ensures
        decimal_value(s) is Some <==> is_decimal(s),
        decimal_value(s) matches Some(v) ==> v == read_digits(s, 10),
    decreases s.len(),
{
    if s.len() > 0 {
        let less = s.drop_last();
        lemma_decimal(less);
        if is_decimal(s) {
            assert forall|i: int| 0 <= i < less.len() implies '0' <= #[trigger] less[i] <= '9' by {
                assert(less[i] == s[i]);
            }
            assert('0' <= s[s.len() - 1] <= '9');
        }
        if decimal_value(s) is Some {
            assert forall|i: int| 0 <= i < s.len() implies '0' <= #[trigger] s[i] <= '9' by {
                if i < less.len() {
                    assert('0' <= less[i] <= '9');
                }
            }
        }
    }
}

/// A text writes a number if and only if it is one or more decimal digits, with
/// at most one plus sign before them, and the number is the one that they write.
pub proof fn law_numbers_in_text(s: Seq<char>)
    ensures
        s.len() > 0 && s[0] == '+' ==> {
            &&& number_of(s) is Some <==> s.len() > 1 && is_decimal(s.skip(1))
            &&& number_of(s) matches Some(v) ==> v == read_digits(s.skip(1), 10)
        },
        !(s.len() > 0 && s[0] == '+') ==> {
            &&& number_of(s) is Some <==> s.len() > 0 && is_decimal(s)
            &&& number_of(s) matches Some(v) ==> v == read_digits(s, 10)
        },
{
    lemma_decimal(s);
    if s.len() > 0 {
        lemma_decimal(s.skip(1));
    }
}

} // verus!
