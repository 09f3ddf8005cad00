//! What it means for test vectors to hold, and what names, requests and
//! pictures are taken for.
use crate::contours::Contour;
use crate::expect::{meets, Place};
use crate::field::Gf;
use crate::frame_vectors::{tag_meets, Tag};
use crate::grid_vectors::{rows_of, trip_holds};
use crate::header::{parameters_listed, requested};
use crate::json::{json_integer, json_nothing, json_text, json_texts, json_whole, json_written};
use crate::marker::{parameters_of, MarkerSpec};
use crate::mode_vectors::{encode_holds, encoding, guard_holds, Units};
use crate::pairing::law_pairing_suits;
use crate::payload::{Meaning, PayloadError};
use crate::payload_laws::{
    law_geo_reads_back, law_id_reads_back, law_raw_reads_back, law_tagged_reads_back,
};
use crate::picture::{usable, PictureError};
use crate::registry::{default_parameters, parameters_named};
use crate::rs::{decoded, encoded, is_codeword, within};
use crate::rs_laws::{agree_except, law_decoded_is_codeword, law_encoded_is_codeword};
use crate::scenario_laws::law_turned_reads_back;
use crate::seqs::all_read;
use crate::stage_vectors::{contour_partners, point_suits, same_points};
use crate::text::{bytes_of, fields, law_hex_reads_back, number_of};
use crate::text_laws::law_number_reads_back;
use crate::vectors::{
    bytes_in, data_of, is_outcome, positions_in, rs16_encode_holds, rs_decode_holds,
    rs_encode_holds, symbols_in,
};
use vstd::prelude::*;

verus! {

/// Something is read of a list exactly where something is read of each of its
/// items, and it is that, in order.
pub proof fn law_all_read<A, T>(items: Seq<A>, read: spec_fn(A) -> Option<T>)
    ensures
        all_read(items, read) is Some <==> forall|i: int|
            0 <= i < items.len() ==> read(#[trigger] items[i]) is Some,
        all_read(items, read) matches Some(v) ==> v.len() == items.len() && forall|i: int|
            0 <= i < items.len() ==> Some(v[i]) == read(#[trigger] items[i]),
    decreases items.len(),
{
    if items.len() > 0 {
        let less = items.drop_last();
        law_all_read(less, read);
        assert forall|i: int| 0 <= i < less.len() implies #[trigger] less[i] == items[i] by {}
        if forall|i: int| 0 <= i < items.len() ==> read(#[trigger] items[i]) is Some {
            assert forall|i: int| 0 <= i < less.len() implies read(#[trigger] less[i]) is Some by {
                assert(read(items[i]) is Some);
            }
            assert(read(items[items.len() - 1]) is Some);
        }
        if all_read(items, read) is Some {
            assert forall|i: int| 0 <= i < items.len() implies read(#[trigger] items[i]) is Some by {
                if i < less.len() {
                    assert(read(less[i]) is Some);
                }
            }
            let (v, before) = (all_read(items, read).unwrap(), all_read(less, read).unwrap());
            assert forall|i: int| 0 <= i < items.len() implies Some(v[i]) == read(
                #[trigger] items[i],
            ) by {
                if i < less.len() {
                    assert(Some(before[i]) == read(less[i]));
                }
            }
        }
    }
}

/// Only one value is the expected one.
pub proof fn law_one_value_meets(a: Meaning, b: Meaning, want: Seq<char>, place: Place)
    requires
        meets(a, want, place),
        meets(b, want, place),
    ensures
        a == b,
{
    match (a, b) {
        (Meaning::Int(v), Meaning::Int(w)) => {
            law_number_reads_back(v, 10);
            law_number_reads_back(w, 10);
        },
        (Meaning::Bytes(v), Meaning::Bytes(w)) => {
            law_hex_reads_back(v);
            law_hex_reads_back(w);
        },
        (Meaning::Tagged { namespace, id }, Meaning::Tagged { namespace: n, id: i }) => {
            law_number_reads_back(id, 10);
            law_number_reads_back(i, 10);
        },
        _ => {},
    }
}

/// A codeword that is as listed starts with the data and is a word of the code.
pub proof fn law_listed_codeword(case: Seq<char>)
    requires
        rs_encode_holds(case),
    ensures
        ({
            let (data, code) = (bytes_in(case, "/data"@), bytes_in(case, "/code"@));
            &&& data is Some
            &&& code is Some
            &&& json_whole(case, "/nsym"@) matches Some(n) && {
                &&& code->Some_0.len() == data->Some_0.len() + n
                &&& code->Some_0.take(data->Some_0.len() as int) == data->Some_0
                &&& is_codeword(Gf::Byte, code->Some_0, n as nat)
            }
        }),
{
    let data = bytes_in(case, "/data"@)->Some_0;
    let n = json_whole(case, "/nsym"@)->Some_0 as nat;
    law_encoded_is_codeword(Gf::Byte, data, n);
    law_hex_reads_back(encoded(Gf::Byte, data, n));
}

/// Where bytes are expected, only they are as listed.
pub proof fn law_one_outcome(a: Seq<u8>, b: Seq<u8>, case: Seq<char>, path: Seq<char>)
    requires
        is_outcome(Some(a), case, path),
        is_outcome(Some(b), case, path),
    ensures
        a == b,
        bytes_in(case, path) == Some(a),
{
    law_hex_reads_back(a);
    law_hex_reads_back(b);
}

/// A trip without flipped cells holds only if it is said to end where it began:
/// with the payload, at the rotation by which the grid was turned.
pub proof fn law_clean_trip(m: &MarkerSpec, payload: Seq<u8>, case: Seq<char>)
    requires
        m.wf(),
        m.has_sync,
        m.sync_unique(),
        trip_holds(m, payload, case),
        crate::grid_vectors::cells_in(m, case, "/flips"@) == Some(Seq::<(usize, usize)>::empty()),
    ensures
        bytes_in(case, "/out"@) == Some(payload),
        json_whole(case, "/shift"@) matches Some(s) && json_integer(case, "/out_shift"@) == Some(
            (s % (m.sector_count as u64)) as i64,
        ),
{
    let s = json_whole(case, "/shift"@)->Some_0;
    let n = m.sector_count as int;
    let erased = crate::grid_vectors::cells_in(m, case, "/erasures"@)->Some_0;
    vstd::arithmetic::div_mod::lemma_mod_bound(s as int, n);
    law_turned_reads_back(m, payload, s as int % n, erased);
    law_hex_reads_back(payload);
    assert(crate::scenario::damaged(m, payload, s as int % n, Seq::empty())
        == crate::scenario::damaged(m, payload, s as int % n, seq![]));
}

/// The rows of a grid in text are its rings, a digit for each cell.
pub proof fn law_rows_are_rings(grid: Seq<u8>, rings: int, sectors: int, ring: int, sector: int)
    requires
        sectors >= 1,
        grid.len() == rings * sectors,
        0 <= ring < rings,
        0 <= sector < sectors,
        grid[ring * sectors + sector] <= 9,
    ensures
        rows_of(grid, sectors).len() == rings,
        rows_of(grid, sectors)[ring].len() == sectors,
        rows_of(grid, sectors)[ring][sector] as int == '0' as int + grid[ring * sectors + sector],
{
    let len = grid.len() as int;
    assert(len + sectors - 1 == sectors * rings + (sectors - 1)) by (nonlinear_arith)
        requires
            len == rings * sectors,
    ;
    vstd::arithmetic::div_mod::lemma_fundamental_div_mod_converse(
        len + sectors - 1,
        sectors,
        rings,
        sectors - 1,
    );
    assert(0 <= ring * sectors && (ring + 1) * sectors == ring * sectors + sectors && (ring + 1)
        * sectors <= rings * sectors) by (nonlinear_arith)
        requires
            0 <= ring < rings,
            sectors >= 1,
    ;
    let row = grid.subrange(ring * sectors, (ring + 1) * sectors);
    assert(row[sector] == grid[ring * sectors + sector]);
    crate::text_laws::law_cells_text(row, sector);
}

/// Contours that are paired with expected ones have their points, and no
/// expected contour is taken twice.
pub proof fn law_contours_paired(contours: Seq<Contour>, want: Seq<Seq<char>>)
    requires
        contours.len() <= usize::MAX,
        want.len() == contours.len(),
        contour_partners(contours, want) is Some,
    ensures
        ({
            let p = contour_partners(contours, want)->Some_0;
            &&& p.len() == contours.len()
            &&& forall|g: int|
                0 <= g < p.len() ==> #[trigger] p[g] < want.len() && same_points(
                    contours[g],
                    want[p[g] as int],
                )
            &&& forall|g: int, h: int| 0 <= g < h < p.len() ==> #[trigger] p[g] != #[trigger] p[h]
        }),
{
    let n = contours.len();
    let suits = point_suits(contours, want);
    law_pairing_suits(suits, n as int, n);
    let q = crate::pairing::partners(suits, n as int, n)->Ok_0;
    let p = contour_partners(contours, want)->Some_0;
    assert forall|g: int| 0 <= g < p.len() implies #[trigger] p[g] < want.len() && same_points(
        contours[g],
        want[p[g] as int],
    ) by {
        assert(q[g] < n && suits[g * n + q[g]]);
        crate::image::lemma_index(n as int, n as int, q[g] as int, g);
    }
    assert forall|g: int, h: int| 0 <= g < h < p.len() implies #[trigger] p[g]
        != #[trigger] p[h] by {
        assert(q[g] != q[h]);
        assert(q[g] < n && q[h] < n);
    }
}

/// No case is both encoded and refused.
pub proof fn law_encoded_or_refused(case: Seq<char>, units: Option<Units>)
    ensures
        !(encode_holds(case, units) && guard_holds(case, units)),
{
}

/// What a mode makes of its texts reads back as what the texts say.
pub proof fn law_encoding_reads_back(m: &MarkerSpec, case: Seq<char>, units: Option<Units>)
    requires
        m.wf(),
        m.body() >= 2,
        encoding(m, case, units) matches Some(Some(_)),
    ensures
        ({
            let p = encoding(m, case, units)->Some_0->Some_0;
            let (mode, args) = (
                json_text(case, "/fn"@)->Some_0,
                json_texts(case, "/args"@)->Some_0,
            );
            m.meaning(p) == Ok::<(Seq<char>, Meaning), PayloadError>(
                if mode == "id"@ {
                    ("ID"@, Meaning::Int(number_of(args[0])->Some_0))
                } else if mode == "raw"@ {
                    ("RAW"@, Meaning::Bytes(bytes_of(args[0])->Some_0))
                } else if mode == "tagged"@ {
                    (
                        "TAGGED"@,
                        Meaning::Tagged {
                            namespace: number_of(args[0])->Some_0 as u8,
                            id: number_of(args[1])->Some_0,
                        },
                    )
                } else {
                    (
                        "GEO"@,
                        Meaning::Geo {
                            lat: units->Some_0.lat as nat,
                            lon: units->Some_0.lon as nat,
                            alt_m: units->Some_0.alt_m as int,
                        },
                    )
                },
            )
        }),
{
    reveal_strlit("id");
    reveal_strlit("raw");
    reveal_strlit("tagged");
    reveal_strlit("geo");
    let (mode, args) = (json_text(case, "/fn"@)->Some_0, json_texts(case, "/args"@)->Some_0);
    if mode == "id"@ {
        law_id_reads_back(m, number_of(args[0])->Some_0);
    } else if mode == "raw"@ {
        law_raw_reads_back(m, bytes_of(args[0])->Some_0);
    } else if mode == "tagged"@ {
        law_tagged_reads_back(m, number_of(args[0])->Some_0 as u8, number_of(args[1])->Some_0);
    } else {
        let u = units->Some_0;
        law_geo_reads_back(m, u.lat as nat, u.lon as nat, u.alt_m as int);
    }
}

/// Names that all stand for variants ask for these variants, one for each, in
/// order.
pub proof fn law_names_in_order(names: Seq<Seq<char>>, n: nat)
    requires
        n <= names.len(),
        forall|i: int| 0 <= i < n ==> parameters_of(#[trigger] names[i]) is Some,
    ensures
        parameters_named(names, n).len() == n,
        forall|i: int|
            0 <= i < n ==> Some(#[trigger] parameters_named(names, n)[i]) == parameters_of(
                names[i],
            ),
    decreases n,
{
    if n > 0 {
        law_names_in_order(names, (n - 1) as nat);
        assert(parameters_of(names[n - 1]) is Some);
    }
}

/// A name that stands for no variant changes nothing.
pub proof fn law_unknown_names_ignored(names: Seq<Seq<char>>, at: int, name: Seq<char>, n: nat)
    requires
        0 <= at <= n <= names.len(),
        parameters_of(name) is None,
    ensures
        parameters_named(names.insert(at, name), n + 1) == parameters_named(names, n),
    decreases n,
{
    let more = names.insert(at, name);
    if at == n {
        assert(more[n as int] == name);
        lemma_names_same(more, names, n);
    } else {
        law_unknown_names_ignored(names, at, name, (n - 1) as nat);
        assert(more[n as int] == names[n - 1]);
    }
}

/// The same names ask for the same variants.
proof fn lemma_names_same(a: Seq<Seq<char>>, b: Seq<Seq<char>>, n: nat)
    requires
        n <= a.len(),
        n <= b.len(),
        forall|i: int| 0 <= i < n ==> #[trigger] a[i] == b[i],
    ensures
        parameters_named(a, n) == parameters_named(b, n),
    decreases n,
{
    if n > 0 {
        lemma_names_same(a, b, (n - 1) as nat);
        assert(a[n - 1] == b[n - 1]);
    }
}

/// A list asks for the variants that its texts name, as a text with these names
/// does; what is no text is passed over.
pub proof fn law_list_asks_for_names(list: Seq<Option<Seq<char>>>, names: Seq<Seq<char>>, n: nat)
    requires
        n <= list.len(),
        n <= names.len(),
        forall|i: int| 0 <= i < n ==> list[i] == Some(#[trigger] names[i]),
    ensures
        parameters_listed(list, n) == parameters_named(names, n),
        n < list.len() && list[n as int] is None ==> parameters_listed(list, n + 1)
            == parameters_named(names, n),
    decreases n,
{
    if n > 0 {
        law_list_asks_for_names(list, names, (n - 1) as nat);
        assert(list[n - 1] == Some(names[n - 1]));
    }
}

/// Of expected contours with the points of a contour it is paired with the last
/// that none before it has taken.
pub proof fn law_last_contour_first(contours: Seq<Contour>, want: Seq<Seq<char>>, g: int, w: int)
    requires
        contours.len() <= usize::MAX,
        want.len() == contours.len(),
        contour_partners(contours, want) is Some,
        0 <= g < contours.len(),
        contour_partners(contours, want)->Some_0[g] < w < want.len(),
        same_points(contours[g], want[w]),
    ensures
        exists|h: int| 0 <= h < g && #[trigger] contour_partners(contours, want)->Some_0[h] == w,
{
    let n = contours.len();
    let suits = point_suits(contours, want);
    let q = crate::pairing::partners(suits, n as int, n)->Ok_0;
    law_pairing_suits(suits, n as int, n);
    let v = n - 1 - w;
    assert(q[g] < n);
    crate::image::lemma_index(n as int, n as int, v, g);
    assert(suits[g * n + v]);
    crate::pairing::law_pairing_takes_first(suits, n as int, n, g, v);
    let h = choose|h: int| 0 <= h < g && #[trigger] q[h] == v;
    assert(contour_partners(contours, want)->Some_0[h] == w);
}

/// Where one tag is as expected, no other is, and neither is none.
pub proof fn law_one_tag_meets(
    a: Option<Tag>,
    b: Option<Tag>,
    want: Seq<char>,
    all_tags: bool,
    place: Place,
)
    requires
        tag_meets(a, want, all_tags, place),
        tag_meets(b, want, all_tags, place),
    ensures
        match (a, b) {
            (Some(s), Some(t)) => s.variant@ == t.variant@ && s.mode@ == t.mode@ && s.value@
                == t.value@ && (all_tags ==> s.inverted == t.inverted),
            (None, None) => true,
            _ => false,
        },
{
    if let (Some(s), Some(t)) = (a, b) {
        let value = json_written(want, "/value"@)->Some_0;
        law_one_value_meets(s.value@, t.value@, value, place);
    }
}

/// A picture is used if and only if it has one channel of 8 bits and its pixels
/// can be held; what cannot be read is told from what cannot be used.
pub proof fn law_usable_pictures(w: u32, h: u32, color: u8, bits: u8)
    ensures
        usable(None) == Err::<(u32, u32), PictureError>(PictureError::Unreadable),
        usable(Some((w, h, color, bits))) is Ok <==> color == 0 && bits == 8 && w * h <= isize::MAX,
        usable(Some((w, h, color, bits))) matches Ok(size) ==> size == (w, h),
        usable(Some((w, h, color, bits))) == Err::<(u32, u32), PictureError>(
            PictureError::TooLarge,
        ) <==> color == 0 && bits == 8 && w * h > isize::MAX,
{
}

/// A codeword of 4-bit symbols that is as listed starts with the data and is a
/// word of the code.
pub proof fn law_listed_codeword_of_nibbles(case: Seq<char>)
    requires
        rs16_encode_holds(case),
        Gf::Nibble.has_all(symbols_in(case, "/data"@)->Some_0),
    ensures
        ({
            let (data, code) = (symbols_in(case, "/data"@), symbols_in(case, "/code"@));
            &&& data is Some
            &&& code is Some
            &&& json_whole(case, "/nsym"@) matches Some(n) && {
                &&& code->Some_0.len() == data->Some_0.len() + n
                &&& code->Some_0.take(data->Some_0.len() as int) == data->Some_0
                &&& is_codeword(Gf::Nibble, code->Some_0, n as nat)
            }
        }),
{
    let data = symbols_in(case, "/data"@)->Some_0;
    let n = json_whole(case, "/nsym"@)->Some_0 as nat;
    law_encoded_is_codeword(Gf::Nibble, data, n);
}

/// A correction that is as listed gives the data of a word of the code, which
/// differs from the received word, apart from the erasures, in no more symbols
/// than the code can take on.
pub proof fn law_listed_correction(case: Seq<char>) -> (r: (Seq<u8>, Seq<usize>))
    requires
        rs_decode_holds(case),
        !json_nothing(case, "/out"@),
    ensures
        ({
            let (word, pos) = r;
            let received = bytes_in(case, "/recv"@)->Some_0;
            let n = json_whole(case, "/nsym"@)->Some_0 as nat;
            let erased = positions_in(case, "/erase"@, received.len() as int)->Some_0;
            &&& is_codeword(Gf::Byte, word, n)
            &&& agree_except(word, received, erased, pos)
            &&& 2 * pos.len() <= n + erased.len()
            &&& bytes_in(case, "/out"@) == Some(word.take(received.len() - n))
        }),
{
    let received = bytes_in(case, "/recv"@)->Some_0;
    let n = json_whole(case, "/nsym"@)->Some_0;
    let erased = positions_in(case, "/erase"@, received.len() as int)->Some_0;
    let d = data_of(Gf::Byte, received, n, erased, None);
    assert(d is Some);
    let word = decoded(Gf::Byte, received, n as nat, erased, None)->Some_0;
    law_decoded_is_codeword(Gf::Byte, received, n as nat, erased, None);
    law_hex_reads_back(d->Some_0);
    let pos = choose|pos: Seq<usize>|
        {
            &&& #[trigger] agree_except(word, received, erased, pos)
            &&& 2 * pos.len() <= n as nat + erased.len()
            &&& within(pos.len(), None)
        };
    (word, pos)
}

/// Variants are looked for by default where no text and no list asks for others,
/// or the text is empty or `auto`; a text counts before a list.
pub proof fn law_requested(text: Seq<char>, list: Option<Seq<Option<Seq<char>>>>)
    ensures
        requested(None, None) == default_parameters(),
        requested(Some(""@), list) == default_parameters(),
        requested(Some("auto"@), list) == default_parameters(),
        text.len() > 0 && text != "auto"@ ==> requested(Some(text), list) == parameters_named(
            fields(text),
            fields(text).len(),
        ),
{
    reveal_strlit("");
}

} // verus!
