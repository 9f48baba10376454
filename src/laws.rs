//! Properties of the decoder, stated over `decode` and proved.
use vstd::prelude::*;
use crate::decoder::{
    coord_at, decode, definition_at, entries, payload_at, run, step, yielded, Coord,
    INVALID_SEMICIRCLES, LAT_FIELD, LON_FIELD, RECORD_MESG,
};
use crate::layout::{empty_table, field_offset, kept_fields, layout_of, sum_sizes, Layout, COORD_SIZE};
use crate::wire::{data_region, fit_tag, header_ok, i32_of_bits, i32_value, u16_value, u32_value};

verus! {

/// The four bytes of the 32-bit pattern `u` (0 <= u < 2^32), least
/// significant first.
pub open spec fn le_bytes(u: int) -> Seq<u8> {
    seq![
        (u % 256) as u8,
        ((u / 256) % 256) as u8,
        (((u / 256) / 256) % 256) as u8,
        (((u / 256) / 256) / 256) as u8,
    ]
}

/// The four bytes of the signed integer `v` in the given byte order.
pub open spec fn i32_bytes(v: i32, big: bool) -> Seq<u8> {
    let le = le_bytes(if v < 0 { v + 0x1_0000_0000 } else { v as int });
    if big {
        seq![le[3], le[2], le[1], le[0]]
    } else {
        le
    }
}

/// A 14-byte file header announcing `size` bytes of data.
pub open spec fn fit_header(size: int) -> Seq<u8> {
    seq![14u8, 0x10u8, 0u8, 0u8] + le_bytes(size) + fit_tag() + seq![0u8, 0u8]
}

/// A definition message for local message 0, global message `RECORD_MESG`,
/// with two 4-byte fields numbered `first` and `second`.
pub open spec fn coord_definition(big: bool, first: u8, second: u8) -> Seq<u8> {
    seq![0x40u8, 0u8, if big { 1u8 } else { 0u8 }]
        + (if big { seq![0u8, 20u8] } else { seq![20u8, 0u8] })
        + seq![2u8, first, 4u8, 0x85u8, second, 4u8, 0x85u8]
}

/// A data message for local message 0 holding `c.0` then `c.1`.
pub open spec fn coord_record(c: Coord, big: bool) -> Seq<u8> {
    seq![0u8] + i32_bytes(c.0, big) + i32_bytes(c.1, big)
}

/// The data messages for `pts`, one after another.
pub open spec fn coord_records(pts: Seq<Coord>, big: bool) -> Seq<u8>
    decreases pts.len(),
{
    if pts.len() == 0 {
        seq![]
    } else {
        coord_record(pts[0], big) + coord_records(pts.drop_first(), big)
    }
}

/// A file with the definition of `coord_definition(big, 0, 1)`, a data
/// message for each of `pts`, then the bytes `tail`.
pub open spec fn track_file(pts: Seq<Coord>, big: bool, tail: Seq<u8>) -> Seq<u8> {
    let body = coord_definition(big, LAT_FIELD, LON_FIELD) + coord_records(pts, big) + tail;
    fit_header(body.len() as int) + body
}

/// Whether either half of `c` holds the "no value" marker.
pub open spec fn is_sentinel(c: Coord) -> bool {
    c.0 == INVALID_SEMICIRCLES || c.1 == INVALID_SEMICIRCLES
}

/// The elements of `pts` without a "no value" marker, in order.
pub open spec fn without_sentinels(pts: Seq<Coord>) -> Seq<Coord>
    decreases pts.len(),
{
    if pts.len() == 0 {
        seq![]
    } else {
        (if is_sentinel(pts[0]) { seq![] } else { seq![pts[0]] }) + without_sentinels(pts.drop_first())
    }
}

/// Whether `tail` is a data message cut short: a proper prefix of one.
pub open spec fn is_cut_record(tail: Seq<u8>, big: bool) -> bool {
    exists|c: Coord| tail.len() < 9 && #[trigger] coord_record(c, big).take(tail.len() as int) == tail
}

proof fn lemma_le_bytes(b: Seq<u8>, i: int, u: int)
    requires
        0 <= u < 0x1_0000_0000,
        0 <= i,
        i + 4 <= b.len(),
        b.subrange(i, i + 4) == le_bytes(u),
    ensures
        u32_value(b, i, false) == u,
{
    assert(b[i] == b.subrange(i, i + 4)[0]);
    assert(b[i + 1] == b.subrange(i, i + 4)[1]);
    assert(b[i + 2] == b.subrange(i, i + 4)[2]);
    assert(b[i + 3] == b.subrange(i, i + 4)[3]);
}

proof fn lemma_i32_bytes(b: Seq<u8>, i: int, v: i32, big: bool)
    requires
        0 <= i,
        i + 4 <= b.len(),
        b.subrange(i, i + 4) == i32_bytes(v, big),
    ensures
        i32_value(b, i, big) == v,
{
    let u = if v < 0 { v + 0x1_0000_0000 } else { v as int };
    let le = le_bytes(u);
    assert(b[i] == b.subrange(i, i + 4)[0]);
    assert(b[i + 1] == b.subrange(i, i + 4)[1]);
    assert(b[i + 2] == b.subrange(i, i + 4)[2]);
    assert(b[i + 3] == b.subrange(i, i + 4)[3]);
    assert(u32_value(b, i, big) == u);
}

/// The layout that `coord_definition(big, first, second)` declares.
pub open spec fn coord_layout(big: bool, first: u8, second: u8) -> Layout {
    layout_of(big, RECORD_MESG, seq![(first, COORD_SIZE), (second, COORD_SIZE)])
}

proof fn lemma_header_bits()
    ensures
        0x40u8 & 0x80u8 == 0,
        0x40u8 & 0x40u8 != 0,
        0x40u8 & 0x20u8 == 0,
        0x40u8 & 0x0Fu8 == 0,
        0u8 & 0x80u8 == 0,
        0u8 & 0x40u8 == 0,
        0u8 & 0x0Fu8 == 0,
{
    assert(0x40u8 & 0x80u8 == 0) by (bit_vector);
    assert(0x40u8 & 0x40u8 != 0) by (bit_vector);
    assert(0x40u8 & 0x20u8 == 0) by (bit_vector);
    assert(0x40u8 & 0x0Fu8 == 0) by (bit_vector);
    assert(0u8 & 0x80u8 == 0) by (bit_vector);
    assert(0u8 & 0x40u8 == 0) by (bit_vector);
    assert(0u8 & 0x0Fu8 == 0) by (bit_vector);
}

proof fn lemma_coord_layout(big: bool, first: u8, second: u8)
    requires
        first != second,
    ensures
        coord_layout(big, first, second).data_len == 8,
        coord_layout(big, first, second).fields == seq![(first, COORD_SIZE), (second, COORD_SIZE)],
        field_offset(coord_layout(big, first, second).fields, first) == Some(0int),
        field_offset(coord_layout(big, first, second).fields, second) == Some(4int),
{
    let f = seq![(first, COORD_SIZE), (second, COORD_SIZE)];
    let f1 = seq![(first, COORD_SIZE)];
    assert(f.drop_last() =~= f1);
    assert(f1.drop_last() =~= Seq::<(u8, u8)>::empty());
    assert(sum_sizes(f1) == 4);
    assert(sum_sizes(f) == 8);
    assert(kept_fields(f) == f);
    assert(field_offset(f1, first) == Some(0int));
}

/// The definition message at `pos` declares `coord_layout(big, first, second)`
/// for local message 0.
proof fn lemma_definition_step(b: Seq<u8>, end: int, pos: int, table: Seq<Layout>, big: bool, first: u8, second: u8)
    requires
        0 <= pos,
        pos + 12 <= end <= b.len(),
        b.subrange(pos, pos + 12) == coord_definition(big, first, second),
    ensures
        step(b, end, pos, table) == Some((pos + 12, table.update(0, coord_layout(big, first, second)), None::<Coord>)),
{
    let d = b.subrange(pos, pos + 12);
    lemma_header_bits();
    let q = pos + 1;
    assert(b[pos] == d[0]);
    assert(b[q + 1] == d[2]);
    assert(b[q + 2] == d[3]);
    assert(b[q + 3] == d[4]);
    assert(b[q + 4] == d[5]);
    assert(b[q + 5] == d[6]);
    assert(b[q + 6] == d[7]);
    assert(b[q + 8] == d[9]);
    assert(b[q + 9] == d[10]);
    assert(b[pos] == 0x40u8);
    assert(b[q + 1] == (if big { 1u8 } else { 0u8 }));
    assert(u16_value(b, q + 2, big) == 20);
    assert(b[q + 4] == 2);
    assert(entries(b, q + 5, 2) =~= seq![(first, COORD_SIZE), (second, COORD_SIZE)]);
    assert(definition_at(b, end, q, 0x40u8) == Some((coord_layout(big, first, second), pos + 12)));
}

/// The data message at `pos`, holding `c.0` then `c.1`, under a table whose
/// slot 0 holds `coord_layout(big, first, second)`.
proof fn lemma_record_step(
    b: Seq<u8>,
    end: int,
    pos: int,
    table: Seq<Layout>,
    big: bool,
    first: u8,
    second: u8,
    c: Coord,
)
    requires
        0 <= pos,
        pos + 9 <= end <= b.len(),
        table.len() == 16,
        table[0] == coord_layout(big, first, second),
        (first == LAT_FIELD && second == LON_FIELD) || (first == LON_FIELD && second == LAT_FIELD),
        b.subrange(pos, pos + 9) == coord_record(c, big),
    ensures
        ({
            let read = if first == LAT_FIELD { c } else { (c.1, c.0) };
            step(b, end, pos, table) == Some((pos + 9, table, if is_sentinel(read) { None } else { Some(read) }))
        }),
{
    let r = coord_record(c, big);
    let read = if first == LAT_FIELD { c } else { (c.1, c.0) };
    let expect = if is_sentinel(read) { None } else { Some(read) };
    lemma_header_bits();
    assert(b[pos] == r[0]);
    assert(b[pos] == 0u8);
    lemma_record_body(b, pos + 1, table[0], big, first, second, c);
    assert(payload_at(b, end, pos + 1, table[0]) == Some((expect, pos + 9)));
}

proof fn lemma_record_body(b: Seq<u8>, q: int, d: Layout, big: bool, first: u8, second: u8, c: Coord)
    requires
        1 <= q,
        q + 8 <= b.len(),
        d == coord_layout(big, first, second),
        (first == LAT_FIELD && second == LON_FIELD) || (first == LON_FIELD && second == LAT_FIELD),
        b.subrange(q - 1, q + 8) == coord_record(c, big),
    ensures
        d.data_len == 8,
        ({
            let read = if first == LAT_FIELD { c } else { (c.1, c.0) };
            coord_at(b, q, d) == if is_sentinel(read) { None } else { Some(read) }
        }),
{
    let r = coord_record(c, big);
    lemma_coord_layout(big, first, second);
    assert(r.subrange(1, 5) =~= i32_bytes(c.0, big));
    assert(r.subrange(5, 9) =~= i32_bytes(c.1, big));
    assert(b.subrange(q, q + 4) =~= r.subrange(1, 5));
    assert(b.subrange(q + 4, q + 8) =~= r.subrange(5, 9));
    lemma_i32_bytes(b, q, c.0, big);
    lemma_i32_bytes(b, q + 4, c.1, big);
}

proof fn lemma_coord_records_len(pts: Seq<Coord>, big: bool)
    ensures
        coord_records(pts, big).len() == 9 * pts.len(),
    decreases pts.len(),
{
    if pts.len() > 0 {
        lemma_coord_records_len(pts.drop_first(), big);
    }
}

proof fn lemma_run_records(b: Seq<u8>, end: int, pos: int, table: Seq<Layout>, big: bool, pts: Seq<Coord>)
    requires
        0 <= pos,
        pos + 9 * pts.len() <= end <= b.len(),
        table.len() == 16,
        table[0] == coord_layout(big, LAT_FIELD, LON_FIELD),
        b.subrange(pos, pos + 9 * pts.len()) == coord_records(pts, big),
    ensures
        run(b, end, pos, table) == without_sentinels(pts) + run(b, end, pos + 9 * pts.len(), table),
    decreases pts.len(),
{
    lemma_coord_records_len(pts, big);
    if pts.len() == 0 {
        assert(without_sentinels(pts) + run(b, end, pos, table) =~= run(b, end, pos, table));
    } else {
        let rest = pts.drop_first();
        let all = coord_records(pts, big);
        lemma_coord_records_len(rest, big);
        assert(b.subrange(pos, pos + 9) =~= all.subrange(0, 9));
        assert(all.subrange(0, 9) =~= coord_record(pts[0], big));
        assert(b.subrange(pos + 9, pos + 9 + 9 * rest.len()) =~= all.subrange(9, all.len() as int));
        assert(all.subrange(9, all.len() as int) =~= coord_records(rest, big));
        lemma_record_step(b, end, pos, table, big, LAT_FIELD, LON_FIELD, pts[0]);
        let e = if is_sentinel(pts[0]) { None } else { Some(pts[0]) };
        assert(run(b, end, pos, table) == yielded(e) + run(b, end, pos + 9, table));
        lemma_run_records(b, end, pos + 9, table, big, rest);
        assert(yielded(e) =~= (if is_sentinel(pts[0]) { seq![] } else { seq![pts[0]] }));
        assert(pos + 9 + 9 * rest.len() == pos + 9 * pts.len());
        assert(without_sentinels(pts) + run(b, end, pos + 9 * pts.len(), table)
            =~= yielded(e) + (without_sentinels(rest) + run(b, end, pos + 9 * pts.len(), table)));
    }
}

proof fn lemma_run_cut_record(b: Seq<u8>, pos: int, table: Seq<Layout>, big: bool, tail: Seq<u8>)
    requires
        0 <= pos,
        b.len() == pos + tail.len(),
        b.subrange(pos, b.len() as int) == tail,
        is_cut_record(tail, big),
        table.len() == 16,
        table[0] == coord_layout(big, LAT_FIELD, LON_FIELD),
    ensures
        run(b, b.len() as int, pos, table) == Seq::<Coord>::empty(),
{
    if tail.len() > 0 {
        let c = choose|c: Coord| tail.len() < 9 && #[trigger] coord_record(c, big).take(tail.len() as int) == tail;
        lemma_header_bits();
        lemma_coord_layout(big, LAT_FIELD, LON_FIELD);
        assert(b[pos] == tail[0]);
        assert(tail[0] == coord_record(c, big)[0]);
        assert(b[pos] == 0u8);
        assert(step(b, b.len() as int, pos, table) is None);
    }
}

proof fn lemma_track_header(pts: Seq<Coord>, big: bool, tail: Seq<u8>)
    requires
        pts.len() <= 0x1000_0000,
        tail.len() < 9,
    ensures
        data_region(track_file(pts, big, tail)) == Some((14int, track_file(pts, big, tail).len() as int)),
        track_file(pts, big, tail).len() == 26 + 9 * pts.len() + tail.len(),
{
    let b = track_file(pts, big, tail);
    let body = coord_definition(big, LAT_FIELD, LON_FIELD) + coord_records(pts, big) + tail;
    lemma_coord_records_len(pts, big);
    let h = fit_header(body.len() as int);
    assert(h.len() == 14);
    assert(b[0] == h[0]);
    assert(b.subrange(8, 12) =~= h.subrange(8, 12));
    assert(h.subrange(8, 12) =~= fit_tag());
    assert(header_ok(b));
    assert(b.subrange(4, 8) =~= le_bytes(body.len() as int));
    lemma_le_bytes(b, 4, body.len() as int);
}

/// A file holding one definition of latitude and longitude fields, a data
/// message for each of `pts` and possibly a data message cut short decodes
/// to the elements of `pts` that hold no "no value" marker, in order.
pub proof fn lemma_decode_track(pts: Seq<Coord>, big: bool, tail: Seq<u8>)
    requires
        pts.len() <= 0x1000_0000,
        is_cut_record(tail, big),
    ensures
        decode(track_file(pts, big, tail)) == without_sentinels(pts),
{
    let b = track_file(pts, big, tail);
    let end = b.len() as int;
    lemma_track_header(pts, big, tail);
    lemma_coord_records_len(pts, big);
    let h = fit_header((12 + 9 * pts.len() + tail.len()) as int);
    let d = coord_definition(big, LAT_FIELD, LON_FIELD);
    let r = coord_records(pts, big);
    assert(h.len() == 14);
    assert(d.len() == 12);
    assert(b =~= h + d + r + tail);
    let rec_end = 26 + 9 * pts.len() as int;
    assert(b.subrange(14, 26) =~= d);
    assert(b.subrange(26, rec_end) =~= r);
    assert(b.subrange(rec_end, end) =~= tail);
    let table = empty_table().update(0, coord_layout(big, LAT_FIELD, LON_FIELD));
    lemma_run_definition(b, end, 14, empty_table(), big, LAT_FIELD, LON_FIELD);
    lemma_run_records(b, end, 26, table, big, pts);
    lemma_run_cut_record(b, rec_end, table, big, tail);
    assert(without_sentinels(pts) + Seq::<Coord>::empty() =~= without_sentinels(pts));
}

proof fn lemma_run_definition(b: Seq<u8>, end: int, pos: int, table: Seq<Layout>, big: bool, first: u8, second: u8)
    requires
        0 <= pos,
        pos + 12 <= end <= b.len(),
        b.subrange(pos, pos + 12) == coord_definition(big, first, second),
    ensures
        run(b, end, pos, table) == run(b, end, pos + 12, table.update(0, coord_layout(big, first, second))),
{
    let next = table.update(0, coord_layout(big, first, second));
    lemma_definition_step(b, end, pos, table, big, first, second);
    assert(run(b, end, pos, table) == yielded(None) + run(b, end, pos + 12, next));
    assert(yielded(None) + run(b, end, pos + 12, next) =~= run(b, end, pos + 12, next));
}

/// A file where local message 0 is defined with latitude then longitude,
/// redefined with longitude then latitude, then followed by a data message
/// holding `c.0` then `c.1`.
pub open spec fn redefined_file(c: Coord, big: bool) -> Seq<u8> {
    let body = coord_definition(big, LAT_FIELD, LON_FIELD) + coord_definition(big, LON_FIELD, LAT_FIELD)
        + coord_record(c, big);
    fit_header(body.len() as int) + body
}

proof fn lemma_no_tail(big: bool)
    ensures
        is_cut_record(Seq::<u8>::empty(), big),
{
    assert(coord_record((0i32, 0i32), big).take(0) =~= Seq::<u8>::empty());
}

proof fn lemma_without_sentinels_keeps_all(pts: Seq<Coord>)
    requires
        forall|i: int| 0 <= i < pts.len() ==> !is_sentinel(#[trigger] pts[i]),
    ensures
        without_sentinels(pts) == pts,
    decreases pts.len(),
{
    if pts.len() > 0 {
        let rest = pts.drop_first();
        assert forall|i: int| 0 <= i < rest.len() implies !is_sentinel(#[trigger] rest[i]) by {
            assert(rest[i] == pts[i + 1]);
        }
        lemma_without_sentinels_keeps_all(rest);
        assert(!is_sentinel(pts[0]));
        assert(seq![pts[0]] + rest =~= pts);
    }
}

proof fn lemma_run_no_sentinel(b: Seq<u8>, end: int, pos: int, table: Seq<Layout>)
    ensures
        forall|i: int|
            0 <= i < run(b, end, pos, table).len() ==> !is_sentinel(#[trigger] run(b, end, pos, table)[i]),
    decreases end - pos,
{
    if 0 <= pos < end {
        if let Some((t, next, c)) = step(b, end, pos, table) {
            if t > pos {
                lemma_run_no_sentinel(b, end, t, next);
                let rest = run(b, end, t, next);
                let out = run(b, end, pos, table);
                assert(out == yielded(c) + rest);
                assert forall|i: int| 0 <= i < out.len() implies !is_sentinel(#[trigger] out[i]) by {
                    if i < yielded(c).len() {
                        assert(out[i] == c->Some_0);
                    } else {
                        assert(out[i] == rest[i - yielded(c).len()]);
                    }
                }
            }
        }
    }
}

/// An input shorter than a file header decodes to nothing.
pub proof fn lemma_short_input_decodes_to_nothing(b: Seq<u8>)
    requires
        b.len() < 12,
    ensures
        decode(b) == Seq::<Coord>::empty(),
{
}

/// An input whose bytes 8 to 11 are not ".FIT" decodes to nothing.
pub proof fn lemma_untagged_input_decodes_to_nothing(b: Seq<u8>)
    requires
        b.len() >= 12,
        b.subrange(8, 12) != fit_tag(),
    ensures
        decode(b) == Seq::<Coord>::empty(),
{
}

/// A record written after a definition of latitude and longitude fields
/// decodes back to the same pair, whatever the byte order, unless one half
/// holds the "no value" marker.
pub proof fn lemma_round_trip(c: Coord, big: bool)
    requires
        !is_sentinel(c),
    ensures
        decode(track_file(seq![c], big, Seq::empty())) == seq![c],
{
    lemma_no_tail(big);
    lemma_decode_track(seq![c], big, Seq::empty());
    lemma_without_sentinels_keeps_all(seq![c]);
}

/// A record whose latitude or longitude holds the "no value" marker is
/// left out of the output.
pub proof fn lemma_sentinel_record_omitted(c: Coord, big: bool)
    requires
        is_sentinel(c),
    ensures
        decode(track_file(seq![c], big, Seq::empty())) == Seq::<Coord>::empty(),
{
    lemma_no_tail(big);
    lemma_decode_track(seq![c], big, Seq::empty());
    let none = Seq::<Coord>::empty();
    assert(seq![c].drop_first() =~= none);
    assert(without_sentinels(none) == none);
    assert(none + none =~= none);
}

/// No decoded pair holds the "no value" marker, whatever the input.
pub proof fn lemma_output_has_no_sentinel(b: Seq<u8>)
    ensures
        forall|i: int| 0 <= i < decode(b).len() ==> !is_sentinel(#[trigger] decode(b)[i]),
{
    if let Some((start, end)) = data_region(b) {
        lemma_run_no_sentinel(b, end, start, empty_table());
    }
}

/// Complete records followed by a record cut short decode to exactly the
/// complete records' positions: the cut record ends decoding quietly.
pub proof fn lemma_cut_record_ignored(pts: Seq<Coord>, big: bool, tail: Seq<u8>)
    requires
        pts.len() <= 0x1000_0000,
        forall|i: int| 0 <= i < pts.len() ==> !is_sentinel(#[trigger] pts[i]),
        is_cut_record(tail, big),
    ensures
        decode(track_file(pts, big, tail)) == pts,
{
    lemma_decode_track(pts, big, tail);
    lemma_without_sentinels_keeps_all(pts);
}

/// The same records written big-endian or little-endian, each with the
/// architecture byte that says so, decode to the same pairs.
pub proof fn lemma_byte_order_agnostic(pts: Seq<Coord>)
    requires
        pts.len() <= 0x1000_0000,
    ensures
        decode(track_file(pts, true, Seq::empty())) == decode(track_file(pts, false, Seq::empty())),
{
    lemma_no_tail(true);
    lemma_no_tail(false);
    lemma_decode_track(pts, true, Seq::empty());
    lemma_decode_track(pts, false, Seq::empty());
}

/// A second definition of a local message replaces the first: the data
/// message after it is read with the new field order.
pub proof fn lemma_redefinition_replaces(c: Coord, big: bool)
    requires
        !is_sentinel(c),
    ensures
        decode(redefined_file(c, big)) == seq![(c.1, c.0)],
{
    let b = redefined_file(c, big);
    let d1 = coord_definition(big, LAT_FIELD, LON_FIELD);
    let d2 = coord_definition(big, LON_FIELD, LAT_FIELD);
    let r = coord_record(c, big);
    let h = fit_header(33);
    assert(h.len() == 14);
    assert(d1.len() == 12);
    assert(d2.len() == 12);
    assert(r.len() == 9);
    assert(b =~= h + d1 + d2 + r);
    assert(b[0] == h[0]);
    assert(b.subrange(8, 12) =~= h.subrange(8, 12));
    assert(h.subrange(8, 12) =~= fit_tag());
    assert(b.subrange(4, 8) =~= le_bytes(33));
    lemma_le_bytes(b, 4, 33);
    assert(data_region(b) == Some((14int, 47int)));
    assert(b.subrange(14, 26) =~= d1);
    assert(b.subrange(26, 38) =~= d2);
    assert(b.subrange(38, 47) =~= r);
    let t1 = empty_table().update(0, coord_layout(big, LAT_FIELD, LON_FIELD));
    let t2 = t1.update(0, coord_layout(big, LON_FIELD, LAT_FIELD));
    lemma_run_definition(b, 47, 14, empty_table(), big, LAT_FIELD, LON_FIELD);
    lemma_run_definition(b, 47, 26, t1, big, LON_FIELD, LAT_FIELD);
    lemma_record_step(b, 47, 38, t2, big, LON_FIELD, LAT_FIELD, c);
    assert(run(b, 47, 38, t2) == yielded(Some((c.1, c.0))) + run(b, 47, 47, t2));
    assert(yielded(Some((c.1, c.0))) + run(b, 47, 47, t2) =~= seq![(c.1, c.0)]);
}

} // verus!
