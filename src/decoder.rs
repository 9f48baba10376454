//! The record stream: definition, data and compressed-timestamp messages.
use vstd::prelude::*;
use crate::layout::{
    empty_table, field_offset, kept_fields, layout_of, lemma_field_offset_in_body,
    lemma_kept_fields_sum, lemma_sum_sizes_bound, sum_sizes, DefTable, Layout, MsgDef,
    LOCAL_SLOTS, MAX_FIELDS,
};
use crate::wire::{data_region, find_data_region, i32_value, read_i32, read_u16, u16_value};

verus! {

/// Global message number of "record" messages, the ones that carry positions.
pub const RECORD_MESG: u16 = 20;

/// Field number of the latitude within a record message.
pub const LAT_FIELD: u8 = 0;

/// Field number of the longitude within a record message.
pub const LON_FIELD: u8 = 1;

/// Raw value that marks a field as holding no value.
pub const INVALID_SEMICIRCLES: i32 = 0x7fff_ffff;

/// A position sample: latitude and longitude in semicircles.
pub type Coord = (i32, i32);

/// The `(field number, byte size)` entries of `n` three-byte field
/// descriptions that start at `start`.
pub open spec fn entries(b: Seq<u8>, start: int, n: nat) -> Seq<(u8, u8)> {
    Seq::new(n, |i: int| (b[start + 3 * i], b[start + 3 * i + 1]))
}

/// The definition message whose body starts at `q` (just after its header
/// byte `h`): the layout it declares and the position just past it, or
/// `None` when it does not fit before `end`.
pub open spec fn definition_at(b: Seq<u8>, end: int, q: int, h: u8) -> Option<(Layout, int)> {
    if q + 5 > end {
        None
    } else {
        let big = b[q + 1] == 1;
        let global = u16_value(b, q + 2, big) as u16;
        let n = b[q + 4] as nat;
        let r = q + 5 + 3 * n;
        if r > end {
            None
        } else if h & 0x20 == 0 {
            Some((layout_of(big, global, entries(b, q + 5, n)), r))
        } else if r >= end {
            None
        } else {
            let m = b[r] as nat;
            let t = r + 1 + 3 * m;
            if t > end {
                None
            } else {
                Some((layout_of(big, global, entries(b, q + 5, n) + entries(b, r + 1, m)), t))
            }
        }
    }
}

/// The position a record body with layout `d` at `q` yields, if any.
pub open spec fn coord_at(b: Seq<u8>, q: int, d: Layout) -> Option<Coord> {
    if d.global_num != RECORD_MESG {
        None
    } else {
        match (field_offset(d.fields, LAT_FIELD), field_offset(d.fields, LON_FIELD)) {
            (Some(a), Some(o)) => {
                let lat = i32_value(b, q + a, d.big_endian);
                let lon = i32_value(b, q + o, d.big_endian);
                if lat == INVALID_SEMICIRCLES || lon == INVALID_SEMICIRCLES {
                    None
                } else {
                    Some((lat, lon))
                }
            },
            _ => None,
        }
    }
}

/// A record body with layout `d` at `q`: what it yields and the position
/// just past it, or `None` when the layout is undefined or the body does not
/// fit before `end`.
pub open spec fn payload_at(b: Seq<u8>, end: int, q: int, d: Layout) -> Option<(Option<Coord>, int)> {
    if d.data_len == 0 || q + d.data_len > end {
        None
    } else {
        Some((coord_at(b, q, d), q + d.data_len))
    }
}

/// One message at `pos`: the next position, the table after it and what it
/// yields; `None` when decoding stops there.
pub open spec fn step(b: Seq<u8>, end: int, pos: int, table: Seq<Layout>) -> Option<
    (int, Seq<Layout>, Option<Coord>),
> {
    let h = b[pos];
    if h & 0x80 != 0 {
        match payload_at(b, end, pos + 1, table[((h >> 5u8) & 0x03) as int]) {
            Some((c, t)) => Some((t, table, c)),
            None => None,
        }
    } else if h & 0x40 != 0 {
        match definition_at(b, end, pos + 1, h) {
            Some((d, t)) => Some((t, table.update((h & 0x0F) as int, d), None)),
            None => None,
        }
    } else {
        match payload_at(b, end, pos + 1, table[(h & 0x0F) as int]) {
            Some((c, t)) => Some((t, table, c)),
            None => None,
        }
    }
}

/// The sequence of zero or one positions held by `c`.
pub open spec fn yielded(c: Option<Coord>) -> Seq<Coord> {
    match c {
        Some(v) => seq![v],
        None => seq![],
    }
}

/// The positions the messages from `pos` up to `end` yield, in stream order.
pub open spec fn run(b: Seq<u8>, end: int, pos: int, table: Seq<Layout>) -> Seq<Coord>
    decreases end - pos,
{
    if pos < 0 || pos >= end {
        seq![]
    } else {
        match step(b, end, pos, table) {
            Some((t, next, c)) => if t > pos {
                yielded(c) + run(b, end, t, next)
            } else {
                seq![]
            },
            None => seq![],
        }
    }
}

/// The positions a whole FIT file yields.
pub open spec fn decode(b: Seq<u8>) -> Seq<Coord> {
    match data_region(b) {
        Some((start, end)) => run(b, end, start, empty_table()),
        None => seq![],
    }
}

/// Appends to `fields` and `total` the `n` three-byte field descriptions at
/// `pos`, `prefix` being the entries declared before them.
fn read_entries(
    buf: &[u8],
    pos: usize,
    n: usize,
    fields: &mut Vec<(u8, u8)>,
    total: &mut u32,
    Ghost(prefix): Ghost<Seq<(u8, u8)>>,
)
    requires
        pos + 3 * n <= buf@.len(),
        n <= 255,
        prefix.len() <= 255,
        old(fields)@ == kept_fields(prefix),
        *old(total) == sum_sizes(prefix),
    ensures
        final(fields)@ == kept_fields(prefix + entries(buf@, pos as int, n as nat)),
        *final(total) == sum_sizes(prefix + entries(buf@, pos as int, n as nat)),
{
    let ghost es = entries(buf@, pos as int, n as nat);
    let len = buf.len();
    let mut i: usize = 0;
    while i < n
        invariant
            len == buf@.len(),
            pos + 3 * n <= buf@.len(),
            n <= 255,
            prefix.len() <= 255,
            es == entries(buf@, pos as int, n as nat),
            0 <= i <= n,
            fields@ == kept_fields(prefix + es.take(i as int)),
            *total == sum_sizes(prefix + es.take(i as int)),
        decreases n - i,
    {
        let k: usize = pos + 3 * i;
        let fnum = buf[k];
        let fsize = buf[k + 1];
        let ghost before = prefix + es.take(i as int);
        let ghost after = prefix + es.take(i + 1);
        assert(es[i as int] == (fnum, fsize));
        assert(after =~= before.push((fnum, fsize)));
        assert(after.drop_last() =~= before);
        proof {
            lemma_sum_sizes_bound(after);
        }
        if fields.len() < MAX_FIELDS {
            fields.push((fnum, fsize));
            assert(fields@ =~= kept_fields(after));
        } else {
            assert(kept_fields(after) =~= kept_fields(before));
        }
        *total = *total + fsize as u32;
        i = i + 1;
    }
    assert(es.take(n as int) =~= es);
}

/// Reads the definition message whose body starts at `q`, after header `h`.
fn read_definition(buf: &[u8], end: usize, q: usize, h: u8) -> (r: Option<(MsgDef, usize)>)
    requires
        end <= buf@.len(),
    ensures
        match definition_at(buf@, end as int, q as int, h) {
            None => r is None,
            Some((d, t)) => r matches Some((def, p)) && def@ == d && def.wf() && p == t,
        },
{
    if q > end || end - q < 5 {
        return None;
    }
    let endian_big = buf[q + 1] == 1;
    let global_num = read_u16(buf, q + 2, endian_big);
    let n = buf[q + 4] as usize;
    let s = q + 5;
    if end - s < 3 * n {
        return None;
    }
    let mut fields: Vec<(u8, u8)> = Vec::new();
    let mut total: u32 = 0;
    assert(kept_fields(Seq::<(u8, u8)>::empty()) =~= fields@);
    read_entries(buf, s, n, &mut fields, &mut total, Ghost(Seq::empty()));
    let ghost std = entries(buf@, s as int, n as nat);
    assert(Seq::<(u8, u8)>::empty() + std =~= std);
    let mut p = s + 3 * n;
    if h & 0x20 != 0 {
        if p >= end {
            return None;
        }
        let m = buf[p] as usize;
        p = p + 1;
        if end - p < 3 * m {
            return None;
        }
        read_entries(buf, p, m, &mut fields, &mut total, Ghost(std));
        p = p + 3 * m;
        proof {
            lemma_kept_fields_sum(std + entries(buf@, (p - 3 * m) as int, m as nat));
        }
    } else {
        proof {
            lemma_kept_fields_sum(std);
        }
    }
    Some((MsgDef { endian_big, global_num, fields, data_len: total }, p))
}

/// Reads the record body at `q` with definition `d`.
fn read_payload(buf: &[u8], end: usize, q: usize, d: &MsgDef) -> (r: Option<(Option<Coord>, usize)>)
    requires
        end <= buf@.len(),
        d.wf(),
    ensures
        match payload_at(buf@, end as int, q as int, d@) {
            None => r is None,
            Some((c, t)) => r == Some((c, t as usize)),
        },
{
    let dl = d.data_len as usize;
    if dl == 0 || q > end || end - q < dl {
        return None;
    }
    if d.global_num != RECORD_MESG {
        return Some((None, q + dl));
    }
    let (lat_off, lon_off) = d.coord_offsets();
    match (lat_off, lon_off) {
        (Some(a), Some(o)) => {
            proof {
                lemma_field_offset_in_body(d.fields@, LAT_FIELD);
                lemma_field_offset_in_body(d.fields@, LON_FIELD);
            }
            let lat = read_i32(buf, q + a, d.endian_big);
            let lon = read_i32(buf, q + o, d.endian_big);
            if lat == INVALID_SEMICIRCLES || lon == INVALID_SEMICIRCLES {
                Some((None, q + dl))
            } else {
                Some((Some((lat, lon)), q + dl))
            }
        },
        _ => Some((None, q + dl)),
    }
}

/// Decodes a FIT file and returns the latitude/longitude pairs of its record
/// messages, in semicircles and in stream order. A malformed header yields
/// nothing; a malformed or truncated message ends decoding with what was
/// found before it.
pub fn parse_fit_semicircles(buf: &[u8]) -> (r: Vec<Coord>)
    ensures
        r@ == decode(buf@),
{
    let mut out: Vec<Coord> = Vec::new();
    let (start, end) = match find_data_region(buf) {
        Some(region) => region,
        None => return out,
    };
    let mut defs = DefTable::new();
    let mut p: usize = start;
    while p < end
        invariant
            start <= p <= end <= buf@.len(),
            defs.wf(),
            defs@.len() == LOCAL_SLOTS,
            out@ + run(buf@, end as int, p as int, defs@) == decode(buf@),
        decreases end - p,
    {
        let header = buf[p];
        let ghost table = defs@;
        let ghost rest = run(buf@, end as int, p as int, table);
        if header & 0x80 != 0 {
            let id = ((header >> 5u8) & 0x03) as usize;
            assert((header >> 5u8) & 0x03 < 4) by (bit_vector);
            match read_payload(buf, end, p + 1, defs.lookup(id)) {
                Some((c, next)) => {
                    if let Some(v) = c {
                        out.push(v);
                    }
                    assert(rest == yielded(c) + run(buf@, end as int, next as int, table));
                    p = next;
                },
                None => {
                    assert(out@ + rest =~= out@);
                    return out;
                },
            }
        } else if header & 0x40 != 0 {
            let id = (header & 0x0F) as usize;
            assert(header & 0x0F < 16) by (bit_vector);
            match read_definition(buf, end, p + 1, header) {
                Some((def, next)) => {
                    defs.define(id, def);
                    assert(rest == run(buf@, end as int, next as int, defs@));
                    assert(yielded(None) + rest =~= rest);
                    p = next;
                },
                None => {
                    assert(out@ + rest =~= out@);
                    return out;
                },
            }
        } else {
            let id = (header & 0x0F) as usize;
            assert(header & 0x0F < 16) by (bit_vector);
            match read_payload(buf, end, p + 1, defs.lookup(id)) {
                Some((c, next)) => {
                    if let Some(v) = c {
                        out.push(v);
                    }
                    assert(rest == yielded(c) + run(buf@, end as int, next as int, table));
                    p = next;
                },
                None => {
                    assert(out@ + rest =~= out@);
                    return out;
                },
            }
        }
        assert(out@ + run(buf@, end as int, p as int, defs@) =~= decode(buf@));
    }
    assert(out@ + run(buf@, end as int, p as int, defs@) =~= out@);
    out
}

} // verus!
