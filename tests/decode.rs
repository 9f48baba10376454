use fitcoords::decoder::parse_fit_semicircles;
use fitcoords::layout::{DefTable, MsgDef};
use fitcoords::wire::{find_data_region, read_i32, read_u16, read_u32};

const SCALE: f64 = 180.0 / 2147483648.0;

fn header(size: u32) -> Vec<u8> {
    let mut h = vec![14u8, 0x10, 0, 0];
    h.extend_from_slice(&size.to_le_bytes());
    h.extend_from_slice(b".FIT");
    h.extend_from_slice(&[0, 0]);
    h
}

fn definition(local: u8, big: bool, global: u16, fields: &[(u8, u8)]) -> Vec<u8> {
    let mut d = vec![0x40 | local, 0, if big { 1 } else { 0 }];
    if big {
        d.extend_from_slice(&global.to_be_bytes());
    } else {
        d.extend_from_slice(&global.to_le_bytes());
    }
    d.push(fields.len() as u8);
    for &(num, size) in fields {
        d.extend_from_slice(&[num, size, 0x85]);
    }
    d
}

fn record(header: u8, big: bool, values: &[i32]) -> Vec<u8> {
    let mut r = vec![header];
    for v in values {
        if big {
            r.extend_from_slice(&v.to_be_bytes());
        } else {
            r.extend_from_slice(&v.to_le_bytes());
        }
    }
    r
}

fn file(body: &[u8]) -> Vec<u8> {
    let mut f = header(body.len() as u32);
    f.extend_from_slice(body);
    f
}

fn track(big: bool, pts: &[(i32, i32)]) -> Vec<u8> {
    let mut body = definition(0, big, 20, &[(0, 4), (1, 4)]);
    for &(lat, lon) in pts {
        body.extend(record(0, big, &[lat, lon]));
    }
    file(&body)
}

#[test]
fn smoke_empty() {
    let v = parse_fit_semicircles(&[]);
    assert!(v.is_empty());
}

#[test]
fn short_inputs_decode_to_nothing() {
    let full = track(false, &[(1, 2)]);
    for n in 0..12 {
        assert!(parse_fit_semicircles(&full[..n]).is_empty());
    }
}

#[test]
fn missing_tag_decodes_to_nothing() {
    let mut f = track(false, &[(1, 2)]);
    f[9] = b'X';
    assert!(parse_fit_semicircles(&f).is_empty());
}

#[test]
fn bad_header_size_decodes_to_nothing() {
    let mut f = track(false, &[(1, 2)]);
    f[0] = 13;
    assert!(parse_fit_semicircles(&f).is_empty());
    let mut g = header(0);
    g.truncate(12);
    assert_eq!(g[0], 14);
    assert!(parse_fit_semicircles(&g).is_empty());
}

#[test]
fn example_single_record() {
    let mut body = definition(0, false, 20, &[(0, 4), (1, 4)]);
    body.extend(record(0, false, &[900000000, 450000000]));
    assert_eq!(body.len(), 21);
    let f = file(&body);
    assert_eq!(&f[..12], &[14, 0x10, 0, 0, 21, 0, 0, 0, b'.', b'F', b'I', b'T']);
    let out = parse_fit_semicircles(&f);
    assert_eq!(out, vec![(900000000, 450000000)]);
    let lat = out[0].0 as f64 * SCALE;
    let lon = out[0].1 as f64 * SCALE;
    assert!((lat - 900000000.0 * 180.0 / 2147483648.0).abs() < 1e-9);
    assert!((lon - 450000000.0 * 180.0 / 2147483648.0).abs() < 1e-9);
    assert!((lat - 75.0).abs() < 0.5);
    assert!((lon - 37.5).abs() < 0.5);
}

#[test]
fn example_with_data_size_one_short() {
    let mut body = definition(0, false, 20, &[(0, 4), (1, 4)]);
    body.extend(record(0, false, &[900000000, 450000000]));
    let mut f = header(20);
    f.extend_from_slice(&body);
    assert!(parse_fit_semicircles(&f).is_empty());
}

#[test]
fn round_trip_both_byte_orders() {
    let pts = [(123456789, -98765432), (-1, 0), (i32::MIN, i32::MAX - 1)];
    assert_eq!(parse_fit_semicircles(&track(false, &pts)), pts.to_vec());
    assert_eq!(parse_fit_semicircles(&track(true, &pts)), pts.to_vec());
}

#[test]
fn byte_order_gives_same_values() {
    let pts = [(0x01020304, -0x01020304), (7, 8)];
    let le = parse_fit_semicircles(&track(false, &pts));
    let be = parse_fit_semicircles(&track(true, &pts));
    assert_eq!(le, be);
    assert_eq!(le, pts.to_vec());
}

#[test]
fn sentinel_records_are_left_out() {
    let pts = [(1, 2), (i32::MAX, 3), (4, i32::MAX), (5, 6)];
    assert_eq!(parse_fit_semicircles(&track(false, &pts)), vec![(1, 2), (5, 6)]);
    assert!(parse_fit_semicircles(&track(true, &[(i32::MAX, i32::MAX)])).is_empty());
}

#[test]
fn cut_trailing_record_is_ignored() {
    let pts = [(10, 20), (30, 40), (50, 60)];
    let mut body = definition(0, false, 20, &[(0, 4), (1, 4)]);
    for &(lat, lon) in &pts {
        body.extend(record(0, false, &[lat, lon]));
    }
    let last = record(0, false, &[70, 80]);
    for k in 1..9 {
        let mut b = body.clone();
        b.extend_from_slice(&last[..k]);
        assert_eq!(parse_fit_semicircles(&file(&b)), pts.to_vec());
    }
}

#[test]
fn redefinition_uses_new_layout() {
    let mut body = definition(0, false, 20, &[(0, 4), (1, 4)]);
    body.extend(record(0, false, &[11, 22]));
    body.extend(definition(0, false, 20, &[(1, 4), (0, 4)]));
    body.extend(record(0, false, &[33, 44]));
    assert_eq!(parse_fit_semicircles(&file(&body)), vec![(11, 22), (44, 33)]);
}

#[test]
fn compressed_timestamp_messages_carry_records() {
    let mut body = definition(2, false, 20, &[(253, 4), (0, 4), (1, 4)]);
    body.extend(record(0x80 | (2 << 5), false, &[0, 5, 6]));
    body.extend(record(0x02, false, &[0, 7, 8]));
    assert_eq!(parse_fit_semicircles(&file(&body)), vec![(5, 6), (7, 8)]);
}

#[test]
fn undefined_local_message_stops_decoding() {
    let mut body = definition(0, false, 20, &[(0, 4), (1, 4)]);
    body.extend(record(0, false, &[1, 2]));
    body.extend(record(0x80 | (1 << 5), false, &[3, 4]));
    body.extend(record(0, false, &[5, 6]));
    assert_eq!(parse_fit_semicircles(&file(&body)), vec![(1, 2)]);
    let mut other = definition(0, false, 20, &[(0, 4), (1, 4)]);
    other.extend(record(3, false, &[3, 4]));
    other.extend(record(0, false, &[5, 6]));
    assert!(parse_fit_semicircles(&file(&other)).is_empty());
}

#[test]
fn other_messages_are_skipped() {
    let mut body = definition(1, false, 21, &[(0, 4), (1, 4)]);
    body.extend(definition(0, true, 20, &[(0, 4), (1, 4)]));
    body.extend(record(1, false, &[1, 2]));
    body.extend(record(0, true, &[3, 4]));
    assert_eq!(parse_fit_semicircles(&file(&body)), vec![(3, 4)]);
}

#[test]
fn fields_of_other_size_are_absent() {
    let mut body = definition(0, false, 20, &[(0, 2), (1, 4), (0, 4)]);
    let mut rec = vec![0u8, 9, 9];
    rec.extend_from_slice(&100i32.to_le_bytes());
    rec.extend_from_slice(&200i32.to_le_bytes());
    body.extend(rec);
    assert_eq!(parse_fit_semicircles(&file(&body)), vec![(200, 100)]);
    let mut no_lon = definition(0, false, 20, &[(0, 4), (1, 2)]);
    no_lon.extend_from_slice(&[0, 1, 2, 3, 4, 5, 6]);
    no_lon.extend(record(0, false, &[]));
    assert!(parse_fit_semicircles(&file(&no_lon)).is_empty());
}

#[test]
fn developer_fields_count_in_record_length() {
    let mut def = definition(0, false, 20, &[(0, 4), (1, 4)]);
    def[0] = 0x60;
    def.extend_from_slice(&[1, 0, 3, 0]);
    let mut body = def;
    let mut rec = record(0, false, &[12, 34]);
    rec.extend_from_slice(&[7, 7, 7]);
    body.extend(rec.clone());
    body.extend(rec);
    assert_eq!(parse_fit_semicircles(&file(&body)), vec![(12, 34), (12, 34)]);
}

#[test]
fn developer_field_can_hold_a_position() {
    let mut def = definition(0, false, 20, &[(0, 4)]);
    def[0] = 0x60;
    def.extend_from_slice(&[1, 1, 4, 0]);
    let mut body = def;
    body.extend(record(0, false, &[-5, 6]));
    assert_eq!(parse_fit_semicircles(&file(&body)), vec![(-5, 6)]);
}

#[test]
fn fields_past_the_kept_ones_still_count() {
    let mut fields: Vec<(u8, u8)> = (0..32).map(|i| (100 + i as u8, 1)).collect();
    fields.push((0, 4));
    fields.push((1, 4));
    let mut body = definition(0, false, 20, &fields);
    let mut rec = vec![0u8; 33];
    rec.extend_from_slice(&1i32.to_le_bytes());
    rec.extend_from_slice(&2i32.to_le_bytes());
    body.extend(rec.clone());
    let mut kept: Vec<(u8, u8)> = vec![(0, 4), (1, 4)];
    kept.extend((0..30).map(|i| (100 + i as u8, 1)));
    body.extend(definition(0, false, 20, &kept));
    body.extend(record(0, false, &[3, 4]));
    body.extend_from_slice(&[0u8; 30]);
    assert_eq!(parse_fit_semicircles(&file(&body)), vec![(3, 4)]);
}

#[test]
fn cut_definition_stops_decoding() {
    let mut body = definition(0, false, 20, &[(0, 4), (1, 4)]);
    body.extend(record(0, false, &[1, 2]));
    let d = definition(1, false, 20, &[(0, 4), (1, 4)]);
    for k in 1..d.len() {
        let mut b = body.clone();
        b.extend_from_slice(&d[..k]);
        assert_eq!(parse_fit_semicircles(&file(&b)), vec![(1, 2)]);
    }
    let mut dev = definition(1, false, 20, &[(0, 4)]);
    dev[0] = 0x61;
    let mut b = body.clone();
    b.extend(dev.clone());
    assert_eq!(parse_fit_semicircles(&file(&b)), vec![(1, 2)]);
    dev.extend_from_slice(&[2, 1, 4]);
    let mut c = body.clone();
    c.extend(dev);
    assert_eq!(parse_fit_semicircles(&file(&c)), vec![(1, 2)]);
}

#[test]
fn short_header_and_oversized_data_size() {
    let mut body = definition(0, false, 20, &[(0, 4), (1, 4)]);
    body.extend(record(0, false, &[8, 9]));
    let mut f = vec![12u8, 0x10, 0, 0];
    f.extend_from_slice(&1000u32.to_le_bytes());
    f.extend_from_slice(b".FIT");
    f.extend_from_slice(&body);
    assert_eq!(find_data_region(&f), Some((12, f.len())));
    assert_eq!(parse_fit_semicircles(&f), vec![(8, 9)]);
}

#[test]
fn data_size_bounds_the_stream() {
    let mut body = definition(0, false, 20, &[(0, 4), (1, 4)]);
    body.extend(record(0, false, &[1, 2]));
    let n = body.len() as u32;
    body.extend(record(0, false, &[3, 4]));
    let mut f = header(n);
    f.extend_from_slice(&body);
    f.extend_from_slice(&[0xAB, 0xCD]);
    assert_eq!(find_data_region(&f), Some((14, 14 + n as usize)));
    assert_eq!(parse_fit_semicircles(&f), vec![(1, 2)]);
}

#[test]
fn zero_length_layout_stops_decoding() {
    let mut body = definition(0, false, 20, &[]);
    body.extend(record(0, false, &[1, 2]));
    assert!(parse_fit_semicircles(&file(&body)).is_empty());
}

#[test]
fn integer_readers() {
    let b = [0x12u8, 0x34, 0x56, 0x78, 0xFF, 0xFF, 0xFF, 0x7F];
    assert_eq!(read_u16(&b, 0, false), 0x3412);
    assert_eq!(read_u16(&b, 0, true), 0x1234);
    assert_eq!(read_u32(&b, 0, false), 0x78563412);
    assert_eq!(read_u32(&b, 0, true), 0x12345678);
    assert_eq!(read_i32(&b, 4, false), i32::MAX);
    assert_eq!(read_i32(&b, 4, true), -129);
    assert_eq!(find_data_region(&[0u8; 5]), None);
}

#[test]
fn msg_def_empty_and_offsets() {
    let e = MsgDef::empty();
    assert!(e.fields.is_empty());
    assert_eq!(e.data_len, 0);
    assert!(!e.endian_big);
    assert_eq!(e.global_num, 0);
    assert_eq!(e.coord_offsets(), (None, None));
    let d = MsgDef { endian_big: false, global_num: 20, fields: vec![(3, 2), (1, 4), (0, 4), (1, 4)], data_len: 14 };
    assert_eq!(d.coord_offsets(), (Some(6), Some(10)));
}

#[test]
fn def_table_define_and_lookup() {
    let mut t = DefTable::new();
    assert_eq!(t.lookup(5).data_len, 0);
    let d = MsgDef { endian_big: true, global_num: 20, fields: vec![(0, 4)], data_len: 4 };
    t.define(5, d);
    assert_eq!(t.lookup(5).data_len, 4);
    assert!(t.lookup(5).endian_big);
    assert_eq!(t.lookup(4).data_len, 0);
}
