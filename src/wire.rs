//! Byte-level reading: integers in either byte order, and the file header.
use vstd::prelude::*;

verus! {

/// The unsigned value of the two bytes at `i`, in the given byte order.
pub open spec fn u16_value(b: Seq<u8>, i: int, big: bool) -> int {
    if big {
        b[i] as int * 0x100 + b[i + 1] as int
    } else {
        b[i + 1] as int * 0x100 + b[i] as int
    }
}

/// The unsigned value of the four bytes at `i`, in the given byte order.
pub open spec fn u32_value(b: Seq<u8>, i: int, big: bool) -> int {
    if big {
        b[i] as int * 0x100_0000 + b[i + 1] as int * 0x1_0000 + b[i + 2] as int * 0x100
            + b[i + 3] as int
    } else {
        b[i + 3] as int * 0x100_0000 + b[i + 2] as int * 0x1_0000 + b[i + 1] as int * 0x100
            + b[i] as int
    }
}

/// Two's-complement reading of a 32-bit pattern `u` (0 <= u < 2^32).
pub open spec fn i32_of_bits(u: int) -> i32 {
    if u >= 0x8000_0000 {
        (u - 0x1_0000_0000) as i32
    } else {
        u as i32
    }
}

/// The signed 32-bit integer stored at `i` in the given byte order.
pub open spec fn i32_value(b: Seq<u8>, i: int, big: bool) -> i32 {
    i32_of_bits(u32_value(b, i, big))
}

/// The four bytes that tag a FIT file: ".FIT".
pub open spec fn fit_tag() -> Seq<u8> {
    seq![0x2Eu8, 0x46u8, 0x49u8, 0x54u8]
}

/// Whether `b` starts with a well-formed FIT header: at least 12 bytes, a
/// declared header size of 12 or 14 that the buffer covers, and the tag.
pub open spec fn header_ok(b: Seq<u8>) -> bool {
    &&& b.len() >= 12
    &&& (b[0] == 12 || b[0] == 14)
    &&& b.len() >= b[0]
    &&& b.subrange(8, 12) == fit_tag()
}

/// The data region `[start, end)` that the header announces, cut at the end
/// of the buffer; `None` when the header is not well formed.
pub open spec fn data_region(b: Seq<u8>) -> Option<(int, int)> {
    if header_ok(b) {
        let start = b[0] as int;
        let end = start + u32_value(b, 4, false);
        Some((start, if end < b.len() { end } else { b.len() as int }))
    } else {
        None
    }
}

/// Reads the unsigned 16-bit integer at `i`.
pub fn read_u16(buf: &[u8], i: usize, big: bool) -> (r: u16)
    requires
        i + 2 <= buf@.len(),
    ensures
        r as int == u16_value(buf@, i as int, big),
{
    // The slice's length is a usize, so the indices below cannot overflow.
    let _len = buf.len();
    let j: usize = i + 1;
    let (hi, lo) = if big {
        (buf[i], buf[j])
    } else {
        (buf[j], buf[i])
    };
    (hi as u16) * 0x100 + lo as u16
}

/// Reads the 32-bit pattern at `i` as an unsigned integer.
pub fn read_u32(buf: &[u8], i: usize, big: bool) -> (r: u32)
    requires
        i + 4 <= buf@.len(),
    ensures
        r as int == u32_value(buf@, i as int, big),
{
    // The slice's length is a usize, so the indices below cannot overflow.
    let _len = buf.len();
    let (x0, x1, x2, x3) = (buf[i], buf[i + 1], buf[i + 2], buf[i + 3]);
    let (b3, b2, b1, b0) = if big {
        (x0, x1, x2, x3)
    } else {
        (x3, x2, x1, x0)
    };
    (b3 as u32) * 0x100_0000 + (b2 as u32) * 0x1_0000 + (b1 as u32) * 0x100 + b0 as u32
}

/// Reads the signed 32-bit integer at `i`.
pub fn read_i32(buf: &[u8], i: usize, big: bool) -> (r: i32)
    requires
        i + 4 <= buf@.len(),
    ensures
        r == i32_value(buf@, i as int, big),
{
    let u = read_u32(buf, i, big);
    if u >= 0x8000_0000 {
        (u as i64 - 0x1_0000_0000i64) as i32
    } else {
        u as i32
    }
}

/// Checks the file header and returns the data region `[start, end)`.
pub fn find_data_region(buf: &[u8]) -> (r: Option<(usize, usize)>)
    ensures
        match data_region(buf@) {
            None => r is None,
            Some((s, e)) => r matches Some((rs, re)) && rs == s && re == e,
        },
        r matches Some((s, e)) ==> s <= e <= buf@.len(),
{
    if buf.len() < 12 {
        return None;
    }
    let hdr_sz = buf[0] as usize;
    if !(hdr_sz == 12 || hdr_sz == 14) || buf.len() < hdr_sz {
        return None;
    }
    if !(buf[8] == 0x2E && buf[9] == 0x46 && buf[10] == 0x49 && buf[11] == 0x54) {
        proof {
            assert(buf@.subrange(8, 12)[0] == buf@[8]);
            assert(buf@.subrange(8, 12)[1] == buf@[9]);
            assert(buf@.subrange(8, 12)[2] == buf@[10]);
            assert(buf@.subrange(8, 12)[3] == buf@[11]);
        }
        return None;
    }
    assert(buf@.subrange(8, 12) =~= fit_tag());
    let data_size = read_u32(buf, 4, false) as usize;
    let end = if data_size < buf.len() - hdr_sz {
        hdr_sz + data_size
    } else {
        buf.len()
    };
    Some((hdr_sz, end))
}

} // verus!
