//! The PNG thumbnail: a cell rasterized into a bounded bitmap (see
//! `raster`), then written by a minimal PNG encoder: 8-bit RGB, every
//! scanline unfiltered, the image data held in uncompressed (stored) DEFLATE
//! blocks inside a zlib stream, each chunk closed by its CRC-32.

use vstd::prelude::*;
use crate::gds::{Cell, Element};
use crate::binary64::lemma_round_bits_nonzero;
use crate::geom::Rect;
use crate::raster::{
    background, paint_all, png_frame, png_h, png_w, px_scale, raster, raster_in,
    scale_ok,
};
use crate::sfloat::{
    Float, Rnd, fdiv_exec, fint_exec, fmul_exec, to_int_clamped,
};
use crate::svg::{Mark, drawn_points, frame, frame_exec, mark_points};

verus! {

/// One bit step of the reflected CRC-32 register (polynomial `0xEDB88320`).
pub open spec fn crc_step(c: u32) -> u32 {
    if c & 1 == 1 {
        (c >> 1) ^ 0xEDB8_8320
    } else {
        c >> 1
    }
}

/// `n` bit steps.
pub open spec fn crc_steps(c: u32, n: nat) -> u32
    decreases n,
{
    if n == 0 {
        c
    } else {
        crc_step(crc_steps(c, (n - 1) as nat))
    }
}

/// The register after feeding the bytes `bs`, starting from `c`.
pub open spec fn crc_reg(c: u32, bs: Seq<u8>) -> u32
    decreases bs.len(),
{
    if bs.len() == 0 {
        c
    } else {
        crc_steps(crc_reg(c, bs.drop_last()) ^ (bs.last() as u32), 8)
    }
}

/// CRC-32 (ISO-HDLC, as PNG uses it) of a byte sequence.
pub open spec fn crc32(bs: Seq<u8>) -> u32 {
    crc_reg(0xffff_ffff, bs) ^ 0xffff_ffff
}

/// Adler-32 running sums `(a, b)` after the bytes `bs`.
pub open spec fn adler_sums(bs: Seq<u8>) -> (u32, u32)
    decreases bs.len(),
{
    if bs.len() == 0 {
        (1, 0)
    } else {
        let (a, b) = adler_sums(bs.drop_last());
        let a2 = ((a + bs.last()) % 65521) as u32;
        (a2, ((b + a2) % 65521) as u32)
    }
}

/// Adler-32 checksum: `b << 16 | a`.
pub open spec fn adler32(bs: Seq<u8>) -> u32 {
    let (a, b) = adler_sums(bs);
    (b << 16) | a
}

/// Big-endian bytes of a 32-bit value.
pub open spec fn be32(v: u32) -> Seq<u8> {
    seq![(v >> 24) as u8, (v >> 16) as u8, (v >> 8) as u8, v as u8]
}

/// Little-endian bytes of a 16-bit value.
pub open spec fn le16(v: u16) -> Seq<u8> {
    seq![v as u8, (v >> 8) as u8]
}

/// A PNG chunk: data length, type, data, CRC-32 of type and data.
pub open spec fn chunk_bytes(typ: Seq<u8>, data: Seq<u8>) -> Seq<u8> {
    be32(data.len() as u32) + typ + data + be32(crc32(typ + data))
}

/// One stored DEFLATE block: final flag, `LEN`, `NLEN`, the bytes.
pub open spec fn stored_block(last: u8, d: Seq<u8>) -> Seq<u8> {
    seq![last] + le16(d.len() as u16) + le16(!(d.len() as u16)) + d
}

/// `raw` cut into stored blocks of at most 65535 bytes, the last one final
/// (a single empty final block for no bytes).
pub open spec fn stored_blocks(raw: Seq<u8>) -> Seq<u8>
    decreases raw.len(),
{
    if raw.len() <= 65535 {
        stored_block(1, raw)
    } else {
        stored_block(0, raw.subrange(0, 65535)) + stored_blocks(raw.subrange(65535, raw.len() as int))
    }
}

/// A zlib stream of stored blocks over `raw`: header `78 01`, the blocks,
/// the Adler-32 of `raw`.
pub open spec fn zlib_stored(raw: Seq<u8>) -> Seq<u8> {
    seq![0x78u8, 0x01u8] + stored_blocks(raw) + be32(adler32(raw))
}

/// Appends the big-endian bytes of `v`.
pub fn push_be32(out: &mut Vec<u8>, v: u32)
    ensures
        final(out)@ == old(out)@ + be32(v),
{
    let ghost start = out@;
    out.push((v >> 24) as u8);
    out.push((v >> 16) as u8);
    out.push((v >> 8) as u8);
    out.push(v as u8);
    assert(out@ =~= start + be32(v));
}

/// Appends the little-endian bytes of `v`.
pub fn push_le16(out: &mut Vec<u8>, v: u16)
    ensures
        final(out)@ == old(out)@ + le16(v),
{
    let ghost start = out@;
    out.push(v as u8);
    out.push((v >> 8) as u8);
    assert(out@ =~= start + le16(v));
}

/// Appends a slice.
pub fn push_bytes(out: &mut Vec<u8>, data: &[u8])
    ensures
        final(out)@ == old(out)@ + data@,
{
    let ghost start = out@;
    let mut i: usize = 0;
    while i < data.len()
        invariant
            i <= data@.len(),
            out@ == start + data@.subrange(0, i as int),
        decreases data@.len() - i,
    {
        out.push(data[i]);
        i = i + 1;
        assert(data@.subrange(0, i as int) == data@.subrange(0, i - 1).push(data@[i - 1]));
    }
    assert(data@.subrange(0, i as int) == data@);
}

/// Feeds one byte into the CRC register.
pub fn crc_byte(c: u32, b: u8) -> (r: u32)
    ensures
        r == crc_steps(c ^ (b as u32), 8),
{
    let mut c = c ^ (b as u32);
    let ghost c0 = c;
    let mut k: u32 = 0;
    while k < 8
        invariant
            k <= 8,
            c == crc_steps(c0, k as nat),
        decreases 8 - k,
    {
        c = if c & 1 == 1 {
            (c >> 1) ^ 0xEDB8_8320
        } else {
            c >> 1
        };
        k = k + 1;
    }
    c
}

/// Feeds bytes into the CRC register.
pub fn crc_feed(c: u32, bs: &[u8]) -> (r: u32)
    ensures
        r == crc_reg(c, bs@),
{
    let mut r = c;
    let mut i: usize = 0;
    while i < bs.len()
        invariant
            i <= bs@.len(),
            r == crc_reg(c, bs@.subrange(0, i as int)),
        decreases bs@.len() - i,
    {
        let ghost sub1 = bs@.subrange(0, i as int + 1);
        assert(sub1.drop_last() == bs@.subrange(0, i as int));
        r = crc_byte(r, bs[i]);
        i = i + 1;
    }
    assert(bs@.subrange(0, i as int) == bs@);
    r
}

/// The CRC-32 register over `a` then `b` is the register over `a + b`.
pub proof fn lemma_crc_reg_concat(c: u32, a: Seq<u8>, b: Seq<u8>)
    ensures
        crc_reg(crc_reg(c, a), b) == crc_reg(c, a + b),
    decreases b.len(),
{
    if b.len() == 0 {
        assert(a + b == a);
    } else {
        lemma_crc_reg_concat(c, a, b.drop_last());
        assert((a + b).drop_last() == a + b.drop_last());
        assert((a + b).last() == b.last());
    }
}

/// Appends a PNG chunk of type `typ` around `data`.
pub fn chunk(out: &mut Vec<u8>, typ: &[u8; 4], data: &[u8])
    ensures
        final(out)@ == old(out)@ + chunk_bytes(typ@, data@),
{
    let ghost start = out@;
    push_be32(out, data.len() as u32);
    push_bytes(out, typ.as_slice());
    push_bytes(out, data);
    let c1 = crc_feed(0xffff_ffff, typ.as_slice());
    let c2 = crc_feed(c1, data);
    proof {
        lemma_crc_reg_concat(0xffff_ffff, typ@, data@);
    }
    push_be32(out, c2 ^ 0xffff_ffff);
    assert(out@ =~= start + chunk_bytes(typ@, data@));
}

/// Adler-32 of a byte slice.
pub fn adler32_exec(raw: &[u8]) -> (r: u32)
    ensures
        r == adler32(raw@),
{
    let mut a: u32 = 1;
    let mut b: u32 = 0;
    let mut i: usize = 0;
    while i < raw.len()
        invariant
            i <= raw@.len(),
            (a, b) == adler_sums(raw@.subrange(0, i as int)),
            a < 65521,
            b < 65521,
        decreases raw@.len() - i,
    {
        let ghost sub1 = raw@.subrange(0, i as int + 1);
        assert(sub1.drop_last() == raw@.subrange(0, i as int));
        assert(sub1.last() == raw@[i as int]);
        a = (a + raw[i] as u32) % 65521;
        b = (b + a) % 65521;
        i = i + 1;
    }
    assert(raw@.subrange(0, i as int) == raw@);
    (b << 16) | a
}

/// Zlib stream over `raw` using uncompressed (stored) DEFLATE blocks.
pub fn zlib_store(raw: &[u8]) -> (o: Vec<u8>)
    ensures
        o@ == zlib_stored(raw@),
{
    let mut o: Vec<u8> = Vec::new();
    o.push(0x78);
    o.push(0x01);
    let ghost head = o@;
    let mut i: usize = 0;
    assert(raw@.subrange(0, raw@.len() as int) == raw@);
    loop
        invariant_except_break
            head + stored_blocks(raw@) == o@ + stored_blocks(raw@.subrange(i as int, raw@.len() as int)),
        invariant
            i < raw@.len() || (i == 0 && raw@.len() == 0),
            head == seq![0x78u8, 0x01u8],
        ensures
            o@ == head + stored_blocks(raw@),
        decreases raw@.len() - i,
    {
        let rest = raw.len() - i;
        let n = if rest < 0xffff {
            rest
        } else {
            0xffff
        };
        let last: u8 = if i + n >= raw.len() {
            1
        } else {
            0
        };
        let ghost suffix = raw@.subrange(i as int, raw@.len() as int);
        let ghost before = o@;
        o.push(last);
        push_le16(&mut o, n as u16);
        push_le16(&mut o, !(n as u16));
        let end = i + n;
        let mut j: usize = i;
        while j < end
            invariant
                end == i + n,
                i <= j <= i + n <= raw@.len(),
                o@ == before + seq![last] + le16(n as u16) + le16(!(n as u16)) + raw@.subrange(
                    i as int,
                    j as int,
                ),
            decreases i + n - j,
        {
            o.push(raw[j]);
            j = j + 1;
            assert(raw@.subrange(i as int, j as int) == raw@.subrange(i as int, j - 1).push(
                raw@[j - 1],
            ));
        }
        assert(raw@.subrange(i as int, (i + n) as int) == suffix.subrange(0, n as int));
        if last == 1 {
            assert(suffix.len() <= 65535);
            assert(suffix.subrange(0, n as int) == suffix);
            assert(o@ == before + stored_block(1, suffix));
            assert(o@ == head + stored_blocks(raw@));
            break;
        }
        assert(suffix.len() > 65535);
        assert(suffix.subrange(65535, suffix.len() as int) == raw@.subrange(
            (i + n) as int,
            raw@.len() as int,
        ));
        assert(o@ =~= before + stored_block(0, suffix.subrange(0, 65535)));
        i = i + n;
    }
    let adler = adler32_exec(raw);
    push_be32(&mut o, adler);
    assert(o@ =~= zlib_stored(raw@));
    o
}

/// The PNG signature.
pub open spec fn png_signature() -> Seq<u8> {
    seq![137u8, 80u8, 78u8, 71u8, 13u8, 10u8, 26u8, 10u8]
}

pub open spec fn ihdr_type() -> Seq<u8> {
    seq![73u8, 72u8, 68u8, 82u8]
}

pub open spec fn idat_type() -> Seq<u8> {
    seq![73u8, 68u8, 65u8, 84u8]
}

pub open spec fn iend_type() -> Seq<u8> {
    seq![73u8, 69u8, 78u8, 68u8]
}

/// Header fields: width, height, bit depth 8, colour type 2 (RGB),
/// compression, filter and interlace methods 0.
pub open spec fn ihdr_data(w: u32, h: u32) -> Seq<u8> {
    be32(w) + be32(h) + seq![8u8, 2u8, 0u8, 0u8, 0u8]
}

/// The first `h` rows of `row` bytes each, every one behind a 0 (None) filter
/// byte.
pub open spec fn scanlines(buf: Seq<u8>, row: nat, h: nat) -> Seq<u8>
    decreases h,
{
    if h == 0 {
        seq![]
    } else {
        scanlines(buf, row, (h - 1) as nat) + seq![0u8] + buf.subrange(
            ((h - 1) * row) as int,
            (h * row) as int,
        )
    }
}

/// The whole PNG file for a `w` by `h` RGB pixel buffer.
pub open spec fn png_file(buf: Seq<u8>, w: u32, h: u32) -> Seq<u8> {
    png_signature() + chunk_bytes(ihdr_type(), ihdr_data(w, h)) + chunk_bytes(
        idat_type(),
        zlib_stored(scanlines(buf, (w * 3) as nat, h as nat)),
    ) + chunk_bytes(iend_type(), seq![])
}

/// Encodes a `w` by `h` buffer of RGB triples (row-major) as a PNG file.
pub fn encode_rgb(buf: &[u8], w: u32, h: u32) -> (png: Vec<u8>)
    requires
        w * 3 <= u32::MAX,
        h * (w * 3) <= buf@.len(),
    ensures
        png@ == png_file(buf@, w, h),
{
    let row = (w * 3) as usize;
    let blen = buf.len();
    let mut raw: Vec<u8> = Vec::new();
    let mut y: usize = 0;
    while y < h as usize
        invariant
            blen == buf@.len(),
            row == w * 3,
            y <= h,
            h * row <= buf@.len(),
            raw@ == scanlines(buf@, row as nat, y as nat),
        decreases h - y,
    {
        assert((y + 1) * row <= h * row) by (nonlinear_arith)
            requires
                y + 1 <= h,
        ;
        assert((y + 1) * row == y * row + row) by (nonlinear_arith);
        let ghost before = raw@;
        raw.push(0);
        let start = y * row;
        let end = start + row;
        let mut j: usize = start;
        while j < end
            invariant
                start == y * row,
                end == start + row,
                start <= j <= end <= buf@.len(),
                raw@ == before + seq![0u8] + buf@.subrange(start as int, j as int),
            decreases end - j,
        {
            raw.push(buf[j]);
            j = j + 1;
            assert(buf@.subrange(start as int, j as int) == buf@.subrange(start as int, j - 1).push(
                buf@[j - 1],
            ));
        }
        y = y + 1;
        assert(((y - 1) * row) as int == start as int);
        assert((y * row) as int == end as int);
    }
    let mut out: Vec<u8> = Vec::new();
    out.push(137);
    out.push(80);
    out.push(78);
    out.push(71);
    out.push(13);
    out.push(10);
    out.push(26);
    out.push(10);
    let mut ihdr: Vec<u8> = Vec::new();
    push_be32(&mut ihdr, w);
    push_be32(&mut ihdr, h);
    ihdr.push(8);
    ihdr.push(2);
    ihdr.push(0);
    ihdr.push(0);
    ihdr.push(0);
    assert(ihdr@ =~= ihdr_data(w, h));
    let t_ihdr: [u8; 4] = [73, 72, 68, 82];
    let t_idat: [u8; 4] = [73, 68, 65, 84];
    let t_iend: [u8; 4] = [73, 69, 78, 68];
    assert(t_ihdr@ =~= ihdr_type());
    assert(t_idat@ =~= idat_type());
    assert(t_iend@ =~= iend_type());
    let z = zlib_store(raw.as_slice());
    chunk(&mut out, &t_ihdr, ihdr.as_slice());
    chunk(&mut out, &t_idat, z.as_slice());
    let empty: Vec<u8> = Vec::new();
    chunk(&mut out, &t_iend, empty.as_slice());
    assert(empty@ =~= Seq::<u8>::empty());
    assert(out@ =~= png_file(buf@, w, h));
    out
}

/// A big-endian 32-bit number read at `i`.
pub open spec fn read_be32(bs: Seq<u8>, i: int) -> nat {
    (bs[i] as nat) * 0x100_0000 + (bs[i + 1] as nat) * 0x1_0000 + (bs[i + 2] as nat) * 0x100 + (
    bs[i + 3] as nat)
}

/// A little-endian 16-bit number read at `i`.
pub open spec fn read_le16(bs: Seq<u8>, i: int) -> nat {
    (bs[i] as nat) + (bs[i + 1] as nat) * 0x100
}

/// Decodes a run of stored DEFLATE blocks up to the final one: the bytes they
/// hold and what follows them.
pub open spec fn unstore(bs: Seq<u8>) -> Option<(Seq<u8>, Seq<u8>)>
    decreases bs.len(),
{
    if bs.len() < 5 {
        None
    } else {
        let len = read_le16(bs, 1) as int;
        let nlen = read_le16(bs, 3) as int;
        if (bs[0] >> 1) & 3 != 0 || len + nlen != 0xffff || bs.len() < 5 + len {
            None
        } else {
            let d = bs.subrange(5, 5 + len);
            let rest = bs.subrange(5 + len, bs.len() as int);
            if bs[0] & 1 == 1 {
                Some((d, rest))
            } else {
                match unstore(rest) {
                    Some((d2, r2)) => Some((d + d2, r2)),
                    None => None,
                }
            }
        }
    }
}

/// Decodes a zlib stream made of stored blocks, checking the header and the
/// Adler-32 trailer.
pub open spec fn zlib_unwrap(bs: Seq<u8>) -> Option<Seq<u8>> {
    if bs.len() < 2 || bs[0] & 0x0f != 8 || ((bs[0] as nat) * 256 + (bs[1] as nat)) % 31 != 0 {
        None
    } else {
        match unstore(bs.subrange(2, bs.len() as int)) {
            Some((d, rest)) => if rest == be32(adler32(d)) {
                Some(d)
            } else {
                None
            },
            None => None,
        }
    }
}

/// Reads one chunk that spans all of `bs`: its type and data, when the length
/// field fits and the CRC-32 matches.
pub open spec fn parse_chunk(bs: Seq<u8>) -> Option<(Seq<u8>, Seq<u8>)> {
    if bs.len() < 12 {
        None
    } else {
        let n = read_be32(bs, 0) as int;
        if bs.len() != 12 + n {
            None
        } else {
            let typ = bs.subrange(4, 8);
            let data = bs.subrange(8, 8 + n);
            if read_be32(bs, 8 + n) == crc32(typ + data) {
                Some((typ, data))
            } else {
                None
            }
        }
    }
}

/// Reading back the big-endian bytes of `v` gives `v`.
pub proof fn lemma_be32_roundtrip(v: u32)
    ensures
        read_be32(be32(v), 0) == v,
{
    let b = be32(v);
    assert(((v >> 24) as u8) as u32 * 0x100_0000 + ((v >> 16) as u8) as u32 * 0x1_0000 + ((v >> 8) as u8) as u32 * 0x100
        + (v as u8) as u32 == v) by (bit_vector);
}

/// Reading back the little-endian bytes of `v` gives `v`; `!v` complements it.
pub proof fn lemma_le16_roundtrip(v: u16)
    ensures
        read_le16(le16(v), 0) == v,
        read_le16(le16(!v), 0) == !v,
        read_le16(le16(!v), 0) + v == 0xffff,
{
    assert((v as u8) as u16 + ((v >> 8) as u8) as u16 * 0x100 == v) by (bit_vector);
    let nv = !v;
    assert((nv as u8) as u16 + ((nv >> 8) as u8) as u16 * 0x100 == nv) by (bit_vector);
    assert(v as int + (!v) as int == 0xffff) by (bit_vector);
}

/// One stored block followed by anything decodes to its bytes, then (when it
/// is not final) whatever follows decodes on.
pub proof fn lemma_unstore_one(last: u8, d: Seq<u8>, rest: Seq<u8>)
    requires
        d.len() <= 65535,
        last == 0 || last == 1,
    ensures
        unstore(stored_block(last, d) + rest) == (if last == 1 {
            Some((d, rest))
        } else {
            match unstore(rest) {
                Some((d2, r2)) => Some((d + d2, r2)),
                None => None,
            }
        }),
{
    let n = d.len() as int;
    let bs = stored_block(last, d) + rest;
    lemma_le16_roundtrip(n as u16);
    assert((n as u16) as int == n);
    assert((1u8 >> 1u8) & 3u8 == 0u8 && 1u8 & 1u8 == 1u8) by (bit_vector);
    assert((0u8 >> 1u8) & 3u8 == 0u8 && 0u8 & 1u8 == 0u8) by (bit_vector);
    assert(bs[0] == last);
    assert(read_le16(bs, 1) == read_le16(le16(n as u16), 0));
    assert(read_le16(bs, 3) == read_le16(le16(!(n as u16)), 0));
    assert(bs.subrange(5, 5 + n) == d);
    assert(bs.subrange(5 + n, bs.len() as int) == rest);
}

/// The stored blocks of `raw`, followed by anything, decode to `raw` and leave
/// that anything.
#[verifier::rlimit(40)]
pub proof fn lemma_unstore_blocks(raw: Seq<u8>, tail: Seq<u8>)
    ensures
        unstore(stored_blocks(raw) + tail) == Some((raw, tail)),
    decreases raw.len(),
{
    if raw.len() <= 65535 {
        lemma_unstore_one(1, raw, tail);
    } else {
        let d = raw.subrange(0, 65535);
        let rest = raw.subrange(65535, raw.len() as int);
        lemma_unstore_blocks(rest, tail);
        lemma_unstore_one(0, d, stored_blocks(rest) + tail);
        assert(stored_blocks(raw) + tail == stored_block(0, d) + (stored_blocks(rest) + tail));
        assert(d + rest == raw);
    }
}

/// A zlib stream of stored blocks decodes back to exactly the bytes it was
/// made from.
pub proof fn lemma_zlib_roundtrip(raw: Seq<u8>)
    ensures
        zlib_unwrap(zlib_stored(raw)) == Some(raw),
{
    let z = zlib_stored(raw);
    let t = be32(adler32(raw));
    lemma_unstore_blocks(raw, t);
    let inner = z.subrange(2, z.len() as int);
    assert(inner =~= stored_blocks(raw) + t) by {
        assert(z == seq![0x78u8, 0x01u8] + (stored_blocks(raw) + t));
    }
    assert(unstore(inner) == Some((raw, t)));
    assert(z[0] == 0x78u8);
    assert(z[1] == 0x01u8);
    assert(0x78u8 & 0x0fu8 == 8u8) by (bit_vector);
    assert(((0x78u8 as nat) * 256 + (0x01u8 as nat)) % 31 == 0);
}

/// A chunk reads back as its type and data, with a matching CRC-32.
pub proof fn lemma_chunk_roundtrip(typ: Seq<u8>, data: Seq<u8>)
    requires
        typ.len() == 4,
        data.len() <= u32::MAX,
    ensures
        parse_chunk(chunk_bytes(typ, data)) == Some((typ, data)),
{
    let c = chunk_bytes(typ, data);
    let n = data.len() as int;
    lemma_be32_roundtrip(n as u32);
    lemma_be32_roundtrip(crc32(typ + data));
    assert(read_be32(c, 0) == read_be32(be32(n as u32), 0));
    assert(c.subrange(4, 8) == typ);
    assert(c.subrange(8, 8 + n) == data);
    assert(read_be32(c, 8 + n) == read_be32(be32(crc32(typ + data)), 0));
}

/// Layout of an encoded image: the signature first, then a header chunk that
/// reads back as width and height, an image chunk whose zlib stream decodes to
/// the filtered scanlines, and the end chunk last.
pub proof fn lemma_png_layout(buf: Seq<u8>, w: u32, h: u32)
    requires
        w * 3 <= u32::MAX,
        h * (w * 3) <= buf.len(),
    ensures
        png_file(buf, w, h).subrange(0, 8) == png_signature(),
        parse_chunk(png_file(buf, w, h).subrange(8, 33)) == Some((ihdr_type(), ihdr_data(w, h))),
        read_be32(png_file(buf, w, h), 16) == w,
        read_be32(png_file(buf, w, h), 20) == h,
        png_file(buf, w, h).subrange(
            png_file(buf, w, h).len() - 12,
            png_file(buf, w, h).len() as int,
        ) == chunk_bytes(iend_type(), seq![]),
        zlib_unwrap(zlib_stored(scanlines(buf, (w * 3) as nat, h as nat))) == Some(
            scanlines(buf, (w * 3) as nat, h as nat),
        ),
{
    let f = png_file(buf, w, h);
    let c1 = chunk_bytes(ihdr_type(), ihdr_data(w, h));
    let raw = scanlines(buf, (w * 3) as nat, h as nat);
    let c2 = chunk_bytes(idat_type(), zlib_stored(raw));
    let c3 = chunk_bytes(iend_type(), seq![]);
    assert(f == png_signature() + c1 + c2 + c3);
    assert(c1.len() == 25);
    assert(c3.len() == 12);
    assert(f.subrange(0, 8) == png_signature());
    assert(f.subrange(8, 33) == c1);
    lemma_chunk_roundtrip(ihdr_type(), ihdr_data(w, h));
    lemma_be32_roundtrip(w);
    lemma_be32_roundtrip(h);
    assert(read_be32(f, 16) == read_be32(be32(w), 0));
    assert(read_be32(f, 20) == read_be32(be32(h), 0));
    assert(f.subrange(f.len() - 12, f.len() as int) == c3);
    lemma_zlib_roundtrip(raw);
}

/// Splits a run of PNG chunks into their (type, data) pairs, each chunk cut by
/// its length field and checked by its CRC-32; `None` when a chunk is cut
/// short or fails its check.
pub open spec fn png_chunks(bs: Seq<u8>) -> Option<Seq<(Seq<u8>, Seq<u8>)>>
    decreases bs.len(),
{
    if bs.len() == 0 {
        Some(seq![])
    } else if bs.len() < 12 {
        None
    } else {
        let end = 12 + read_be32(bs, 0) as int;
        if bs.len() < end {
            None
        } else {
            match parse_chunk(bs.subrange(0, end)) {
                None => None,
                Some(c) => match png_chunks(bs.subrange(end, bs.len() as int)) {
                    None => None,
                    Some(cs) => Some(seq![c] + cs),
                },
            }
        }
    }
}

/// The image data of a PNG: the data of its `IDAT` chunks, joined in order.
pub open spec fn idat_stream(cs: Seq<(Seq<u8>, Seq<u8>)>) -> Seq<u8>
    decreases cs.len(),
{
    if cs.len() == 0 {
        seq![]
    } else {
        idat_stream(cs.drop_last()) + (if cs.last().0 == idat_type() {
            cs.last().1
        } else {
            seq![]
        })
    }
}

/// Undoes the row filters of `h` scanlines of `row` bytes: each line must be
/// its filter byte, 0 (None), then `row` pixel bytes, which are kept as they
/// are.  `None` when the length is not `h * (row + 1)` or a line uses another
/// filter.
pub open spec fn unfilter(raw: Seq<u8>, row: nat, h: nat) -> Option<Seq<u8>>
    decreases h,
{
    if raw.len() != h * (row + 1) {
        None
    } else if h == 0 {
        Some(seq![])
    } else {
        let p = (h - 1) * (row + 1);
        if raw[p] != 0 {
            None
        } else {
            match unfilter(raw.subrange(0, p), row, (h - 1) as nat) {
                Some(px) => Some(px + raw.subrange(p + 1, raw.len() as int)),
                None => None,
            }
        }
    }
}

/// Reads an 8-bit RGB PNG: the signature, then chunks led by `IHDR` (bit
/// depth 8, colour type 2, no compression, filter or interlace variant,
/// width and height not zero) and closed by an empty `IEND`; the joined
/// `IDAT` data must be a zlib stream of stored blocks whose bytes unfilter to
/// the pixels.  Gives width, height and the row-major RGB bytes.
pub open spec fn decode_png(f: Seq<u8>) -> Option<(nat, nat, Seq<u8>)> {
    if f.len() < 8 || f.subrange(0, 8) != png_signature() {
        None
    } else {
        match png_chunks(f.subrange(8, f.len() as int)) {
            None => None,
            Some(cs) => if cs.len() < 2 || cs[0].0 != ihdr_type() || cs[0].1.len() != 13
                || cs.last() != (iend_type(), Seq::<u8>::empty()) {
                None
            } else {
                let hd = cs[0].1;
                let w = read_be32(hd, 0);
                let h = read_be32(hd, 4);
                if w == 0 || h == 0 || hd.subrange(8, 13) != seq![8u8, 2u8, 0u8, 0u8, 0u8] {
                    None
                } else {
                    match zlib_unwrap(idat_stream(cs)) {
                        None => None,
                        Some(raw) => match unfilter(raw, w * 3, h) {
                            None => None,
                            Some(px) => Some((w, h, px)),
                        },
                    }
                }
            },
        }
    }
}

/// A chunk in front of other bytes is split off whole.
proof fn lemma_png_chunks_cons(typ: Seq<u8>, data: Seq<u8>, rest: Seq<u8>)
    requires
        typ.len() == 4,
        data.len() <= u32::MAX,
    ensures
        png_chunks(chunk_bytes(typ, data) + rest) == (match png_chunks(rest) {
            Some(cs) => Some(seq![(typ, data)] + cs),
            None => None,
        }),
{
    let c = chunk_bytes(typ, data);
    let bs = c + rest;
    let n = data.len() as int;
    lemma_be32_roundtrip(n as u32);
    assert(read_be32(bs, 0) == read_be32(c, 0));
    assert(read_be32(c, 0) == read_be32(be32(n as u32), 0));
    assert(bs.subrange(0, 12 + n) =~= c);
    assert(bs.subrange(12 + n, bs.len() as int) =~= rest);
    lemma_chunk_roundtrip(typ, data);
}

/// The scanlines of `h` rows take `h * (row + 1)` bytes.
proof fn lemma_scanlines_len(buf: Seq<u8>, row: nat, h: nat)
    requires
        h * row <= buf.len(),
    ensures
        scanlines(buf, row, h).len() == h * (row + 1),
    decreases h,
{
    if h > 0 {
        let hp = (h - 1) as nat;
        assert(hp * row <= h * row) by (nonlinear_arith)
            requires
                hp + 1 == h,
        ;
        assert(h * row == hp * row + row) by (nonlinear_arith)
            requires
                hp + 1 == h,
        ;
        assert(h * (row + 1) == hp * (row + 1) + row + 1) by (nonlinear_arith)
            requires
                hp + 1 == h,
        ;
        lemma_scanlines_len(buf, row, hp);
        let piece = buf.subrange((hp * row) as int, (h * row) as int);
        assert(piece.len() == row);
        assert(scanlines(buf, row, h) == scanlines(buf, row, hp) + seq![0u8] + piece);
    } else {
        assert(h * (row + 1) == 0) by (nonlinear_arith)
            requires
                h == 0,
        ;
    }
}

/// Unfiltering the scanlines gives back the first `h` rows of pixels.
proof fn lemma_unfilter_scanlines(buf: Seq<u8>, row: nat, h: nat)
    requires
        h * row <= buf.len(),
    ensures
        unfilter(scanlines(buf, row, h), row, h) == Some(buf.subrange(0, (h * row) as int)),
    decreases h,
{
    lemma_scanlines_len(buf, row, h);
    if h == 0 {
        assert(h * row == 0) by (nonlinear_arith)
            requires
                h == 0,
        ;
        assert(buf.subrange(0, 0) =~= Seq::<u8>::empty());
    } else {
        let hp = (h - 1) as nat;
        assert(hp * row <= h * row) by (nonlinear_arith)
            requires
                hp + 1 == h,
        ;
        assert(h * row == hp * row + row) by (nonlinear_arith)
            requires
                hp + 1 == h,
        ;
        lemma_scanlines_len(buf, row, hp);
        lemma_unfilter_scanlines(buf, row, hp);
        let prev = scanlines(buf, row, hp);
        let raw = scanlines(buf, row, h);
        let p = hp * (row + 1);
        assert(prev.len() == p);
        assert(raw == prev + seq![0u8] + buf.subrange((hp * row) as int, (h * row) as int));
        assert(raw[p as int] == 0u8);
        assert(raw.subrange(0, p as int) =~= prev);
        assert(raw.subrange(p as int + 1, raw.len() as int) =~= buf.subrange(
            (hp * row) as int,
            (h * row) as int,
        ));
        assert(buf.subrange(0, (hp * row) as int) + buf.subrange((hp * row) as int, (h * row) as int)
            =~= buf.subrange(0, (h * row) as int));
    }
}

/// Three chunks in a row split into their three (type, data) pairs.
proof fn lemma_three_chunks(
    t1: Seq<u8>,
    d1: Seq<u8>,
    t2: Seq<u8>,
    d2: Seq<u8>,
    t3: Seq<u8>,
    d3: Seq<u8>,
)
    requires
        t1.len() == 4 && t2.len() == 4 && t3.len() == 4,
        d1.len() <= u32::MAX && d2.len() <= u32::MAX && d3.len() <= u32::MAX,
    ensures
        png_chunks(chunk_bytes(t1, d1) + chunk_bytes(t2, d2) + chunk_bytes(t3, d3)) == Some(
            seq![(t1, d1), (t2, d2), (t3, d3)],
        ),
{
    let c1 = chunk_bytes(t1, d1);
    let c2 = chunk_bytes(t2, d2);
    let c3 = chunk_bytes(t3, d3);
    assert(png_chunks(Seq::<u8>::empty()) == Some(Seq::<(Seq<u8>, Seq<u8>)>::empty()));
    lemma_png_chunks_cons(t3, d3, Seq::<u8>::empty());
    assert(c3 + Seq::<u8>::empty() =~= c3);
    lemma_png_chunks_cons(t2, d2, c3);
    lemma_png_chunks_cons(t1, d1, c2 + c3);
    assert(c1 + c2 + c3 =~= c1 + (c2 + c3));
    assert(seq![(t1, d1)] + (seq![(t2, d2)] + (seq![(t3, d3)] + Seq::<(Seq<u8>, Seq<u8>)>::empty()))
        =~= seq![(t1, d1), (t2, d2), (t3, d3)]);
}

/// The signature and three chunks: the signature reads back, and the rest
/// splits into the three (type, data) pairs.
proof fn lemma_signed_chunks(
    t1: Seq<u8>,
    d1: Seq<u8>,
    t2: Seq<u8>,
    d2: Seq<u8>,
    t3: Seq<u8>,
    d3: Seq<u8>,
)
    requires
        t1.len() == 4 && t2.len() == 4 && t3.len() == 4,
        d1.len() <= u32::MAX && d2.len() <= u32::MAX && d3.len() <= u32::MAX,
    ensures
        ({
            let f = png_signature() + chunk_bytes(t1, d1) + chunk_bytes(t2, d2) + chunk_bytes(
                t3,
                d3,
            );
            &&& f.len() >= 8
            &&& f.subrange(0, 8) == png_signature()
            &&& png_chunks(f.subrange(8, f.len() as int)) == Some(
                seq![(t1, d1), (t2, d2), (t3, d3)],
            )
        }),
{
    let body = chunk_bytes(t1, d1) + chunk_bytes(t2, d2) + chunk_bytes(t3, d3);
    let f = png_signature() + chunk_bytes(t1, d1) + chunk_bytes(t2, d2) + chunk_bytes(t3, d3);
    assert(f =~= png_signature() + body);
    assert(f.subrange(0, 8) =~= png_signature());
    assert(f.subrange(8, f.len() as int) =~= body);
    lemma_three_chunks(t1, d1, t2, d2, t3, d3);
}

/// With one `IDAT` chunk between header and end, the image data is its data.
proof fn lemma_idat_one(hd: Seq<u8>, z: Seq<u8>)
    ensures
        idat_stream(
            seq![(ihdr_type(), hd), (idat_type(), z), (iend_type(), Seq::<u8>::empty())],
        ) == z,
{
    let e1 = (ihdr_type(), hd);
    let e2 = (idat_type(), z);
    let e3 = (iend_type(), Seq::<u8>::empty());
    let cs = seq![e1, e2, e3];
    assert(ihdr_type()[1] != idat_type()[1]);
    assert(iend_type()[1] != idat_type()[1]);
    assert(ihdr_type() != idat_type());
    assert(iend_type() != idat_type());
    assert(idat_stream(Seq::<(Seq<u8>, Seq<u8>)>::empty()) =~= Seq::<u8>::empty());
    assert(cs.drop_last() =~= seq![e1, e2]);
    assert(seq![e1, e2].drop_last() =~= seq![e1]);
    assert(seq![e1].drop_last() =~= Seq::<(Seq<u8>, Seq<u8>)>::empty());
    assert(idat_stream(seq![e1]) =~= Seq::<u8>::empty());
    assert(idat_stream(seq![e1, e2]) =~= z);
    assert(idat_stream(cs) =~= z);
}

/// The header reads back as width, height and the RGB format bytes.
proof fn lemma_ihdr_fields(w: u32, h: u32)
    ensures
        ihdr_data(w, h).len() == 13,
        read_be32(ihdr_data(w, h), 0) == w,
        read_be32(ihdr_data(w, h), 4) == h,
        ihdr_data(w, h).subrange(8, 13) == seq![8u8, 2u8, 0u8, 0u8, 0u8],
{
    let hd = ihdr_data(w, h);
    lemma_be32_roundtrip(w);
    lemma_be32_roundtrip(h);
    assert(read_be32(hd, 0) == read_be32(be32(w), 0));
    assert(read_be32(hd, 4) == read_be32(be32(h), 0));
    assert(hd.subrange(8, 13) =~= seq![8u8, 2u8, 0u8, 0u8, 0u8]);
}

/// A file made of the signature, a header for `w` by `h`, one image chunk
/// holding `z` and the end chunk decodes to the pixels that `z` unwraps and
/// unfilters to.
proof fn lemma_decode_parts(w: u32, h: u32, z: Seq<u8>, raw: Seq<u8>, px: Seq<u8>)
    requires
        w >= 1,
        h >= 1,
        z.len() <= u32::MAX,
        zlib_unwrap(z) == Some(raw),
        unfilter(raw, (w * 3) as nat, h as nat) == Some(px),
    ensures
        decode_png(
            png_signature() + chunk_bytes(ihdr_type(), ihdr_data(w, h)) + chunk_bytes(
                idat_type(),
                z,
            ) + chunk_bytes(iend_type(), seq![]),
        ) == Some((w as nat, h as nat, px)),
{
    let hd = ihdr_data(w, h);
    let f = png_signature() + chunk_bytes(ihdr_type(), hd) + chunk_bytes(idat_type(), z)
        + chunk_bytes(iend_type(), seq![]);
    lemma_ihdr_fields(w, h);
    lemma_signed_chunks(ihdr_type(), hd, idat_type(), z, iend_type(), seq![]);
    lemma_idat_one(hd, z);
    let cs = seq![(ihdr_type(), hd), (idat_type(), z), (iend_type(), Seq::<u8>::empty())];
    assert(png_chunks(f.subrange(8, f.len() as int)) == Some(cs));
    assert(idat_stream(cs) == z);
    assert(cs.len() == 3);
    assert(cs[0] == (ihdr_type(), hd));
    assert(cs.last() == (iend_type(), Seq::<u8>::empty()));
    assert(read_be32(hd, 0) * 3 == (w * 3) as nat);
}

/// An encoded image decodes back to its width, its height and its pixels, for
/// every buffer of exactly `w * h` RGB triples whose image data fits the
/// 32-bit chunk length field.
pub proof fn lemma_png_decode(buf: Seq<u8>, w: u32, h: u32)
    requires
        w >= 1,
        h >= 1,
        w * 3 <= u32::MAX,
        buf.len() == h * (w * 3),
        zlib_stored(scanlines(buf, (w * 3) as nat, h as nat)).len() <= u32::MAX,
    ensures
        decode_png(png_file(buf, w, h)) == Some((w as nat, h as nat, buf)),
{
    let row = (w * 3) as nat;
    let raw = scanlines(buf, row, h as nat);
    lemma_zlib_roundtrip(raw);
    lemma_unfilter_scanlines(buf, row, h as nat);
    assert(buf.subrange(0, (h * row) as int) =~= buf);
    lemma_decode_parts(w, h, zlib_stored(raw), raw, buf);
}

/// The frame `frame_exec` finds with no marks is the PNG's frame.
proof fn lemma_png_frame(es: Seq<Element>, layers: Option<&[i16]>)
    ensures
        frame(es, layers, seq![]) == png_frame(es, layers),
{
    assert(mark_points(seq![]) == Seq::<(i32, i32)>::empty());
    assert(drawn_points(es, layers) + mark_points(seq![]) =~= drawn_points(es, layers));
}

/// The scale and the image width and height for the region `f`.
fn fit(f: Rect, max_dim: u32) -> (g: (Float, u32, u32))
    ensures
        g.0 == px_scale(f, max_dim),
        scale_ok(g.0),
        g.1 == png_w(f, max_dim),
        g.2 == png_h(f, max_dim),
{
    let dx = f.x1 as i64 - f.x0 as i64;
    let dy = f.y1 as i64 - f.y0 as i64;
    let sw: i64 = if dx >= 1 {
        dx
    } else {
        1
    };
    let sh: i64 = if dy >= 1 {
        dy
    } else {
        1
    };
    let d = if sw >= sh {
        sw
    } else {
        sh
    };
    let fd = fint_exec(d);
    proof {
        lemma_round_bits_nonzero(d as nat, 0);
    }
    let s = fdiv_exec(fint_exec(max_dim as i64), fd);
    let cap: i64 = if max_dim >= 1 {
        max_dim as i64
    } else {
        1
    };
    let w = to_int_clamped(fmul_exec(fint_exec(sw), s), Rnd::Ceil, 1, cap);
    let h = to_int_clamped(fmul_exec(fint_exec(sh), s), Rnd::Ceil, 1, cap);
    (s, w as u32, h as u32)
}

/// The bounding box of the drawn geometry (the unit square when nothing is
/// drawn).
fn drawn_frame(es: &Vec<Element>, layers: Option<&[i16]>) -> (f: Rect)
    ensures
        f == png_frame(es@, layers),
{
    let no_marks: Vec<Mark> = Vec::new();
    let f = frame_exec(es, layers, no_marks.as_slice());
    proof {
        assert(no_marks@ =~= seq![]);
        lemma_png_frame(es@, layers);
    }
    f
}

/// The thumbnail's size in pixels, `(width, height)`: the larger side of
/// the drawn geometry's bounding box fitted to `max_dim`.
pub fn png_size(cell: &Cell, layers: Option<&[i16]>, max_dim: u32) -> (wh: (u32, u32))
    ensures
        wh.0 == png_w(png_frame(cell.elements@, layers), max_dim),
        wh.1 == png_h(png_frame(cell.elements@, layers), max_dim),
{
    let f = drawn_frame(&cell.elements, layers);
    let (_s, w, h) = fit(f, max_dim);
    (w, h)
}

/// The size in pixels of a thumbnail of the region `window`.
pub fn window_size(window: Rect, max_dim: u32) -> (wh: (u32, u32))
    ensures
        wh.0 == png_w(window, max_dim),
        wh.1 == png_h(window, max_dim),
{
    let (_s, w, h) = fit(window, max_dim);
    (w, h)
}

/// Rasterizes the cell with the region `f` fitted into the picture and
/// encodes the pixels as a PNG.
fn render_in(cell: &Cell, layers: Option<&[i16]>, max_dim: u32, f: Rect) -> (png: Vec<u8>)
    requires
        png_w(f, max_dim) * png_h(f, max_dim) * 3 <= u32::MAX,
    ensures
        png@ == png_file(
            raster_in(cell.elements@, layers, max_dim, f),
            png_w(f, max_dim) as u32,
            png_h(f, max_dim) as u32,
        ),
{
    let (s, w, h) = fit(f, max_dim);
    let n = (w as u64 * h as u64 * 3) as usize;
    let mut buf: Vec<u8> = Vec::new();
    let mut i: usize = 0;
    while i < n
        invariant
            i <= n,
            buf@ == background(i as nat),
        decreases n - i,
    {
        buf.push(250);
        i = i + 1;
        assert(buf@ =~= background(i as nat));
    }
    proof {
        assert(1 <= h);
        assert(w * 3 <= w * h * 3) by (nonlinear_arith)
            requires
                h >= 1,
        ;
        assert(h * (w * 3) == w * h * 3) by (nonlinear_arith);
    }
    paint_all(&mut buf, w, h, &cell.elements, layers, f, s);
    encode_rgb(buf.as_slice(), w, h)
}

/// Renders `cell` to a PNG byte stream, fitted into a `max_dim`-pixel square
/// (aspect preserved, Y flipped so up is up), each drawn shape blended in
/// translucently so overlaps show.  The image must fit a `u32` byte count.
pub fn render_png(cell: &Cell, layers: Option<&[i16]>, max_dim: u32) -> (png: Vec<u8>)
    requires
        png_w(png_frame(cell.elements@, layers), max_dim) * png_h(
            png_frame(cell.elements@, layers),
            max_dim,
        ) * 3 <= u32::MAX,
    ensures
        png@ == png_file(
            raster(cell.elements@, layers, max_dim),
            png_w(png_frame(cell.elements@, layers), max_dim) as u32,
            png_h(png_frame(cell.elements@, layers), max_dim) as u32,
        ),
{
    let f = drawn_frame(&cell.elements, layers);
    render_in(cell, layers, max_dim, f)
}

/// Renders the region `window` (database units) of `cell` to a PNG, the
/// region fitted into a `max_dim`-pixel square: the same picture as
/// `render_png`, framed on `window` instead of the whole drawing.
pub fn render_png_window(cell: &Cell, layers: Option<&[i16]>, max_dim: u32, window: Rect) -> (png:
    Vec<u8>)
    requires
        png_w(window, max_dim) * png_h(window, max_dim) * 3 <= u32::MAX,
    ensures
        png@ == png_file(
            raster_in(cell.elements@, layers, max_dim, window),
            png_w(window, max_dim) as u32,
            png_h(window, max_dim) as u32,
        ),
{
    render_in(cell, layers, max_dim, window)
}

/// How many stored blocks `n` bytes take: `max(1, ceil(n / 65535))`.
pub open spec fn nblocks(n: nat) -> nat
    decreases n,
{
    if n <= 65535 {
        1
    } else {
        1 + nblocks((n - 65535) as nat)
    }
}

/// The length of stored block `k` of `n` bytes.
pub open spec fn block_len(n: nat, k: int) -> int {
    if n - k * 65535 < 65535 {
        n - k * 65535
    } else {
        65535
    }
}

/// Stored block `k` of `raw` sits at `base + 65540 k` in `z`: its final flag
/// is set exactly on the last block, `NLEN` is `!LEN`, and it holds the
/// `k`-th 65535-byte slice of `raw`.
pub open spec fn block_at(z: Seq<u8>, raw: Seq<u8>, k: int, base: int) -> bool {
    let off = base + k * 65540;
    let l = block_len(raw.len(), k);
    &&& 0 <= off
    &&& off + 5 + l <= z.len()
    &&& z[off] == (if k == nblocks(raw.len()) - 1 {
        1u8
    } else {
        0u8
    })
    &&& read_le16(z, off + 1) == l
    &&& read_le16(z, off + 3) == !(l as u16)
    &&& z.subrange(off + 5, off + 5 + l) == raw.subrange(k * 65535, k * 65535 + l)
}

/// The block count in closed form.
pub proof fn lemma_nblocks(n: nat)
    ensures
        nblocks(n) == (if n == 0 {
            1
        } else {
            (n + 65534) / 65535
        }),
        nblocks(n) >= 1,
        (nblocks(n) - 1) * 65535 <= n,
        n <= nblocks(n) * 65535,
    decreases n,
{
    if n > 65535 {
        lemma_nblocks((n - 65535) as nat);
    }
}

proof fn lemma_blocks_at(raw: Seq<u8>, tail: Seq<u8>, k: int)
    requires
        0 <= k < nblocks(raw.len()),
    ensures
        block_at(stored_blocks(raw) + tail, raw, k, 0),
        (stored_blocks(raw) + tail).len() == 5 * nblocks(raw.len()) + raw.len() + tail.len(),
    decreases raw.len(),
{
    let n = raw.len();
    let z = stored_blocks(raw) + tail;
    if n <= 65535 {
        let sb = stored_block(1, raw);
        lemma_le16_roundtrip(n as u16);
        assert(z[0] == 1u8);
        assert(z[1] == le16(n as u16)[0] && z[2] == le16(n as u16)[1]);
        assert(z[3] == le16(!(n as u16))[0] && z[4] == le16(!(n as u16))[1]);
        assert(z.subrange(5, 5 + n as int) =~= raw);
        assert(raw.subrange(0, n as int) =~= raw);
    } else {
        let d = raw.subrange(0, 65535);
        let rest = raw.subrange(65535, n as int);
        let p = stored_block(0, d);
        let inner = stored_blocks(rest) + tail;
        assert(z =~= p + inner);
        assert(p.len() == 65540);
        lemma_nblocks(n);
        if k == 0 {
            lemma_le16_roundtrip(65535u16);
            assert(z[0] == 0u8);
            assert(z[1] == le16(65535u16)[0] && z[2] == le16(65535u16)[1]);
            assert(z[3] == le16(!(65535u16))[0] && z[4] == le16(!(65535u16))[1]);
            assert(z.subrange(5, 65540) =~= d);
            lemma_blocks_at(rest, tail, 0);
        } else {
            lemma_blocks_at(rest, tail, k - 1);
            let off = 65540 + (k - 1) * 65540;
            let ioff = (k - 1) * 65540;
            let l = block_len(rest.len(), k - 1);
            assert(block_len(n, k) == l);
            assert(off == k * 65540);
            assert(z[off] == inner[ioff]);
            assert(z[off + 1] == inner[ioff + 1] && z[off + 2] == inner[ioff + 2]);
            assert(z[off + 3] == inner[ioff + 3] && z[off + 4] == inner[ioff + 4]);
            assert(z.subrange(off + 5, off + 5 + l) =~= inner.subrange(ioff + 5, ioff + 5 + l));
            assert(rest.subrange((k - 1) * 65535, (k - 1) * 65535 + l) =~= raw.subrange(
                k * 65535,
                k * 65535 + l,
            ));
        }
        lemma_blocks_at(rest, tail, 0);
    }
}

/// Layout of the zlib stream over `raw`: header `78 01`; then
/// `max(1, ceil(n / 65535))` stored blocks, block `k` at `2 + 65540 k` with
/// its final flag set only on the last, `NLEN == !LEN`, holding the `k`-th
/// 65535-byte slice; then the Adler-32 of `raw`, big-endian.  In all
/// `2 + 5 * max(1, ceil(n / 65535)) + n + 4` bytes.
pub proof fn lemma_zlib_layout(raw: Seq<u8>)
    ensures
        zlib_stored(raw).len() == 2 + 5 * nblocks(raw.len()) + raw.len() + 4,
        nblocks(raw.len()) == (if raw.len() == 0 {
            1
        } else {
            (raw.len() + 65534) / 65535
        }),
        zlib_stored(raw)[0] == 0x78 && zlib_stored(raw)[1] == 0x01,
        zlib_stored(raw).subrange(
            zlib_stored(raw).len() - 4,
            zlib_stored(raw).len() as int,
        ) == be32(adler32(raw)),
        forall|k: int|
            0 <= k < nblocks(raw.len()) ==> #[trigger] block_at(zlib_stored(raw), raw, k, 2),
{
    let z = zlib_stored(raw);
    let hd = seq![0x78u8, 0x01u8];
    let tail = be32(adler32(raw));
    let inner = stored_blocks(raw) + tail;
    assert(z =~= hd + inner);
    lemma_nblocks(raw.len());
    lemma_blocks_at(raw, tail, 0);
    assert(z.subrange(z.len() - 4, z.len() as int) =~= tail);
    assert forall|k: int| 0 <= k < nblocks(raw.len()) implies #[trigger] block_at(z, raw, k, 2) by {
        lemma_blocks_at(raw, tail, k);
        lemma_block_at_behind(hd, inner, raw, k);
    }
}

/// A block found in `s` is found, shifted by `p.len()`, in `p + s`.
proof fn lemma_block_at_behind(p: Seq<u8>, s: Seq<u8>, raw: Seq<u8>, k: int)
    requires
        block_at(s, raw, k, 0),
    ensures
        block_at(p + s, raw, k, p.len() as int),
{
    let z = p + s;
    let b = p.len() as int;
    let off = k * 65540;
    let l = block_len(raw.len(), k);
    assert(z[b + off] == s[off]);
    assert(z[b + off + 1] == s[off + 1] && z[b + off + 2] == s[off + 2]);
    assert(z[b + off + 3] == s[off + 3] && z[b + off + 4] == s[off + 4]);
    assert(z.subrange(b + off + 5, b + off + 5 + l) =~= s.subrange(off + 5, off + 5 + l));
}


/// The sum of the bytes.
pub open spec fn byte_sum(bs: Seq<u8>) -> nat
    decreases bs.len(),
{
    if bs.len() == 0 {
        0
    } else {
        byte_sum(bs.drop_last()) + (bs.last() as nat)
    }
}

/// RFC 1950's `B` before reduction: over every nonempty prefix, one plus the
/// prefix's byte sum, added up.
pub open spec fn prefix_sums(bs: Seq<u8>) -> nat
    decreases bs.len(),
{
    if bs.len() == 0 {
        0
    } else {
        prefix_sums(bs.drop_last()) + 1 + byte_sum(bs)
    }
}

proof fn lemma_adler_sums_exact(bs: Seq<u8>)
    ensures
        adler_sums(bs) == (((1 + byte_sum(bs)) % 65521) as u32, (prefix_sums(bs) % 65521) as u32),
    decreases bs.len(),
{
    if bs.len() > 0 {
        let p = bs.drop_last();
        lemma_adler_sums_exact(p);
        let sa = 1 + byte_sum(p);
        let sb = prefix_sums(p);
        vstd::arithmetic::div_mod::lemma_add_mod_noop(sa as int, bs.last() as int, 65521);
        vstd::arithmetic::div_mod::lemma_small_mod(bs.last() as nat, 65521);
        vstd::arithmetic::div_mod::lemma_add_mod_noop(sb as int, (sa + bs.last()) as int, 65521);
    }
}

/// The zlib trailer is RFC 1950's Adler-32: with `A` one plus the sum of the
/// bytes and `B` the sum over every prefix of one plus its byte sum, it is
/// `(B mod 65521) * 65536 + (A mod 65521)`.
pub proof fn lemma_adler32_rfc(bs: Seq<u8>)
    ensures
        adler32(bs) == (prefix_sums(bs) % 65521) * 65536 + (1 + byte_sum(bs)) % 65521,
{
    lemma_adler_sums_exact(bs);
    let a = ((1 + byte_sum(bs)) % 65521) as u32;
    let b = (prefix_sums(bs) % 65521) as u32;
    assert((b << 16) | a == b * 65536 + a) by (bit_vector)
        requires
            a < 65536,
            b < 65536,
    ;
}

} // verus!
