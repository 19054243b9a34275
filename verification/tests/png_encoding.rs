use vyges_gds_view::png::{adler32_exec, chunk, encode_rgb, zlib_store};

fn crc32_ref(bytes: &[u8]) -> u32 {
    let mut c = 0xffff_ffffu32;
    for &b in bytes {
        c ^= b as u32;
        for _ in 0..8 {
            c = if c & 1 == 1 { (c >> 1) ^ 0xEDB8_8320 } else { c >> 1 };
        }
    }
    c ^ 0xffff_ffff
}

#[test]
fn iend_chunk_has_the_well_known_crc() {
    let mut out = Vec::new();
    chunk(&mut out, b"IEND", &[]);
    assert_eq!(out, vec![0, 0, 0, 0, 73, 69, 78, 68, 0xAE, 0x42, 0x60, 0x82]);
}

#[test]
fn crc_of_check_string() {
    // CRC-32 of "123456789" is 0xCBF43926; a chunk's CRC covers type + data.
    let mut out = Vec::new();
    chunk(&mut out, b"1234", b"56789");
    let n = out.len();
    assert_eq!(&out[n - 4..], &0xCBF4_3926u32.to_be_bytes());
    assert_eq!(crc32_ref(b"123456789"), 0xCBF4_3926);
}

#[test]
fn adler_of_wikipedia() {
    assert_eq!(adler32_exec(b"Wikipedia"), 0x11E6_0398);
    assert_eq!(adler32_exec(b""), 1);
}

#[test]
fn zlib_of_nothing_is_one_empty_final_block() {
    assert_eq!(zlib_store(&[]), vec![0x78, 0x01, 1, 0, 0, 0xff, 0xff, 0, 0, 0, 1]);
}

#[test]
fn zlib_splits_into_65535_byte_blocks() {
    let raw = vec![7u8; 70000];
    let z = zlib_store(&raw);
    assert_eq!(z.len(), 2 + 5 + 65535 + 5 + (70000 - 65535) + 4);
    assert_eq!(&z[2..7], &[0, 0xff, 0xff, 0, 0]);
    let second = 2 + 5 + 65535;
    let n = (70000 - 65535) as u16;
    assert_eq!(z[second], 1);
    assert_eq!(&z[second + 1..second + 3], &n.to_le_bytes());
    assert_eq!(&z[second + 3..second + 5], &(!n).to_le_bytes());
}

#[test]
fn a_two_by_one_image() {
    let buf = [1u8, 2, 3, 4, 5, 6];
    let png = encode_rgb(&buf, 2, 1);
    assert_eq!(&png[..8], &[137, 80, 78, 71, 13, 10, 26, 10]);
    assert_eq!(&png[8..16], &[0, 0, 0, 13, 73, 72, 68, 82]);
    assert_eq!(&png[16..29], &[0, 0, 0, 2, 0, 0, 0, 1, 8, 2, 0, 0, 0]);
    assert_eq!(&png[png.len() - 12..], &[0, 0, 0, 0, 73, 69, 78, 68, 0xAE, 0x42, 0x60, 0x82]);
    // the IDAT payload: zlib header, one final stored block of the filtered row
    let idat = &png[33 + 8..];
    assert_eq!(&idat[..2], &[0x78, 0x01]);
    assert_eq!(&idat[2..7], &[1, 7, 0, 0xf8, 0xff]);
    assert_eq!(&idat[7..14], &[0, 1, 2, 3, 4, 5, 6]);
}

/// A plain reader of what `encode_rgb` writes: chunks checked by their CRC,
/// the header's fields, the IDAT data joined, stored blocks unwrapped and
/// checked by Adler-32, then each scanline's filter byte stripped.
fn decode(png: &[u8]) -> (u32, u32, Vec<u8>) {
    assert_eq!(&png[..8], &[137, 80, 78, 71, 13, 10, 26, 10]);
    let mut at = 8;
    let mut chunks: Vec<([u8; 4], Vec<u8>)> = Vec::new();
    while at < png.len() {
        let n = u32::from_be_bytes([png[at], png[at + 1], png[at + 2], png[at + 3]]) as usize;
        let typ = [png[at + 4], png[at + 5], png[at + 6], png[at + 7]];
        let data = png[at + 8..at + 8 + n].to_vec();
        let crc = u32::from_be_bytes([png[at + 8 + n], png[at + 9 + n], png[at + 10 + n], png[at + 11 + n]]);
        assert_eq!(crc, crc32_ref(&png[at + 4..at + 8 + n]));
        chunks.push((typ, data));
        at += 12 + n;
    }
    assert_eq!(at, png.len());
    assert_eq!(&chunks[0].0, b"IHDR");
    assert_eq!(chunks.last().unwrap(), &(*b"IEND", Vec::new()));
    let hd = &chunks[0].1;
    let w = u32::from_be_bytes([hd[0], hd[1], hd[2], hd[3]]);
    let h = u32::from_be_bytes([hd[4], hd[5], hd[6], hd[7]]);
    assert_eq!(&hd[8..], &[8, 2, 0, 0, 0]);
    let z: Vec<u8> = chunks.iter().filter(|c| &c.0 == b"IDAT").flat_map(|c| c.1.clone()).collect();
    assert_eq!((z[0], z[1]), (0x78, 0x01));
    let mut raw = Vec::new();
    let mut i = 2;
    loop {
        let last = z[i] & 1;
        let len = u16::from_le_bytes([z[i + 1], z[i + 2]]);
        let nlen = u16::from_le_bytes([z[i + 3], z[i + 4]]);
        assert_eq!(nlen, !len);
        raw.extend_from_slice(&z[i + 5..i + 5 + len as usize]);
        i += 5 + len as usize;
        if last == 1 {
            break;
        }
    }
    assert_eq!(&z[i..], &adler32_exec(&raw).to_be_bytes());
    let row = 3 * w as usize;
    assert_eq!(raw.len(), h as usize * (row + 1));
    let mut px = Vec::new();
    for line in raw.chunks(row + 1) {
        assert_eq!(line[0], 0);
        px.extend_from_slice(&line[1..]);
    }
    (w, h, px)
}

#[test]
fn an_encoded_image_decodes_to_its_pixels() {
    let buf: Vec<u8> = (0..3 * 5 * 4).map(|i| (i * 7 % 256) as u8).collect();
    assert_eq!(decode(&encode_rgb(&buf, 5, 4)), (5, 4, buf));
}

#[test]
fn an_image_over_one_stored_block_decodes_to_its_pixels() {
    // 120 rows of 601 bytes: 72120 bytes of scanlines, two stored blocks.
    let buf: Vec<u8> = (0..3 * 200 * 120).map(|i| (i % 251) as u8).collect();
    let png = encode_rgb(&buf, 200, 120);
    assert_eq!(png.len(), 8 + 25 + 12 + (2 + 5 * 2 + 72120 + 4) + 12);
    assert_eq!(decode(&png), (200, 120, buf));
}
