use teeny_qoi::chunk::Chunk;
use teeny_qoi::decoder::{decode, DecodeError, SliceReader};
use teeny_qoi::encoder::{encode, EncodeError, Encoder};
use teeny_qoi::header::Header;
use teeny_qoi::helpers::{pixels_from_rgba_bytes, RgbaBytesAdapater};
use teeny_qoi::pixel::RgbaPixel;

fn px(r: u8, g: u8, b: u8, a: u8) -> RgbaPixel {
    RgbaPixel::new(r, g, b, a)
}

const END: [u8; 8] = [0, 0, 0, 0, 0, 0, 0, 1];

fn file(header: Header, chunks: &[u8]) -> Vec<u8> {
    let mut v = vec![b'q', b'o', b'i', b'f'];
    header.write_to_vec(&mut v);
    v.extend_from_slice(chunks);
    v.extend_from_slice(&END);
    v
}

#[test]
fn hash_matches_formula() {
    assert_eq!(px(0, 0, 0, 255).index_position(), 53);
    assert_eq!(px(0, 0, 0, 0).index_position(), 0);
    assert_eq!(px(1, 2, 3, 4).index_position(), (3 + 10 + 21 + 44) % 64);
    assert_eq!(px(255, 255, 255, 255).index_position(), ((255u32 * 26) % 64) as u8);
}

#[test]
fn hash_always_names_a_slot() {
    for v in [0u8, 1, 7, 63, 64, 128, 200, 255] {
        let p = px(v, v.wrapping_mul(3), v.wrapping_add(17), 255 - v);
        assert!(p.index_position() < 64);
        assert_eq!(p.index_position(), p.index_position());
    }
}

#[test]
fn hundred_identical_pixels_give_two_runs() {
    let mut enc = Encoder::new(Header::rgba(100, 1));
    let mut chunks: Vec<Chunk> = Vec::new();
    for _ in 0..100 {
        let out = enc.process_pixel(px(0, 0, 0, 255));
        for i in 0..out.len() {
            chunks.push(out[i]);
        }
    }
    assert_eq!(chunks, vec![Chunk::Run { length: 62 }, Chunk::Run { length: 38 }]);

    let bytes = encode(Header::rgba(100, 1), &vec![px(0, 0, 0, 255); 100]).unwrap();
    assert_eq!(bytes, file(Header::rgba(100, 1), &[0xc0 + 61, 0xc0 + 37]));
}

#[test]
fn cached_pixel_is_encoded_as_index() {
    let a = px(10, 20, 30, 255);
    let b = px(200, 100, 50, 255);
    let mut enc = Encoder::new(Header::rgba(3, 1));
    enc.process_pixel(a);
    enc.process_pixel(b);
    let out = enc.process_pixel(a);
    assert_eq!(out.len(), 1);
    assert_eq!(out[0], Chunk::Index { idx: a.index_position() });
}

#[test]
fn pending_run_is_flushed_before_index() {
    let a = px(10, 20, 30, 255);
    let b = px(200, 100, 50, 255);
    let mut enc = Encoder::new(Header::rgba(5, 1));
    enc.process_pixel(a);
    enc.process_pixel(b);
    assert_eq!(enc.process_pixel(b).len(), 0);
    assert_eq!(enc.process_pixel(b).len(), 0);
    let out = enc.process_pixel(a);
    assert_eq!(out.len(), 2);
    assert_eq!(out[0], Chunk::Run { length: 2 });
    assert_eq!(out[1], Chunk::Index { idx: a.index_position() });
}

#[test]
fn small_delta_is_diff() {
    let mut enc = Encoder::new(Header::rgba(1, 1));
    let out = enc.process_pixel(px(1, 1, 1, 255));
    assert_eq!(out.len(), 1);
    assert_eq!(out[0], Chunk::Diff { dr: 1, dg: 1, db: 1 });
}

#[test]
fn medium_delta_is_luma() {
    let mut enc = Encoder::new(Header::rgba(1, 1));
    let out = enc.process_pixel(px(2, 2, 2, 255));
    assert_eq!(out[0], Chunk::Luma { dg: 2, dr_dg: 0, db_dg: 0 });
}

#[test]
fn large_delta_is_rgb() {
    let mut enc = Encoder::new(Header::rgba(1, 1));
    let out = enc.process_pixel(px(40, 40, 40, 255));
    assert_eq!(out[0], Chunk::Rgb { r: 40, g: 40, b: 40 });
}

#[test]
fn wraparound_delta_is_diff() {
    let mut enc = Encoder::new(Header::rgba(2, 1));
    enc.process_pixel(px(255, 0, 1, 255));
    let out = enc.process_pixel(px(0, 255, 0, 255));
    assert_eq!(out[0], Chunk::Diff { dr: 1, dg: -1, db: -1 });
}

#[test]
fn alpha_change_is_rgba() {
    let mut enc = Encoder::new(Header::rgba(2, 1));
    enc.process_pixel(px(10, 10, 10, 255));
    let out = enc.process_pixel(px(10, 10, 10, 254));
    assert_eq!(out.len(), 1);
    assert_eq!(out[0], Chunk::Rgba { r: 10, g: 10, b: 10, a: 254 });
}

#[test]
fn chunk_bytes_are_packed() {
    assert_eq!(Chunk::Rgb { r: 1, g: 2, b: 3 }.to_vec(), vec![0xfe, 1, 2, 3]);
    assert_eq!(Chunk::Rgba { r: 1, g: 2, b: 3, a: 4 }.to_vec(), vec![0xff, 1, 2, 3, 4]);
    assert_eq!(Chunk::Index { idx: 63 }.to_vec(), vec![0x3f]);
    assert_eq!(Chunk::Diff { dr: -2, dg: 0, db: 1 }.to_vec(), vec![0x40 | (0 << 4) | (2 << 2) | 3]);
    assert_eq!(Chunk::Luma { dg: -32, dr_dg: 7, db_dg: -8 }.to_vec(), vec![0x80, 0xf0]);
    assert_eq!(Chunk::Run { length: 62 }.to_vec(), vec![0xfd]);
    assert_eq!(Chunk::Run { length: 1 }.to_vec(), vec![0xc0]);
    let mut v = vec![9u8];
    Chunk::Index { idx: 5 }.write_to_vec(&mut v);
    assert_eq!(v, vec![9, 5]);
}

#[test]
fn header_is_big_endian() {
    let mut v = Vec::new();
    Header::rgb(0x01020304, 0x0a0b0c0d).write_to_vec(&mut v);
    assert_eq!(v, vec![1, 2, 3, 4, 0x0a, 0x0b, 0x0c, 0x0d, 3, 0]);
    let h = Header::read_from(&v, 0);
    assert_eq!(h, Header::rgb(0x01020304, 0x0a0b0c0d));
    assert_eq!(Header::rgba(1, 2).channels, 4);
}

#[test]
fn round_trip_of_mixed_pixels() {
    let mut pixels = Vec::new();
    for i in 0..48u32 {
        let v = (i * 37 % 256) as u8;
        pixels.push(px(v, v.wrapping_add(1), v.wrapping_sub(3), if i % 7 == 0 { 128 } else { 255 }));
        if i % 5 == 0 {
            pixels.push(px(v, v.wrapping_add(1), v.wrapping_sub(3), 255));
            pixels.push(px(v, v.wrapping_add(1), v.wrapping_sub(3), 255));
        }
    }
    pixels.push(pixels[3]);
    pixels.push(px(17, 17, 17, 255));
    pixels.push(px(18, 16, 19, 255));
    pixels.push(px(30, 20, 25, 255));
    let n = pixels.len() as u32;
    let header = Header::rgba(n, 1);
    let bytes = encode(header, &pixels).unwrap();
    let (h, decoded) = decode(&bytes).unwrap();
    assert_eq!(h, header);
    assert_eq!(decoded, pixels);
}

#[test]
fn round_trip_of_long_run() {
    let mut pixels = vec![px(5, 6, 7, 255); 130];
    pixels.push(px(0, 0, 0, 255));
    let header = Header::rgb(131, 1);
    let bytes = encode(header, &pixels).unwrap();
    assert_eq!(decode(&bytes).unwrap().1, pixels);
}

#[test]
fn transparent_black_first_in_slot_zero_decodes_as_opaque() {
    let pixels = vec![px(0, 0, 0, 0)];
    let bytes = encode(Header::rgba(1, 1), &pixels).unwrap();
    assert_eq!(bytes, file(Header::rgba(1, 1), &[0x00]));
    assert_eq!(decode(&bytes).unwrap().1, vec![px(0, 0, 0, 255)]);
}

#[test]
fn length_mismatch_is_refused() {
    assert_eq!(encode(Header::rgba(2, 2), &vec![px(1, 1, 1, 255); 3]), Err(EncodeError::LengthMismatch));
    assert!(Encoder::new(Header::rgba(2, 2)).image_to_vec(&vec![px(1, 1, 1, 255); 4]).is_ok());
}

#[test]
fn terminated_stream_decodes_cleanly() {
    let bytes = file(Header::rgba(2, 1), &[0xfe, 9, 8, 7, 0x00 + 53]);
    let (_, pixels) = decode(&bytes).unwrap();
    assert_eq!(pixels, vec![px(9, 8, 7, 255), px(0, 0, 0, 255)]);
}

#[test]
fn missing_terminator_gives_end_of_input() {
    let mut bytes = vec![b'q', b'o', b'i', b'f'];
    Header::rgba(1, 1).write_to_vec(&mut bytes);
    bytes.extend_from_slice(&[0xff, 1, 2, 3, 4]);
    let (_, reader) = SliceReader::start(&bytes).unwrap();
    let mut d = reader.into_decoder();
    assert_eq!(d.next_pixel(), Ok(Some(px(1, 2, 3, 4))));
    assert_eq!(d.next_pixel(), Err(DecodeError::EndOfInput));
    assert_eq!(decode(&bytes), Err(DecodeError::EndOfInput));
}

#[test]
fn chunk_cut_short_is_truncated() {
    let mut bytes = vec![b'q', b'o', b'i', b'f'];
    Header::rgba(1, 1).write_to_vec(&mut bytes);
    bytes.extend_from_slice(&[0xfe, 1, 2]);
    assert_eq!(decode(&bytes), Err(DecodeError::Truncated));
    let mut luma = bytes[..14].to_vec();
    luma.push(0x80);
    assert_eq!(decode(&luma), Err(DecodeError::Truncated));
}

#[test]
fn short_header_is_truncated() {
    let bytes = vec![b'q', b'o', b'i', b'f', 0, 0, 0, 1, 0, 0, 0];
    assert!(matches!(SliceReader::start(&bytes), Err(DecodeError::Truncated)));
    assert_eq!(decode(&bytes), Err(DecodeError::Truncated));
}

#[test]
fn wrong_magic_is_refused() {
    let mut bytes = file(Header::rgba(1, 1), &[0xc0]);
    bytes[3] = b'g';
    assert_eq!(decode(&bytes), Err(DecodeError::InvalidMagic));
    assert_eq!(decode(&[b'q', b'o']), Err(DecodeError::InvalidMagic));
}

#[test]
fn zero_tag_not_followed_by_marker_is_index() {
    let bytes = file(Header::rgba(2, 1), &[0xfe, 1, 1, 1, 0x00, 0xc0]);
    let (_, pixels) = decode(&bytes).unwrap();
    assert_eq!(pixels, vec![px(1, 1, 1, 255), px(0, 0, 0, 255), px(0, 0, 0, 255)]);
}

#[test]
fn diff_and_luma_decode_with_wraparound() {
    // diff (-1, -1, +1) from opaque black, then luma dg = +20, dr_dg = -3, db_dg = +7
    let diff = 0x40 | (1 << 4) | (1 << 2) | 3;
    let bytes = file(Header::rgba(2, 1), &[diff, 0x80 | (20 + 32), ((-3i32 + 8) as u8) << 4 | (7 + 8)]);
    let (_, pixels) = decode(&bytes).unwrap();
    assert_eq!(pixels, vec![px(255, 255, 1, 255), px(16, 19, 28, 255)]);
}

#[test]
fn rgba_bytes_come_in_channel_order() {
    let pixels = vec![px(1, 2, 3, 4), px(5, 6, 7, 8)];
    let bytes = encode(Header::rgba(2, 1), &pixels).unwrap();
    let (_, reader) = SliceReader::start(&bytes).unwrap();
    let mut flat = reader.into_decoder().into_rgba_bytes();
    let mut out = Vec::new();
    while let Some(b) = flat.next_byte().unwrap() {
        out.push(b);
    }
    assert_eq!(out, vec![1, 2, 3, 4, 5, 6, 7, 8]);
}

#[test]
fn rgba_bytes_group_into_pixels() {
    let bytes = [1u8, 2, 3, 4, 5, 6, 7, 8, 9, 10];
    assert_eq!(pixels_from_rgba_bytes(&bytes), vec![px(1, 2, 3, 4), px(5, 6, 7, 8)]);
    let mut a = RgbaBytesAdapater::new(&bytes);
    assert_eq!(a.next_pixel(), Some(px(1, 2, 3, 4)));
    assert_eq!(a.next_pixel(), Some(px(5, 6, 7, 8)));
    assert_eq!(a.next_pixel(), None);
    assert_eq!(RgbaPixel::opaque(1, 2, 3), px(1, 2, 3, 255));
}

#[test]
fn pixels_convert_from_arrays_and_tuples() {
    assert_eq!(RgbaPixel::from([1u8, 2, 3, 4]), px(1, 2, 3, 4));
    assert_eq!(RgbaPixel::from([1u8, 2, 3]), px(1, 2, 3, 255));
    assert_eq!(RgbaPixel::from((5u8, 6u8, 7u8, 8u8)), px(5, 6, 7, 8));
    assert_eq!(RgbaPixel::from((5u8, 6u8, 7u8)), px(5, 6, 7, 255));
}
