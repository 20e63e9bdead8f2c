use mousecam::decoder::{decode, Frame, FrameDecoder, PACKET_HEADER};
use mousecam::huffman::{HuffmanCode, HuffmanTable};

/// A complete canonical code: `0` is the symbol 0, `1` followed by eight
/// bits is the symbol those bits spell.
fn sample_codes() -> Vec<HuffmanCode> {
    vec![
        HuffmanCode { length: 1, first_code: 0, last_code: 0, symbols: vec![0] },
        HuffmanCode {
            length: 9,
            first_code: 256,
            last_code: 511,
            symbols: (0..=255u8).collect(),
        },
    ]
}

fn sample_table() -> HuffmanTable {
    HuffmanTable::new(sample_codes()).expect("sample code is well formed")
}

fn prediction(img: &[u8], i: usize) -> u8 {
    if i < 30 {
        img[i - 1]
    } else if i % 30 == 0 {
        img[i - 30]
    } else {
        ((img[i - 30] as u16 + img[i - 1] as u16) / 2) as u8
    }
}

fn push_bits(bits: &mut Vec<bool>, value: u64, len: u32) {
    for i in (0..len).rev() {
        bits.push((value >> i) & 1 == 1);
    }
}

/// The bits of one frame, given its first pixel and the difference symbols
/// of the other 899 pixels, in the sample code.
fn encode_symbols(shutter: u16, first: u8, ks: &[u8]) -> Vec<bool> {
    let mut bits = Vec::new();
    push_bits(&mut bits, shutter as u64, 16);
    push_bits(&mut bits, first as u64, 8);
    for k in ks {
        if *k == 0 {
            bits.push(false);
        } else {
            push_bits(&mut bits, 256 + *k as u64, 9);
        }
    }
    bits
}

/// The bits of one frame in the sample code: each difference symbol is the
/// prediction minus the pixel, modulo 255.
fn encode_frame(shutter: u16, img: &[u8]) -> Vec<bool> {
    let ks: Vec<u8> = (1..900)
        .map(|i| (prediction(img, i) as i32 - img[i] as i32).rem_euclid(255) as u8)
        .collect();
    encode_symbols(shutter, img[0], &ks)
}

fn pack(bits: &[bool]) -> Vec<u8> {
    let mut bytes = Vec::new();
    for chunk in bits.chunks(8) {
        let mut b = 0u8;
        for (i, bit) in chunk.iter().enumerate() {
            if *bit {
                b |= 1 << (7 - i);
            }
        }
        bytes.push(b);
    }
    bytes
}

fn packet(payload: &[u8]) -> Vec<u8> {
    let mut p = vec![0xeeu8; PACKET_HEADER];
    p.extend_from_slice(payload);
    p
}

fn gradient_image() -> Vec<u8> {
    (0..900).map(|i| ((i * 7 + (i / 30) * 13) % 251) as u8).collect()
}

fn stream_payload(frames: &[(u16, Vec<u8>)]) -> Vec<u8> {
    let mut bits = Vec::new();
    for (s, img) in frames {
        bits.extend(encode_frame(*s, img));
    }
    let mut payload = vec![0x5a]; // the first byte of the stream carries nothing
    payload.extend(pack(&bits));
    payload
}

fn as_pairs(frames: &[Frame]) -> Vec<(u16, Vec<u8>)> {
    frames.iter().map(|f| (f.shutter, f.pixels.clone())).collect()
}

#[test]
fn table_accepts_complete_canonical_code() {
    let t = HuffmanTable::new(sample_codes()).unwrap();
    assert_eq!(t.codes().len(), 2);
}

#[test]
fn table_rejects_empty_code() {
    assert!(HuffmanTable::new(vec![]).is_none());
}

#[test]
fn table_rejects_incomplete_code() {
    let mut codes = sample_codes();
    codes[1].last_code = 510;
    codes[1].symbols.pop();
    assert!(HuffmanTable::new(codes).is_none());
}

#[test]
fn table_rejects_wrong_symbol_count() {
    let mut codes = sample_codes();
    codes[1].symbols.pop();
    assert!(HuffmanTable::new(codes).is_none());
}

#[test]
fn table_rejects_lengths_out_of_order() {
    let mut codes = sample_codes();
    codes.swap(0, 1);
    assert!(HuffmanTable::new(codes).is_none());
}

#[test]
fn table_rejects_nonzero_first_code() {
    let codes = vec![HuffmanCode { length: 1, first_code: 1, last_code: 1, symbols: vec![3] }];
    assert!(HuffmanTable::new(codes).is_none());
}

#[test]
fn table_rejects_overlapping_groups() {
    let mut codes = sample_codes();
    codes[1].first_code = 255;
    codes[1].symbols.insert(0, 9);
    codes[1].last_code = 511;
    assert!(HuffmanTable::new(codes).is_none());
}

#[test]
fn table_accepts_single_group_of_all_bytes() {
    let codes = vec![HuffmanCode {
        length: 8,
        first_code: 0,
        last_code: 255,
        symbols: (0..=255u8).collect(),
    }];
    assert!(HuffmanTable::new(codes).is_some());
}

#[test]
fn flat_frame_decodes() {
    let img = vec![100u8; 900];
    let payload = stream_payload(&[(0x1234, img.clone())]);
    let mut d = FrameDecoder::new(sample_table());
    let frames = decode(&mut d, &packet(&payload));
    assert_eq!(as_pairs(&frames), vec![(0x1234, img)]);
}

#[test]
fn gradient_frame_decodes() {
    let img = gradient_image();
    let payload = stream_payload(&[(77, img.clone())]);
    let mut d = FrameDecoder::new(sample_table());
    let frames = decode(&mut d, &packet(&payload));
    assert_eq!(as_pairs(&frames), vec![(77, img)]);
}

#[test]
fn difference_is_taken_modulo_255() {
    // the pixel right of the first one is the first one minus its symbol, modulo 255
    let mut img = vec![0u8; 900];
    img[0] = 3;
    img[1] = 250;
    let payload = stream_payload(&[(1, img.clone())]);
    let mut d = FrameDecoder::new(sample_table());
    let frames = decode(&mut d, &packet(&payload));
    assert_eq!(frames.len(), 1);
    assert_eq!(frames[0].pixels[0], 3);
    assert_eq!(frames[0].pixels[1], 250);
    assert_eq!(frames[0].pixels, img);
}

#[test]
fn header_only_packet_yields_nothing() {
    let mut d = FrameDecoder::new(sample_table());
    let frames = decode(&mut d, &packet(&[]));
    assert!(frames.is_empty());
}

#[test]
fn incomplete_frame_yields_nothing() {
    let img = gradient_image();
    let payload = stream_payload(&[(5, img)]);
    let mut d = FrameDecoder::new(sample_table());
    let frames = decode(&mut d, &packet(&payload[..payload.len() / 2]));
    assert!(frames.is_empty());
}

#[test]
fn frames_split_over_packets_decode_the_same() {
    let a = gradient_image();
    let b: Vec<u8> = a.iter().map(|v| ((*v as u16 * 3) % 255) as u8).collect();
    let c = vec![9u8; 900];
    let wanted = vec![(10u16, a), (20u16, b), (30u16, c)];
    let payload = stream_payload(&wanted);

    let mut whole = FrameDecoder::new(sample_table());
    let all_at_once = as_pairs(&decode(&mut whole, &packet(&payload)));
    assert_eq!(all_at_once, wanted);

    for chunk in [1usize, 7, 100, 333] {
        let mut d = FrameDecoder::new(sample_table());
        let mut got = Vec::new();
        for part in payload.chunks(chunk) {
            got.extend(as_pairs(&decode(&mut d, &packet(part))));
        }
        assert_eq!(got, wanted, "chunk size {}", chunk);
    }
}

#[test]
fn first_byte_skipped_even_after_header_only_packet() {
    let img = gradient_image();
    let payload = stream_payload(&[(42, img.clone())]);
    let mut d = FrameDecoder::new(sample_table());
    assert!(decode(&mut d, &packet(&[])).is_empty());
    let frames = decode(&mut d, &packet(&payload));
    assert_eq!(as_pairs(&frames), vec![(42, img)]);
}

#[test]
fn shutter_is_big_endian() {
    let img = vec![1u8; 900];
    let payload = stream_payload(&[(0x0102, img)]);
    let mut d = FrameDecoder::new(sample_table());
    let frames = decode(&mut d, &packet(&payload));
    assert_eq!(frames[0].shutter, 0x0102);
}

fn decode_symbols(first: u8, ks: &[u8]) -> Frame {
    let mut payload = vec![0u8];
    payload.extend(pack(&encode_symbols(9, first, ks)));
    let mut d = FrameDecoder::new(sample_table());
    let mut frames = decode(&mut d, &packet(&payload));
    assert_eq!(frames.len(), 1);
    frames.pop().unwrap()
}

#[test]
fn symbol_one_after_zero_gives_254() {
    let mut ks = vec![0u8; 899];
    ks[0] = 1;
    let f = decode_symbols(0, &ks);
    assert_eq!(f.pixels[0], 0);
    assert_eq!(f.pixels[1], 254);
    // the rest of the first row repeats the pixel on its left
    assert_eq!(f.pixels[29], 254);
    // the first column repeats the pixel above
    assert_eq!(f.pixels[30], 0);
    // elsewhere the prediction is the mean of the pixels above and on the left
    assert_eq!(f.pixels[31], 127);
}

#[test]
fn prediction_255_with_symbol_0_gives_0() {
    let ks = vec![0u8; 899];
    let f = decode_symbols(255, &ks);
    assert_eq!(f.pixels[0], 255);
    assert_eq!(f.pixels[1], 0);
    assert_eq!(f.pixels[30], 0);
}

#[test]
fn symbol_255_counts_as_0() {
    let mut ks = vec![0u8; 899];
    ks[0] = 255;
    let f = decode_symbols(40, &ks);
    assert_eq!(f.pixels[1], 40);
}
