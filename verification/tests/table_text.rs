use mousecam::table_text::parse_huffman_text;

fn sample_text() -> String {
    let mut t = String::from("1 0 0 0\n9 256 511");
    for s in 0..=255 {
        t.push_str(&format!(" {}", s));
    }
    t.push('\n');
    t
}

#[test]
fn sample_text_parses() {
    let table = parse_huffman_text(sample_text().as_bytes()).expect("valid table");
    let codes = table.codes();
    assert_eq!(codes.len(), 2);
    assert_eq!((codes[0].length, codes[0].first_code, codes[0].last_code), (1, 0, 0));
    assert_eq!(codes[0].symbols, vec![0]);
    assert_eq!((codes[1].length, codes[1].first_code, codes[1].last_code), (9, 256, 511));
    assert_eq!(codes[1].symbols, (0..=255u8).collect::<Vec<u8>>());
}

#[test]
fn line_breaks_and_spacing_do_not_matter() {
    let flat = sample_text().replace('\n', " ");
    let spaced = format!("\t\r\n  {}  \n\n", sample_text().replace(' ', "\t  "));
    assert!(parse_huffman_text(flat.as_bytes()).is_some());
    assert!(parse_huffman_text(spaced.as_bytes()).is_some());
}

#[test]
fn single_group_of_all_bytes_parses() {
    let mut t = String::from("8 0 255");
    for s in 0..=255 {
        t.push_str(&format!(" {}", 255 - s));
    }
    let table = parse_huffman_text(t.as_bytes()).unwrap();
    assert_eq!(table.codes()[0].symbols[0], 255);
}

#[test]
fn empty_text_is_refused() {
    assert!(parse_huffman_text(b"").is_none());
    assert!(parse_huffman_text(b"  \n").is_none());
}

#[test]
fn other_bytes_are_refused() {
    let t = sample_text().replace("9 256", "9,256");
    assert!(parse_huffman_text(t.as_bytes()).is_none());
    assert!(parse_huffman_text(b"1 0 0 -0").is_none());
}

#[test]
fn missing_symbol_is_refused() {
    let t = sample_text();
    let t = t.trim_end().trim_end_matches("255");
    assert!(parse_huffman_text(t.as_bytes()).is_none());
}

#[test]
fn extra_number_is_refused() {
    let t = format!("{} 7", sample_text());
    assert!(parse_huffman_text(t.as_bytes()).is_none());
}

#[test]
fn symbol_beyond_a_byte_is_refused() {
    let t = sample_text().replace(" 255\n", " 256\n");
    assert!(parse_huffman_text(t.as_bytes()).is_none());
}

#[test]
fn number_beyond_64_bits_is_refused() {
    let t = sample_text().replace("1 0 0 0", "1 0 0 18446744073709551616");
    assert!(parse_huffman_text(t.as_bytes()).is_none());
}

#[test]
fn length_beyond_32_bits_is_refused() {
    let t = sample_text().replace("1 0 0 0", "4294967297 0 0 0");
    assert!(parse_huffman_text(t.as_bytes()).is_none());
}

#[test]
fn incomplete_code_is_refused() {
    assert!(parse_huffman_text(b"1 0 0 5").is_none());
}

#[test]
fn last_before_first_is_refused() {
    assert!(parse_huffman_text(b"1 1 0").is_none());
}
