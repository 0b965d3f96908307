use pdf_chapters::text::{decode, decode_utf16, utf16_units};

#[test]
fn decode_reads_marked_utf16() {
    assert_eq!(decode(&[0xFE, 0xFF, 0x00, 0x41]), "A");
}

#[test]
fn decode_reads_unmarked_bytes_as_utf8() {
    assert_eq!(decode(&[0x41, 0x42]), "AB");
}

#[test]
fn decode_falls_back_on_a_truncated_unit() {
    let bytes = [0xFE, 0xFF, 0x00];
    let expected = String::from_utf8_lossy(&bytes).into_owned();
    assert_eq!(decode(&bytes), expected);
    assert_eq!(decode(&bytes), "\u{FFFD}\u{FFFD}\u{0}");
}

#[test]
fn decode_falls_back_on_an_unpaired_surrogate() {
    let bytes = [0xFE, 0xFF, 0xD8, 0x00, 0x00, 0x41];
    assert_eq!(decode(&bytes), String::from_utf8_lossy(&bytes).into_owned());
}

#[test]
fn decode_reads_a_surrogate_pair() {
    // U+1F600 is D83D DE00 in UTF-16.
    assert_eq!(decode(&[0xFE, 0xFF, 0xD8, 0x3D, 0xDE, 0x00]), "\u{1F600}");
}

#[test]
fn decode_reads_non_latin_text() {
    // "第1章" in UTF-16, big-endian.
    assert_eq!(decode(&[0xFE, 0xFF, 0x7B, 0x2C, 0x00, 0x31, 0x7A, 0xE0]), "第1章");
    assert_eq!(decode("第1章".as_bytes()), "第1章");
}

#[test]
fn decode_of_the_marker_alone_is_empty() {
    assert_eq!(decode(&[0xFE, 0xFF]), "");
}

#[test]
fn decode_of_nothing_is_empty() {
    assert_eq!(decode(&[]), "");
}

#[test]
fn decode_replaces_invalid_utf8() {
    assert_eq!(decode(&[0x41, 0xFF, 0x42]), "A\u{FFFD}B");
}

#[test]
fn decode_needs_both_bytes_of_the_marker() {
    let bytes = [0xFE, 0x41];
    assert_eq!(decode(&bytes), String::from_utf8_lossy(&bytes).into_owned());
    let swapped = [0xFF, 0xFE, 0x41, 0x00];
    assert_eq!(decode(&swapped), String::from_utf8_lossy(&swapped).into_owned());
}

#[test]
fn utf16_units_pairs_the_bytes_high_byte_first() {
    assert_eq!(utf16_units(&[0xFE, 0xFF, 0x12, 0x34, 0xAB, 0xCD]), Some(vec![0x1234, 0xABCD]));
    assert_eq!(utf16_units(&[0xFE, 0xFF, 0xFF, 0xFF]), Some(vec![0xFFFF]));
    assert_eq!(utf16_units(&[0xFE, 0xFF]), Some(vec![]));
}

#[test]
fn utf16_units_needs_the_marker_and_whole_units() {
    assert_eq!(utf16_units(&[0x00, 0x41]), None);
    assert_eq!(utf16_units(&[0xFE, 0xFF, 0x00]), None);
    assert_eq!(utf16_units(&[0xFE]), None);
    assert_eq!(utf16_units(&[]), None);
}

#[test]
fn decode_utf16_reads_plain_units_and_pairs() {
    assert_eq!(decode_utf16(&[]), Some(String::new()));
    assert_eq!(decode_utf16(&[0x0041, 0x7B2C]), Some("A第".to_string()));
    assert_eq!(decode_utf16(&[0xD83D, 0xDE00]), Some("\u{1F600}".to_string()));
    assert_eq!(decode_utf16(&[0xD800, 0xDC00]), Some("\u{10000}".to_string()));
    assert_eq!(decode_utf16(&[0xDBFF, 0xDFFF]), Some("\u{10FFFF}".to_string()));
    assert_eq!(decode_utf16(&[0xD7FF, 0xE000, 0xFFFF]), Some("\u{D7FF}\u{E000}\u{FFFF}".to_string()));
    assert_eq!(decode_utf16(&[0x0000]), Some("\u{0}".to_string()));
}

#[test]
fn decode_utf16_refuses_surrogates_out_of_place() {
    assert_eq!(decode_utf16(&[0xD800]), None);
    assert_eq!(decode_utf16(&[0xDC00]), None);
    assert_eq!(decode_utf16(&[0xDC00, 0xD800]), None);
    assert_eq!(decode_utf16(&[0xD800, 0x0041]), None);
    assert_eq!(decode_utf16(&[0xD800, 0xD800, 0xDC00]), None);
    assert_eq!(decode_utf16(&[0x0041, 0xDFFF]), None);
    assert_eq!(decode_utf16(&[0xD83D, 0xDE00, 0xDBFF]), None);
}

#[test]
fn decode_utf16_agrees_with_std() {
    let picks: [u16; 12] = [
        0x0000, 0x0041, 0x00E9, 0x7B2C, 0xD7FF, 0xD800, 0xDABC, 0xDBFF, 0xDC00, 0xDEAD, 0xDFFF,
        0xE000,
    ];
    for a in picks {
        assert_eq!(decode_utf16(&[a]), String::from_utf16(&[a]).ok());
        for b in picks {
            assert_eq!(decode_utf16(&[a, b]), String::from_utf16(&[a, b]).ok());
            for c in picks {
                assert_eq!(decode_utf16(&[a, b, c]), String::from_utf16(&[a, b, c]).ok());
                assert_eq!(decode_utf16(&[a, b, c, a]), String::from_utf16(&[a, b, c, a]).ok());
            }
        }
    }
}

#[test]
fn decode_gives_every_text_back_from_its_utf8() {
    for text in ["", "plain", "naïve café", "第1章 はじめに", "\u{1F600} end", "\u{0}\u{7F}\u{80}\u{7FF}\u{800}\u{FFFF}\u{10000}\u{10FFFF}"] {
        assert_eq!(decode(text.as_bytes()), text);
    }
}

#[test]
fn decode_gives_every_text_back_from_its_marked_utf16() {
    for text in ["", "plain", "naïve café", "第1章 はじめに", "\u{1F600} end", "\u{FFFF}\u{10000}\u{10FFFF}"] {
        let mut bytes = vec![0xFE, 0xFF];
        for unit in text.encode_utf16() {
            bytes.push((unit >> 8) as u8);
            bytes.push((unit & 0xFF) as u8);
        }
        assert_eq!(decode(&bytes), text);
    }
}
