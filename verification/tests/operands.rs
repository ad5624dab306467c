use zet::operands::{decode_if_utf16, decode_later_operands, for_bom, Bom};

const UTF8_BOM: &str = "\u{FEFF}";

fn abominate(expected: &str) -> String {
    UTF8_BOM.to_string() + expected
}

fn to_utf_16le(source: &str) -> Vec<u8> {
    let mut result = b"\xff\xfe".to_vec();
    for b in source.as_bytes().iter() {
        result.push(*b);
        result.push(0);
    }
    result
}

fn to_utf_16be(source: &str) -> Vec<u8> {
    let mut result = b"\xfe\xff".to_vec();
    for b in source.as_bytes().iter() {
        result.push(0);
        result.push(*b);
    }
    result
}

#[test]
fn operands_utf_16le_is_translated_to_utf8() {
    let expected = "The cute red crab\n jumps over the lazy blue gopher\n";
    assert_eq!(decode_if_utf16(to_utf_16le(expected)), abominate(expected).as_bytes());
}

#[test]
fn operands_utf_16be_is_translated_to_utf8() {
    let expected = "The cute red crab\n jumps over the lazy blue gopher\n";
    assert_eq!(decode_if_utf16(to_utf_16be(expected)), abominate(expected).as_bytes());
}

#[test]
fn io_utf_16le_is_translated_to_utf8() {
    let expected = "The cute red crab\n jumps over the lazy blue gopher\n";
    assert_eq!(decode_if_utf16(to_utf_16le(expected)), abominate(expected).as_bytes());
}

#[test]
fn io_utf_16be_is_translated_to_utf8() {
    let expected = "The cute red crab\n jumps over the lazy blue gopher\n";
    assert_eq!(decode_if_utf16(to_utf_16be(expected)), abominate(expected).as_bytes());
}

#[test]
fn text_without_a_utf16_byte_order_mark_is_unchanged() {
    let plain = b"abc\ndef\n".to_vec();
    assert_eq!(decode_if_utf16(plain.clone()), plain);
    let marked = b"\xEF\xBB\xBFabc\n".to_vec();
    assert_eq!(decode_if_utf16(marked.clone()), marked);
    assert_eq!(decode_if_utf16(Vec::new()), Vec::<u8>::new());
}

#[test]
fn non_ascii_utf16_text_is_decoded() {
    // "é\n" in UTF-16LE and UTF-16BE
    assert_eq!(decode_if_utf16(b"\xff\xfe\xe9\x00\x0a\x00".to_vec()), "\u{FEFF}é\n".as_bytes());
    assert_eq!(decode_if_utf16(b"\xfe\xff\x00\xe9\x00\x0a".to_vec()), "\u{FEFF}é\n".as_bytes());
}

#[test]
fn for_bom_recognizes_each_byte_order_mark() {
    assert_eq!(for_bom(b"\xEF\xBB\xBFx"), Some((Bom::Utf8, 3)));
    assert_eq!(for_bom(b"\xFF\xFEx"), Some((Bom::Utf16Le, 2)));
    assert_eq!(for_bom(b"\xFE\xFFx"), Some((Bom::Utf16Be, 2)));
    assert_eq!(for_bom(b"\xEF\xBB"), None);
    assert_eq!(for_bom(b"abc"), None);
    assert_eq!(for_bom(b""), None);
}

#[test]
fn later_operands_keep_plain_bytes_and_lose_a_utf8_mark() {
    let plain = b"x\r\ny".to_vec();
    let marked = b"\xEF\xBB\xBFz\n".to_vec();
    let texts = decode_later_operands(&[plain.clone(), marked, to_utf_16le("w\n")]);
    assert_eq!(texts, vec![plain, b"z\n".to_vec(), b"w\n".to_vec()]);
    assert_eq!(decode_later_operands(&[]), Vec::<Vec<u8>>::new());
}
