use doc_editor::codec::{decode, encode, ReadError};
use doc_editor::doc_handler::DocHandler;

fn strings(v: &[&str]) -> Vec<String> {
    v.iter().map(|l| l.to_string()).collect()
}

#[test]
fn decode_splits_at_crlf() {
    assert_eq!(decode(b"one\r\ntwo\r\nthree").unwrap(), strings(&["one", "two", "three"]));
}

#[test]
fn decode_empty_is_one_empty_line() {
    assert_eq!(decode(b"").unwrap(), strings(&[""]));
}

#[test]
fn decode_trailing_break_gives_empty_last_line() {
    assert_eq!(decode(b"a\r\n").unwrap(), strings(&["a", ""]));
    assert_eq!(decode(b"\r\n\r\n").unwrap(), strings(&["", "", ""]));
}

#[test]
fn decode_keeps_lone_cr_and_lf() {
    assert_eq!(decode(b"a\nb\rc").unwrap(), strings(&["a\nb\rc"]));
    assert_eq!(decode(b"a\r\r\nb").unwrap(), strings(&["a\r", "b"]));
    assert_eq!(decode(b"a\r\n\nb").unwrap(), strings(&["a", "\nb"]));
    assert_eq!(decode(b"\r").unwrap(), strings(&["\r"]));
}

#[test]
fn decode_multibyte_text() {
    assert_eq!(decode("é\r\n字".as_bytes()).unwrap(), strings(&["é", "字"]));
}

#[test]
fn decode_rejects_invalid_utf8() {
    assert_eq!(decode(&[0xc3]), Err(ReadError::NotUtf8));
    assert_eq!(decode(&[0xed, 0xa0, 0x80]), Err(ReadError::NotUtf8));
    assert_eq!(decode(&[0xc0, 0x80]), Err(ReadError::NotUtf8));
}

#[test]
fn encode_joins_with_crlf() {
    assert_eq!(encode(&strings(&["ab", "", "c"])), b"ab\r\n\r\nc".to_vec());
    assert_eq!(encode(&strings(&[""])), Vec::<u8>::new());
    assert_eq!(encode(&strings(&["", ""])), b"\r\n".to_vec());
}

#[test]
fn encode_multibyte_text() {
    assert_eq!(encode(&strings(&["é", "字"])), "é\r\n字".as_bytes().to_vec());
}

#[test]
fn round_trip_of_edited_buffer() {
    let mut d = DocHandler::new();
    for c in "hé".chars() {
        d.update(c);
    }
    d.newline();
    d.newline();
    for c in "字\r".chars() {
        d.update(c);
    }
    d.newline();
    d.update('\n');
    let raw = encode(&d.text);
    assert_eq!(decode(&raw).unwrap(), d.text);
}

#[test]
fn round_trip_of_bytes() {
    let raw = "x\r\n\r\né\r\r\n\n".as_bytes();
    assert_eq!(encode(&decode(raw).unwrap()), raw.to_vec());
}
