//! Text values: validation and the views of a validated text.

use truskawka_lib::text::{EncodingError, TextValue};

#[test]
fn text_from_ascii_bytes_keeps_them() {
    let text = TextValue::from_bytes(b"abcd".to_vec()).unwrap();
    assert_eq!(text.as_bytes(), b"abcd");
    assert_eq!(text.len(), 4);
    assert_eq!(text.to_string(), "abcd");
}

#[test]
fn text_may_be_empty() {
    let text = TextValue::from_bytes(Vec::new()).unwrap();
    assert_eq!(text.as_bytes(), b"");
    assert_eq!(text.len(), 0);
    assert_eq!(text.to_string(), "");
}

#[test]
fn text_takes_every_byte_below_128() {
    let all: Vec<u8> = (0u8..128).collect();
    let text = TextValue::from_bytes(all.clone()).unwrap();
    assert_eq!(text.as_bytes(), &all[..]);
    assert_eq!(text.len(), 128);
    let chars: Vec<char> = text.to_string().chars().collect();
    assert_eq!(chars.len(), 128);
    for (i, c) in chars.iter().enumerate() {
        assert_eq!(*c as u32, i as u32);
    }
}

#[test]
fn text_refuses_byte_128() {
    let outcome = TextValue::from_bytes(vec![0x80]);
    assert_eq!(outcome, Err(EncodingError { rejected: vec![0x80] }));
}

#[test]
fn text_refuses_a_high_byte_wherever_it_stands() {
    for place in 0..5 {
        let mut raw = b"hello".to_vec();
        raw[place] = 0xff;
        let outcome = TextValue::from_bytes(raw.clone());
        assert_eq!(outcome, Err(EncodingError { rejected: raw }));
    }
}

#[test]
fn text_refuses_every_byte_from_128_up() {
    for byte in 128u8..=255 {
        let raw = vec![b'a', byte, b'b'];
        assert!(TextValue::from_bytes(raw.clone()).is_err());
    }
    assert!(TextValue::from_bytes(vec![b'a', 127, b'b']).is_ok());
}

#[test]
fn text_refuses_utf8_beyond_ascii() {
    let raw = "zoä".as_bytes().to_vec();
    let outcome = TextValue::from_bytes(raw.clone());
    assert_eq!(outcome.unwrap_err().rejected, raw);
}

#[test]
fn text_clone_is_equal() {
    let text = TextValue::from_bytes(b"xyz".to_vec()).unwrap();
    let copy = text.clone();
    assert_eq!(copy, text);
    assert_eq!(copy.as_bytes(), b"xyz");
    let other = TextValue::from_bytes(b"xyZ".to_vec()).unwrap();
    assert_ne!(other, text);
}
