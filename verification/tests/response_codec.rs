//! The response codec on buffers, and the status codes.

use bytes::BytesMut;
use truskawka_lib::error::InvalidResponseError;
use truskawka_lib::response::{Response, ResponseCodec, ResponseStatusCode};
use truskawka_lib::text::{EncodingError, TextValue};

fn response(status_code: ResponseStatusCode, data: &str) -> Response {
    Response { status_code, data: TextValue::from_bytes(data.as_bytes().to_vec()).unwrap() }
}

fn frame(code: u32, payload: &[u8]) -> Vec<u8> {
    let mut bytes = code.to_be_bytes().to_vec();
    bytes.extend((payload.len() as u32).to_be_bytes());
    bytes.extend(payload);
    bytes
}

#[test]
fn status_codes_on_the_wire() {
    assert_eq!(ResponseStatusCode::Success.to_wire(), 0);
    assert_eq!(ResponseStatusCode::Failure.to_wire(), 1);
    assert_eq!(ResponseStatusCode::Nx.to_wire(), 2);
    assert_eq!(ResponseStatusCode::from_wire(0), Some(ResponseStatusCode::Success));
    assert_eq!(ResponseStatusCode::from_wire(1), Some(ResponseStatusCode::Failure));
    assert_eq!(ResponseStatusCode::from_wire(2), Some(ResponseStatusCode::Nx));
    assert_eq!(ResponseStatusCode::from_wire(3), None);
    assert_eq!(ResponseStatusCode::from_wire(u32::MAX), None);
}

#[test]
fn response_with_status_three_is_unknown() {
    let mut src = BytesMut::from(&frame(3, b"data")[..]);
    let outcome = ResponseCodec {}.decode(&mut src);
    assert!(matches!(outcome, Err(InvalidResponseError::UnknownStatus { code: 3 })));
}

#[test]
fn responses_with_status_zero_one_two_decode() {
    let expected =
        [ResponseStatusCode::Success, ResponseStatusCode::Failure, ResponseStatusCode::Nx];
    for code in 0u32..3 {
        let mut src = BytesMut::from(&frame(code, b"data")[..]);
        let decoded = ResponseCodec {}.decode(&mut src).unwrap().unwrap();
        assert_eq!(decoded.status_code, expected[code as usize]);
        assert_eq!(decoded.data.as_bytes(), b"data");
        assert!(src.is_empty());
    }
}

#[test]
fn response_encode_writes_status_length_payload() {
    let mut dst = BytesMut::new();
    ResponseCodec {}.encode(response(ResponseStatusCode::Nx, "abc"), &mut dst).unwrap();
    assert_eq!(dst.to_vec(), vec![0, 0, 0, 2, 0, 0, 0, 3, b'a', b'b', b'c']);

    let mut dst = BytesMut::from(&b"\x09"[..]);
    ResponseCodec {}.encode(response(ResponseStatusCode::Success, ""), &mut dst).unwrap();
    assert_eq!(dst.to_vec(), vec![9, 0, 0, 0, 0, 0, 0, 0, 0]);

    let mut dst = BytesMut::new();
    ResponseCodec {}.encode(response(ResponseStatusCode::Failure, "no"), &mut dst).unwrap();
    assert_eq!(dst.to_vec(), vec![0, 0, 0, 1, 0, 0, 0, 2, b'n', b'o']);
}

#[test]
fn response_try_encode_appends_the_same_frame() {
    let mut dst = BytesMut::new();
    let outcome = ResponseCodec {}.try_encode(response(ResponseStatusCode::Nx, "abc"), &mut dst);
    assert_eq!(outcome, Ok(()));
    assert_eq!(dst.to_vec(), frame(2, b"abc"));
}

#[test]
fn response_round_trips() {
    let long = "r".repeat(1000);
    for status in [ResponseStatusCode::Success, ResponseStatusCode::Failure, ResponseStatusCode::Nx]
    {
        for data in ["", "x", "hello world", &long] {
            let item = response(status, data);
            let mut buffer = BytesMut::new();
            let mut codec = ResponseCodec {};
            codec.encode(item.clone(), &mut buffer).unwrap();
            assert_eq!(buffer.len(), 8 + data.len());
            assert!(ResponseCodec::ready(&buffer));
            assert_eq!(codec.decode(&mut buffer).unwrap(), Some(item));
            assert!(buffer.is_empty());
        }
    }
}

#[test]
fn response_no_strict_prefix_is_ready() {
    let bytes = frame(1, b"payload");
    for cut in 0..bytes.len() {
        assert!(!ResponseCodec::ready(&bytes[..cut]), "prefix of {} bytes", cut);
        let mut src = BytesMut::from(&bytes[..cut]);
        assert_eq!(ResponseCodec {}.decode(&mut src).unwrap(), None);
        assert_eq!(src.to_vec(), bytes[..cut].to_vec());
    }
    assert!(ResponseCodec::ready(&bytes));
}

#[test]
fn response_decode_leaves_what_follows() {
    let mut bytes = frame(0, b"one");
    bytes.extend(frame(2, b""));
    bytes.extend([5u8, 6, 7]);
    let mut src = BytesMut::from(&bytes[..]);
    let mut codec = ResponseCodec {};
    assert!(ResponseCodec::ready(&src));
    assert_eq!(codec.decode(&mut src).unwrap(), Some(response(ResponseStatusCode::Success, "one")));
    assert_eq!(src.len(), 8 + 3);
    assert_eq!(codec.decode(&mut src).unwrap(), Some(response(ResponseStatusCode::Nx, "")));
    assert_eq!(src.to_vec(), vec![5, 6, 7]);
    assert_eq!(codec.decode(&mut src).unwrap(), None);
    assert_eq!(src.to_vec(), vec![5, 6, 7]);
}

#[test]
fn response_read_frame_takes_a_ready_frame() {
    let mut bytes = frame(1, b"why");
    bytes.push(0xaa);
    let mut src = BytesMut::from(&bytes[..]);
    assert!(ResponseCodec::ready(&src));
    let taken = ResponseCodec::read_frame(&mut src).unwrap();
    assert_eq!(taken, response(ResponseStatusCode::Failure, "why"));
    assert_eq!(src.to_vec(), vec![0xaa]);
}

#[test]
fn response_with_unknown_status_is_taken_whole() {
    let mut bytes = frame(7, b"abc");
    bytes.extend([1u8, 2]);
    let mut src = BytesMut::from(&bytes[..]);
    let outcome = ResponseCodec {}.decode(&mut src);
    assert!(matches!(outcome, Err(InvalidResponseError::UnknownStatus { code: 7 })));
    assert_eq!(src.to_vec(), vec![1, 2]);
}

#[test]
fn response_with_bad_payload_is_reported() {
    let mut bytes = frame(0, &[b'a', 0x80]);
    bytes.push(3);
    let mut src = BytesMut::from(&bytes[..]);
    let outcome = ResponseCodec {}.decode(&mut src);
    match outcome {
        Err(InvalidResponseError::BadEncoding { source }) => {
            assert_eq!(source, EncodingError { rejected: vec![b'a', 0x80] });
        }
        other => panic!("expected a bad encoding, got {:?}", other),
    }
    assert_eq!(src.to_vec(), vec![3]);
}

#[test]
fn response_unknown_status_comes_before_bad_payload() {
    let mut src = BytesMut::from(&frame(3, &[0xff])[..]);
    let outcome = ResponseCodec {}.decode(&mut src);
    assert!(matches!(outcome, Err(InvalidResponseError::UnknownStatus { code: 3 })));
}

#[test]
fn response_errors_come_from_lower_level_failures() {
    let io = std::io::Error::from(std::io::ErrorKind::BrokenPipe);
    let e = InvalidResponseError::from(io);
    match &e {
        InvalidResponseError::IOError { source } => {
            assert_eq!(source.kind(), std::io::ErrorKind::BrokenPipe);
        }
        other => panic!("expected an IO error, got {:?}", other),
    }
    assert_eq!(e.message(), "error with underlying IO operation");

    let e = InvalidResponseError::from(EncodingError { rejected: vec![0x90] });
    match &e {
        InvalidResponseError::BadEncoding { source } => assert_eq!(source.rejected, vec![0x90]),
        other => panic!("expected a bad encoding, got {:?}", other),
    }
    assert_eq!(e.message(), "failed loading string due to bad ascii encoding");
    let e = InvalidResponseError::UnknownStatus { code: 3 };
    assert_eq!(e.message(), "status code is not a known one");
}
