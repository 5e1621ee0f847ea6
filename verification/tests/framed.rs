//! The request codec behind `tokio_util`'s framed reader and writer.

use bytes::{BufMut, BytesMut};
use futures::executor::block_on;
use futures::{SinkExt, StreamExt};
use tokio_util::codec::{Decoder, Encoder, FramedRead, FramedWrite};
use truskawka_lib::error::InvalidRequestError;
use truskawka_lib::request::{Request, RequestCodec};
use truskawka_lib::text::TextValue;

struct Framing(RequestCodec);

impl Decoder for Framing {
    type Item = Request;
    type Error = InvalidRequestError;

    fn decode(&mut self, src: &mut BytesMut) -> Result<Option<Request>, InvalidRequestError> {
        self.0.decode(src)
    }
}

impl Encoder<Request> for Framing {
    type Error = std::io::Error;

    fn encode(&mut self, item: Request, dst: &mut BytesMut) -> Result<(), std::io::Error> {
        match self.0.try_encode(item, dst) {
            Ok(()) => Ok(()),
            Err(_) => Err(std::io::Error::from(std::io::ErrorKind::InvalidInput)),
        }
    }
}

fn text(s: &str) -> TextValue {
    TextValue::from_bytes(s.as_bytes().to_vec()).unwrap()
}

fn example_request_bytes() -> BytesMut {
    let strings = [text("xyz"), text("abcd")];
    let mut buffer = BytesMut::with_capacity(4 + 4 + 3 + 4);
    buffer.put_u32(2);
    buffer.put_u32(strings[0].len() as u32);
    buffer.put(strings[0].as_bytes());
    buffer.put_u32(strings[1].len() as u32);
    buffer.put(strings[1].as_bytes());
    buffer
}

#[test]
fn test_decoding_correct_request_frame() {
    let buffer = example_request_bytes();
    let mut stream = FramedRead::new(&buffer[..], Framing(RequestCodec {}));
    let request = block_on(stream.next()).unwrap().unwrap();
    assert_eq!(request.strings.len(), 2);
    assert_eq!(request.strings[0].to_string(), "xyz");
    assert_eq!(request.strings[1].to_string(), "abcd");
}

#[test]
fn test_decoding_request_frame_with_excess_bytes() {
    let mut buffer = example_request_bytes();
    buffer.reserve(3);
    buffer.put([0 as u8; 3].as_slice());
    let mut stream = FramedRead::new(&buffer[..], Framing(RequestCodec {}));
    let request = block_on(stream.next()).unwrap().unwrap();
    assert_eq!(request.strings.len(), 2);
    assert_eq!(request.strings[0].to_string(), "xyz");
    assert_eq!(request.strings[1].to_string(), "abcd");
}

#[test]
fn test_encoding_request_frame() {
    let request = Request { strings: vec![text("xyz"), text("abcd")] };
    let mut sink = FramedWrite::new(Vec::new(), Framing(RequestCodec {}));
    block_on(sink.send(request)).unwrap();
    let serialized = sink.into_inner();
    assert_eq!(&serialized[..], example_request_bytes().as_ref());
}

#[test]
fn framed_reader_yields_each_frame_of_a_stream_in_turn() {
    let mut buffer = example_request_bytes();
    buffer.put_u32(0);
    buffer.put_u32(1);
    buffer.put_u32(2);
    buffer.put(&b"ok"[..]);
    let mut stream = FramedRead::new(&buffer[..], Framing(RequestCodec {}));
    let first = block_on(stream.next()).unwrap().unwrap();
    assert_eq!(first, Request { strings: vec![text("xyz"), text("abcd")] });
    let second = block_on(stream.next()).unwrap().unwrap();
    assert_eq!(second, Request { strings: vec![] });
    let third = block_on(stream.next()).unwrap().unwrap();
    assert_eq!(third, Request { strings: vec![text("ok")] });
    assert!(block_on(stream.next()).is_none());
}

#[test]
fn framed_reader_reports_bad_encoding() {
    let mut buffer = BytesMut::new();
    buffer.put_u32(1);
    buffer.put_u32(2);
    buffer.put(&[b'a', 0x80][..]);
    let mut stream = FramedRead::new(&buffer[..], Framing(RequestCodec {}));
    let outcome = block_on(stream.next()).unwrap();
    match outcome {
        Err(InvalidRequestError::BadEncoding { source }) => {
            assert_eq!(source.rejected, vec![b'a', 0x80]);
        }
        other => panic!("expected a bad encoding, got {:?}", other),
    }
}
