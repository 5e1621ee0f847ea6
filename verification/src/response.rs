//! Responses and their codec: readiness, decoding and encoding of response frames.

use bytes::BytesMut;
use vstd::prelude::*;

use crate::buffer::{
    buf_get_u32, buf_into_vec, buf_len, buf_put_slice, buf_put_u32, buf_reserve, buf_split_to,
    buf_view, buffered, max_buffered,
};
use crate::error::InvalidResponseError;
use crate::framing::{
    lemma_response_round_trip, response_code, response_data, response_end, response_frame,
    response_len, response_ready,
};
use crate::text::TextValue;
use crate::wire::{is_ascii, read_u32_be, WORD};

verus! {

/// How a request went.
#[derive(Debug, Clone, Copy, PartialEq, Eq, Structural)]
pub enum ResponseStatusCode {
    /// The request was carried out.
    Success,
    /// The request failed.
    Failure,
    /// What the request asked for is not there.
    Nx,
}

impl ResponseStatusCode {
    /// The number that stands for the status on the wire.
    pub open spec fn wire_code(self) -> u32 {
        match self {
            ResponseStatusCode::Success => 0,
            ResponseStatusCode::Failure => 1,
            ResponseStatusCode::Nx => 2,
        }
    }

    /// The status that `code` stands for, if any.
    pub open spec fn of_code(code: nat) -> Option<ResponseStatusCode> {
        if code == 0 {
            Some(ResponseStatusCode::Success)
        } else if code == 1 {
            Some(ResponseStatusCode::Failure)
        } else if code == 2 {
            Some(ResponseStatusCode::Nx)
        } else {
            None
        }
    }

    /// The number that stands for the status on the wire.
    pub fn to_wire(self) -> (code: u32)
        ensures
            code == self.wire_code(),
    {
        match self {
            ResponseStatusCode::Success => 0,
            ResponseStatusCode::Failure => 1,
            ResponseStatusCode::Nx => 2,
        }
    }

    /// The status that `code` stands for: 0, 1 and 2 are `Success`, `Failure` and
    /// `Nx`; no other number is a status.
    pub fn from_wire(code: u32) -> (r: Option<ResponseStatusCode>)
        ensures
            r == Self::of_code(code as nat),
    {
        if code == 0 {
            Some(ResponseStatusCode::Success)
        } else if code == 1 {
            Some(ResponseStatusCode::Failure)
        } else if code == 2 {
            Some(ResponseStatusCode::Nx)
        } else {
            None
        }
    }

    /// Every status is found again from its number.
    pub proof fn lemma_status_round_trip(self)
        ensures
            Self::of_code(self.wire_code() as nat) == Some(self),
    {
    }

    /// The numbers of the statuses are 0, 1 and 2 and no others, and each
    /// stands for the status that is written as it.
    pub proof fn lemma_known_codes(code: nat)
        ensures
            Self::of_code(code) is Some <==> code <= 2,
            Self::of_code(code) is Some ==> Self::of_code(code).unwrap().wire_code() == code,
    {
    }
}

/// A response: a status and one text value.
#[derive(Debug, PartialEq, Eq)]
pub struct Response {
    pub status_code: ResponseStatusCode,
    pub data: TextValue,
}

impl View for Response {
    type V = (ResponseStatusCode, Seq<u8>);

    open spec fn view(&self) -> (ResponseStatusCode, Seq<u8>) {
        (self.status_code, self.data@)
    }
}

impl Clone for Response {
    fn clone(&self) -> (copy: Self)
        ensures
            copy@ == self@,
    {
        Response { status_code: self.status_code, data: self.data.clone() }
    }
}

/// What taking one response frame off a buffer does: `before` starts with a
/// whole frame and `after` is what follows it, whatever the outcome. A code
/// that is no status is reported first, then a payload that is no text;
/// otherwise the response comes out.
pub open spec fn response_taken(
    before: Seq<u8>,
    outcome: Result<Response, InvalidResponseError>,
    after: Seq<u8>,
) -> bool {
    let code = response_code(before);
    let data = response_data(before);
    &&& after == before.skip(response_end(before))
    &&& match outcome {
        Ok(response) => {
            &&& ResponseStatusCode::of_code(code) == Some(response.status_code)
            &&& is_ascii(data)
            &&& response.data@ == data
        },
        Err(InvalidResponseError::UnknownStatus { code: found }) => {
            &&& ResponseStatusCode::of_code(code) is None
            &&& found == code
        },
        Err(InvalidResponseError::BadEncoding { source }) => {
            &&& ResponseStatusCode::of_code(code) is Some
            &&& !is_ascii(data)
            &&& source.rejected@ == data
        },
        Err(InvalidResponseError::IOError { .. }) => false,
    }
}

/// What one step of decoding does: `None` and an untouched buffer exactly
/// while no whole frame stands at the head of `before`; otherwise the frame
/// is taken as `response_taken` says.
pub open spec fn response_decoded(
    before: Seq<u8>,
    outcome: Result<Option<Response>, InvalidResponseError>,
    after: Seq<u8>,
) -> bool {
    match outcome {
        Ok(None) => !response_ready(before) && after == before,
        Ok(Some(response)) => response_ready(before) && response_taken(
            before,
            Ok(response),
            after,
        ),
        Err(e) => response_ready(before) && response_taken(before, Err(e), after),
    }
}

/// Decoding what was encoded gives the response back: from a buffer that
/// starts with the frame of a response, a step of decoding returns that
/// status and payload, neither `None` nor an error, and leaves exactly what
/// stood behind the frame.
pub proof fn lemma_response_decode_after_encode(
    status: ResponseStatusCode,
    data: Seq<u8>,
    behind: Seq<u8>,
    outcome: Result<Option<Response>, InvalidResponseError>,
    after: Seq<u8>,
)
    requires
        data.len() <= u32::MAX,
        is_ascii(data),
        response_decoded(response_frame(status.wire_code(), data) + behind, outcome, after),
    ensures
        outcome matches Ok(Some(response)) && response@ == (status, data),
        after == behind,
{
    lemma_response_round_trip(status.wire_code(), data, behind);
    status.lemma_status_round_trip();
}

/// A frame whose code is none of 0, 1 and 2 never comes out as a response:
/// once the frame is all there, decoding reports the unknown status with the
/// code found.
pub proof fn lemma_unknown_status_is_reported(
    before: Seq<u8>,
    outcome: Result<Option<Response>, InvalidResponseError>,
    after: Seq<u8>,
)
    requires
        response_ready(before),
        response_code(before) > 2,
        response_decoded(before, outcome, after),
    ensures
        outcome matches Err(InvalidResponseError::UnknownStatus { code }) && code
            == response_code(before),
{
}

/// A payload that is no text never comes out as a response: once the frame
/// is all there and its status is known, decoding reports the bad encoding
/// with the payload unchanged.
pub proof fn lemma_bad_payload_is_reported(
    before: Seq<u8>,
    outcome: Result<Option<Response>, InvalidResponseError>,
    after: Seq<u8>,
)
    requires
        response_ready(before),
        response_code(before) <= 2,
        !is_ascii(response_data(before)),
        response_decoded(before, outcome, after),
    ensures
        outcome matches Err(InvalidResponseError::BadEncoding { source }) && source.rejected@
            == response_data(before),
{
}

/// Reads and writes response frames. It keeps nothing between calls.
#[derive(Debug, Default, Clone, Copy, PartialEq, Eq)]
pub struct ResponseCodec {}

impl ResponseCodec {
    /// Says whether `view` starts with a whole response frame. Bytes behind
    /// the frame do not matter, and `view` is only looked at.
    pub fn ready(view: &[u8]) -> (r: bool)
        ensures
            r == response_ready(view@),
    {
        let total = view.len();
        if total < 2 * WORD {
            return false;
        }
        let len = read_u32_be(view, WORD) as usize;
        total - 2 * WORD >= len
    }

    /// Takes the frame at the head of `src` out of it, all of it whatever
    /// the outcome, and returns its response.
    pub fn read_frame(src: &mut BytesMut) -> (r: Result<Response, InvalidResponseError>)
        requires
            response_ready(buffered(*old(src))),
        ensures
            response_taken(buffered(*old(src)), r, buffered(*final(src))),
    {
        let ghost whole = buffered(*src);
        proof {
            assert(whole.take(4) =~= whole.subrange(0, 4));
            assert(whole.skip(4).take(4) =~= whole.subrange(4, 8));
        }
        let code = buf_get_u32(src);
        let len = buf_get_u32(src);
        let chunk = buf_split_to(src, len as usize);
        let raw = buf_into_vec(chunk);
        proof {
            assert(raw@ =~= response_data(whole));
            assert(buffered(*src) =~= whole.skip(response_end(whole)));
        }
        let status_code = match ResponseStatusCode::from_wire(code) {
            Some(status) => status,
            None => {
                return Err(InvalidResponseError::UnknownStatus { code });
            },
        };
        match TextValue::from_bytes(raw) {
            Ok(data) => Ok(Response { status_code, data }),
            Err(source) => Err(InvalidResponseError::BadEncoding { source }),
        }
    }

    /// One step of decoding: while the frame at the head of `src` is not all
    /// there, nothing is taken and `None` comes back; once it is, the frame
    /// is taken out as `read_frame` does.
    pub fn decode(&mut self, src: &mut BytesMut) -> (r: Result<
        Option<Response>,
        InvalidResponseError,
    >)
        ensures
            response_decoded(buffered(*old(src)), r, buffered(*final(src))),
    {
        if !Self::ready(buf_view(src)) {
            return Ok(None);
        }
        match Self::read_frame(src) {
            Ok(response) => Ok(Some(response)),
            Err(e) => Err(e),
        }
    }

    /// Appends the frame of `item` to `dst`, and nothing else. The length of
    /// the payload must fit its 32 bits, and the frame must fit behind what
    /// `dst` already holds; `try_encode` tests both.
    pub fn encode(&mut self, item: Response, dst: &mut BytesMut) -> (r: Result<(), std::io::Error>)
        requires
            item.data@.len() <= u32::MAX,
            buffered(*old(dst)).len() + response_len(item.data@) <= max_buffered(),
        ensures
            r is Ok,
            buffered(*final(dst)) == buffered(*old(dst)) + response_frame(
                item.status_code.wire_code(),
                item.data@,
            ),
    {
        let ghost held = buffered(*dst);
        let len = item.data.len();
        buf_reserve(dst, 2 * WORD + len);
        buf_put_u32(dst, item.status_code.to_wire());
        buf_put_u32(dst, len as u32);
        buf_put_slice(dst, item.data.as_bytes());
        proof {
            assert(buffered(*dst) =~= held + response_frame(
                item.status_code.wire_code(),
                item.data@,
            ));
        }
        Ok(())
    }

    /// Appends the frame of `item` to `dst` if it can be framed and fits
    /// there; otherwise hands `item` back and leaves `dst` as it was.
    pub fn try_encode(&mut self, item: Response, dst: &mut BytesMut) -> (r: Result<(), Response>)
        ensures
            match r {
                Ok(()) => {
                    &&& item.data@.len() <= u32::MAX
                    &&& buffered(*old(dst)).len() + response_len(item.data@) <= max_buffered()
                    &&& buffered(*final(dst)) == buffered(*old(dst)) + response_frame(
                        item.status_code.wire_code(),
                        item.data@,
                    )
                },
                Err(back) => {
                    &&& !(item.data@.len() <= u32::MAX && buffered(*old(dst)).len() + response_len(
                        item.data@,
                    ) <= max_buffered())
                    &&& back == item
                    &&& buffered(*final(dst)) == buffered(*old(dst))
                },
            },
    {
        let len = item.data.len();
        let held = buf_len(dst);
        let limit = isize::MAX as usize;
        if len > u32::MAX as usize || held > limit - 2 * WORD || len > limit - 2 * WORD - held {
            return Err(item);
        }
        let _ = self.encode(item, dst);
        Ok(())
    }
}

} // verus!
