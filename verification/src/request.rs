//! Requests and their codec: readiness, decoding and encoding of request frames.

use bytes::BytesMut;
use vstd::prelude::*;

use crate::buffer::{
    buf_get_u32, buf_into_vec, buf_len, buf_put_slice, buf_put_u32, buf_reserve, buf_split_to,
    buf_view, buffered, max_buffered,
};
use crate::error::InvalidRequestError;
use crate::framing::{
    all_ascii, encoded_strings, leading_ascii, lemma_leading_ascii, lemma_leading_ascii_is_first,
    lemma_request_len, lemma_request_round_trip, lemma_strings_end_none, lemma_strings_end_order,
    request_count, request_end, request_fits, request_frame, request_len, request_ready,
    request_strings, string_at, strings_end,
};
use crate::text::TextValue;
use crate::wire::{be_bytes, is_ascii, read_u32_be, WORD};

verus! {

/// A request: text values in an order that matters.
#[derive(Debug, PartialEq, Eq)]
pub struct Request {
    pub strings: Vec<TextValue>,
}

impl View for Request {
    type V = Seq<Seq<u8>>;

    open spec fn view(&self) -> Seq<Seq<u8>> {
        Seq::new(self.strings@.len(), |i: int| self.strings@[i]@)
    }
}

impl Clone for Request {
    fn clone(&self) -> (copy: Self)
        ensures
            copy@ == self@,
    {
        let copy = Request { strings: self.strings.clone() };
        proof {
            assert(copy@ =~= self@);
        }
        copy
    }
}

impl Request {
    /// Whether the request can be framed: the number of strings and the
    /// length of each must fit the 32 bits they have on the wire.
    pub fn fits_frame(&self) -> (r: bool)
        ensures
            r == request_fits(self@),
    {
        let count = self.strings.len();
        if count > u32::MAX as usize {
            return false;
        }
        let mut i: usize = 0;
        while i < count
            invariant
                i <= count,
                count == self.strings@.len(),
                forall|j: int| 0 <= j < i ==> (#[trigger] self@[j]).len() <= u32::MAX,
            decreases count - i,
        {
            if self.strings[i].len() > u32::MAX as usize {
                assert(self@[i as int].len() > u32::MAX);
                return false;
            }
            i = i + 1;
        }
        true
    }

    /// The length of the request's frame in bytes, unless it is beyond `usize`.
    pub fn frame_len(&self) -> (r: Option<usize>)
        ensures
            match r {
                Some(n) => n == request_len(self@),
                None => request_len(self@) > usize::MAX,
            },
    {
        let count = self.strings.len();
        let mut total: usize = WORD;
        let mut i: usize = 0;
        proof {
            assert(self@.take(0) =~= Seq::<Seq<u8>>::empty());
        }
        while i < count
            invariant
                i <= count,
                count == self.strings@.len(),
                total == request_len(self@.take(i as int)),
            decreases count - i,
        {
            proof {
                lemma_request_len(self@);
                assert(self@.take(i + 1).drop_last() =~= self@.take(i as int));
                assert(request_len(self@.take(i + 1)) == total + 4 + self@[i as int].len());
            }
            let with_length = match total.checked_add(WORD) {
                Some(n) => n,
                None => {
                    return None;
                },
            };
            total = match with_length.checked_add(self.strings[i].len()) {
                Some(n) => n,
                None => {
                    return None;
                },
            };
            i = i + 1;
        }
        proof {
            assert(self@.take(count as int) =~= self@);
        }
        Some(total)
    }
}

/// What taking one request frame off a buffer does: `before` starts with a
/// whole frame; `outcome` is the request it holds and `after` what follows
/// the frame, or, where a string of the frame is no text, the error with the
/// bytes of the first such string, and `after` what follows that string.
pub open spec fn request_taken(
    before: Seq<u8>,
    outcome: Result<Request, InvalidRequestError>,
    after: Seq<u8>,
) -> bool {
    let strings = request_strings(before);
    let bad = leading_ascii(strings);
    match outcome {
        Ok(request) => {
            &&& all_ascii(strings)
            &&& request@ == strings
            &&& after == before.skip(request_end(before).unwrap())
        },
        Err(InvalidRequestError::BadEncoding { source }) => {
            &&& !all_ascii(strings)
            &&& bad < strings.len()
            &&& source.rejected@ == strings[bad as int]
            &&& after == before.skip(strings_end(before, 4, bad + 1).unwrap())
        },
        Err(InvalidRequestError::IOError { .. }) => false,
    }
}

/// What one step of decoding does: `None` and an untouched buffer exactly
/// while no whole frame stands at the head of `before`; otherwise the frame
/// is taken as `request_taken` says.
pub open spec fn request_decoded(
    before: Seq<u8>,
    outcome: Result<Option<Request>, InvalidRequestError>,
    after: Seq<u8>,
) -> bool {
    match outcome {
        Ok(None) => !request_ready(before) && after == before,
        Ok(Some(request)) => request_ready(before) && request_taken(before, Ok(request), after),
        Err(e) => request_ready(before) && request_taken(before, Err(e), after),
    }
}

/// Decoding what was encoded gives the request back: from a buffer that
/// starts with the frame of `strings`, a step of decoding returns a request
/// that holds `strings`, neither `None` nor an error, and leaves exactly what
/// stood behind the frame. This holds for a request without strings too.
pub proof fn lemma_decode_after_encode(
    strings: Seq<Seq<u8>>,
    behind: Seq<u8>,
    outcome: Result<Option<Request>, InvalidRequestError>,
    after: Seq<u8>,
)
    requires
        request_fits(strings),
        all_ascii(strings),
        request_decoded(request_frame(strings) + behind, outcome, after),
    ensures
        outcome matches Ok(Some(request)) && request@ == strings,
        after == behind,
{
    let before = request_frame(strings) + behind;
    lemma_request_round_trip(strings, behind);
    lemma_request_len(strings);
    lemma_leading_ascii(strings);
    assert(before.skip(request_len(strings) as int) =~= behind);
}

/// Two frames in one buffer are decoded one after the other: the first step
/// returns the first request and leaves the second frame at the head, the
/// second step returns the second request and leaves what stood behind both.
pub proof fn lemma_decode_twice(
    first: Seq<Seq<u8>>,
    second: Seq<Seq<u8>>,
    behind: Seq<u8>,
    outcome1: Result<Option<Request>, InvalidRequestError>,
    between: Seq<u8>,
    outcome2: Result<Option<Request>, InvalidRequestError>,
    after: Seq<u8>,
)
    requires
        request_fits(first),
        all_ascii(first),
        request_fits(second),
        all_ascii(second),
        request_decoded(request_frame(first) + request_frame(second) + behind, outcome1, between),
        request_decoded(between, outcome2, after),
    ensures
        outcome1 matches Ok(Some(request)) && request@ == first,
        between == request_frame(second) + behind,
        outcome2 matches Ok(Some(request)) && request@ == second,
        after == behind,
{
    assert(request_frame(first) + request_frame(second) + behind =~= request_frame(first) + (
        request_frame(second) + behind));
    lemma_decode_after_encode(first, request_frame(second) + behind, outcome1, between);
    lemma_decode_after_encode(second, behind, outcome2, after);
}

/// A frame with a string that is no text never comes out as a request: once
/// the frame is all there, decoding reports the bad encoding, with the bytes
/// of the first such string unchanged.
pub proof fn lemma_bad_string_is_reported(
    before: Seq<u8>,
    outcome: Result<Option<Request>, InvalidRequestError>,
    after: Seq<u8>,
)
    requires
        request_ready(before),
        !all_ascii(request_strings(before)),
        request_decoded(before, outcome, after),
    ensures
        outcome matches Err(InvalidRequestError::BadEncoding { source }) && !is_ascii(
            source.rejected@,
        ),
{
    lemma_leading_ascii(request_strings(before));
}

/// Reads and writes request frames. It keeps nothing between calls.
#[derive(Debug, Default, Clone, Copy, PartialEq, Eq)]
pub struct RequestCodec {}

impl RequestCodec {
    /// Says whether `view` starts with a whole request frame. Bytes behind
    /// the frame do not matter, and `view` is only looked at.
    pub fn ready(view: &[u8]) -> (r: bool)
        ensures
            r == request_ready(view@),
    {
        let total = view.len();
        if total < WORD {
            return false;
        }
        let count = read_u32_be(view, 0);
        let mut pos: usize = WORD;
        let mut seen: u32 = 0;
        while seen < count
            invariant
                total == view@.len(),
                4 <= pos <= total,
                seen <= count,
                count == request_count(view@),
                strings_end(view@, 4, seen as nat) == Some(pos as int),
            decreases count - seen,
        {
            if total - pos < WORD {
                proof {
                    lemma_strings_end_none(view@, 4, (seen + 1) as nat, count as nat);
                }
                return false;
            }
            let len = read_u32_be(view, pos) as usize;
            pos = pos + WORD;
            if total - pos < len {
                proof {
                    lemma_strings_end_none(view@, 4, (seen + 1) as nat, count as nat);
                }
                return false;
            }
            pos = pos + len;
            seen = seen + 1;
        }
        true
    }

    /// Takes the frame at the head of `src` out of it and returns its
    /// request. Stops at the first string that is no text: that string and
    /// what stood before it are then gone from `src`.
    pub fn read_frame(src: &mut BytesMut) -> (r: Result<Request, InvalidRequestError>)
        requires
            request_ready(buffered(*old(src))),
        ensures
            request_taken(buffered(*old(src)), r, buffered(*final(src))),
    {
        let ghost whole = buffered(*src);
        let count = buf_get_u32(src);
        let mut strings: Vec<TextValue> = Vec::new();
        let mut seen: u32 = 0;
        proof {
            assert(whole.take(4) =~= whole.subrange(0, 4));
        }
        while seen < count
            invariant
                whole == buffered(*old(src)),
                request_ready(whole),
                count == request_count(whole),
                seen <= count,
                strings_end(whole, 4, seen as nat) is Some,
                buffered(*src) == whole.skip(strings_end(whole, 4, seen as nat).unwrap()),
                strings@.len() == seen,
                forall|i: int|
                    0 <= i < seen ==> (#[trigger] strings@[i])@ == string_at(whole, 4, i as nat),
                forall|i: int| 0 <= i < seen ==> is_ascii(#[trigger] string_at(whole, 4, i as nat)),
            decreases count - seen,
        {
            let ghost pos = strings_end(whole, 4, seen as nat).unwrap();
            let ghost rest = buffered(*src);
            proof {
                lemma_strings_end_order(whole, 4, seen as nat, count as nat);
                lemma_strings_end_order(whole, 4, (seen + 1) as nat, count as nat);
                assert(rest.take(4) =~= whole.subrange(pos, pos + 4));
            }
            let len = buf_get_u32(src);
            let chunk = buf_split_to(src, len as usize);
            let raw = buf_into_vec(chunk);
            proof {
                assert(raw@ =~= string_at(whole, 4, seen as nat));
                assert(buffered(*src) =~= whole.skip(
                    strings_end(whole, 4, (seen + 1) as nat).unwrap(),
                ));
            }
            match TextValue::from_bytes(raw) {
                Ok(text) => {
                    strings.push(text);
                },
                Err(source) => {
                    proof {
                        let all = request_strings(whole);
                        assert(all[seen as int] == string_at(whole, 4, seen as nat));
                        assert(all_ascii(all.take(seen as int)));
                        lemma_leading_ascii_is_first(all, seen as int);
                    }
                    return Err(InvalidRequestError::BadEncoding { source });
                },
            }
            seen = seen + 1;
        }
        let request = Request { strings };
        proof {
            assert(request@ =~= request_strings(whole));
        }
        Ok(request)
    }

    /// One step of decoding: while the frame at the head of `src` is not all
    /// there, nothing is taken and `None` comes back; once it is, the frame
    /// is taken out as `read_frame` does.
    pub fn decode(&mut self, src: &mut BytesMut) -> (r: Result<
        Option<Request>,
        InvalidRequestError,
    >)
        ensures
            request_decoded(buffered(*old(src)), r, buffered(*final(src))),
    {
        if !Self::ready(buf_view(src)) {
            return Ok(None);
        }
        match Self::read_frame(src) {
            Ok(request) => Ok(Some(request)),
            Err(e) => Err(e),
        }
    }

    /// Appends the frame of `item` to `dst`, and nothing else. The count and
    /// the lengths must fit their 32 bits, and the frame must fit behind what
    /// `dst` already holds; `try_encode` tests both.
    pub fn encode(&mut self, item: Request, dst: &mut BytesMut) -> (r: Result<(), std::io::Error>)
        requires
            request_fits(item@),
            buffered(*old(dst)).len() + request_len(item@) <= max_buffered(),
        ensures
            r is Ok,
            buffered(*final(dst)) == buffered(*old(dst)) + request_frame(item@),
    {
        let ghost held = buffered(*dst);
        if let Some(len) = item.frame_len() {
            buf_reserve(dst, len);
        }
        let count = item.strings.len();
        buf_put_u32(dst, count as u32);
        let mut i: usize = 0;
        proof {
            assert(item@.take(0) =~= Seq::<Seq<u8>>::empty());
            assert(buffered(*dst) =~= held + be_bytes(count as u32) + encoded_strings(
                item@.take(0),
            ));
        }
        while i < count
            invariant
                i <= count,
                count == item.strings@.len(),
                request_fits(item@),
                held.len() + request_len(item@) <= max_buffered(),
                buffered(*dst) == held + be_bytes(count as u32) + encoded_strings(
                    item@.take(i as int),
                ),
            decreases count - i,
        {
            let text = &item.strings[i];
            proof {
                lemma_request_len(item@);
                lemma_request_len(item@.take(i as int));
                lemma_request_len(item@.take(i + 1));
                assert(item@.take(i + 1).drop_last() =~= item@.take(i as int));
                assert(item@.take(i + 1).last() == text@);
            }
            buf_put_u32(dst, text.len() as u32);
            buf_put_slice(dst, text.as_bytes());
            proof {
                assert(buffered(*dst) =~= held + be_bytes(count as u32) + encoded_strings(
                    item@.take(i + 1),
                ));
            }
            i = i + 1;
        }
        proof {
            assert(item@.take(count as int) =~= item@);
        }
        Ok(())
    }

    /// Appends the frame of `item` to `dst` if it can be framed and fits
    /// there; otherwise hands `item` back and leaves `dst` as it was.
    pub fn try_encode(&mut self, item: Request, dst: &mut BytesMut) -> (r: Result<(), Request>)
        ensures
            match r {
                Ok(()) => {
                    &&& request_fits(item@)
                    &&& buffered(*old(dst)).len() + request_len(item@) <= max_buffered()
                    &&& buffered(*final(dst)) == buffered(*old(dst)) + request_frame(item@)
                },
                Err(back) => {
                    &&& !(request_fits(item@) && buffered(*old(dst)).len() + request_len(item@)
                        <= max_buffered())
                    &&& back == item
                    &&& buffered(*final(dst)) == buffered(*old(dst))
                },
            },
    {
        if !item.fits_frame() {
            return Err(item);
        }
        let len = match item.frame_len() {
            Some(n) => n,
            None => {
                return Err(item);
            },
        };
        let held = buf_len(dst);
        let limit = isize::MAX as usize;
        if held > limit || len > limit - held {
            return Err(item);
        }
        let _ = self.encode(item, dst);
        Ok(())
    }
}

} // verus!
