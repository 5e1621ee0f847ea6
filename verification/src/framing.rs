//! The two frames as mathematics: what a frame is, when a buffer starts with
//! one, and what it holds.
//!
//! A request frame is the number of strings as a big-endian `u32`, then each
//! string as its length, again a big-endian `u32`, followed by its bytes.
//! A response frame is the status code, then the length of the payload, both
//! as big-endian `u32`, followed by the payload.

use vstd::prelude::*;

use crate::wire::{be_bytes, be_u32_at, is_ascii, lemma_be_bytes_value, lemma_be_u32_bytes};

verus! {

/// The count and every length can be written as a `u32`.
pub open spec fn request_fits(strings: Seq<Seq<u8>>) -> bool {
    &&& strings.len() <= u32::MAX
    &&& forall|i: int| 0 <= i < strings.len() ==> (#[trigger] strings[i]).len() <= u32::MAX
}

/// Every string is made of 7-bit characters.
pub open spec fn all_ascii(strings: Seq<Seq<u8>>) -> bool {
    forall|i: int| 0 <= i < strings.len() ==> is_ascii(#[trigger] strings[i])
}

/// One string on the wire: its length, then its bytes.
pub open spec fn encoded_string(s: Seq<u8>) -> Seq<u8> {
    be_bytes(s.len() as u32) + s
}

/// The strings on the wire, one after the other.
pub open spec fn encoded_strings(strings: Seq<Seq<u8>>) -> Seq<u8>
    decreases strings.len(),
{
    if strings.len() == 0 {
        Seq::empty()
    } else {
        encoded_strings(strings.drop_last()) + encoded_string(strings.last())
    }
}

/// The frame of a request that holds `strings`.
pub open spec fn request_frame(strings: Seq<Seq<u8>>) -> Seq<u8> {
    be_bytes(strings.len() as u32) + encoded_strings(strings)
}

/// The length of that frame: four bytes for the count and, for each string,
/// four bytes for its length and then its bytes.
pub open spec fn request_len(strings: Seq<Seq<u8>>) -> nat
    decreases strings.len(),
{
    if strings.len() == 0 {
        4
    } else {
        request_len(strings.drop_last()) + 4 + strings.last().len()
    }
}

/// Where the `count`-th string that follows offset `start` ends in `buf`, or
/// `None` if `buf` stops before that.
pub open spec fn strings_end(buf: Seq<u8>, start: int, count: nat) -> Option<int>
    decreases count,
{
    if count == 0 {
        Some(start)
    } else {
        match strings_end(buf, start, (count - 1) as nat) {
            None => None,
            Some(pos) => {
                if buf.len() - pos < 4 {
                    None
                } else if buf.len() - (pos + 4) < be_u32_at(buf, pos) {
                    None
                } else {
                    Some(pos + 4 + be_u32_at(buf, pos))
                }
            },
        }
    }
}

/// The `index`-th string that follows offset `start`, counted from zero.
pub open spec fn string_at(buf: Seq<u8>, start: int, index: nat) -> Seq<u8> {
    let pos = strings_end(buf, start, index).unwrap();
    buf.subrange(pos + 4, pos + 4 + be_u32_at(buf, pos))
}

/// The first `count` strings that follow offset `start`.
pub open spec fn strings_at(buf: Seq<u8>, start: int, count: nat) -> Seq<Seq<u8>> {
    Seq::new(count, |i: int| string_at(buf, start, i as nat))
}

/// The number of strings that the frame at the head of `buf` declares.
pub open spec fn request_count(buf: Seq<u8>) -> nat {
    be_u32_at(buf, 0)
}

/// The length of the frame at the head of `buf`, or `None` while the frame is
/// not all there.
pub open spec fn request_end(buf: Seq<u8>) -> Option<int> {
    if buf.len() < 4 {
        None
    } else {
        strings_end(buf, 4, request_count(buf))
    }
}

/// A whole frame stands at the head of `buf`.
pub open spec fn request_ready(buf: Seq<u8>) -> bool {
    request_end(buf) is Some
}

/// The strings of the frame at the head of `buf`.
pub open spec fn request_strings(buf: Seq<u8>) -> Seq<Seq<u8>> {
    strings_at(buf, 4, request_count(buf))
}

/// How many strings at the front are text. This is the index of the first
/// string with a byte of 128 or above, and the number of strings if there is
/// no such string.
pub open spec fn leading_ascii(strings: Seq<Seq<u8>>) -> nat
    decreases strings.len(),
{
    if strings.len() == 0 || !is_ascii(strings.first()) {
        0
    } else {
        1 + leading_ascii(strings.drop_first())
    }
}

/// `request_len` is the length of the frame, and grows with every string added.
pub proof fn lemma_request_len(strings: Seq<Seq<u8>>)
    ensures
        request_frame(strings).len() == request_len(strings),
        encoded_strings(strings).len() + 4 == request_len(strings),
        forall|k: int|
            0 <= k <= strings.len() ==> #[trigger] request_len(strings.take(k)) <= request_len(
                strings,
            ),
    decreases strings.len(),
{
    if strings.len() > 0 {
        let init = strings.drop_last();
        lemma_request_len(init);
        assert forall|k: int| 0 <= k <= strings.len() implies #[trigger] request_len(
            strings.take(k),
        ) <= request_len(strings) by {
            if k < strings.len() {
                assert(strings.take(k) =~= init.take(k));
            } else {
                assert(strings.take(k) =~= strings);
            }
        }
    } else {
        assert forall|k: int| 0 <= k <= strings.len() implies #[trigger] request_len(
            strings.take(k),
        ) <= request_len(strings) by {
            assert(strings.take(k) =~= strings);
        }
    }
}

/// Once the buffer has stopped short of a string, it stops short of every later one.
pub proof fn lemma_strings_end_none(buf: Seq<u8>, start: int, short: nat, count: nat)
    requires
        short <= count,
        strings_end(buf, start, short) is None,
    ensures
        strings_end(buf, start, count) is None,
    decreases count,
{
    if short < count {
        lemma_strings_end_none(buf, start, short, (count - 1) as nat);
    }
}

/// The strings lie one behind the other between `start` and the end of the buffer.
pub proof fn lemma_strings_end_order(buf: Seq<u8>, start: int, fewer: nat, count: nat)
    requires
        0 <= start <= buf.len(),
        fewer <= count,
        strings_end(buf, start, count) is Some,
    ensures
        strings_end(buf, start, fewer) is Some,
        start <= strings_end(buf, start, fewer).unwrap() <= strings_end(buf, start, count).unwrap()
            <= buf.len(),
    decreases count,
{
    if count > 0 {
        if fewer < count {
            lemma_strings_end_order(buf, start, fewer, (count - 1) as nat);
        } else {
            lemma_strings_end_order(buf, start, (count - 1) as nat, (count - 1) as nat);
        }
    }
}

/// What is read from a buffer depends only on the bytes up to where the
/// reading ends: another buffer with the same bytes there reads the same.
pub proof fn lemma_strings_same_bytes(a: Seq<u8>, b: Seq<u8>, start: int, count: nat)
    requires
        0 <= start <= a.len(),
        strings_end(a, start, count) is Some,
        strings_end(a, start, count).unwrap() <= b.len(),
        a.take(strings_end(a, start, count).unwrap()) == b.take(
            strings_end(a, start, count).unwrap(),
        ),
    ensures
        strings_end(b, start, count) == strings_end(a, start, count),
        strings_at(b, start, count) == strings_at(a, start, count),
    decreases count,
{
    let end = strings_end(a, start, count).unwrap();
    lemma_strings_end_order(a, start, count, count);
    if count > 0 {
        let less = (count - 1) as nat;
        lemma_strings_end_order(a, start, less, count);
        let pos = strings_end(a, start, less).unwrap();
        assert(a.take(pos) =~= a.take(end).take(pos));
        assert(b.take(pos) =~= b.take(end).take(pos));
        lemma_strings_same_bytes(a, b, start, less);
        assert(a.subrange(pos, pos + 4) =~= a.take(end).subrange(pos, pos + 4));
        assert(b.subrange(pos, pos + 4) =~= b.take(end).subrange(pos, pos + 4));
        let len = be_u32_at(a, pos);
        assert(a.subrange(pos + 4, pos + 4 + len) =~= a.take(end).subrange(pos + 4, pos + 4 + len));
        assert(b.subrange(pos + 4, pos + 4 + len) =~= b.take(end).subrange(pos + 4, pos + 4 + len));
        assert(string_at(b, start, less) == string_at(a, start, less));
        assert forall|i: int| 0 <= i < count implies #[trigger] strings_at(b, start, count)[i]
            == strings_at(a, start, count)[i] by {
            if i < less {
                assert(strings_at(b, start, less)[i] == strings_at(a, start, less)[i]);
            }
        }
    }
    assert(strings_at(b, start, count) =~= strings_at(a, start, count));
}

/// Reading back what was written: after any `before`, the encoded `strings`
/// are read as themselves and up to their last byte, whatever follows.
pub proof fn lemma_strings_round_trip(before: Seq<u8>, strings: Seq<Seq<u8>>, after: Seq<u8>)
    requires
        request_fits(strings),
    ensures
        strings_end(before + encoded_strings(strings) + after, before.len() as int, strings.len())
            == Some((before.len() + encoded_strings(strings).len()) as int),
        strings_at(before + encoded_strings(strings) + after, before.len() as int, strings.len())
            == strings,
    decreases strings.len(),
{
    let buf = before + encoded_strings(strings) + after;
    let start = before.len() as int;
    if strings.len() > 0 {
        let init = strings.drop_last();
        let last = strings.last();
        let less = init.len();
        assert(buf =~= before + encoded_strings(init) + (encoded_string(last) + after));
        lemma_strings_round_trip(before, init, encoded_string(last) + after);
        let pos = start + encoded_strings(init).len();
        lemma_be_bytes_value(last.len() as u32);
        assert(buf.subrange(pos, pos + 4) =~= be_bytes(last.len() as u32));
        assert(be_u32_at(buf, pos) == last.len());
        assert(buf.subrange(pos + 4, pos + 4 + last.len()) =~= last);
        assert(string_at(buf, start, less) == last);
        assert forall|i: int| 0 <= i < strings.len() implies #[trigger] strings_at(
            buf,
            start,
            strings.len(),
        )[i] == strings[i] by {
            if i < less {
                assert(strings_at(buf, start, less)[i] == init[i]);
            }
        }
    }
    assert(strings_at(buf, start, strings.len()) =~= strings);
}

/// What was read is what stands in the buffer: the bytes between `start` and
/// the end of the reading are the encoding of the strings read, and their
/// lengths fit.
pub proof fn lemma_strings_read_are_encoded(buf: Seq<u8>, start: int, count: nat)
    requires
        0 <= start <= buf.len(),
        strings_end(buf, start, count) is Some,
    ensures
        buf.subrange(start, strings_end(buf, start, count).unwrap()) == encoded_strings(
            strings_at(buf, start, count),
        ),
        forall|i: int|
            0 <= i < count ==> (#[trigger] strings_at(buf, start, count)[i]).len() <= u32::MAX,
    decreases count,
{
    let end = strings_end(buf, start, count).unwrap();
    let strings = strings_at(buf, start, count);
    lemma_strings_end_order(buf, start, count, count);
    if count > 0 {
        let less = (count - 1) as nat;
        lemma_strings_end_order(buf, start, less, count);
        lemma_strings_read_are_encoded(buf, start, less);
        let pos = strings_end(buf, start, less).unwrap();
        let len = be_u32_at(buf, pos);
        lemma_be_u32_bytes(buf.subrange(pos, pos + 4));
        assert(strings.drop_last() =~= strings_at(buf, start, less));
        assert(strings.last() == buf.subrange(pos + 4, pos + 4 + len));
        assert(strings.last().len() == len);
        assert(encoded_string(strings.last()) =~= buf.subrange(pos, end));
        assert(buf.subrange(start, end) =~= buf.subrange(start, pos) + buf.subrange(pos, end));
        assert forall|i: int| 0 <= i < count implies (#[trigger] strings[i]).len()
            <= u32::MAX by {
            if i < less {
                assert(strings[i] == strings_at(buf, start, less)[i]);
            }
        }
    } else {
        assert(buf.subrange(start, end) =~= Seq::<u8>::empty());
    }
}

/// Decoding undoes encoding: a buffer that starts with the frame of
/// `strings` is ready, its frame ends where the encoding ends, and it holds
/// `strings`, whatever follows and also when there are no strings at all.
pub proof fn lemma_request_round_trip(strings: Seq<Seq<u8>>, after: Seq<u8>)
    requires
        request_fits(strings),
    ensures
        request_ready(request_frame(strings) + after),
        request_end(request_frame(strings) + after) == Some(request_len(strings) as int),
        request_strings(request_frame(strings) + after) == strings,
{
    let count = strings.len() as u32;
    let buf = request_frame(strings) + after;
    lemma_request_len(strings);
    lemma_be_bytes_value(count);
    assert(buf.subrange(0, 4) =~= be_bytes(count));
    assert(buf =~= be_bytes(count) + encoded_strings(strings) + after);
    lemma_strings_round_trip(be_bytes(count), strings, after);
}

/// The first bytes of an encoded frame are ready exactly when they are the
/// whole frame: with its end cut off, wherever the cut is, it is not ready.
pub proof fn lemma_request_ready_when_whole(strings: Seq<Seq<u8>>, cut: int)
    requires
        request_fits(strings),
        0 <= cut <= request_len(strings),
    ensures
        request_ready(request_frame(strings).take(cut)) <==> cut == request_len(strings),
{
    let frame = request_frame(strings);
    let part = frame.take(cut);
    lemma_request_len(strings);
    lemma_request_round_trip(strings, Seq::empty());
    assert(frame + Seq::<u8>::empty() =~= frame);
    if cut == request_len(strings) {
        assert(part =~= frame);
    } else if request_ready(part) {
        let count = request_count(part);
        let end = request_end(part).unwrap();
        assert(part.subrange(0, 4) =~= frame.subrange(0, 4));
        lemma_strings_end_order(part, 4, count, count);
        assert(part.take(end) =~= frame.take(end));
        lemma_strings_same_bytes(part, frame, 4, count);
        assert(false);
    }
}

/// A frame that is ready stays as it is when more bytes arrive behind it.
pub proof fn lemma_request_ready_stays(buf: Seq<u8>, more: Seq<u8>)
    requires
        request_ready(buf),
    ensures
        request_end(buf + more) == request_end(buf),
        request_strings(buf + more) == request_strings(buf),
{
    let count = request_count(buf);
    let end = request_end(buf).unwrap();
    let longer = buf + more;
    assert(longer.subrange(0, 4) =~= buf.subrange(0, 4));
    lemma_strings_end_order(buf, 4, count, count);
    assert(buf.take(end) =~= longer.take(end));
    lemma_strings_same_bytes(buf, longer, 4, count);
}

/// Encoding undoes decoding: the bytes of a ready frame are the encoding of
/// the strings that it holds, so nothing but an encoded frame is ever ready.
pub proof fn lemma_request_read_is_encoded(buf: Seq<u8>)
    requires
        request_ready(buf),
    ensures
        request_fits(request_strings(buf)),
        request_end(buf) == Some(request_len(request_strings(buf)) as int),
        request_len(request_strings(buf)) <= buf.len(),
        buf.take(request_len(request_strings(buf)) as int) == request_frame(request_strings(buf)),
{
    let count = request_count(buf);
    let end = request_end(buf).unwrap();
    let strings = request_strings(buf);
    lemma_strings_end_order(buf, 4, count, count);
    lemma_strings_read_are_encoded(buf, 4, count);
    lemma_be_u32_bytes(buf.subrange(0, 4));
    lemma_request_len(strings);
    assert(buf.take(end) =~= buf.subrange(0, 4) + buf.subrange(4, end));
}

/// Two frames in one buffer come out one after the other: the first is read
/// up to its own last byte, and what is left starts with the second.
pub proof fn lemma_requests_back_to_back(
    first: Seq<Seq<u8>>,
    second: Seq<Seq<u8>>,
    after: Seq<u8>,
)
    requires
        request_fits(first),
        request_fits(second),
    ensures
        ({
            let buf = request_frame(first) + request_frame(second) + after;
            let rest = buf.skip(request_len(first) as int);
            &&& request_end(buf) == Some(request_len(first) as int)
            &&& request_strings(buf) == first
            &&& request_end(rest) == Some(request_len(second) as int)
            &&& request_strings(rest) == second
            &&& rest.skip(request_len(second) as int) == after
        }),
{
    let buf = request_frame(first) + request_frame(second) + after;
    let rest = buf.skip(request_len(first) as int);
    lemma_request_len(first);
    lemma_request_len(second);
    assert(buf =~= request_frame(first) + (request_frame(second) + after));
    lemma_request_round_trip(first, request_frame(second) + after);
    assert(rest =~= request_frame(second) + after);
    lemma_request_round_trip(second, after);
    assert(rest.skip(request_len(second) as int) =~= after);
}

/// `leading_ascii` is where the text ends: the strings before it are text,
/// the string at it is not, and it is the number of strings exactly when all
/// of them are text.
pub proof fn lemma_leading_ascii(strings: Seq<Seq<u8>>)
    ensures
        leading_ascii(strings) <= strings.len(),
        all_ascii(strings.take(leading_ascii(strings) as int)),
        leading_ascii(strings) < strings.len() ==> !is_ascii(
            strings[leading_ascii(strings) as int],
        ),
        leading_ascii(strings) == strings.len() <==> all_ascii(strings),
    decreases strings.len(),
{
    let good = leading_ascii(strings);
    if strings.len() > 0 && is_ascii(strings.first()) {
        let rest = strings.drop_first();
        lemma_leading_ascii(rest);
        assert forall|i: int| 0 <= i < good implies is_ascii(
            #[trigger] strings.take(good as int)[i],
        ) by {
            if i > 0 {
                assert(strings[i] == rest.take(good - 1)[i - 1]);
            }
        }
        if good == strings.len() {
            assert(strings.take(good as int) =~= strings);
        }
        if all_ascii(strings) {
            assert forall|i: int| 0 <= i < rest.len() implies is_ascii(#[trigger] rest[i]) by {
                assert(rest[i] == strings[i + 1]);
            }
        }
    } else if strings.len() > 0 && all_ascii(strings) {
        assert(is_ascii(strings[0]));
    }
}

/// No other place has text before it and a string that is no text at it.
pub proof fn lemma_leading_ascii_is_first(strings: Seq<Seq<u8>>, index: int)
    requires
        0 <= index < strings.len(),
        all_ascii(strings.take(index)),
        !is_ascii(strings[index]),
    ensures
        leading_ascii(strings) == index,
{
    let good = leading_ascii(strings) as int;
    lemma_leading_ascii(strings);
    if good < index {
        assert(strings.take(index)[good] == strings[good]);
    } else if good > index {
        assert(strings.take(good)[index] == strings[index]);
    }
}

/// The frame of a response with this status code and payload.
pub open spec fn response_frame(code: u32, data: Seq<u8>) -> Seq<u8> {
    be_bytes(code) + be_bytes(data.len() as u32) + data
}

/// The length of that frame: two integers and the payload.
pub open spec fn response_len(data: Seq<u8>) -> nat {
    8 + data.len()
}

/// A whole response frame stands at the head of `buf`.
pub open spec fn response_ready(buf: Seq<u8>) -> bool {
    buf.len() >= 8 && buf.len() - 8 >= be_u32_at(buf, 4)
}

/// The status code of the frame at the head of `buf`.
pub open spec fn response_code(buf: Seq<u8>) -> nat {
    be_u32_at(buf, 0)
}

/// The length of the frame at the head of `buf`.
pub open spec fn response_end(buf: Seq<u8>) -> int {
    (8 + be_u32_at(buf, 4)) as int
}

/// The payload of the frame at the head of `buf`.
pub open spec fn response_data(buf: Seq<u8>) -> Seq<u8> {
    buf.subrange(8, response_end(buf))
}

/// Decoding undoes encoding: a buffer that starts with the frame of a
/// response is ready and holds that code and payload, and the frame ends
/// where the encoding ends, whatever follows.
pub proof fn lemma_response_round_trip(code: u32, data: Seq<u8>, after: Seq<u8>)
    requires
        data.len() <= u32::MAX,
    ensures
        response_ready(response_frame(code, data) + after),
        response_end(response_frame(code, data) + after) == response_len(data),
        response_code(response_frame(code, data) + after) == code,
        response_data(response_frame(code, data) + after) == data,
        (response_frame(code, data) + after).skip(response_len(data) as int) == after,
{
    let buf = response_frame(code, data) + after;
    lemma_be_bytes_value(code);
    lemma_be_bytes_value(data.len() as u32);
    assert(buf.subrange(0, 4) =~= be_bytes(code));
    assert(buf.subrange(4, 8) =~= be_bytes(data.len() as u32));
    assert(buf.subrange(8, (8 + data.len()) as int) =~= data);
    assert(buf.skip(response_len(data) as int) =~= after);
}

/// The first bytes of an encoded response are ready exactly when they are
/// the whole frame: with its end cut off, wherever the cut is, it is not ready.
pub proof fn lemma_response_ready_when_whole(code: u32, data: Seq<u8>, cut: int)
    requires
        data.len() <= u32::MAX,
        0 <= cut <= response_len(data),
    ensures
        response_ready(response_frame(code, data).take(cut)) <==> cut == response_len(data),
{
    let frame = response_frame(code, data);
    let part = frame.take(cut);
    if cut >= 8 {
        lemma_be_bytes_value(data.len() as u32);
        assert(part.subrange(4, 8) =~= be_bytes(data.len() as u32));
    }
}

/// Encoding undoes decoding: the bytes of a ready frame are the encoding of
/// the code and the payload that it holds.
pub proof fn lemma_response_read_is_encoded(buf: Seq<u8>)
    requires
        response_ready(buf),
    ensures
        response_code(buf) <= u32::MAX,
        response_data(buf).len() <= u32::MAX,
        response_end(buf) == response_len(response_data(buf)),
        buf.take(response_end(buf)) == response_frame(
            response_code(buf) as u32,
            response_data(buf),
        ),
{
    lemma_be_u32_bytes(buf.subrange(0, 4));
    lemma_be_u32_bytes(buf.subrange(4, 8));
    assert(buf.take(response_end(buf)) =~= buf.subrange(0, 4) + buf.subrange(4, 8)
        + response_data(buf));
}

} // verus!
