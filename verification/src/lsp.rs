//! Talking to a language server: how messages are framed, and which answer belongs to which
//! request.
use vstd::prelude::*;
use std::collections::HashMap;
use crate::file_url::{can_be_address, file_url, utf8_text};
use crate::text::{chars_of, is_space, space};
use crate::text_map::TextSet;

verus! {

broadcast use vstd::std_specs::hash::group_hash_axioms;

/// The version of the protocol that every message names.
pub open spec fn json_rpc_version() -> Seq<char> {
    "2.0"@
}

/// Tells the version of the protocol.
pub fn protocol_version() -> (r: &'static str)
    ensures
        r@ == json_rpc_version(),
{
    "2.0"
}

/// What the header of a message begins with: `Content-Length: `.
pub open spec fn length_label() -> Seq<u8> {
    seq![67, 111, 110, 116, 101, 110, 116, 45, 76, 101, 110, 103, 116, 104, 58, 32]
}

/// What stands between the header and the message.
pub open spec fn header_end() -> Seq<u8> {
    seq![13, 10, 13, 10]
}

/// The decimal notation of a number, in bytes.
pub open spec fn decimal_bytes(n: nat) -> Seq<u8>
    decreases n,
{
    if n < 10 {
        seq![(48 + n) as u8]
    } else {
        decimal_bytes(n / 10).push((48 + n % 10) as u8)
    }
}

/// A message as it is sent: its length, an empty line, and the message.
pub open spec fn framed(message: Seq<u8>) -> Seq<u8> {
    length_label() + decimal_bytes(message.len()) + header_end() + message
}

fn push_decimal(out: &mut Vec<u8>, n: usize)
    ensures
        final(out)@ == old(out)@ + decimal_bytes(n as nat),
    decreases n,
{
    if n >= 10 {
        push_decimal(out, n / 10);
    }
    let ghost before = out@;
    out.push((48 + n % 10) as u8);
    proof {
        if n < 10 {
            assert(out@ =~= old(out)@ + decimal_bytes(n as nat));
        } else {
            assert(out@ =~= old(out)@ + decimal_bytes(n as nat / 10).push((48 + n as nat % 10) as u8));
        }
    }
}

/// Frames a message.
pub fn frame(message: &Vec<u8>) -> (r: Vec<u8>)
    ensures
        r@ == framed(message@),
{
    let mut r: Vec<u8> = vec![67, 111, 110, 116, 101, 110, 116, 45, 76, 101, 110, 103, 116, 104, 58, 32];
    assert(r@ =~= length_label());
    push_decimal(&mut r, message.len());
    let ghost head = r@;
    r.push(13);
    r.push(10);
    r.push(13);
    r.push(10);
    assert(r@ =~= head + header_end());
    let mut i: usize = 0;
    let ghost before = r@;
    while i < message.len()
        invariant
            i <= message@.len(),
            r@ == before + message@.take(i as int),
        decreases message.len() - i,
    {
        r.push(message[i]);
        i += 1;
        assert(r@ =~= before + message@.take(i as int));
    }
    assert(message@.take(i as int) =~= message@);
    r
}

/// The offset behind the next line feed, or the end of the bytes if there is none.
pub open spec fn line_end(bytes: Seq<u8>, from: int) -> int
    decreases bytes.len() - from,
{
    if from >= bytes.len() {
        bytes.len() as int
    } else if bytes[from] == 10 {
        from + 1
    } else {
        line_end(bytes, from + 1)
    }
}

/// A text without the white space at its end.
pub open spec fn trimmed_end(text: Seq<char>) -> Seq<char>
    decreases text.len(),
{
    if text.len() > 0 && is_space(text.last()) {
        trimmed_end(text.drop_last())
    } else {
        text
    }
}

/// Whether a character is a decimal digit.
pub open spec fn is_digit(c: char) -> bool {
    '0' <= c <= '9'
}

/// The number that digits stand for.
pub open spec fn digits_value(digits: Seq<char>) -> int
    decreases digits.len(),
{
    if digits.len() == 0 {
        0
    } else {
        digits_value(digits.drop_last()) * 10 + (digits.last() as int - '0' as int)
    }
}

/// Whether all characters are decimal digits.
pub open spec fn all_digits(digits: Seq<char>) -> bool {
    forall|i: int| 0 <= i < digits.len() ==> is_digit(#[trigger] digits[i])
}

/// The number that digits stand for, if there are any and the number can be counted.
pub open spec fn digits_number(digits: Seq<char>) -> Option<usize> {
    if digits.len() > 0 && all_digits(digits) && digits_value(digits) <= usize::MAX {
        Some(digits_value(digits) as usize)
    } else {
        None
    }
}

/// The number that a text is the notation of: digits, with a plus sign in front of them or none.
pub open spec fn number_of(text: Seq<char>) -> Option<usize> {
    if text.len() > 0 && text[0] == '+' {
        digits_number(text.skip(1))
    } else {
        digits_number(text)
    }
}

/// The length that a header tells, or why it tells none.
pub open spec fn header_length(header: Seq<u8>) -> Result<usize, HeaderError> {
    if !vstd::utf8::valid_utf8(header) {
        Err(HeaderError::NotText)
    } else {
        let text = vstd::utf8::decode_utf8(header);
        let label = "Content-Length: "@;
        if !label.is_prefix_of(text) {
            Err(HeaderError::InvalidHeader)
        } else {
            match number_of(trimmed_end(text.skip(label.len() as int))) {
                Some(n) => Ok(n),
                None => Err(HeaderError::InvalidLength),
            }
        }
    }
}

/// What is wrong with a header.
#[derive(Clone, Copy, Debug, PartialEq, Eq, Structural)]
pub enum HeaderError {
    NotText,
    InvalidHeader,
    InvalidLength,
}

proof fn lemma_digits_grow(digits: Seq<char>, k: int)
    requires
        0 <= k <= digits.len(),
        all_digits(digits),
    ensures
        0 <= digits_value(digits.take(k)) <= digits_value(digits),
    decreases digits.len(),
{
    if k == digits.len() {
        assert(digits.take(k) =~= digits);
        if k > 0 {
            let rest = digits.drop_last();
            assert forall|i: int| 0 <= i < rest.len() implies is_digit(#[trigger] rest[i]) by {
                assert(is_digit(digits[i]));
            }
            lemma_digits_grow(rest, rest.len() as int);
            assert(rest.take(rest.len() as int) =~= rest);
            assert(is_digit(digits[k - 1]));
        }
    } else {
        let rest = digits.drop_last();
        assert forall|i: int| 0 <= i < rest.len() implies is_digit(#[trigger] rest[i]) by {
            assert(is_digit(digits[i]));
        }
        lemma_digits_grow(rest, k);
        assert(rest.take(k) =~= digits.take(k));
        assert(is_digit(digits[digits.len() - 1]));
    }
}

fn parse_number(text: &Vec<char>, from: usize, to: usize) -> (r: Option<usize>)
    requires
        from <= to <= text@.len(),
    ensures
        r == number_of(text@.subrange(from as int, to as int)),
{
    let ghost all = text@.subrange(from as int, to as int);
    let start: usize = if from < to && text[from] == '+' { from + 1 } else { from };
    let ghost digits = text@.subrange(start as int, to as int);
    proof {
        if start > from {
            assert(all.skip(1) =~= digits);
        } else {
            assert(all =~= digits);
        }
    }
    if start == to {
        return None;
    }
    let mut n: usize = 0;
    let mut i: usize = start;
    assert(digits.take(0) =~= Seq::empty());
    while i < to
        invariant
            start <= i <= to <= text@.len(),
            digits == text@.subrange(start as int, to as int),
            start < to,
            all == text@.subrange(from as int, to as int),
            number_of(all) == digits_number(digits),
            all_digits(digits.take(i - start)),
            n == digits_value(digits.take(i - start)),
        decreases to - i,
    {
        let c: char = text[i];
        assert(c == digits[i - start]);
        if c < '0' || c > '9' {
            assert(!is_digit(digits[i - start]));
            return None;
        }
        let d: usize = (c as u32 - '0' as u32) as usize;
        proof {
            let next = digits.take(i + 1 - start);
            assert(next.drop_last() =~= digits.take(i - start));
            assert forall|k: int| 0 <= k < next.len() implies is_digit(#[trigger] next[k]) by {
                if k < i - start {
                    assert(is_digit(digits.take(i - start)[k]));
                }
            }
        }
        if n > (usize::MAX - d) / 10 {
            proof {
                assert(digits_value(digits.take(i + 1 - start)) > usize::MAX);
                if all_digits(digits) {
                    lemma_digits_grow(digits, i + 1 - start);
                }
            }
            return None;
        }
        n = n * 10 + d;
        i += 1;
    }
    assert(digits.take(to - start) =~= digits);
    Some(n)
}

fn trim_end(text: &Vec<char>, from: usize) -> (end: usize)
    requires
        from <= text@.len(),
    ensures
        from <= end <= text@.len(),
        text@.subrange(from as int, end as int) == trimmed_end(text@.skip(from as int)),
{
    let mut end: usize = text.len();
    assert(text@.subrange(from as int, end as int) =~= text@.skip(from as int));
    while end > from && space(text[end - 1])
        invariant
            from <= end <= text@.len(),
            trimmed_end(text@.skip(from as int)) == trimmed_end(
                text@.subrange(from as int, end as int),
            ),
        decreases end,
    {
        assert(text@.subrange(from as int, end as int).drop_last() =~= text@.subrange(
            from as int,
            end - 1,
        ));
        end -= 1;
    }
    end
}

/// Reads the length of a message from its header.
pub fn parse_header(header: Vec<u8>) -> (r: Result<usize, HeaderError>)
    ensures
        r == header_length(header@),
{
    match utf8_text(header) {
        None => Err(HeaderError::NotText),
        Some(text) => {
            let chars: Vec<char> = chars_of(text.as_str());
            let label: Vec<char> = chars_of("Content-Length: ");
            if chars.len() < label.len() {
                return Err(HeaderError::InvalidHeader);
            }
            let mut i: usize = 0;
            while i < label.len()
                invariant
                    i <= label@.len() <= chars@.len(),
                    label@ == "Content-Length: "@,
                    chars@ == text@,
                    header_length(header@) == (if !label@.is_prefix_of(chars@) {
                        Err(HeaderError::InvalidHeader)
                    } else {
                        match number_of(trimmed_end(chars@.skip(label@.len() as int))) {
                            Some(n) => Ok(n),
                            None => Err(HeaderError::InvalidLength),
                        }
                    }),
                    forall|k: int| 0 <= k < i ==> label@[k] == #[trigger] chars@[k],
                decreases label.len() - i,
            {
                if chars[i] != label[i] {
                    proof {
                        if label@.is_prefix_of(chars@) {
                            assert(chars@.subrange(0, label@.len() as int)[i as int] == label@[i as int]);
                        }
                    }
                    return Err(HeaderError::InvalidHeader);
                }
                i += 1;
            }
            assert(label@ =~= chars@.subrange(0, label@.len() as int));
            let end: usize = trim_end(&chars, label.len());
            match parse_number(&chars, label.len(), end) {
                Some(n) => Ok(n),
                None => Err(HeaderError::InvalidLength),
            }
        },
    }
}

fn find_line_end(bytes: &Vec<u8>, from: usize) -> (r: usize)
    requires
        from <= bytes@.len(),
    ensures
        r == line_end(bytes@, from as int),
        from <= r <= bytes@.len(),
{
    let mut i: usize = from;
    while i < bytes.len()
        invariant
            from <= i <= bytes@.len(),
            line_end(bytes@, from as int) == line_end(bytes@, i as int),
        decreases bytes.len() - i,
    {
        if bytes[i] == 10 {
            return i + 1;
        }
        i += 1;
    }
    i
}

/// What stands at an offset of the bytes that a server sent: a message from `start` to `end`, less
/// than a whole message, or something else.
#[derive(Clone, Copy, Debug, PartialEq, Eq, Structural)]
pub enum Frame {
    Message { start: usize, end: usize },
    Incomplete,
    Invalid(HeaderError),
}

/// The frame at an offset.
pub open spec fn frame_at(bytes: Seq<u8>, from: int) -> Frame {
    let first = line_end(bytes, from);
    let second = line_end(bytes, first);
    if second == first || bytes[second - 1] != 10 {
        Frame::Incomplete
    } else {
        match header_length(bytes.subrange(from, second)) {
            Err(e) => Frame::Invalid(e),
            Ok(len) => if second + len <= bytes.len() {
                Frame::Message { start: second as usize, end: (second + len) as usize }
            } else {
                Frame::Incomplete
            },
        }
    }
}

/// Finds the frame at an offset.
pub fn read_frame(bytes: &Vec<u8>, from: usize) -> (r: Frame)
    requires
        from <= bytes@.len(),
    ensures
        r == frame_at(bytes@, from as int),
{
    let first: usize = find_line_end(bytes, from);
    let second: usize = find_line_end(bytes, first);
    if second == first || bytes[second - 1] != 10 {
        return Frame::Incomplete;
    }
    let header: Vec<u8> = crate::block_chunks::piece_of(bytes, from, second);
    match parse_header(header) {
        Err(e) => Frame::Invalid(e),
        Ok(len) => if len <= bytes.len() - second {
            Frame::Message { start: second, end: second + len }
        } else {
            Frame::Incomplete
        },
    }
}

/// The last frame of a stream that was closed behind the bytes: what is there of the header counts
/// as the whole of it.
pub open spec fn last_frame_at(bytes: Seq<u8>, from: int) -> Frame {
    let second = line_end(bytes, line_end(bytes, from));
    match header_length(bytes.subrange(from, second)) {
        Err(e) => Frame::Invalid(e),
        Ok(len) => if second + len <= bytes.len() {
            Frame::Message { start: second as usize, end: (second + len) as usize }
        } else {
            Frame::Incomplete
        },
    }
}

/// Finds the frame at an offset of a stream that was closed behind the bytes.
pub fn read_last_frame(bytes: &Vec<u8>, from: usize) -> (r: Frame)
    requires
        from <= bytes@.len(),
    ensures
        r == last_frame_at(bytes@, from as int),
{
    let first: usize = find_line_end(bytes, from);
    let second: usize = find_line_end(bytes, first);
    let header: Vec<u8> = crate::block_chunks::piece_of(bytes, from, second);
    match parse_header(header) {
        Err(e) => Frame::Invalid(e),
        Ok(len) => if len <= bytes.len() - second {
            Frame::Message { start: second, end: second + len }
        } else {
            Frame::Incomplete
        },
    }
}

/// That a stream was closed changes nothing of a frame that is whole.
pub proof fn closing_keeps_whole_frames(bytes: Seq<u8>, from: int)
    requires
        0 <= from <= bytes.len(),
        frame_at(bytes, from) !is Incomplete,
    ensures
        last_frame_at(bytes, from) == frame_at(bytes, from),
{
}

proof fn lemma_decimal_bytes(n: nat)
    ensures
        decimal_bytes(n).len() > 0,
        forall|i: int| 0 <= i < decimal_bytes(n).len() ==> 48 <= #[trigger] decimal_bytes(n)[i] <= 57,
    decreases n,
{
    if n >= 10 {
        lemma_decimal_bytes(n / 10);
    }
}

proof fn lemma_decimal_value(n: nat, digits: Seq<char>)
    requires
        digits.len() == decimal_bytes(n).len(),
        forall|i: int|
            0 <= i < digits.len() ==> #[trigger] digits[i] as int == decimal_bytes(n)[i] as int,
    ensures
        digits_value(digits) == n,
        all_digits(digits),
    decreases n,
{
    lemma_decimal_bytes(n);
    assert forall|i: int| 0 <= i < digits.len() implies is_digit(#[trigger] digits[i]) by {
        assert(48 <= decimal_bytes(n)[i] <= 57);
    }
    if n < 10 {
        reveal_with_fuel(digits_value, 2);
        assert(digits.drop_last() =~= Seq::empty());
        assert(digits.last() as int == 48 + n);
    } else {
        let rest = digits.drop_last();
        assert forall|i: int| 0 <= i < rest.len() implies #[trigger] rest[i] as int
            == decimal_bytes(n / 10)[i] as int by {
            assert(digits[i] as int == decimal_bytes(n)[i] as int);
        }
        lemma_decimal_value(n / 10, rest);
        assert(digits.last() as int == decimal_bytes(n).last() as int);
    }
}

/// The characters with the codes of ASCII bytes.
spec fn ascii_chars(bytes: Seq<u8>) -> Seq<char> {
    Seq::new(bytes.len(), |i: int| bytes[i] as char)
}

proof fn lemma_ascii(bytes: Seq<u8>)
    requires
        forall|i: int| 0 <= i < bytes.len() ==> #[trigger] bytes[i] < 0x80,
    ensures
        vstd::utf8::valid_utf8(bytes),
        vstd::utf8::decode_utf8(bytes) == ascii_chars(bytes),
{
    broadcast use vstd::utf8::group_utf8_lib;

    let chars = ascii_chars(bytes);
    assert(vstd::utf8::is_ascii_chars(chars)) by {
        assert forall|i: int| 0 <= i < chars.len() implies '\0' <= #[trigger] chars[i]
            && chars[i] <= '\u{7f}' by {
            assert(bytes[i] < 0x80);
        }
    }
    vstd::utf8::is_ascii_chars_encode_utf8(chars);
    assert(vstd::utf8::encode_utf8(chars) =~= bytes) by {
        assert forall|i: int| 0 <= i < bytes.len() implies #[trigger] vstd::utf8::encode_utf8(chars)[i]
            == bytes[i] by {
            assert(chars[i] as u8 == bytes[i]);
        }
    }
    vstd::utf8::encode_utf8_valid_utf8(chars);
    vstd::utf8::encode_utf8_decode_utf8(chars);
}

/// The header of a message of `n` bytes.
spec fn header_for(n: nat) -> Seq<u8> {
    length_label() + decimal_bytes(n) + header_end()
}

proof fn lemma_header_bytes(n: nat)
    ensures
        header_for(n).len() == 20 + decimal_bytes(n).len(),
        forall|i: int|
            0 <= i < header_for(n).len() ==> #[trigger] header_for(n)[i] < 0x80 && (header_for(n)[i]
                == 10 <==> (i == 17 + decimal_bytes(n).len() || i == 19 + decimal_bytes(n).len())),
{
    let digits = decimal_bytes(n);
    lemma_decimal_bytes(n);
    assert forall|i: int| 0 <= i < header_for(n).len() implies #[trigger] header_for(n)[i] < 0x80 && (
    header_for(n)[i] == 10 <==> (i == 17 + digits.len() || i == 19 + digits.len())) by {
        if i < 16 {
            assert(header_for(n)[i] == length_label()[i]);
        } else if i < 16 + digits.len() {
            assert(header_for(n)[i] == digits[i - 16]);
        } else {
            assert(header_for(n)[i] == header_end()[i - 16 - digits.len()]);
        }
    }
}

proof fn lemma_trimmed(d: Seq<char>)
    requires
        d.len() > 0,
        !is_space(d.last()),
    ensures
        trimmed_end(d + seq!['\r', '\n', '\r', '\n']) == d,
{
    let a = d + seq!['\r', '\n', '\r', '\n'];
    let b = d + seq!['\r', '\n', '\r'];
    let c = d + seq!['\r', '\n'];
    let e = d + seq!['\r'];
    assert(a.drop_last() =~= b);
    assert(b.drop_last() =~= c);
    assert(c.drop_last() =~= e);
    assert(e.drop_last() =~= d);
    assert(trimmed_end(d) == d);
    assert(trimmed_end(e) == d);
    assert(trimmed_end(c) == d);
    assert(trimmed_end(b) == d);
}

proof fn lemma_header_length(n: nat)
    requires
        n <= usize::MAX,
    ensures
        header_length(header_for(n)) == Ok::<usize, HeaderError>(n as usize),
{
    let header = header_for(n);
    let digits = decimal_bytes(n);
    lemma_header_bytes(n);
    lemma_decimal_bytes(n);
    lemma_ascii(header);
    let text = ascii_chars(header);
    let label = "Content-Length: "@;
    reveal_strlit("Content-Length: ");
    assert(label.len() == 16);
    assert forall|i: int| 0 <= i < 16 implies label[i] == #[trigger] text[i] by {
        assert(header[i] == length_label()[i]);
    }
    assert(label =~= text.subrange(0, 16));
    let rest = text.skip(16);
    let d = rest.take(digits.len() as int);
    assert forall|i: int| 0 <= i < d.len() implies #[trigger] d[i] as int == digits[i] as int by {
        assert(header[16 + i] == digits[i]);
        assert(48 <= digits[i] <= 57);
    }
    assert forall|i: int| 0 <= i < 4 implies text[16 + digits.len() + i] == #[trigger] header_end()[i] as char by {
        assert(header[16 + digits.len() + i] == header_end()[i]);
    }
    assert(rest =~= d + seq!['\r', '\n', '\r', '\n']) by {
        let tail = seq!['\r', '\n', '\r', '\n'];
        assert forall|i: int| 0 <= i < rest.len() implies #[trigger] rest[i] == (d + tail)[i] by {
            if i >= digits.len() {
                assert(rest[i] == text[16 + i]);
                assert(text[16 + digits.len() + (i - digits.len())] == header_end()[i - digits.len()] as char);
            }
        }
    }
    lemma_decimal_value(n, d);
    assert(is_digit(d[d.len() - 1]));
    lemma_trimmed(d);
    assert(is_digit(d[0]));
}

/// What is written can be read: a message that was framed is found again, whatever follows it.
pub proof fn framed_message_is_read(before: Seq<u8>, message: Seq<u8>, after: Seq<u8>)
    requires
        before.len() + framed(message).len() <= usize::MAX,
    ensures
        ({
            let bytes = before + framed(message) + after;
            let start = before.len() + framed(message).len() - message.len();
            let end = (before.len() + framed(message).len()) as int;
            &&& frame_at(bytes, before.len() as int) == Frame::Message {
                start: start as usize,
                end: end as usize,
            }
            &&& bytes.subrange(start, end) == message
        }),
{
    let bytes = before + framed(message) + after;
    let n = message.len();
    let from = before.len() as int;
    let header = header_for(n);
    let first = from + 18 + decimal_bytes(n).len();
    let second = first + 2;
    lemma_header_bytes(n);
    assert(framed(message) =~= header + message);
    assert forall|i: int| from <= i < second implies #[trigger] bytes[i] == header[i - from] by {
        assert(framed(message)[i - from] == header[i - from]);
    }
    assert forall|i: int| from <= i < first - 1 implies #[trigger] bytes[i] != 10 by {
        assert(header[i - from] != 10);
    }
    assert(header[first - 1 - from] == 10);
    lemma_line_end(bytes, from, first - 1);
    assert forall|i: int| first <= i < second - 1 implies #[trigger] bytes[i] != 10 by {
        assert(header[i - from] != 10);
    }
    assert(header[second - 1 - from] == 10);
    lemma_line_end(bytes, first, second - 1);
    assert(bytes.subrange(from, second) =~= header);
    lemma_header_length(n);
    assert(bytes.subrange(second, second + n) =~= message) by {
        assert forall|i: int| 0 <= i < n implies #[trigger] bytes.subrange(second, second + n)[i]
            == message[i] by {
            assert(framed(message)[second - from + i] == message[i]);
        }
    }
}

proof fn lemma_line_end(bytes: Seq<u8>, from: int, feed: int)
    requires
        0 <= from <= feed < bytes.len(),
        bytes[feed] == 10,
        forall|i: int| from <= i < feed ==> #[trigger] bytes[i] != 10,
    ensures
        line_end(bytes, from) == feed + 1,
    decreases feed - from,
{
    if from < feed {
        lemma_line_end(bytes, from + 1, feed);
    }
}

/// A message of the server, taken apart: a notification with its parameters, a response with an
/// error or a result, or something that is neither.
#[derive(Debug)]
pub enum Incoming {
    Notification { method: String, params: String },
    Response { id: usize, error: Option<String>, result: Option<String> },
    Unreadable,
}

/// What is to be done with a message of the server.
#[derive(Debug)]
pub enum Delivery {
    Notify { method: String, params: String },
    UnhandledNotification { method: String, params: String },
    Answer { id: usize, outcome: Result<String, String> },
    UnexpectedAnswer,
    Stop,
}

/// The state of the connection to a language server: the number of the next request, the requests
/// without an answer, the notifications that are listened to, whether messages can still be sent,
/// and whether the server has been asked to stop.
pub struct LanguageServer {
    next_id: usize,
    pending: HashMap<usize, ()>,
    handlers: TextSet,
    outbound: bool,
    running: bool,
}

/// The meaning of that state.
#[verifier::ext_equal]
pub struct ServerView {
    pub next_id: usize,
    pub pending: Set<usize>,
    pub handlers: Set<Seq<char>>,
    pub outbound: bool,
    pub running: bool,
}

/// The number behind another one; the numbers start again when they are used up.
pub open spec fn next_number(n: usize) -> usize {
    if n == usize::MAX {
        0
    } else {
        (n + 1) as usize
    }
}

impl View for LanguageServer {
    type V = ServerView;

    closed spec fn view(&self) -> ServerView {
        ServerView {
            next_id: self.next_id,
            pending: self.pending@.dom(),
            handlers: self.handlers@,
            outbound: self.outbound,
            running: self.running,
        }
    }
}

impl LanguageServer {
    /// A server that has just been started in a directory, and the address of the directory; a
    /// directory without an address is refused. Which directories have one depends on the platform.
    pub fn new(root_path: &str) -> (r: Result<(LanguageServer, String), String>)
        ensures
            can_be_address(
                root_path@,
                match r {
                    Ok((_, uri)) => Some(uri@),
                    Err(_) => None,
                },
            ),
            match r {
                Ok((server, _)) => {
                    &&& server@ == ServerView {
                        next_id: 0,
                        pending: Set::empty(),
                        handlers: Set::empty(),
                        outbound: true,
                        running: true,
                    }
                },
                Err(e) => e@ == "invalid root path"@,
            },
    {
        LanguageServer::at_address(file_url(root_path))
    }

    /// A server that has just been started in a directory with this address; one without an address
    /// is refused.
    pub fn at_address(root_uri: Option<String>) -> (r: Result<(LanguageServer, String), String>)
        ensures
            r is Ok <==> root_uri is Some,
            match r {
                Ok((server, uri)) => {
                    &&& server@ == ServerView {
                        next_id: 0,
                        pending: Set::empty(),
                        handlers: Set::empty(),
                        outbound: true,
                        running: true,
                    }
                    &&& uri@ == root_uri->0@
                },
                Err(e) => e@ == "invalid root path"@,
            },
    {
        match root_uri {
            Some(uri) => Ok((LanguageServer::started(), uri)),
            None => Err(String::from_str("invalid root path")),
        }
    }

    /// A server that has just been started.
    pub fn started() -> (r: LanguageServer)
        ensures
            r@ == (ServerView {
                next_id: 0,
                pending: Set::empty(),
                handlers: Set::empty(),
                outbound: true,
                running: true,
            }),
    {
        let r = LanguageServer {
            next_id: 0,
            pending: HashMap::new(),
            handlers: TextSet::new(),
            outbound: true,
            running: true,
        };
        assert(r@.pending =~= Set::empty());
        r
    }

    /// Numbers a request and waits for its answer. A server that has been shut down is sent
    /// nothing.
    pub fn request(&mut self) -> (r: Result<usize, String>)
        ensures
            final(self)@ == (ServerView {
                next_id: next_number(old(self)@.next_id),
                pending: old(self)@.pending.insert(old(self)@.next_id),
                ..old(self)@
            }),
            match r {
                Ok(id) => old(self)@.outbound && id == old(self)@.next_id,
                Err(e) => !old(self)@.outbound && e@
                    == "tried to send a request to a language server that has been shut down"@,
            },
    {
        let id: usize = self.next_id;
        self.next_id = if id == usize::MAX {
            0
        } else {
            id + 1
        };
        self.pending.insert(id, ());
        proof {
            assert(self@.pending =~= old(self)@.pending.insert(id));
        }
        if self.outbound {
            Ok(id)
        } else {
            Err(
                String::from_str(
                    "tried to send a request to a language server that has been shut down",
                ),
            )
        }
    }

    /// Whether a notification can be sent.
    pub fn notify(&self) -> (r: Result<(), String>)
        ensures
            match r {
                Ok(_) => self@.outbound,
                Err(e) => !self@.outbound && e@
                    == "tried to notify a language server that has been shut down"@,
            },
    {
        if self.outbound {
            Ok(())
        } else {
            Err(String::from_str("tried to notify a language server that has been shut down"))
        }
    }

    /// Listens to a notification. Nobody may listen to it yet.
    pub fn on_notification(&mut self, method: &str)
        requires
            !old(self)@.handlers.contains(method@),
        ensures
            final(self)@ == (ServerView {
                handlers: old(self)@.handlers.insert(method@),
                ..old(self)@
            }),
    {
        let added: bool = self.handlers.insert(method.to_owned());
        assert(self@ =~= ServerView { handlers: old(self)@.handlers.insert(method@), ..old(self)@ });
    }

    /// Whether somebody listens to a notification.
    pub fn listens_to(&self, method: &str) -> (r: bool)
        ensures
            r == self@.handlers.contains(method@),
    {
        self.handlers.contains(method)
    }

    /// Does not listen to a notification any more.
    pub fn unsubscribe(&mut self, method: &str)
        ensures
            final(self)@ == (ServerView {
                handlers: old(self)@.handlers.remove(method@),
                ..old(self)@
            }),
    {
        self.handlers.remove(method);
        assert(self@ =~= ServerView { handlers: old(self)@.handlers.remove(method@), ..old(self)@ });
    }

    /// Asks the server to stop, once: tells the number of that request. From then on nothing else
    /// is sent.
    pub fn shutdown(&mut self) -> (r: Option<usize>)
        ensures
            old(self)@.running ==> {
                &&& r == Some(old(self)@.next_id)
                &&& final(self)@ == ServerView {
                    pending: old(self)@.pending.insert(old(self)@.next_id),
                    outbound: false,
                    running: false,
                    ..old(self)@
                }
            },
            !old(self)@.running ==> r is None && final(self)@ == old(self)@,
    {
        if self.running {
            let id: usize = self.next_id;
            self.running = false;
            self.outbound = false;
            self.pending.insert(id, ());
            assert(self@ =~= ServerView {
                pending: old(self)@.pending.insert(id),
                outbound: false,
                running: false,
                ..old(self)@
            });
            Some(id)
        } else {
            None
        }
    }

    /// Finds out what a message of the server means. The answer to a request is handed over once;
    /// one without a result counts as null. What cannot be read ends the connection.
    pub fn receive(&mut self, incoming: Incoming) -> (r: Delivery)
        ensures
            match incoming {
                Incoming::Notification { method, params } => {
                    &&& final(self)@ == old(self)@
                    &&& r == if old(self)@.handlers.contains(method@) {
                        Delivery::Notify { method, params }
                    } else {
                        Delivery::UnhandledNotification { method, params }
                    }
                },
                Incoming::Response { id, error, result } => {
                    &&& final(self)@ == answered(old(self)@, id)
                    &&& old(self)@.pending.contains(id) ==> (r matches Delivery::Answer {
                        id: to,
                        outcome,
                    } && to == id && match error {
                        Some(e) => outcome == Err::<String, String>(e),
                        None => match result {
                            Some(value) => outcome == Ok::<String, String>(value),
                            None => outcome matches Ok(value) && value@ == "null"@,
                        },
                    })
                    &&& !old(self)@.pending.contains(id) ==> r is UnexpectedAnswer
                },
                Incoming::Unreadable => r is Stop && final(self)@ == old(self)@,
            },
    {
        match incoming {
            Incoming::Notification { method, params } => {
                if self.handlers.contains(method.as_str()) {
                    Delivery::Notify { method, params }
                } else {
                    Delivery::UnhandledNotification { method, params }
                }
            },
            Incoming::Response { id, error, result } => {
                let expected: Option<()> = self.pending.remove(&id);
                assert(self@ =~= answered(old(self)@, id));
                if expected.is_some() {
                    let outcome: Result<String, String> = match error {
                        Some(e) => Err(e),
                        None => match result {
                            Some(value) => Ok(value),
                            None => Ok(String::from_str("null")),
                        },
                    };
                    Delivery::Answer { id, outcome }
                } else {
                    Delivery::UnexpectedAnswer
                }
            },
            Incoming::Unreadable => Delivery::Stop,
        }
    }
}

/// The state after a response to a request.
pub open spec fn answered(s: ServerView, id: usize) -> ServerView {
    ServerView { pending: s.pending.remove(id), ..s }
}

/// A request is answered once: when its answer has been handed over, another one is not expected,
/// and the other requests still wait.
pub proof fn request_is_answered_once(s: ServerView, id: usize, other: usize)
    requires
        id != other,
    ensures
        !answered(s, id).pending.contains(id),
        answered(answered(s, id), id) == answered(s, id),
        answered(s, id).pending.contains(other) <==> s.pending.contains(other),
{
    assert(answered(answered(s, id), id) =~= answered(s, id));
}

/// The length of a message is written in decimal notation.
pub proof fn length_is_written_in_decimal(n: nat)
    ensures
        decimal_bytes(n).len() == crate::text::decimal(n).len(),
        forall|i: int|
            0 <= i < decimal_bytes(n).len() ==> #[trigger] decimal_bytes(n)[i] as int
                == crate::text::decimal(n)[i] as int,
    decreases n,
{
    if n >= 10 {
        length_is_written_in_decimal(n / 10);
    }
}

/// A message is sent with a line in front that tells its length, and an empty line between.
pub proof fn frame_is_header_and_message(message: Seq<u8>)
    ensures
        ({
            let n = decimal_bytes(message.len()).len() as int;
            let f = framed(message);
            &&& f.len() == 20 + n + message.len()
            &&& f.subrange(20 + n, f.len() as int) == message
            &&& f.subrange(16, 16 + n) == decimal_bytes(message.len())
            &&& f[16 + n] == 13 && f[17 + n] == 10 && f[18 + n] == 13 && f[19 + n] == 10
            &&& forall|i: int|
                0 <= i < 16 ==> #[trigger] f[i] as int == "Content-Length: "@[i] as int
        }),
{
    reveal_strlit("Content-Length: ");
    let digits = decimal_bytes(message.len());
    let n = digits.len() as int;
    let f = framed(message);
    assert(f.subrange(20 + n, f.len() as int) =~= message);
    assert(f.subrange(16, 16 + n) =~= digits);
    assert(f[16 + n] == header_end()[0]);
    assert(f[17 + n] == header_end()[1]);
    assert(f[18 + n] == header_end()[2]);
    assert(f[19 + n] == header_end()[3]);
    assert forall|i: int| 0 <= i < 16 implies #[trigger] f[i] as int == "Content-Length: "@[i] as int by {
        assert(f[i] == length_label()[i]);
    }
}

proof fn lemma_trimmed_spaces(text: Seq<char>, spaces: Seq<char>)
    requires
        text.len() == 0 || !is_space(text.last()),
        forall|i: int| 0 <= i < spaces.len() ==> is_space(#[trigger] spaces[i]),
    ensures
        trimmed_end(text + spaces) == text,
    decreases spaces.len(),
{
    let whole = text + spaces;
    if spaces.len() == 0 {
        assert(whole =~= text);
    } else {
        assert(is_space(spaces[spaces.len() - 1]));
        assert(whole.drop_last() =~= text + spaces.drop_last());
        assert forall|i: int| 0 <= i < spaces.drop_last().len() implies is_space(
            #[trigger] spaces.drop_last()[i],
        ) by {
            assert(is_space(spaces[i]));
        }
        lemma_trimmed_spaces(text, spaces.drop_last());
    }
}

proof fn lemma_same_value(digits: Seq<char>)
    ensures
        digits_value(digits) == crate::text::decimal_value(digits),
    decreases digits.len(),
{
    if digits.len() > 0 {
        lemma_same_value(digits.drop_last());
    }
}

/// A header tells the number that its digits stand for, whatever white space follows them. Without the
/// label, without digits, or with something else among them, it tells none, and neither does a number
/// that cannot be counted.
pub proof fn header_tells_its_digits(header: Seq<u8>, digits: Seq<char>, spaces: Seq<char>)
    requires
        vstd::utf8::valid_utf8(header),
        vstd::utf8::decode_utf8(header) == "Content-Length: "@ + digits + spaces,
        digits.len() == 0 || !is_space(digits.last()),
        digits.len() > 0 ==> digits[0] != '+',
        forall|i: int| 0 <= i < spaces.len() ==> is_space(#[trigger] spaces[i]),
    ensures
        ({
            let numeric = digits.len() > 0 && forall|i: int|
                0 <= i < digits.len() ==> '0' <= #[trigger] digits[i] <= '9';
            let value = crate::text::decimal_value(digits);
            &&& numeric && value <= usize::MAX ==> header_length(header) == Ok::<usize, HeaderError>(
                value as usize,
            )
            &&& !(numeric && value <= usize::MAX) ==> header_length(header) == Err::<
                usize,
                HeaderError,
            >(HeaderError::InvalidLength)
        }),
{
    let text = vstd::utf8::decode_utf8(header);
    let label = "Content-Length: "@;
    assert(text.subrange(0, label.len() as int) =~= label);
    assert(text.skip(label.len() as int) =~= digits + spaces);
    lemma_trimmed_spaces(digits, spaces);
    lemma_same_value(digits);
    let numeric = digits.len() > 0 && forall|i: int|
        0 <= i < digits.len() ==> '0' <= #[trigger] digits[i] <= '9';
    if numeric {
        assert(all_digits(digits));
    } else if all_digits(digits) && digits.len() > 0 {
        assert forall|i: int| 0 <= i < digits.len() implies '0' <= #[trigger] digits[i] <= '9' by {
            assert(is_digit(digits[i]));
        }
    }
}

/// A header that is not text, or that does not begin with the label, is refused as such.
pub proof fn other_headers_are_refused(header: Seq<u8>)
    ensures
        !vstd::utf8::valid_utf8(header) <==> header_length(header) == Err::<usize, HeaderError>(
            HeaderError::NotText,
        ),
        vstd::utf8::valid_utf8(header) && !"Content-Length: "@.is_prefix_of(
            vstd::utf8::decode_utf8(header),
        ) <==> header_length(header) == Err::<usize, HeaderError>(HeaderError::InvalidHeader),
{
}

/// A message of which only a part has come is waited for, wherever it was cut.
pub proof fn part_of_a_frame_is_incomplete(message: Seq<u8>, k: int)
    requires
        framed(message).len() <= usize::MAX,
        0 <= k < framed(message).len(),
    ensures
        frame_at(framed(message).take(k), 0) is Incomplete,
{
    let n = message.len();
    let whole = framed(message);
    let bytes = whole.take(k);
    let header = header_for(n);
    let first = 18 + decimal_bytes(n).len() as int;
    let second = first + 2;
    lemma_header_bytes(n);
    assert(whole =~= header + message);
    assert forall|i: int| 0 <= i < second && i < k implies #[trigger] bytes[i] == header[i] by {
        assert(whole[i] == header[i]);
    }
    if k < first {
        assert forall|i: int| 0 <= i < k implies #[trigger] bytes[i] != 10 by {
            assert(header[i] != 10);
        }
        lemma_no_line_end(bytes, 0);
    } else {
        assert forall|i: int| 0 <= i < first - 1 implies #[trigger] bytes[i] != 10 by {
            assert(header[i] != 10);
        }
        assert(header[first - 1] == 10);
        lemma_line_end(bytes, 0, first - 1);
        if k < second {
            assert forall|i: int| first <= i < k implies #[trigger] bytes[i] != 10 by {
                assert(header[i] != 10);
            }
            lemma_no_line_end(bytes, first);
            if k > first {
                assert(bytes[k - 1] != 10);
            }
        } else {
            assert forall|i: int| first <= i < second - 1 implies #[trigger] bytes[i] != 10 by {
                assert(header[i] != 10);
            }
            assert(header[second - 1] == 10);
            lemma_line_end(bytes, first, second - 1);
            assert(bytes.subrange(0, second) =~= header);
            lemma_header_length(n);
        }
    }
}

proof fn lemma_no_line_end(bytes: Seq<u8>, from: int)
    requires
        0 <= from <= bytes.len(),
        forall|i: int| from <= i < bytes.len() ==> #[trigger] bytes[i] != 10,
    ensures
        line_end(bytes, from) == bytes.len(),
    decreases bytes.len() - from,
{
    if from < bytes.len() {
        lemma_no_line_end(bytes, from + 1);
    }
}

/// Requests are numbered one after the other, and the numbers start again at zero when they are used
/// up.
pub proof fn numbers_count_up(n: usize)
    ensures
        n < usize::MAX ==> next_number(n) == n + 1,
        next_number(usize::MAX) == 0,
{
}

} // verus!
