//! `Content-Length` framing of JSON-RPC messages.
//!
//! A message is a header block (one `Content-Length: N` line, then a blank
//! line) followed by exactly `N` bytes of UTF-8 payload. Reading is a small
//! state machine: the transport reads what [`read_message`] asks for (one
//! header line, or the body) and hands it back as the next event.
use vstd::prelude::*;
use vstd::utf8::{decode_utf8, encode_utf8, encode_utf8_decode_utf8, encode_utf8_valid_utf8, valid_utf8};

use crate::text::{
    chars_of, decimal, digit_char, is_space, push_decimal, push_str,
    starts_with, starts_with_at, trim, trim_end, trim_start, trimmed, trimmed_len,
};

verus! {

broadcast use vstd::string::group_string_axioms;

/// What `String::from_utf8_lossy` makes of a byte sequence.
pub uninterp spec fn lossy_utf8(bytes: Seq<u8>) -> Seq<char>;

/// `String::from_utf8_lossy`: the bytes decoded as UTF-8, with each invalid
/// sequence replaced by U+FFFD. Claimed here: the result is a function of the
/// bytes, and a valid encoding decodes to exactly the characters it encodes.
/// What replaces an invalid sequence is left unsaid.
#[verifier::external_body]
fn decode_lossy(bytes: &[u8]) -> (r: String)
    ensures
        r@ == lossy_utf8(bytes@),
        valid_utf8(bytes@) ==> r@ == decode_utf8(bytes@),
{
    String::from_utf8_lossy(bytes).into_owned()
}

/// The value of a sequence of decimal digit characters.
pub open spec fn digits_value(d: Seq<char>) -> nat
    decreases d.len(),
{
    if d.len() == 0 {
        0
    } else {
        digits_value(d.drop_last()) * 10 + ((d.last() as u32) - ('0' as u32)) as nat
    }
}

/// Whether every character is an ASCII digit.
pub open spec fn all_digits(d: Seq<char>) -> bool {
    forall|i: int| 0 <= i < d.len() ==> '0' <= #[trigger] d[i] <= '9'
}

/// What `str::parse::<usize>` accepts: an optional `+`, then one or more
/// ASCII digits whose value fits in `usize`.
pub open spec fn parse_usize(s: Seq<char>) -> Option<nat> {
    let d = if s.len() > 0 && s[0] == '+' {
        s.drop_first()
    } else {
        s
    };
    if d.len() > 0 && all_digits(d) && digits_value(d) <= usize::MAX {
        Some(digits_value(d))
    } else {
        None
    }
}

/// The header name that carries the payload length.
pub open spec fn length_header() -> Seq<char> {
    "Content-Length:"@
}

/// ASCII characters as the bytes that encode them.
pub open spec fn ascii(s: Seq<char>) -> Seq<u8> {
    s.map_values(|c: char| c as u8)
}

/// The header line announcing a payload of `n` bytes, with its line ending.
pub open spec fn header_line(n: nat) -> Seq<char> {
    "Content-Length: "@ + decimal(n) + "\r\n"@
}

/// A payload framed for the wire: the header, a blank line, the payload.
pub open spec fn frame(payload: Seq<char>) -> Seq<u8> {
    ascii(header_line(encode_utf8(payload).len()) + "\r\n"@) + encode_utf8(payload)
}

/// The reader's state: the length announced by the headers read so far.
pub struct MessageReader {
    pub length: usize,
}

/// What the transport hands the reader.
pub enum ReadEvent {
    /// One line as `BufRead::read_line` returned it, line ending included;
    /// the empty string is the end of the input.
    Line(String),
    /// The body bytes that the reader asked for.
    Body(Vec<u8>),
}

/// What the reader wants next, or what it has read.
pub enum ReadStep {
    /// Read one more header line.
    NextLine,
    /// Read exactly this many bytes of body.
    ReadBody(usize),
    /// A whole message; empty when its headers announced no body.
    Message(String),
    /// The input has ended between messages.
    Closed,
}

/// An event, in mathematical terms.
pub enum EventView {
    Line(Seq<char>),
    Body(Seq<u8>),
}

/// A step, in mathematical terms.
pub enum StepView {
    NextLine,
    ReadBody(nat),
    Message(Seq<char>),
    Closed,
}

impl View for ReadEvent {
    type V = EventView;

    open spec fn view(&self) -> EventView {
        match self {
            ReadEvent::Line(l) => EventView::Line(l@),
            ReadEvent::Body(b) => EventView::Body(b@),
        }
    }
}

impl View for ReadStep {
    type V = StepView;

    open spec fn view(&self) -> StepView {
        match self {
            ReadStep::NextLine => StepView::NextLine,
            ReadStep::ReadBody(n) => StepView::ReadBody(*n as nat),
            ReadStep::Message(m) => StepView::Message(m@),
            ReadStep::Closed => StepView::Closed,
        }
    }
}

/// The length a header line announces, or `None` when it is some other
/// header. An unreadable value counts as zero.
pub open spec fn announced(header: Seq<char>) -> Option<nat> {
    if starts_with(header, length_header()) {
        match parse_usize(trim(header.skip(length_header().len() as int))) {
            Some(n) => Some(n),
            None => Some(0),
        }
    } else {
        None
    }
}

/// The text of a message body: its characters when it is valid UTF-8, and
/// the lossy decoding otherwise.
pub open spec fn body_text(b: Seq<u8>) -> Seq<char> {
    if valid_utf8(b) {
        decode_utf8(b)
    } else {
        lossy_utf8(b)
    }
}

/// One step of the reader: from the announced length so far and an event,
/// the next announced length and what the reader wants or has read.
pub open spec fn read_step(length: nat, event: EventView) -> (nat, StepView) {
    match event {
        EventView::Line(l) => if l.len() == 0 {
            (0, StepView::Closed)
        } else {
            let header = trim_end(l);
            if header.len() == 0 {
                if length == 0 {
                    (0, StepView::Message(seq![]))
                } else {
                    (0, StepView::ReadBody(length))
                }
            } else {
                match announced(header) {
                    Some(n) => (n, StepView::NextLine),
                    None => (length, StepView::NextLine),
                }
            }
        },
        EventView::Body(b) => (0, StepView::Message(body_text(b))),
    }
}

proof fn lemma_digits_prefix(d: Seq<char>, k: int)
    requires
        0 <= k <= d.len(),
        all_digits(d),
    ensures
        digits_value(d.take(k)) <= digits_value(d),
    decreases d.len() - k,
{
    if k < d.len() {
        lemma_digits_prefix(d, k + 1);
        assert(d.take(k + 1).drop_last() =~= d.take(k));
    }
    assert(d.take(d.len() as int) =~= d);
}

proof fn lemma_trim_end_of_spaces(s: Seq<char>, t: Seq<char>)
    requires
        forall|i: int| 0 <= i < t.len() ==> is_space(#[trigger] t[i]),
        s.len() == 0 || !is_space(s.last()),
    ensures
        trim_end(s + t) == s,
    decreases t.len(),
{
    if t.len() == 0 {
        assert(s + t =~= s);
    } else {
        assert((s + t).drop_last() =~= s + t.drop_last());
        lemma_trim_end_of_spaces(s, t.drop_last());
    }
}

proof fn lemma_trim_start_of_spaces(t: Seq<char>, s: Seq<char>)
    requires
        forall|i: int| 0 <= i < t.len() ==> is_space(#[trigger] t[i]),
        s.len() == 0 || !is_space(s[0]),
    ensures
        trim_start(t + s) == s,
    decreases t.len(),
{
    if t.len() == 0 {
        assert(t + s =~= s);
    } else {
        assert((t + s).drop_first() =~= t.drop_first() + s);
        lemma_trim_start_of_spaces(t.drop_first(), s);
    }
}

proof fn lemma_decimal_digits(n: nat)
    ensures
        decimal(n).len() > 0,
        all_digits(decimal(n)),
        digits_value(decimal(n)) == n,
    decreases n,
{
    let k = n % 10;
    assert((digit_char(k) as u32) - ('0' as u32) == k) by {
        assert(k < 10);
    }
    if n >= 10 {
        lemma_decimal_digits(n / 10);
        let d = decimal(n);
        assert(d.drop_last() =~= decimal(n / 10));
        assert(d.last() == digit_char(k));
        assert(n == (n / 10) * 10 + k);
        assert(digits_value(d.drop_last()) == n / 10);
        assert forall|i: int| 0 <= i < d.len() implies '0' <= #[trigger] d[i] <= '9' by {
            if i < d.len() - 1 {
                assert(d[i] == decimal(n / 10)[i]);
            }
        }
    } else {
        assert(decimal(n) =~= seq![digit_char(n)]);
        assert(decimal(n).drop_last() =~= seq![]);
        assert(digits_value(decimal(n).drop_last()) == 0);
        assert(n == k);
    }
}

/// Framing undoes itself: the reader, fed the header lines of a framed
/// payload and then the body bytes it asks for, delivers the payload.
pub proof fn lemma_frame_roundtrip(payload: Seq<char>)
    requires
        encode_utf8(payload).len() <= usize::MAX,
    ensures
        ({
            let n = encode_utf8(payload).len();
            &&& frame(payload) == ascii(header_line(n) + "\r\n"@) + encode_utf8(payload)
            &&& read_step(0, EventView::Line(header_line(n))) == (n, StepView::NextLine)
            &&& n > 0 ==> read_step(n, EventView::Line("\r\n"@)) == (0nat, StepView::ReadBody(n))
            &&& n > 0 ==> read_step(0, EventView::Body(encode_utf8(payload))) == (
                0nat,
                StepView::Message(payload),
            )
            &&& n == 0 ==> read_step(n, EventView::Line("\r\n"@)) == (
                0nat,
                StepView::Message(payload),
            )
        }),
{
    reveal_strlit("Content-Length: ");
    reveal_strlit("Content-Length:");
    reveal_strlit("\r\n");
    let n = encode_utf8(payload).len();
    lemma_decimal_digits(n);
    let digits = decimal(n);
    let line = header_line(n);
    let crlf = "\r\n"@;
    let head = "Content-Length: "@ + digits;
    assert(line =~= head + crlf);
    assert(is_space(crlf[0]) && is_space(crlf[1]));
    assert(!is_space(digits.last())) by {
        assert('0' <= digits[digits.len() - 1] <= '9');
    }
    assert(head.last() == digits.last());
    lemma_trim_end_of_spaces(head, crlf);
    assert(trim_end(line) == head);
    assert(starts_with(head, length_header())) by {
        assert(head.take(15) =~= length_header());
    }
    let rest = head.skip(15);
    assert(rest =~= seq![' '] + digits);
    assert(!is_space(digits[0])) by {
        assert('0' <= digits[0] <= '9');
    }
    lemma_trim_start_of_spaces(seq![' '], digits);
    assert(trim_start(rest) == digits);
    assert(trim_end(digits) == digits);
    assert(digits[0] != '+') by {
        assert('0' <= digits[0] <= '9');
    }
    assert(parse_usize(digits) == Some(n));
    assert(announced(head) == Some(n));
    assert(read_step(0, EventView::Line(line)) == (n, StepView::NextLine));
    lemma_trim_end_of_spaces(seq![], crlf);
    assert(seq![] + crlf =~= crlf);
    encode_utf8_valid_utf8(payload);
    encode_utf8_decode_utf8(payload);
    if n == 0 {
        assert(payload.len() == 0) by {
            if payload.len() > 0 {
                assert(encode_utf8(payload).len() > 0);
            }
        }
        assert(payload =~= seq![]);
    }
}

/// What one header line does to the reader: the end of the input closes
/// it; a blank line ends the headers and asks for the announced body (or
/// delivers an empty message when none was announced); a
/// `Content-Length:` header announces a length, and any other header
/// leaves the announced length as it was.
pub proof fn lemma_header_lines(n: nat, l: Seq<char>)
    ensures
        l.len() == 0 ==> read_step(n, EventView::Line(l)) == (0nat, StepView::Closed),
        l.len() > 0 && trim_end(l).len() == 0 ==> read_step(n, EventView::Line(l)) == (
            0nat,
            if n == 0 {
                StepView::Message(Seq::<char>::empty())
            } else {
                StepView::ReadBody(n)
            },
        ),
        l.len() > 0 && trim_end(l).len() > 0 && !starts_with(trim_end(l), "Content-Length:"@)
            ==> read_step(n, EventView::Line(l)) == (n, StepView::NextLine),
        l.len() > 0 && starts_with(trim_end(l), "Content-Length:"@) ==> read_step(
            n,
            EventView::Line(l),
        ) == (
            match parse_usize(trim(trim_end(l).skip(15))) {
                Some(v) => v,
                None => 0,
            },
            StepView::NextLine,
        ),
{
    reveal_strlit("Content-Length:");
    assert(length_header().len() == 15);
}

/// `str::parse::<usize>`.
pub fn parse_length(s: &[char]) -> (r: Option<usize>)
    ensures
        match r {
            Some(n) => parse_usize(s@) == Some(n as nat),
            None => parse_usize(s@) is None,
        },
{
    let n = s.len();
    let start: usize = if n > 0 && s[0] == '+' {
        1
    } else {
        0
    };
    let ghost d = if s@.len() > 0 && s@[0] == '+' {
        s@.drop_first()
    } else {
        s@
    };
    assert(d =~= s@.skip(start as int));
    if start >= n {
        return None;
    }
    let mut value: usize = 0;
    let mut i = start;
    while i < n
        invariant
            start <= i <= n,
            n == s@.len(),
            d == s@.skip(start as int),
            d == (if s@.len() > 0 && s@[0] == '+' {
                s@.drop_first()
            } else {
                s@
            }),
            all_digits(d.take(i - start)),
            value as nat == digits_value(d.take(i - start)),
        decreases n - i,
    {
        let c = s[i];
        if !('0' <= c && c <= '9') {
            assert(d[i - start] == c);
            assert(!all_digits(d)) by {
                assert(!('0' <= d[i - start] <= '9'));
            }
            assert(parse_usize(s@) is None);
            return None;
        }
        let digit = (c as u32 - '0' as u32) as usize;
        assert(d.take(i - start + 1).drop_last() =~= d.take(i - start));
        assert(d.take(i - start + 1).last() == c);
        if value > (usize::MAX - digit) / 10 {
            proof {
                assert(digits_value(d.take(i - start + 1)) > usize::MAX) by (nonlinear_arith)
                    requires
                        digits_value(d.take(i - start + 1)) == value * 10 + digit,
                        value > (usize::MAX - digit) / 10,
                        digit <= 9,
                ;
                if all_digits(d) {
                    lemma_digits_prefix(d, i - start + 1);
                    assert(digits_value(d) > usize::MAX);
                }
                assert(parse_usize(s@) is None);
            }
            return None;
        }
        assert(value * 10 + digit <= usize::MAX) by (nonlinear_arith)
            requires
                value <= (usize::MAX - digit) / 10,
                digit <= 9,
        ;
        value = value * 10 + digit;
        i = i + 1;
    }
    assert(d.take(n - start) =~= d);
    Some(value)
}

/// Reads the next piece of a message: decides, from what the headers have
/// announced so far and what the transport read, what to read next or which
/// message has arrived.
pub fn read_message(reader: &mut MessageReader, event: ReadEvent) -> (r: ReadStep)
    ensures
        (final(reader).length as nat, r@) == read_step(old(reader).length as nat, event@),
{
    match event {
        ReadEvent::Line(l) => {
            let chars = chars_of(l.as_str());
            if chars.len() == 0 {
                reader.length = 0;
                return ReadStep::Closed;
            }
            let end = trimmed_len(&chars);
            if end == 0 {
                let length = reader.length;
                reader.length = 0;
                if length == 0 {
                    return ReadStep::Message(String::new());
                } else {
                    return ReadStep::ReadBody(length);
                }
            }
            let mut header: Vec<char> = Vec::new();
            for i in 0..end
                invariant
                    end <= chars@.len(),
                    header@ == chars@.take(i as int),
            {
                header.push(chars[i]);
                assert(header@ =~= chars@.take(i + 1));
            }
            let name = chars_of("Content-Length:");
            assert(header@.skip(0) =~= header@);
            assert(header@ == trim_end(l@));
            if starts_with_at(&header, 0, &name) {
                let mut rest: Vec<char> = Vec::new();
                let m = header.len();
                let k = name.len();
                for i in k..m
                    invariant
                        m == header@.len(),
                        k <= m,
                        rest@ == header@.subrange(k as int, i as int),
                {
                    rest.push(header[i]);
                    assert(rest@ =~= header@.subrange(k as int, i + 1));
                }
                assert(rest@ =~= header@.skip(k as int));
                let value = trimmed(&rest);
                assert(header@ == trim_end(l@));
                assert(starts_with(header@, length_header()));
                assert(value@ == trim(header@.skip(length_header().len() as int)));
                reader.length = match parse_length(&value) {
                    Some(n) => n,
                    None => 0,
                };
                assert(announced(header@) == Some(reader.length as nat));
            }
            ReadStep::NextLine
        },
        ReadEvent::Body(bytes) => {
            reader.length = 0;
            let text = decode_lossy(&bytes);
            ReadStep::Message(text)
        },
    }
}

/// Whether a frame carries a message to handle: a frame whose headers
/// announced no body carries none and is skipped.
pub fn carries_message(payload: &str) -> (r: bool)
    ensures
        r == (payload@.len() > 0),
{
    !payload.is_empty()
}

/// Frames a payload for the wire: `Content-Length: N`, a blank line, and
/// the payload's `N` bytes.
pub fn write_message(payload: &str) -> (r: Vec<u8>)
    ensures
        r@ == frame(payload@),
{
    let body = payload.as_bytes();
    let mut header: Vec<char> = Vec::new();
    push_str(&mut header, "Content-Length: ");
    push_decimal(&mut header, payload.len() as u64);
    push_str(&mut header, "\r\n");
    push_str(&mut header, "\r\n");
    let mut r: Vec<u8> = Vec::new();
    let n = header.len();
    for i in 0..n
        invariant
            n == header@.len(),
            r@ == ascii(header@.take(i as int)),
    {
        r.push(#[verifier::truncate] (header[i] as u8));
        assert(r@ =~= ascii(header@.take(i + 1)));
    }
    let ghost head = r@;
    let m = body.len();
    for i in 0..m
        invariant
            m == body@.len(),
            r@ == head + body@.take(i as int),
    {
        r.push(body[i]);
        assert(r@ =~= head + body@.take(i + 1));
    }
    proof {
        assert(header@.take(n as int) =~= header@);
        assert(body@.take(m as int) =~= body@);
        assert(header@ =~= header_line(encode_utf8(payload@).len()) + "\r\n"@);
    }
    r
}

} // verus!
