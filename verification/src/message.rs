//! What requests and responses have in common: versions, methods, URIs, status codes, and the
//! bytes of a message head.
use vstd::prelude::*;
use vstd::string::*;
use vstd::utf8::*;

use crate::headers::{
    flattened, is_visible_byte, is_visible_text, list_view, value_of, HeaderSeq, Headers,
};
use crate::text::{
    crlf, decimal, is_token, law_decimal_reads_back, law_only_digits_are_a_number,
    lemma_decimal_bytes, parse_usize, parsed_usize, push_bytes, push_text,
};

verus! {

/// The most bytes that a message head may take.
pub const MAX_HEADERS_SIZE: usize = 8000;

/// The most bytes that a body may take.
pub const MAX_BODY_SIZE: usize = 10000000;

/// The most header fields that a message head may hold.
pub const MAX_NUM_HEADERS: usize = 32;

/// The version of the protocol that a message is written in.
#[derive(Clone, Copy, PartialEq, Eq, Structural, Debug)]
pub enum Version {
    Http09,
    Http10,
    Http11,
    H2,
    H3,
}

/// The text of a version.
pub open spec fn version_text(version: Version) -> Seq<char> {
    match version {
        Version::Http09 => "HTTP/0.9"@,
        Version::Http10 => "HTTP/1.0"@,
        Version::Http11 => "HTTP/1.1"@,
        Version::H2 => "HTTP/2.0"@,
        Version::H3 => "HTTP/3.0"@,
    }
}

impl Version {
    /// The text of the version.
    pub fn as_str(self) -> (text: &'static str)
        ensures
            text@ == version_text(self),
    {
        match self {
            Version::Http09 => "HTTP/0.9",
            Version::Http10 => "HTTP/1.0",
            Version::Http11 => "HTTP/1.1",
            Version::H2 => "HTTP/2.0",
            Version::H3 => "HTTP/3.0",
        }
    }
}

/// What came of one read from a stream.
pub enum ReadEvent {
    /// Bytes arrived.
    Bytes(Vec<u8>),
    /// The peer sends no more.
    End,
    /// The stream failed, with this message.
    Failed(String),
}

/// What came of one read from a stream.
pub enum ReadEventView {
    Bytes(Seq<u8>),
    End,
    Failed(Seq<char>),
}

impl View for ReadEvent {
    type V = ReadEventView;

    open spec fn view(&self) -> ReadEventView {
        match *self {
            ReadEvent::Bytes(bytes) => ReadEventView::Bytes(bytes@),
            ReadEvent::End => ReadEventView::End,
            ReadEvent::Failed(message) => ReadEventView::Failed(message@),
        }
    }
}

/// The bytes of a sequence of pieces, one piece after the other.
pub open spec fn joined(pieces: Seq<Seq<u8>>) -> Seq<u8>
    decreases pieces.len(),
{
    if pieces.len() == 0 {
        seq![]
    } else {
        pieces[0] + joined(pieces.drop_first())
    }
}

/// A status code: three digits, the first of them not zero.
pub open spec fn is_status(code: u16) -> bool {
    100 <= code <= 999
}

/// The text that `http::Uri` gives back for a URI that it read from the given text, or nothing
/// where it does not accept the text.
pub uninterp spec fn uri_text(text: Seq<char>) -> Option<Seq<char>>;

/// The character may stand both in the path and in the query of a request target.
pub open spec fn is_target_char(c: char) -> bool {
    ||| c == '!'
    ||| '$' <= c <= ';'
    ||| c == '='
    ||| '?' <= c <= '_'
    ||| 'a' <= c <= '~'
}

/// A path, with or without a query, as it stands in a request: a slash, and behind it any of the
/// characters that may stand in both, within the length that a URI may have.
pub open spec fn is_target(text: Seq<char>) -> bool {
    &&& 0 < text.len() <= 65534
    &&& text[0] == '/'
    &&& forall|i: int| 0 <= i < text.len() ==> is_target_char(#[trigger] text[i])
}

/// `FromStr` and `Display` of `http::Uri`: the text of the URI that was read, or nothing where the
/// text is not a URI. A path, with or without a query, reads as itself.
#[verifier::external_body]
pub(crate) fn parse_uri(text: &str) -> (uri: Option<String>)
    ensures
        match uri {
            Some(shown) => uri_text(text@) == Some(shown@),
            None => uri_text(text@) is None,
        },
        is_target(text@) ==> uri is Some && uri->0@ == text@,
{
    text.parse::<http::Uri>().ok().map(|uri| uri.to_string())
}

/// `http::Method::from_bytes`: whether the text is a method, which any token is.
#[verifier::external_body]
pub(crate) fn accepts_method(text: &str) -> (accepted: bool)
    ensures
        accepted == is_token(text@),
{
    http::Method::from_bytes(text.as_bytes()).is_ok()
}

/// The reason phrase that `http::StatusCode` has for a code.
pub uninterp spec fn status_reason(code: u16) -> Option<Seq<char>>;

/// `http::StatusCode::canonical_reason`: the reason phrase of a code, where it has one, which is
/// visible ASCII. The phrases of the five codes that the proxy answers with on its own account are
/// given.
#[verifier::external_body]
pub(crate) fn canonical_reason(code: u16) -> (reason: Option<&'static str>)
    requires
        is_status(code),
    ensures
        match reason {
            Some(phrase) => status_reason(code) == Some(phrase@),
            None => status_reason(code) is None,
        },
        reason is Some ==> is_visible_text(encode_utf8(reason->0@)),
        code == 400 ==> reason is Some && reason->0@ == "Bad Request"@,
        code == 413 ==> reason is Some && reason->0@ == "Payload Too Large"@,
        code == 429 ==> reason is Some && reason->0@ == "Too Many Requests"@,
        code == 502 ==> reason is Some && reason->0@ == "Bad Gateway"@,
        code == 503 ==> reason is Some && reason->0@ == "Service Unavailable"@,
{
    http::StatusCode::from_u16(code).unwrap().canonical_reason()
}

/// The reason phrase of a code, empty where it has none.
pub open spec fn reason_or_empty(code: u16) -> Seq<char> {
    match status_reason(code) {
        Some(phrase) => phrase,
        None => Seq::empty(),
    }
}

/// The reason phrase of a code, empty where it has none.
pub fn reason_text(code: u16) -> (reason: String)
    requires
        is_status(code),
    ensures
        reason@ == reason_or_empty(code),
        is_visible_text(encode_utf8(reason@)),
        code == 400 ==> reason@ == "Bad Request"@,
        code == 413 ==> reason@ == "Payload Too Large"@,
        code == 429 ==> reason@ == "Too Many Requests"@,
        code == 502 ==> reason@ == "Bad Gateway"@,
        code == 503 ==> reason@ == "Service Unavailable"@,
{
    match canonical_reason(code) {
        Some(phrase) => phrase.to_owned(),
        None => {
            proof {
                is_ascii_chars_encode_utf8(Seq::empty());
            }
            String::new()
        },
    }
}

/// What the `Content-Length` field says: nothing where it is missing, a number, or an error where
/// its first value is not a number.
pub open spec fn content_length(headers: HeaderSeq) -> Result<Option<usize>, ()> {
    match value_of(headers, "content-length"@) {
        None => Ok(None),
        Some(value) => if is_visible_text(value) {
            match parsed_usize(value) {
                Some(n) => Ok(Some(n)),
                None => Err(()),
            }
        } else {
            Err(())
        },
    }
}

/// Whether a header value is readable as text.
pub fn is_text(value: &[u8]) -> (visible: bool)
    ensures
        visible == is_visible_text(value@),
{
    let mut i: usize = 0;
    while i < value.len()
        invariant
            i <= value@.len(),
            forall|j: int| 0 <= j < i ==> is_visible_byte(#[trigger] value@[j]),
        decreases value@.len() - i,
    {
        let b: u8 = value[i];
        if !(b >= 32 && b < 127 || b == 9) {
            assert(!is_visible_byte(value@[i as int]));
            return false;
        }
        i = i + 1;
    }
    true
}

/// What the `Content-Length` field says.
pub fn read_content_length(headers: &Headers) -> (length: Result<Option<usize>, ()>)
    ensures
        length == content_length(headers@),
{
    match headers.get("content-length") {
        None => Ok(None),
        Some(value) => {
            if !is_text(value) {
                return Err(());
            }
            match parse_usize(value) {
                Some(n) => Ok(Some(n)),
                None => Err(()),
            }
        },
    }
}

/// One line for each pair of name and value.
pub open spec fn field_lines(list: Seq<(Seq<char>, Seq<u8>)>) -> Seq<u8>
    decreases list.len(),
{
    if list.len() == 0 {
        seq![]
    } else {
        field_lines(list.drop_last()) + encode_utf8(list.last().0) + encode_utf8(": "@)
            + list.last().1 + crlf()
    }
}

/// The head of a message as it goes over the wire: the first line, the header fields, an empty
/// line.
pub open spec fn head_bytes(line: Seq<char>, list: Seq<(Seq<char>, Seq<u8>)>) -> Seq<u8> {
    encode_utf8(line) + crlf() + field_lines(list) + crlf()
}

/// A message as it goes over the wire: the head, and behind it the body.
pub open spec fn message_bytes(line: Seq<char>, headers: HeaderSeq, body: Seq<u8>) -> Seq<u8> {
    head_bytes(line, flattened(headers)) + body
}

/// Appends the end of a line.
fn push_crlf(out: &mut Vec<u8>)
    ensures
        final(out)@ == old(out)@ + crlf(),
{
    out.push(13);
    out.push(10);
    assert(out@ =~= old(out)@ + crlf());
}

/// Appends a message as it goes over the wire.
pub(crate) fn push_message(out: &mut Vec<u8>, line: &str, headers: &Headers, body: &Vec<u8>)
    ensures
        final(out)@ == old(out)@ + message_bytes(line@, headers@, body@),
{
    push_text(out, line);
    push_crlf(out);
    let list = headers.list();
    let ghost pairs = list_view(list@);
    let ghost start = old(out)@ + encode_utf8(line@) + crlf();
    let mut i: usize = 0;
    assert(pairs.take(0) =~= Seq::<(Seq<char>, Seq<u8>)>::empty());
    assert(out@ =~= start + field_lines(pairs.take(0)));
    while i < list.len()
        invariant
            pairs == list_view(list@),
            i <= list@.len(),
            out@ == start + field_lines(pairs.take(i as int)),
        decreases list@.len() - i,
    {
        let ghost before = out@;
        push_text(out, list[i].0.as_str());
        push_text(out, ": ");
        push_bytes(out, list[i].1.as_slice());
        push_crlf(out);
        proof {
            let next = pairs.take(i + 1);
            assert(next.drop_last() =~= pairs.take(i as int));
            assert(next.last() == pairs[i as int]);
            assert(pairs[i as int] == (list@[i as int].0@, list@[i as int].1@));
            assert(out@ =~= start + field_lines(next));
        }
        i = i + 1;
    }
    assert(pairs.take(pairs.len() as int) =~= pairs);
    push_crlf(out);
    if body.len() > 0 {
        push_bytes(out, body.as_slice());
    }
    assert(out@ =~= old(out)@ + message_bytes(line@, headers@, body@));
}

/// The announced length is the number that the first `Content-Length` value writes in decimal. A
/// message without the field announces none, and a value with anything but digits behind at most
/// one plus sign is an error.
pub proof fn law_announced_length(headers: HeaderSeq, n: usize, value: Seq<u8>, i: int)
    ensures
        value_of(headers, "content-length"@) is None <==> content_length(headers) == Ok::<
            Option<usize>,
            (),
        >(None),
        value_of(headers, "content-length"@) == Some(encode_utf8(decimal(n as nat)))
            ==> content_length(headers) == Ok::<Option<usize>, ()>(Some(n)),
        value_of(headers, "content-length"@) == Some(value) && (value.len() == 0 || 0 <= i
            < value.len() && !(48 <= value[i] <= 57) && !(i == 0 && value[i] == 43))
            ==> content_length(headers) is Err,
{
    let written = encode_utf8(decimal(n as nat));
    lemma_decimal_bytes(n as nat);
    law_decimal_reads_back(n);
    assert(is_visible_text(written)) by {
        assert forall|j: int| 0 <= j < written.len() implies is_visible_byte(
            #[trigger] written[j],
        ) by {
            assert(48 <= written[j] <= 57);
        }
    }
    if 0 <= i < value.len() {
        law_only_digits_are_a_number(value, i);
    }
}

/// A message ends with its body, behind an empty line, and begins with its first line.
pub proof fn law_message_ends_with_its_body(line: Seq<char>, headers: HeaderSeq, body: Seq<u8>)
    ensures
        ({
            let all = message_bytes(line, headers, body);
            let start = encode_utf8(line) + seq![13u8, 10u8];
            let end = seq![13u8, 10u8] + body;
            &&& all.len() == start.len() + field_lines(flattened(headers)).len() + end.len()
            &&& all.take(start.len() as int) == start
            &&& all.skip(all.len() - end.len()) == end
        }),
{
    let all = message_bytes(line, headers, body);
    let start = encode_utf8(line) + seq![13u8, 10u8];
    let end = seq![13u8, 10u8] + body;
    assert(all.take(start.len() as int) =~= start);
    assert(all.skip(all.len() - end.len()) =~= end);
}

/// The line of one header field.
spec fn field_line(pair: (Seq<char>, Seq<u8>)) -> Seq<u8> {
    encode_utf8(pair.0) + encode_utf8(": "@) + pair.1 + seq![13u8, 10u8]
}

/// Every value of every header field has its line in the message, and the lines stand in the order
/// of the fields: the lines of a list are those of its first part, and behind them those of the
/// rest.
pub proof fn law_every_field_has_its_line(
    first: Seq<(Seq<char>, Seq<u8>)>,
    pair: (Seq<char>, Seq<u8>),
    rest: Seq<(Seq<char>, Seq<u8>)>,
)
    ensures
        field_lines(first + rest) == field_lines(first) + field_lines(rest),
        field_lines(seq![pair]) == encode_utf8(pair.0) + encode_utf8(": "@) + pair.1 + seq![
            13u8,
            10u8,
        ],
        field_lines(Seq::empty()) == Seq::<u8>::empty(),
    decreases rest.len(),
{
    let none = Seq::<(Seq<char>, Seq<u8>)>::empty();
    assert(seq![pair].drop_last() =~= none);
    assert(field_lines(none) =~= Seq::<u8>::empty());
    assert(field_lines(seq![pair]) =~= field_line(pair));
    if rest.len() == 0 {
        assert(first + rest =~= first);
        assert(field_lines(first) + field_lines(rest) =~= field_lines(first));
    } else {
        let part = rest.drop_last();
        law_every_field_has_its_line(first, pair, part);
        assert((first + rest).drop_last() =~= first + part);
        assert(field_lines(first + rest) =~= field_lines(first) + field_lines(rest));
    }
}

} // verus!
