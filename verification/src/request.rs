//! Requests: reading them from a client and writing them to an upstream.
use vstd::prelude::*;
use vstd::slice::{slice_subrange, slice_to_vec};
use vstd::string::*;
use vstd::utf8::*;

use crate::headers::{
    accepts_name, accepts_value, all_addable, built, entry_well_formed, flattened, has_field,
    has_name, header_name, inserted, is_header_value, is_value_byte, law_insert_then_get,
    law_rebuilt_from_pairs, lemma_built_len, lemma_built_pairs, lemma_one_place, list_view,
    place_of, value_of, well_formed, HeaderSeq, Headers, MAX_HEADER_NAMES,
};
use crate::message::{
    accepts_method, content_length, field_lines, head_bytes, is_target, joined, message_bytes,
    parse_uri, push_message, read_content_length, uri_text, version_text, ReadEvent, ReadEventView,
    Version, MAX_BODY_SIZE, MAX_HEADERS_SIZE, MAX_NUM_HEADERS,
};
use crate::parse::{
    fields_are_plain, ignores_behind_request, is_path, keeps_to_room_for_request, parse_error_text,
    parse_request_head, reads_written_request, request_head, request_start,
    waits_for_written_request, ParseError, RequestHead, RequestHeadView,
};
use crate::text::{decimal, is_token, push_bytes, push_decimal};

verus! {

/// A request.
pub struct Request {
    pub method: String,
    pub uri: String,
    pub version: Version,
    pub headers: Headers,
    pub body: Vec<u8>,
}

/// What a request holds.
pub struct RequestView {
    pub method: Seq<char>,
    pub uri: Seq<char>,
    pub version: Version,
    pub headers: HeaderSeq,
    pub body: Seq<u8>,
}

impl View for Request {
    type V = RequestView;

    open spec fn view(&self) -> RequestView {
        RequestView {
            method: self.method@,
            uri: self.uri@,
            version: self.version,
            headers: self.headers@,
            body: self.body@,
        }
    }
}

/// Why no request could be read.
pub enum Error {
    /// The client stopped after this many bytes of a head.
    IncompleteRequest(usize),
    /// The head is not that of a request.
    MalformedRequest(ParseError),
    /// The `Content-Length` field holds no number.
    InvalidContentLength,
    /// The body is shorter or longer than announced.
    ContentLengthMismatch,
    /// The announced body is larger than the limit.
    RequestBodyTooLarge,
    /// The stream failed, with this message.
    ConnectionError(String),
}

/// Why no request could be read.
pub enum ErrorView {
    IncompleteRequest(usize),
    MalformedRequest(ParseError),
    InvalidContentLength,
    ContentLengthMismatch,
    RequestBodyTooLarge,
    ConnectionError(Seq<char>),
}

impl View for Error {
    type V = ErrorView;

    open spec fn view(&self) -> ErrorView {
        match *self {
            Error::IncompleteRequest(n) => ErrorView::IncompleteRequest(n),
            Error::MalformedRequest(error) => ErrorView::MalformedRequest(error),
            Error::InvalidContentLength => ErrorView::InvalidContentLength,
            Error::ContentLengthMismatch => ErrorView::ContentLengthMismatch,
            Error::RequestBodyTooLarge => ErrorView::RequestBodyTooLarge,
            Error::ConnectionError(message) => ErrorView::ConnectionError(message@),
        }
    }
}

/// The message of an error.
pub open spec fn error_text(error: ErrorView) -> Seq<char> {
    match error {
        ErrorView::IncompleteRequest(n) => "incomplete request after reading "@ + decimal(n as nat)
            + " bytes"@,
        ErrorView::MalformedRequest(error) => "malformed request: "@ + parse_error_text(error),
        ErrorView::InvalidContentLength => "invalid Content-Length header"@,
        ErrorView::ContentLengthMismatch => "request body length did not match Content-Length"@,
        ErrorView::RequestBodyTooLarge => "request body exceeded maximum allowed size"@,
        ErrorView::ConnectionError(message) => "connection error: "@ + message,
    }
}

/// The message of what lies behind an error, if something does.
pub open spec fn source_text(error: ErrorView) -> Option<Seq<char>> {
    match error {
        ErrorView::MalformedRequest(error) => Some(parse_error_text(error)),
        ErrorView::ConnectionError(message) => Some(message),
        _ => None,
    }
}

impl Error {
    /// The message of what lies behind the error, if something does.
    pub fn source(&self) -> (source: Option<String>)
        ensures
            match source {
                Some(text) => source_text(self@) == Some(text@),
                None => source_text(self@) is None,
            },
    {
        match self {
            Error::MalformedRequest(error) => Some(error.as_str().to_owned()),
            Error::ConnectionError(message) => Some(message.as_str().to_owned()),
            _ => None,
        }
    }

    /// The message of the error.
    pub fn text(&self) -> (text: String)
        ensures
            text@ == error_text(self@),
    {
        match self {
            Error::IncompleteRequest(n) => {
                let mut text = "incomplete request after reading ".to_owned();
                push_decimal(&mut text, *n);
                text.append(" bytes");
                text
            },
            Error::MalformedRequest(error) => {
                let mut text = "malformed request: ".to_owned();
                text.append(error.as_str());
                text
            },
            Error::InvalidContentLength => "invalid Content-Length header".to_owned(),
            Error::ContentLengthMismatch => {
                "request body length did not match Content-Length".to_owned()
            },
            Error::RequestBodyTooLarge => "request body exceeded maximum allowed size".to_owned(),
            Error::ConnectionError(message) => {
                let mut text = "connection error: ".to_owned();
                text.append(message.as_str());
                text
            },
        }
    }
}

/// What the `Content-Length` field of a request says.
pub fn get_content_length(request: &Request) -> (length: Result<Option<usize>, Error>)
    ensures
        match length {
            Ok(n) => content_length(request@.headers) == Ok::<Option<usize>, ()>(n),
            Err(error) => content_length(request@.headers) is Err && error@
                == ErrorView::InvalidContentLength,
        },
{
    match read_content_length(&request.headers) {
        Ok(n) => Ok(n),
        Err(_) => Err(Error::InvalidContentLength),
    }
}

/// The value that a field gets when a value is added at its end: the old first value, a comma and
/// a blank, and the new value; or the new value alone where there is no old one.
pub open spec fn extended_value(headers: HeaderSeq, field: Seq<char>, value: Seq<u8>) -> Seq<u8> {
    match value_of(headers, field) {
        Some(existing) => existing + encode_utf8(", "@) + value,
        None => value,
    }
}

/// The header fields after a value was added at the end of a field.
pub open spec fn extended(headers: HeaderSeq, field: Seq<char>, value: Seq<u8>) -> HeaderSeq {
    inserted(headers, header_name(field)->0, extended_value(headers, field, value))
}

/// Adds a value at the end of a field.
pub fn extend_header_value(request: &mut Request, name: &'static str, extend_value: &str)
    requires
        well_formed(old(request)@.headers),
        header_name(name@) is Some,
        is_header_value(encode_utf8(extend_value@)),
        old(request)@.headers.len() < MAX_HEADER_NAMES || has_field(old(request)@.headers, name@),
    ensures
        final(request)@ == (RequestView {
            headers: extended(old(request)@.headers, name@, encode_utf8(extend_value@)),
            ..old(request)@
        }),
        well_formed(final(request)@.headers),
{
    let mut new_value: Vec<u8> = Vec::new();
    match request.headers.get(name) {
        Some(existing_value) => {
            push_bytes(&mut new_value, existing_value);
            push_bytes(&mut new_value, ", ".as_bytes());
            push_bytes(&mut new_value, extend_value.as_bytes());
        },
        None => {
            push_bytes(&mut new_value, extend_value.as_bytes());
        },
    }
    proof {
        let headers = request@.headers;
        let value = encode_utf8(extend_value@);
        assert(new_value@ =~= extended_value(headers, name@, value));
        lemma_extended_value(headers, name@, value);
    }
    request.headers.insert(name, new_value.as_slice());
}

/// Adding a header value at the end of a field gives a header value.
proof fn lemma_extended_value(headers: HeaderSeq, field: Seq<char>, value: Seq<u8>)
    requires
        well_formed(headers),
        is_header_value(value),
    ensures
        is_header_value(extended_value(headers, field, value)),
{
    if let Some(existing) = value_of(headers, field) {
        let name = header_name(field)->0;
        let p = place_of(headers, name);
        assert(0 <= p < headers.len() && headers[p].0 == name);
        assert(entry_well_formed(headers[p]));
        assert(existing == headers[p].1[0]);
        assert(is_header_value(existing));
        reveal_strlit(", ");
        let comma = encode_utf8(", "@);
        assert(is_ascii_chars(", "@));
        is_ascii_chars_encode_utf8(", "@);
        assert(", "@[0] as u8 == comma[0]);
        assert(", "@[1] as u8 == comma[1]);
        assert(is_header_value(comma)) by {
            assert forall|i: int| 0 <= i < comma.len() implies is_value_byte(
                #[trigger] comma[i],
            ) by {
                assert(i == 0 || i == 1);
            }
        }
        let whole = extended_value(headers, field, value);
        assert forall|i: int| 0 <= i < whole.len() implies is_value_byte(
            #[trigger] whole[i],
        ) by {
            if i < existing.len() {
                assert(whole[i] == existing[i]);
            } else if i < existing.len() + comma.len() {
                assert(whole[i] == comma[i - existing.len()]);
            } else {
                assert(whole[i] == value[i - existing.len() - comma.len()]);
            }
        }
    }
}

/// After a value was added at the end of a field, the field reads as its old first value with the
/// new value behind it, and every other field reads as before.
pub proof fn law_extended_field(
    headers: HeaderSeq,
    field: Seq<char>,
    value: Seq<u8>,
    other: Seq<char>,
)
    requires
        well_formed(headers),
        header_name(field) is Some,
    ensures
        value_of(extended(headers, field, value), field) == Some(
            extended_value(headers, field, value),
        ),
        header_name(other) != header_name(field) ==> value_of(
            extended(headers, field, value),
            other,
        ) == value_of(headers, other),
{
    law_insert_then_get(headers, field, extended_value(headers, field, value), other);
}

/// A head from which a request can be made: its method, its path and all its header fields are
/// accepted.
pub open spec fn head_is_buildable(head: RequestHeadView) -> bool {
    &&& is_token(head.method)
    &&& uri_text(head.path) is Some
    &&& all_addable(head.headers)
}

/// If the bytes hold a complete head, a request can be made from it.
pub open spec fn is_buildable(buffer: Seq<u8>) -> bool {
    match request_head(buffer, MAX_NUM_HEADERS as nat) {
        Ok(Some(head)) => head_is_buildable(head),
        _ => true,
    }
}

/// The request that a head stands for, without a body.
pub open spec fn request_of_head(head: RequestHeadView, uri: Seq<char>) -> RequestView {
    RequestView {
        method: head.method,
        uri,
        version: Version::Http11,
        headers: built(head.headers),
        body: Seq::empty(),
    }
}

/// What the bytes hold: a request and the length of its head, no complete head yet, or an error.
pub open spec fn parsed_request(buffer: Seq<u8>) -> Result<
    Option<(RequestView, usize)>,
    ErrorView,
> {
    match request_head(buffer, MAX_NUM_HEADERS as nat) {
        Err(error) => Err(ErrorView::MalformedRequest(error)),
        Ok(None) => Ok(None),
        Ok(Some(head)) => Ok(Some((request_of_head(head, uri_text(head.path)->0), head.len))),
    }
}

/// A request that is plainly written: its method is a token and its URI has no blanks, it is
/// written in the version that is read, and its header fields have no blanks at the ends of their
/// values.
pub open spec fn is_plain(request: RequestView) -> bool {
    &&& is_token(request.method)
    &&& is_path(request.uri)
    &&& request.version == Version::Http11
    &&& well_formed(request.headers)
    &&& fields_are_plain(flattened(request.headers))
}

/// A request that can be read back once it is written: it is plainly written, its URI reads as
/// itself, and it has few enough header fields.
pub open spec fn is_readable(request: RequestView) -> bool {
    &&& is_plain(request)
    &&& is_target(request.uri) || uri_text(request.uri) == Some(request.uri)
    &&& flattened(request.headers).len() <= MAX_NUM_HEADERS
}

/// The number of bytes that the head of a request takes.
pub open spec fn head_len(request: RequestView) -> nat {
    head_bytes(request_line(request), flattened(request.headers)).len()
}

/// The bytes are those of a request, from its start on, as far as they go.
pub open spec fn is_part(bytes: Seq<u8>, request: RequestView) -> bool {
    &&& bytes.len() <= request_bytes(request).len()
    &&& bytes == request_bytes(request).take(bytes.len() as int)
}

/// What is read from the bytes of a request that can be read back: nothing yet as long as the head
/// is not complete, and then its head.
pub open spec fn reads_back(buffer: Seq<u8>) -> bool {
    forall|request: RequestView| #[trigger]
        is_part(buffer, request) && is_readable(request) ==> {
            let head = RequestView { body: Seq::empty(), ..request };
            &&& is_buildable(buffer)
            &&& parsed_request(buffer) == if buffer.len() < head_len(request) {
                Ok::<_, ErrorView>(None)
            } else {
                Ok(Some((head, head_len(request) as usize)))
            }
        }
}

/// A path, with or without a query, in the head that the bytes hold reads as itself.
pub open spec fn keeps_target(buffer: Seq<u8>) -> bool {
    request_head(buffer, MAX_NUM_HEADERS as nat) matches Ok(Some(head)) ==> is_target(head.path)
        ==> uri_text(head.path) == Some(head.path)
}

/// A head with more header fields than are taken is refused: the head of a plainly written request,
/// and any head that `httparse` reads where it has more room.
pub open spec fn refuses_many_fields(buffer: Seq<u8>) -> bool {
    let refused = Err::<Option<(RequestView, usize)>, ErrorView>(
        ErrorView::MalformedRequest(ParseError::TooManyHeaders),
    );
    &&& forall|request: RequestView|
        is_plain(request) && flattened(request.headers).len() > MAX_NUM_HEADERS && buffer
            == #[trigger] request_bytes(request) ==> parsed_request(buffer) == refused
    &&& forall|room: nat|
        (#[trigger] request_head(buffer, room)) matches Ok(Some(head)) && head.headers.len()
            > MAX_NUM_HEADERS ==> parsed_request(buffer) == refused
}

/// The bytes behind a head make no difference to what is read.
pub open spec fn ignores_behind_head(buffer: Seq<u8>) -> bool {
    parsed_request(buffer) matches Ok(Some((_, len))) ==> forall|other: Seq<u8>|
        len <= other.len() && other.take(len as int) == buffer.take(len as int)
            ==> is_buildable(other) == is_buildable(buffer) && #[trigger] parsed_request(other)
            == parsed_request(buffer)
}

/// The bytes of a request are its head and its body.
proof fn lemma_head_and_body(request: RequestView, n: int)
    requires
        0 <= n <= request_bytes(request).len(),
    ensures
        request_bytes(request).len() == head_len(request) + request.body.len(),
        n <= head_len(request) ==> request_bytes(request).take(n) == head_bytes(
            request_line(request),
            flattened(request.headers),
        ).take(n),
        n >= head_len(request) ==> request_bytes(request).take(n) == head_bytes(
            request_line(request),
            flattened(request.headers),
        ) + request.body.take(n - head_len(request)),
{
    let head = head_bytes(request_line(request), flattened(request.headers));
    if n <= head_len(request) {
        assert(request_bytes(request).take(n) =~= head.take(n));
    }
    if n >= head_len(request) {
        assert(request_bytes(request).take(n) =~= head + request.body.take(n - head_len(request)));
    }
}

proof fn lemma_reads_back(buffer: Seq<u8>)
    requires
        buffer.len() <= usize::MAX,
        reads_written_request(
            buffer,
            MAX_NUM_HEADERS as nat,
            request_head(buffer, MAX_NUM_HEADERS as nat),
        ),
        waits_for_written_request(
            buffer,
            MAX_NUM_HEADERS as nat,
            request_head(buffer, MAX_NUM_HEADERS as nat),
        ),
        keeps_target(buffer),
    ensures
        reads_back(buffer),
{
    assert forall|request: RequestView| #[trigger]
        is_part(buffer, request) && is_readable(request) implies {
        let head = RequestView { body: Seq::empty(), ..request };
        &&& is_buildable(buffer)
        &&& parsed_request(buffer) == if buffer.len() < head_len(request) {
            Ok::<_, ErrorView>(None)
        } else {
            Ok(Some((head, head_len(request) as usize)))
        }
    } by {
        let list = flattened(request.headers);
        let start = request_start(request.method, request.uri);
        law_rebuilt_from_pairs(request.headers);
        lemma_head_and_body(request, buffer.len() as int);
        assert(request_line(request) == start);
        if buffer.len() < head_len(request) {
            assert(buffer == head_bytes(start, list).take(buffer.len() as int));
        } else {
            let rest = request.body.take(buffer.len() - head_len(request));
            assert(buffer == head_bytes(start, list) + rest);
        }
    }
}

proof fn lemma_refuses_many_fields(buffer: Seq<u8>)
    requires
        reads_written_request(
            buffer,
            MAX_NUM_HEADERS as nat,
            request_head(buffer, MAX_NUM_HEADERS as nat),
        ),
        keeps_to_room_for_request(
            buffer,
            MAX_NUM_HEADERS as nat,
            request_head(buffer, MAX_NUM_HEADERS as nat),
        ),
    ensures
        refuses_many_fields(buffer),
{
    let read = request_head(buffer, MAX_NUM_HEADERS as nat);
    assert forall|request: RequestView|
        is_plain(request) && flattened(request.headers).len() > MAX_NUM_HEADERS && buffer
            == #[trigger] request_bytes(request) implies read is Err && read->Err_0
        == ParseError::TooManyHeaders by {
        let list = flattened(request.headers);
        let start = request_start(request.method, request.uri);
        assert(request_line(request) == start);
        assert(buffer == head_bytes(start, list) + request.body);
    }
}

proof fn lemma_ignores_behind_head(buffer: Seq<u8>)
    requires
        ignores_behind_request(
            buffer,
            MAX_NUM_HEADERS as nat,
            request_head(buffer, MAX_NUM_HEADERS as nat),
        ),
    ensures
        ignores_behind_head(buffer),
{
    let read = request_head(buffer, MAX_NUM_HEADERS as nat);
    if let Ok(Some(head)) = read {
        assert forall|other: Seq<u8>|
            head.len <= other.len() && other.take(head.len as int) == buffer.take(
                head.len as int,
            ) implies is_buildable(other) == is_buildable(buffer)
            && #[trigger] parsed_request(other) == parsed_request(buffer) by {
            assert(request_head(other, MAX_NUM_HEADERS as nat) == read);
        }
    }
}

/// The outcome of parsing a request.
pub open spec fn parse_view(parsed: Result<Option<(Request, usize)>, Error>) -> Result<
    Option<(RequestView, usize)>,
    ErrorView,
> {
    match parsed {
        Ok(Some((request, len))) => Ok(Some((request@, len))),
        Ok(None) => Ok(None),
        Err(error) => Err(error@),
    }
}

/// The request that a head stands for, with the given URI and without a body.
pub fn build_request(head: RequestHead, uri: String) -> (request: Request)
    requires
        all_addable(head@.headers),
        built(head@.headers).len() <= MAX_HEADER_NAMES,
    ensures
        request@ == request_of_head(head@, uri@),
        well_formed(request@.headers),
{
    let headers = Headers::from_list(&head.headers);
    let body: Vec<u8> = Vec::new();
    let request = Request { method: head.method, uri, version: Version::Http11, headers, body };
    assert(request@ == request_of_head(head@, uri@));
    request
}

/// Reads a request head from the start of the bytes.
pub fn parse_request(buffer: &[u8]) -> (parsed: Result<Option<(Request, usize)>, Error>)
    requires
        is_buildable(buffer@),
    ensures
        parse_view(parsed) == parsed_request(buffer@),
        parsed matches Ok(Some((request, len))) ==> {
            &&& well_formed(request@.headers)
            &&& request@.headers.len() <= MAX_NUM_HEADERS
            &&& flattened(request@.headers).len() <= MAX_NUM_HEADERS
            &&& 0 < len <= buffer@.len()
        },
        reads_back(buffer@),
        refuses_many_fields(buffer@),
        ignores_behind_head(buffer@),
        keeps_target(buffer@),
{
    let read = parse_request_head(buffer, MAX_NUM_HEADERS);
    let uri = match &read {
        Ok(Some(head)) => parse_uri(head.path.as_str()),
        _ => None,
    };
    let size: usize = buffer.len();
    assert(buffer@.len() == size);
    proof {
        lemma_reads_back(buffer@);
        lemma_refuses_many_fields(buffer@);
        lemma_ignores_behind_head(buffer@);
    }
    match read {
        Err(error) => Err(Error::MalformedRequest(error)),
        Ok(None) => Ok(None),
        Ok(Some(head)) => {
            let len: usize = head.len;
            proof {
                lemma_built_len(head@.headers);
                lemma_built_pairs(head@.headers);
            }
            Ok(Some((build_request(head, uri.unwrap()), len)))
        },
    }
}

/// Whether every header field of a head is accepted.
pub(crate) fn fields_are_addable(list: &Vec<(String, Vec<u8>)>) -> (addable: bool)
    ensures
        addable == all_addable(list_view(list@)),
{
    let ghost pairs = list_view(list@);
    let mut i: usize = 0;
    while i < list.len()
        invariant
            pairs == list_view(list@),
            i <= list@.len(),
            forall|j: int|
                0 <= j < i ==> header_name((#[trigger] pairs[j]).0) is Some && is_header_value(
                    pairs[j].1,
                ),
        decreases list@.len() - i,
    {
        assert(pairs[i as int] == (list@[i as int].0@, list@[i as int].1@));
        if !accepts_name(list[i].0.as_str()) || !accepts_value(list[i].1.as_slice()) {
            return false;
        }
        i = i + 1;
    }
    true
}

/// Whether a request can be made from the head that the bytes hold, if they hold one.
pub fn can_build_request(buffer: &[u8]) -> (buildable: bool)
    ensures
        buildable == is_buildable(buffer@),
        reads_back(buffer@),
{
    let read = parse_request_head(buffer, MAX_NUM_HEADERS);
    let uri = match &read {
        Ok(Some(head)) => parse_uri(head.path.as_str()),
        _ => None,
    };
    let size: usize = buffer.len();
    assert(buffer@.len() == size);
    proof {
        lemma_reads_back(buffer@);
    }
    match read {
        Ok(Some(head)) => accepts_method(head.method.as_str()) && uri.is_some()
            && fields_are_addable(&head.headers),
        _ => true,
    }
}

/// A request that is being read.
pub enum RequestReader {
    /// The head is not complete; these bytes of it have arrived.
    Head { buffer: Vec<u8> },
    /// The head is complete; the body is shorter than announced.
    Body { request: Request, content_length: usize },
}

/// A request that is being read.
pub enum RequestReaderView {
    Head { buffer: Seq<u8> },
    Body { request: RequestView, content_length: usize },
}

impl View for RequestReader {
    type V = RequestReaderView;

    open spec fn view(&self) -> RequestReaderView {
        match *self {
            RequestReader::Head { buffer } => RequestReaderView::Head { buffer: buffer@ },
            RequestReader::Body { request, content_length } => RequestReaderView::Body {
                request: request@,
                content_length,
            },
        }
    }
}

/// Where reading a request has got to.
pub enum RequestProgress {
    /// More bytes are needed.
    More(RequestReader),
    /// The request is complete.
    Done(Request),
    /// There will be no request.
    Failed(Error),
}

/// Where reading a request has got to.
pub enum RequestProgressView {
    More(RequestReaderView),
    Done(RequestView),
    Failed(ErrorView),
}

impl View for RequestProgress {
    type V = RequestProgressView;

    open spec fn view(&self) -> RequestProgressView {
        match *self {
            RequestProgress::More(reader) => RequestProgressView::More(reader@),
            RequestProgress::Done(request) => RequestProgressView::Done(request@),
            RequestProgress::Failed(error) => RequestProgressView::Failed(error@),
        }
    }
}

/// The bytes of a head fit its limit; a body still to be read is announced, within its limit, and
/// not yet complete.
pub open spec fn reader_well_formed(reader: RequestReaderView) -> bool {
    match reader {
        RequestReaderView::Head { buffer } => buffer.len() <= MAX_HEADERS_SIZE,
        RequestReaderView::Body { request, content_length: n } => {
            &&& well_formed(request.headers)
            &&& request.headers.len() <= MAX_NUM_HEADERS
            &&& flattened(request.headers).len() <= MAX_NUM_HEADERS
            &&& content_length(request.headers) == Ok::<Option<usize>, ()>(Some(n))
            &&& request.body.len() < n <= MAX_BODY_SIZE
        },
    }
}

/// The most bytes that the next read may bring.
pub open spec fn wanted(reader: RequestReaderView) -> int {
    match reader {
        RequestReaderView::Head { buffer } => MAX_HEADERS_SIZE - buffer.len(),
        RequestReaderView::Body { request, content_length: n } => if n < 512 {
            n as int
        } else {
            512
        },
    }
}

/// A request whose body may still be short of what was announced.
pub open spec fn body_progress(request: RequestView, n: usize) -> RequestProgressView {
    if request.body.len() < n {
        RequestProgressView::More(RequestReaderView::Body { request, content_length: n })
    } else {
        RequestProgressView::Done(request)
    }
}

/// A request whose head is complete.
pub open spec fn head_progress(request: RequestView) -> RequestProgressView {
    match content_length(request.headers) {
        Err(_) => RequestProgressView::Failed(ErrorView::InvalidContentLength),
        Ok(None) => RequestProgressView::Done(request),
        Ok(Some(n)) => if n > MAX_BODY_SIZE {
            RequestProgressView::Failed(ErrorView::RequestBodyTooLarge)
        } else {
            body_progress(request, n)
        },
    }
}

/// Where reading a request gets to with one more read.
pub open spec fn read_step(reader: RequestReaderView, event: ReadEventView) -> RequestProgressView {
    match (reader, event) {
        (_, ReadEventView::Failed(message)) => RequestProgressView::Failed(
            ErrorView::ConnectionError(message),
        ),
        (RequestReaderView::Head { buffer }, ReadEventView::End) => RequestProgressView::Failed(
            ErrorView::IncompleteRequest(buffer.len() as usize),
        ),
        (RequestReaderView::Head { buffer }, ReadEventView::Bytes(bytes)) => {
            let all = buffer + bytes;
            match parsed_request(all) {
                Err(error) => RequestProgressView::Failed(error),
                Ok(None) => RequestProgressView::More(RequestReaderView::Head { buffer: all }),
                Ok(Some((request, len))) => head_progress(
                    RequestView { body: all.subrange(len as int, all.len() as int), ..request },
                ),
            }
        },
        (RequestReaderView::Body { .. }, ReadEventView::End) => RequestProgressView::Failed(
            ErrorView::ContentLengthMismatch,
        ),
        (
            RequestReaderView::Body { request, content_length: n },
            ReadEventView::Bytes(bytes),
        ) => if request.body.len() + bytes.len() > n {
            RequestProgressView::Failed(ErrorView::ContentLengthMismatch)
        } else {
            body_progress(RequestView { body: request.body + bytes, ..request }, n)
        },
    }
}

/// Where reading a request is when the first `n` of its bytes have arrived.
pub open spec fn part_progress(request: RequestView, n: int) -> RequestProgressView {
    if n < head_len(request) {
        RequestProgressView::More(
            RequestReaderView::Head { buffer: request_bytes(request).take(n) },
        )
    } else {
        head_progress(
            RequestView { body: request.body.take(n - head_len(request)), ..request },
        )
    }
}

/// If a read brings more of the bytes of a request that can be read back, reading is where those
/// bytes end.
pub open spec fn gives_back(
    reader: RequestReaderView,
    event: ReadEventView,
    progress: RequestProgressView,
) -> bool {
    match (reader, event) {
        (RequestReaderView::Head { buffer }, ReadEventView::Bytes(bytes)) => forall|
            request: RequestView,
        | #[trigger]
            is_part(buffer + bytes, request) && is_readable(request) ==> progress
                == part_progress(request, (buffer + bytes).len() as int),
        _ => true,
    }
}

/// If a read completes a head, a path in it, with or without a query, reads as itself.
pub open spec fn event_keeps_target(reader: RequestReaderView, event: ReadEventView) -> bool {
    match (reader, event) {
        (RequestReaderView::Head { buffer }, ReadEventView::Bytes(bytes)) => keeps_target(
            buffer + bytes,
        ),
        _ => true,
    }
}

/// A read brings more of the bytes of a request that can be read back.
pub open spec fn brings_request(reader: RequestReaderView, event: ReadEventView) -> bool {
    match (reader, event) {
        (RequestReaderView::Head { buffer }, ReadEventView::Bytes(bytes)) => exists|
            request: RequestView,
        | #[trigger]
            is_part(buffer + bytes, request) && is_readable(request),
        _ => false,
    }
}

/// A request that announces no body, or just the body that it has, is complete with its head.
pub proof fn law_whole_request_is_done(request: RequestView)
    requires
        request.body.len() <= 10_000_000,
        content_length(request.headers) == Ok::<Option<usize>, ()>(None) || content_length(
            request.headers,
        ) == Ok::<Option<usize>, ()>(Some(request.body.len() as usize)),
    ensures
        head_progress(request) == RequestProgressView::Done(request),
{
}

/// What a read may bring: at least one byte, and no more than is wanted.
pub open spec fn event_fits(reader: RequestReaderView, event: ReadEventView) -> bool {
    event matches ReadEventView::Bytes(bytes) ==> 0 < bytes.len() <= wanted(reader)
}

/// If the read completes a head, a request can be made from it.
pub open spec fn event_is_buildable(reader: RequestReaderView, event: ReadEventView) -> bool {
    match (reader, event) {
        (RequestReaderView::Head { buffer }, ReadEventView::Bytes(bytes)) => is_buildable(
            buffer + bytes,
        ),
        _ => true,
    }
}

/// What holds of every outcome of a read: a reader is well-formed, and a request is whole.
pub open spec fn progress_well_formed(progress: RequestProgressView) -> bool {
    match progress {
        RequestProgressView::More(reader) => reader_well_formed(reader),
        RequestProgressView::Done(request) => is_whole(request),
        RequestProgressView::Failed(_) => true,
    }
}

/// A request as it is handed on: few enough header fields, and a body at least as long as
/// announced.
pub open spec fn is_whole(request: RequestView) -> bool {
    &&& well_formed(request.headers)
    &&& request.headers.len() <= MAX_NUM_HEADERS
    &&& flattened(request.headers).len() <= MAX_NUM_HEADERS
    &&& match content_length(request.headers) {
        Err(_) => false,
        Ok(None) => true,
        Ok(Some(n)) => n <= request.body.len() && n <= MAX_BODY_SIZE,
    }
}

impl RequestReader {
    /// Nothing has been read yet.
    pub fn new() -> (reader: RequestReader)
        ensures
            reader@ == (RequestReaderView::Head { buffer: Seq::empty() }),
            reader_well_formed(reader@),
    {
        RequestReader::Head { buffer: Vec::new() }
    }

    /// The most bytes that the next read may bring.
    pub fn wants(&self) -> (wants: usize)
        requires
            reader_well_formed(self@),
        ensures
            wants == wanted(self@),
    {
        match self {
            RequestReader::Head { buffer } => MAX_HEADERS_SIZE - buffer.len(),
            RequestReader::Body { request, content_length } => if *content_length < 512 {
                *content_length
            } else {
                512
            },
        }
    }
}

/// Goes on with a request whose body may still be short of what was announced.
fn continue_body(request: Request, n: usize) -> (progress: RequestProgress)
    requires
        well_formed(request@.headers),
        request@.headers.len() <= MAX_NUM_HEADERS,
        flattened(request@.headers).len() <= MAX_NUM_HEADERS,
        content_length(request@.headers) == Ok::<Option<usize>, ()>(Some(n)),
        n <= MAX_BODY_SIZE,
    ensures
        progress@ == body_progress(request@, n),
        progress_well_formed(progress@),
{
    if request.body.len() < n {
        RequestProgress::More(RequestReader::Body { request, content_length: n })
    } else {
        RequestProgress::Done(request)
    }
}

/// Goes on with a request whose head is complete.
fn finish_head(request: Request) -> (progress: RequestProgress)
    requires
        well_formed(request@.headers),
        request@.headers.len() <= MAX_NUM_HEADERS,
        flattened(request@.headers).len() <= MAX_NUM_HEADERS,
    ensures
        progress@ == head_progress(request@),
        progress_well_formed(progress@),
{
    match get_content_length(&request) {
        Err(error) => RequestProgress::Failed(error),
        Ok(None) => RequestProgress::Done(request),
        Ok(Some(n)) => {
            if n > MAX_BODY_SIZE {
                RequestProgress::Failed(Error::RequestBodyTooLarge)
            } else {
                continue_body(request, n)
            }
        },
    }
}

proof fn lemma_gives_back(buffer: Seq<u8>, bytes: Seq<u8>)
    requires
        reads_back(buffer + bytes),
        buffer.len() + bytes.len() <= usize::MAX,
    ensures
        ({
            let reader = RequestReaderView::Head { buffer };
            let event = ReadEventView::Bytes(bytes);
            gives_back(reader, event, read_step(reader, event))
        }),
{
    let all = buffer + bytes;
    let reader = RequestReaderView::Head { buffer };
    let event = ReadEventView::Bytes(bytes);
    assert forall|request: RequestView| #[trigger]
        is_part(all, request) && is_readable(request) implies read_step(reader, event)
        == part_progress(
        request,
        all.len() as int,
    ) by {
        lemma_head_and_body(request, all.len() as int);
        if all.len() >= head_len(request) {
            let len = head_len(request) as int;
            assert(all.subrange(len, all.len() as int) =~= request.body.take(all.len() - len));
        }
    }
}

/// Goes on reading a request with what came of one more read.
///
/// A request that was written comes back: whatever part of its bytes is here, that part is read.
pub fn read_from_stream(reader: RequestReader, event: ReadEvent) -> (progress: RequestProgress)
    requires
        reader_well_formed(reader@),
        event_fits(reader@, event@),
        event_is_buildable(reader@, event@),
    ensures
        progress@ == read_step(reader@, event@),
        progress_well_formed(progress@),
        gives_back(reader@, event@, progress@),
        event_keeps_target(reader@, event@),
{
    let bytes = match event {
        ReadEvent::Failed(message) => {
            return RequestProgress::Failed(Error::ConnectionError(message));
        },
        ReadEvent::End => {
            return match reader {
                RequestReader::Head { buffer } => RequestProgress::Failed(
                    Error::IncompleteRequest(buffer.len()),
                ),
                RequestReader::Body { .. } => RequestProgress::Failed(Error::ContentLengthMismatch),
            };
        },
        ReadEvent::Bytes(bytes) => bytes,
    };
    match reader {
        RequestReader::Head { buffer } => {
            let mut all = buffer;
            push_bytes(&mut all, bytes.as_slice());
            let parsed = parse_request(all.as_slice());
            let total: usize = all.len();
            assert(buffer@.len() + bytes@.len() == total);
            proof {
                lemma_gives_back(buffer@, bytes@);
            }
            match parsed {
                Err(error) => RequestProgress::Failed(error),
                Ok(None) => RequestProgress::More(RequestReader::Head { buffer: all }),
                Ok(Some((request, len))) => {
                    let mut request = request;
                    request.body = slice_to_vec(slice_subrange(all.as_slice(), len, total));
                    finish_head(request)
                },
            }
        },
        RequestReader::Body { request, content_length } => {
            if request.body.len() + bytes.len() > content_length {
                return RequestProgress::Failed(Error::ContentLengthMismatch);
            }
            let mut request = request;
            push_bytes(&mut request.body, bytes.as_slice());
            continue_body(request, content_length)
        },
    }
}

/// Goes on reading a request, or gives nothing where the read completes a head from which no
/// request can be made.
pub fn try_read_from_stream(reader: RequestReader, event: ReadEvent) -> (progress: Option<
    RequestProgress,
>)
    requires
        reader_well_formed(reader@),
        event_fits(reader@, event@),
    ensures
        progress is Some <==> event_is_buildable(reader@, event@),
        progress matches Some(next) ==> next@ == read_step(reader@, event@) && progress_well_formed(
            next@,
        ) && gives_back(reader@, event@, next@) && event_keeps_target(reader@, event@),
        brings_request(reader@, event@) ==> progress is Some,
{
    let buildable = match (&reader, &event) {
        (RequestReader::Head { buffer }, ReadEvent::Bytes(bytes)) => {
            let mut all: Vec<u8> = Vec::new();
            push_bytes(&mut all, buffer.as_slice());
            push_bytes(&mut all, bytes.as_slice());
            assert(all@ =~= buffer@ + bytes@);
            can_build_request(all.as_slice())
        },
        _ => true,
    };
    if buildable {
        Some(read_from_stream(reader, event))
    } else {
        None
    }
}

/// Where reading a request gets to with several pieces of its bytes.
pub open spec fn fed(reader: RequestReaderView, pieces: Seq<Seq<u8>>) -> RequestProgressView
    decreases pieces.len(),
{
    if pieces.len() == 0 {
        RequestProgressView::More(reader)
    } else {
        match read_step(reader, ReadEventView::Bytes(pieces[0])) {
            RequestProgressView::More(next) => fed(next, pieces.drop_first()),
            other => other,
        }
    }
}

/// However the missing part of an announced body is cut into pieces, the request ends up with the
/// same body.
pub proof fn law_body_in_any_pieces(request: RequestView, n: usize, pieces: Seq<Seq<u8>>)
    requires
        forall|i: int| 0 <= i < pieces.len() ==> (#[trigger] pieces[i]).len() > 0,
        request.body.len() < n,
        request.body.len() + joined(pieces).len() == n,
    ensures
        fed(RequestReaderView::Body { request, content_length: n }, pieces)
            == RequestProgressView::Done(
            RequestView { body: request.body + joined(pieces), ..request },
        ),
    decreases pieces.len(),
{
    assert(pieces.len() > 0);
    let first = pieces[0];
    let rest = pieces.drop_first();
    let next = RequestView { body: request.body + first, ..request };
    assert(next.body + joined(rest) =~= request.body + joined(pieces));
    if next.body.len() < n {
        assert forall|i: int| 0 <= i < rest.len() implies (#[trigger] rest[i]).len() > 0 by {
            assert(rest[i] == pieces[i + 1]);
        }
        law_body_in_any_pieces(next, n, rest);
    } else {
        assert(rest.len() == 0) by {
            if rest.len() > 0 {
                assert(rest[0] == pieces[1]);
                assert(joined(rest).len() >= rest[0].len());
            }
        }
        assert(joined(rest) =~= Seq::<u8>::empty());
        assert(next.body =~= request.body + joined(pieces));
    }
}

/// The first line of a request.
pub open spec fn request_line(request: RequestView) -> Seq<char> {
    request.method + " "@ + request.uri + " "@ + version_text(request.version)
}

/// The first line of a request.
pub fn format_request_line(request: &Request) -> (line: String)
    ensures
        line@ == request_line(request@),
{
    let mut line = request.method.as_str().to_owned();
    line.append(" ");
    line.append(request.uri.as_str());
    line.append(" ");
    line.append(request.version.as_str());
    line
}

/// The outcomes of reading pieces of bytes one after the other, as far as each of them asked for
/// more. Each outcome is what the contract of a read says of it.
pub open spec fn is_reading(pieces: Seq<Seq<u8>>, outcomes: Seq<RequestProgressView>) -> bool {
    &&& outcomes.len() == pieces.len() + 1
    &&& forall|i: int|
        0 <= i < pieces.len() ==> {
            let event = ReadEventView::Bytes(#[trigger] pieces[i]);
            outcomes[i] matches RequestProgressView::More(reader) ==> {
                &&& outcomes[i + 1] == read_step(reader, event)
                &&& gives_back(reader, event, outcomes[i + 1])
            }
        }
}

/// A request that was written is read back, into whatever pieces its bytes are cut: when the last
/// one has arrived, reading it is done.
pub proof fn law_written_request_is_read(
    request: RequestView,
    pieces: Seq<Seq<u8>>,
    outcomes: Seq<RequestProgressView>,
)
    requires
        is_readable(request),
        request.body.len() <= 10_000_000,
        content_length(request.headers) == Ok::<Option<usize>, ()>(
            Some(request.body.len() as usize),
        ) || content_length(request.headers) == Ok::<Option<usize>, ()>(None)
            && request.body.len() == 0,
        forall|i: int| 0 <= i < pieces.len() ==> (#[trigger] pieces[i]).len() > 0,
        joined(pieces) == request_bytes(request),
        is_reading(pieces, outcomes),
        outcomes[0] == RequestProgressView::More(RequestReaderView::Head { buffer: Seq::empty() }),
    ensures
        outcomes.last() == RequestProgressView::Done(request),
{
    let all = request_bytes(request);
    assert(all.take(0) =~= Seq::empty());
    assert(all.subrange(0, all.len() as int) =~= all);
    lemma_head_and_body(request, 0);
    assert(head_len(request) > 0);
    lemma_reading_goes_on(request, 0, pieces, outcomes);
}

proof fn lemma_reading_goes_on(
    request: RequestView,
    n: int,
    pieces: Seq<Seq<u8>>,
    outcomes: Seq<RequestProgressView>,
)
    requires
        is_readable(request),
        request.body.len() <= MAX_BODY_SIZE,
        content_length(request.headers) == Ok::<Option<usize>, ()>(
            Some(request.body.len() as usize),
        ) || content_length(request.headers) == Ok::<Option<usize>, ()>(None)
            && request.body.len() == 0,
        forall|i: int| 0 <= i < pieces.len() ==> (#[trigger] pieces[i]).len() > 0,
        0 <= n <= request_bytes(request).len(),
        joined(pieces) == request_bytes(request).subrange(
            n,
            request_bytes(request).len() as int,
        ),
        is_reading(pieces, outcomes),
        outcomes[0] == part_progress(request, n),
    ensures
        outcomes.last() == RequestProgressView::Done(request),
    decreases pieces.len(),
{
    let all = request_bytes(request);
    lemma_head_and_body(request, n);
    if pieces.len() == 0 {
        assert(n == all.len());
        assert(request.body.take(n - head_len(request)) =~= request.body);
    } else {
        let first = pieces[0];
        let rest = pieces.drop_first();
        let after = n + first.len();
        assert(joined(pieces) == first + joined(rest));
        assert(after <= all.len());
        assert(first =~= all.subrange(n, after)) by {
            assert(first =~= joined(pieces).take(first.len() as int));
        }
        assert(joined(rest) =~= all.subrange(after, all.len() as int)) by {
            assert(joined(rest) =~= joined(pieces).skip(first.len() as int));
        }
        assert(all.take(n) + first =~= all.take(after));
        lemma_head_and_body(request, after);
        assert(outcomes[1] == part_progress(request, after)) by {
            if n < head_len(request) {
                assert(is_part(all.take(n) + first, request));
            } else {
                let had = n - head_len(request);
                let has = after - head_len(request);
                assert(request.body.take(had) + first =~= request.body.take(has)) by {
                    assert forall|i: int| 0 <= i < first.len() implies first[i]
                        == request.body[had + i] by {
                        assert(first[i] == all[n + i]);
                    }
                }
            }
        }
        let outcomes_rest = outcomes.drop_first();
        assert forall|i: int| 0 <= i < rest.len() implies (#[trigger] rest[i]).len() > 0 && {
            let event = ReadEventView::Bytes(rest[i]);
            outcomes_rest[i] matches RequestProgressView::More(reader) ==> {
                &&& outcomes_rest[i + 1] == read_step(reader, event)
                &&& gives_back(reader, event, outcomes_rest[i + 1])
            }
        } by {
            assert(rest[i] == pieces[i + 1]);
            assert(outcomes_rest[i] == outcomes[i + 1]);
            assert(outcomes_rest[i + 1] == outcomes[i + 2]);
        }
        lemma_reading_goes_on(request, after, rest, outcomes_rest);
        assert(outcomes_rest.last() == outcomes.last());
    }
}

/// A request as it goes over the wire.
pub open spec fn request_bytes(request: RequestView) -> Seq<u8> {
    message_bytes(request_line(request), request.headers, request.body)
}

/// Appends a request to the bytes that go out on a stream.
pub fn write_to_stream(request: &Request, stream: &mut Vec<u8>)
    ensures
        final(stream)@ == old(stream)@ + request_bytes(request@),
{
    let line = format_request_line(request);
    push_message(stream, line.as_str(), &request.headers, &request.body);
}

/// A request whose head is complete is done if it announces no body or has as much of it as it
/// announces, waits for the rest of what it announces, and is refused where that is more than ten
/// million bytes or no number. All that stands behind the head is its body so far.
pub proof fn law_request_waits_for_its_body(
    buffer: Seq<u8>,
    bytes: Seq<u8>,
    head: RequestView,
    len: usize,
)
    requires
        parsed_request(buffer + bytes) == Ok::<_, ErrorView>(Some((head, len))),
        len <= buffer.len() + bytes.len(),
    ensures
        ({
            let progress = read_step(
                RequestReaderView::Head { buffer },
                ReadEventView::Bytes(bytes),
            );
            let request = RequestView { body: (buffer + bytes).skip(len as int), ..head };
            match content_length(head.headers) {
                Err(_) => progress == RequestProgressView::Failed(ErrorView::InvalidContentLength),
                Ok(None) => progress == RequestProgressView::Done(request),
                Ok(Some(n)) => if n > 10_000_000 {
                    progress == RequestProgressView::Failed(ErrorView::RequestBodyTooLarge)
                } else if request.body.len() >= n {
                    progress == RequestProgressView::Done(request)
                } else {
                    progress == RequestProgressView::More(
                        RequestReaderView::Body { request, content_length: n },
                    )
                },
            }
        }),
{
    let all = buffer + bytes;
    assert(all.subrange(len as int, all.len() as int) =~= all.skip(len as int));
}

/// A request whose body is being read is done just when it is as long as announced. What arrives is
/// added to the body and changes nothing else of the request. A body that is longer than announced,
/// or ends too early, is an error.
pub proof fn law_body_is_gathered(
    request: RequestView,
    n: usize,
    bytes: Seq<u8>,
    message: Seq<char>,
)
    ensures
        ({
            let reader = RequestReaderView::Body { request, content_length: n };
            let longer = RequestView { body: request.body + bytes, ..request };
            let progress = read_step(reader, ReadEventView::Bytes(bytes));
            &&& longer.body.len() > n ==> progress == RequestProgressView::Failed(
                ErrorView::ContentLengthMismatch,
            )
            &&& longer.body.len() == n ==> progress == RequestProgressView::Done(longer)
            &&& longer.body.len() < n ==> progress == RequestProgressView::More(
                RequestReaderView::Body { request: longer, content_length: n },
            )
            &&& read_step(reader, ReadEventView::End) == RequestProgressView::Failed(
                ErrorView::ContentLengthMismatch,
            )
            &&& read_step(reader, ReadEventView::Failed(message)) == RequestProgressView::Failed(
                ErrorView::ConnectionError(message),
            )
        }),
{
}

/// A head that is not complete waits for more bytes, with all that came kept; where the stream ends
/// or fails, or the bytes are no head, it is an error that says so.
pub proof fn law_head_is_gathered(buffer: Seq<u8>, bytes: Seq<u8>, message: Seq<char>)
    requires
        buffer.len() <= usize::MAX,
    ensures
        ({
            let reader = RequestReaderView::Head { buffer };
            &&& parsed_request(buffer + bytes) == Ok::<Option<(RequestView, usize)>, ErrorView>(
                None,
            ) ==> read_step(reader, ReadEventView::Bytes(bytes)) == RequestProgressView::More(
                RequestReaderView::Head { buffer: buffer + bytes },
            )
            &&& request_head(buffer + bytes, 32) matches Err(error) ==> read_step(
                reader,
                ReadEventView::Bytes(bytes),
            ) == RequestProgressView::Failed(ErrorView::MalformedRequest(error))
            &&& read_step(reader, ReadEventView::End) matches RequestProgressView::Failed(
                ErrorView::IncompleteRequest(n),
            ) && n == buffer.len()
            &&& read_step(reader, ReadEventView::Failed(message)) == RequestProgressView::Failed(
                ErrorView::ConnectionError(message),
            )
        }),
{
}

/// The request that is read from a head has its method and its header fields, in order, and its
/// path as a URI.
pub proof fn law_request_is_that_of_its_head(buffer: Seq<u8>, head: RequestHeadView)
    requires
        request_head(buffer, 32) == Ok::<_, ParseError>(Some(head)),
        uri_text(head.path) is Some,
    ensures
        parsed_request(buffer) matches Ok(Some((request, len))) && {
            &&& len == head.len
            &&& request.method == head.method
            &&& uri_text(head.path) == Some(request.uri)
            &&& request.version == Version::Http11
            &&& request.headers == built(head.headers)
            &&& request.body.len() == 0
        },
{
}

/// Adding a value at the end of a field keeps all other fields as they are, in their places, with
/// all their values. The field itself has one value then: its first value so far, a comma and a
/// blank, and the new value; or the new value alone, behind all other fields, where it had none.
pub proof fn law_extending_keeps_all_other_fields(
    headers: HeaderSeq,
    field: Seq<char>,
    value: Seq<u8>,
    i: int,
)
    requires
        well_formed(headers),
        header_name(field) is Some,
        0 <= i < headers.len(),
    ensures
        ({
            let after = extended(headers, field, value);
            let name = header_name(field)->0;
            &&& headers[i].0 != name ==> after[i] == headers[i]
            &&& headers[i].0 == name ==> after.len() == headers.len() && after[i] == (
                name,
                seq![headers[i].1[0] + encode_utf8(", "@) + value],
            )
            &&& (forall|j: int| 0 <= j < headers.len() ==> (#[trigger] headers[j]).0 != name)
                ==> after == headers.push((name, seq![value]))
        }),
{
    let name = header_name(field)->0;
    if headers[i].0 == name {
        lemma_one_place(headers, i);
    }
    if has_name(headers, name) {
        let p = place_of(headers, name);
        assert(0 <= p < headers.len() && headers[p].0 == name);
    }
}

/// An error is told with the whole message of what lies behind it.
pub proof fn law_errors_tell_what_lies_behind(n: usize, error: ParseError, message: Seq<char>)
    ensures
        error_text(ErrorView::IncompleteRequest(n)) == "incomplete request after reading "@
            + decimal(n as nat) + " bytes"@,
        error_text(ErrorView::MalformedRequest(error)) == "malformed request: "@ + parse_error_text(
            error,
        ),
        error_text(ErrorView::ConnectionError(message)) == "connection error: "@ + message,
        source_text(ErrorView::MalformedRequest(error)) == Some(parse_error_text(error)),
        source_text(ErrorView::ConnectionError(message)) == Some(message),
{
}

/// A request can be made from a head unless one of its parts is not accepted. Bytes that hold no
/// complete head are no hindrance.
pub proof fn law_made_from_any_accepted_head(buffer: Seq<u8>)
    ensures
        request_head(buffer, 32) matches Ok(Some(head)) ==> (is_buildable(buffer) <==> {
            &&& is_token(head.method)
            &&& uri_text(head.path) is Some
            &&& forall|i: int|
                0 <= i < head.headers.len() ==> header_name((#[trigger] head.headers[i]).0) is Some
                    && is_header_value(head.headers[i].1)
        }),
        request_head(buffer, 32) is Err ==> is_buildable(buffer),
        request_head(buffer, 32) == Ok::<Option<RequestHeadView>, ParseError>(None)
            ==> is_buildable(buffer),
{
}

/// A request is written as its first line, its header fields and its body.
pub proof fn law_request_is_written_whole(request: RequestView)
    ensures
        request_line(request) == request.method + " "@ + request.uri + " "@ + version_text(
            request.version,
        ),
        request_bytes(request) == encode_utf8(request_line(request)) + seq![13u8, 10u8]
            + field_lines(flattened(request.headers)) + seq![13u8, 10u8] + request.body,
{
}

} // verus!
