//! Responses: reading them from an upstream and writing them to a client.
use vstd::prelude::*;
use vstd::slice::{slice_subrange, slice_to_vec};
use vstd::string::*;
use vstd::utf8::*;

use crate::headers::{
    all_addable, appended, built, flattened, has_name, header_name, is_header_value, is_value_byte,
    is_visible_byte, is_visible_text, law_rebuilt_from_pairs, lemma_built_len, lemma_built_pairs,
    place_of, value_of, well_formed, HeaderSeq, Headers, MAX_HEADER_NAMES,
};
use crate::message::{
    content_length, field_lines, head_bytes, is_status, joined, message_bytes, push_message,
    read_content_length, reason_or_empty, reason_text, version_text, ReadEvent, ReadEventView,
    Version, MAX_BODY_SIZE, MAX_HEADERS_SIZE, MAX_NUM_HEADERS,
};
use crate::parse::{
    fields_are_plain, ignores_behind_response, keeps_to_room_for_response, parse_error_text,
    parse_response_head, reads_written_response, response_head, response_start,
    waits_for_written_response, ParseError, ResponseHead, ResponseHeadView,
};
use crate::request::fields_are_addable;
use crate::text::{
    decimal, decimal_text, is_digits, is_token, law_decimal_reads_back, lemma_decimal_bytes,
    lower_char, push_bytes, push_decimal, text_equal,
};

verus! {

/// A response.
pub struct Response {
    pub status: u16,
    pub version: Version,
    pub headers: Headers,
    pub body: Vec<u8>,
}

/// What a response holds.
pub struct ResponseView {
    pub status: u16,
    pub version: Version,
    pub headers: HeaderSeq,
    pub body: Seq<u8>,
}

impl View for Response {
    type V = ResponseView;

    open spec fn view(&self) -> ResponseView {
        ResponseView {
            status: self.status,
            version: self.version,
            headers: self.headers@,
            body: self.body@,
        }
    }
}

/// The status is a status code and the header fields are well-formed.
pub open spec fn response_well_formed(response: ResponseView) -> bool {
    &&& is_status(response.status)
    &&& well_formed(response.headers)
}

/// Why no response could be read.
pub enum Error {
    /// The upstream stopped before the end of the head.
    IncompleteResponse,
    /// The head is not that of a response.
    MalformedResponse(ParseError),
    /// The `Content-Length` field holds no number.
    InvalidContentLength,
    /// The body is shorter or longer than announced.
    ContentLengthMismatch,
    /// The body is larger than the limit.
    ResponseBodyTooLarge,
    /// The stream failed, with this message.
    ConnectionError(String),
}

/// Why no response could be read.
pub enum ErrorView {
    IncompleteResponse,
    MalformedResponse(ParseError),
    InvalidContentLength,
    ContentLengthMismatch,
    ResponseBodyTooLarge,
    ConnectionError(Seq<char>),
}

impl View for Error {
    type V = ErrorView;

    open spec fn view(&self) -> ErrorView {
        match *self {
            Error::IncompleteResponse => ErrorView::IncompleteResponse,
            Error::MalformedResponse(error) => ErrorView::MalformedResponse(error),
            Error::InvalidContentLength => ErrorView::InvalidContentLength,
            Error::ContentLengthMismatch => ErrorView::ContentLengthMismatch,
            Error::ResponseBodyTooLarge => ErrorView::ResponseBodyTooLarge,
            Error::ConnectionError(message) => ErrorView::ConnectionError(message@),
        }
    }
}

/// The message of an error.
pub open spec fn error_text(error: ErrorView) -> Seq<char> {
    match error {
        ErrorView::IncompleteResponse => "incomplete response"@,
        ErrorView::MalformedResponse(error) => "malformed response: "@ + parse_error_text(error),
        ErrorView::InvalidContentLength => "invalid Content-Length header"@,
        ErrorView::ContentLengthMismatch => "response body length did not match Content-Length"@,
        ErrorView::ResponseBodyTooLarge => "response body exceeded maximum allowed size"@,
        ErrorView::ConnectionError(message) => "connection error: "@ + message,
    }
}

/// The message of what lies behind an error, if something does.
pub open spec fn source_text(error: ErrorView) -> Option<Seq<char>> {
    match error {
        ErrorView::MalformedResponse(error) => Some(parse_error_text(error)),
        ErrorView::ConnectionError(message) => Some(message),
        _ => None,
    }
}

impl Error {
    /// The message of what lies behind the error, if something does.
    pub fn source(&self) -> (source: Option<String>)
        ensures
            match source {
                Some(text) => source_text(self@) == Some(text@),
                None => source_text(self@) is None,
            },
    {
        match self {
            Error::MalformedResponse(error) => Some(error.as_str().to_owned()),
            Error::ConnectionError(message) => Some(message.as_str().to_owned()),
            _ => None,
        }
    }

    /// The message of the error.
    pub fn text(&self) -> (text: String)
        ensures
            text@ == error_text(self@),
    {
        match self {
            Error::IncompleteResponse => "incomplete response".to_owned(),
            Error::MalformedResponse(error) => {
                let mut text = "malformed response: ".to_owned();
                text.append(error.as_str());
                text
            },
            Error::InvalidContentLength => "invalid Content-Length header".to_owned(),
            Error::ContentLengthMismatch => {
                "response body length did not match Content-Length".to_owned()
            },
            Error::ResponseBodyTooLarge => "response body exceeded maximum allowed size".to_owned(),
            Error::ConnectionError(message) => {
                let mut text = "connection error: ".to_owned();
                text.append(message.as_str());
                text
            },
        }
    }
}

/// What the `Content-Length` field of a response says.
pub fn get_content_length(response: &Response) -> (length: Result<Option<usize>, Error>)
    ensures
        match length {
            Ok(n) => content_length(response@.headers) == Ok::<Option<usize>, ()>(n),
            Err(error) => content_length(response@.headers) is Err && error@
                == ErrorView::InvalidContentLength,
        },
{
    match read_content_length(&response.headers) {
        Ok(n) => Ok(n),
        Err(_) => Err(Error::InvalidContentLength),
    }
}

/// A head from which a response can be made: its code is a status code and all its header fields
/// are accepted.
pub open spec fn head_is_buildable(head: ResponseHeadView) -> bool {
    &&& is_status(head.code)
    &&& all_addable(head.headers)
}

/// If the bytes hold a complete head, a response can be made from it.
pub open spec fn is_buildable(buffer: Seq<u8>) -> bool {
    match response_head(buffer, MAX_NUM_HEADERS as nat) {
        Ok(Some(head)) => head_is_buildable(head),
        _ => true,
    }
}

/// The response that a head stands for, without a body.
pub open spec fn response_of_head(head: ResponseHeadView) -> ResponseView {
    ResponseView {
        status: head.code,
        version: Version::Http11,
        headers: built(head.headers),
        body: Seq::empty(),
    }
}

/// What the bytes hold: a response and the length of its head, no complete head yet, or an error.
pub open spec fn parsed_response(buffer: Seq<u8>) -> Result<
    Option<(ResponseView, usize)>,
    ErrorView,
> {
    match response_head(buffer, MAX_NUM_HEADERS as nat) {
        Err(error) => Err(ErrorView::MalformedResponse(error)),
        Ok(None) => Ok(None),
        Ok(Some(head)) => Ok(Some((response_of_head(head), head.len))),
    }
}

/// A response that is plainly written: its status code is one and its reason phrase is plain, it is
/// written in the version that is read, and its header fields have no blanks at the ends of their
/// values.
pub open spec fn is_plain(response: ResponseView) -> bool {
    &&& is_status(response.status)
    &&& is_header_value(encode_utf8(reason_or_empty(response.status)))
    &&& response.version == Version::Http11
    &&& well_formed(response.headers)
    &&& fields_are_plain(flattened(response.headers))
}

/// A response that can be read back once it is written: it is plainly written and has few enough
/// header fields.
pub open spec fn is_readable(response: ResponseView) -> bool {
    &&& is_plain(response)
    &&& flattened(response.headers).len() <= MAX_NUM_HEADERS
}

/// The number of bytes that the head of a response takes.
pub open spec fn head_len(response: ResponseView) -> nat {
    head_bytes(response_line(response), flattened(response.headers)).len()
}

/// The bytes are those of a response, from its start on, as far as they go.
pub open spec fn is_part(bytes: Seq<u8>, response: ResponseView) -> bool {
    &&& bytes.len() <= response_bytes(response).len()
    &&& bytes == response_bytes(response).take(bytes.len() as int)
}

/// What is read from the bytes of a response that can be read back: nothing yet as long as the head
/// is not complete, and then its head.
pub open spec fn reads_back(buffer: Seq<u8>) -> bool {
    forall|response: ResponseView| #[trigger]
        is_part(buffer, response) && is_readable(response) ==> {
            let head = ResponseView { body: Seq::empty(), ..response };
            &&& is_buildable(buffer)
            &&& parsed_response(buffer) == if buffer.len() < head_len(response) {
                Ok::<_, ErrorView>(None)
            } else {
                Ok(Some((head, head_len(response) as usize)))
            }
        }
}

/// A head with more header fields than are taken is refused: the head of a plainly written
/// response, and any head that `httparse` reads where it has more room.
pub open spec fn refuses_many_fields(buffer: Seq<u8>) -> bool {
    let refused = Err::<Option<(ResponseView, usize)>, ErrorView>(
        ErrorView::MalformedResponse(ParseError::TooManyHeaders),
    );
    &&& forall|response: ResponseView|
        is_plain(response) && flattened(response.headers).len() > MAX_NUM_HEADERS && buffer
            == #[trigger] response_bytes(response) ==> parsed_response(buffer) == refused
    &&& forall|room: nat|
        (#[trigger] response_head(buffer, room)) matches Ok(Some(head)) && head.headers.len()
            > MAX_NUM_HEADERS ==> parsed_response(buffer) == refused
}

/// The bytes behind a head make no difference to what is read.
pub open spec fn ignores_behind_head(buffer: Seq<u8>) -> bool {
    parsed_response(buffer) matches Ok(Some((_, len))) ==> forall|other: Seq<u8>|
        len <= other.len() && other.take(len as int) == buffer.take(len as int)
            ==> is_buildable(other) == is_buildable(buffer) && #[trigger] parsed_response(other)
            == parsed_response(buffer)
}

/// The bytes of a response are its head and its body.
proof fn lemma_head_and_body(response: ResponseView, n: int)
    requires
        0 <= n <= response_bytes(response).len(),
    ensures
        response_bytes(response).len() == head_len(response) + response.body.len(),
        n <= head_len(response) ==> response_bytes(response).take(n) == head_bytes(
            response_line(response),
            flattened(response.headers),
        ).take(n),
        n >= head_len(response) ==> response_bytes(response).take(n) == head_bytes(
            response_line(response),
            flattened(response.headers),
        ) + response.body.take(n - head_len(response)),
{
    let head = head_bytes(response_line(response), flattened(response.headers));
    if n <= head_len(response) {
        assert(response_bytes(response).take(n) =~= head.take(n));
    }
    if n >= head_len(response) {
        assert(response_bytes(response).take(n) =~= head + response.body.take(
            n - head_len(response),
        ));
    }
}

proof fn lemma_reads_back(buffer: Seq<u8>)
    requires
        buffer.len() <= usize::MAX,
        reads_written_response(
            buffer,
            MAX_NUM_HEADERS as nat,
            response_head(buffer, MAX_NUM_HEADERS as nat),
        ),
        waits_for_written_response(
            buffer,
            MAX_NUM_HEADERS as nat,
            response_head(buffer, MAX_NUM_HEADERS as nat),
        ),
    ensures
        reads_back(buffer),
{
    assert forall|response: ResponseView| #[trigger]
        is_part(buffer, response) && is_readable(response) implies {
        let head = ResponseView { body: Seq::empty(), ..response };
        &&& is_buildable(buffer)
        &&& parsed_response(buffer) == if buffer.len() < head_len(response) {
            Ok::<_, ErrorView>(None)
        } else {
            Ok(Some((head, head_len(response) as usize)))
        }
    } by {
        let list = flattened(response.headers);
        let start = response_start(response.status, reason_or_empty(response.status));
        law_rebuilt_from_pairs(response.headers);
        lemma_head_and_body(response, buffer.len() as int);
        assert(response_line(response) == start);
        if buffer.len() < head_len(response) {
            assert(buffer == head_bytes(start, list).take(buffer.len() as int));
        } else {
            let rest = response.body.take(buffer.len() - head_len(response));
            assert(buffer == head_bytes(start, list) + rest);
        }
    }
}

proof fn lemma_refuses_many_fields(buffer: Seq<u8>)
    requires
        reads_written_response(
            buffer,
            MAX_NUM_HEADERS as nat,
            response_head(buffer, MAX_NUM_HEADERS as nat),
        ),
        keeps_to_room_for_response(
            buffer,
            MAX_NUM_HEADERS as nat,
            response_head(buffer, MAX_NUM_HEADERS as nat),
        ),
    ensures
        refuses_many_fields(buffer),
{
    let read = response_head(buffer, MAX_NUM_HEADERS as nat);
    assert forall|response: ResponseView|
        is_plain(response) && flattened(response.headers).len() > MAX_NUM_HEADERS && buffer
            == #[trigger] response_bytes(response) implies read is Err && read->Err_0
        == ParseError::TooManyHeaders by {
        let list = flattened(response.headers);
        let start = response_start(response.status, reason_or_empty(response.status));
        assert(response_line(response) == start);
        assert(buffer == head_bytes(start, list) + response.body);
    }
}

proof fn lemma_ignores_behind_head(buffer: Seq<u8>)
    requires
        ignores_behind_response(
            buffer,
            MAX_NUM_HEADERS as nat,
            response_head(buffer, MAX_NUM_HEADERS as nat),
        ),
    ensures
        ignores_behind_head(buffer),
{
    let read = response_head(buffer, MAX_NUM_HEADERS as nat);
    if let Ok(Some(head)) = read {
        assert forall|other: Seq<u8>|
            head.len <= other.len() && other.take(head.len as int) == buffer.take(
                head.len as int,
            ) implies is_buildable(other) == is_buildable(buffer)
            && #[trigger] parsed_response(other) == parsed_response(buffer) by {
            assert(response_head(other, MAX_NUM_HEADERS as nat) == read);
        }
    }
}

/// The outcome of parsing a response.
pub open spec fn parse_view(parsed: Result<Option<(Response, usize)>, Error>) -> Result<
    Option<(ResponseView, usize)>,
    ErrorView,
> {
    match parsed {
        Ok(Some((response, len))) => Ok(Some((response@, len))),
        Ok(None) => Ok(None),
        Err(error) => Err(error@),
    }
}

/// The response that a head stands for, without a body.
pub fn build_response(head: ResponseHead) -> (response: Response)
    requires
        is_status(head@.code),
        all_addable(head@.headers),
        built(head@.headers).len() <= MAX_HEADER_NAMES,
    ensures
        response@ == response_of_head(head@),
        response_well_formed(response@),
{
    let headers = Headers::from_list(&head.headers);
    let body: Vec<u8> = Vec::new();
    let response = Response { status: head.code, version: Version::Http11, headers, body };
    assert(response@ == response_of_head(head@));
    response
}

/// Reads a response head from the start of the bytes.
pub fn parse_response(buffer: &[u8]) -> (parsed: Result<Option<(Response, usize)>, Error>)
    requires
        is_buildable(buffer@),
    ensures
        parse_view(parsed) == parsed_response(buffer@),
        parsed matches Ok(Some((response, len))) ==> {
            &&& response_well_formed(response@)
            &&& response@.headers.len() <= MAX_NUM_HEADERS
            &&& flattened(response@.headers).len() <= MAX_NUM_HEADERS
            &&& 0 < len <= buffer@.len()
        },
        reads_back(buffer@),
        refuses_many_fields(buffer@),
        ignores_behind_head(buffer@),
{
    let read = parse_response_head(buffer, MAX_NUM_HEADERS);
    let size: usize = buffer.len();
    assert(buffer@.len() == size);
    proof {
        lemma_reads_back(buffer@);
        lemma_refuses_many_fields(buffer@);
        lemma_ignores_behind_head(buffer@);
    }
    match read {
        Err(error) => Err(Error::MalformedResponse(error)),
        Ok(None) => Ok(None),
        Ok(Some(head)) => {
            let len: usize = head.len;
            proof {
                lemma_built_len(head@.headers);
                lemma_built_pairs(head@.headers);
            }
            Ok(Some((build_response(head), len)))
        },
    }
}

/// Whether a response can be made from the head that the bytes hold, if they hold one.
pub fn can_build_response(buffer: &[u8]) -> (buildable: bool)
    ensures
        buildable == is_buildable(buffer@),
        reads_back(buffer@),
{
    let read = parse_response_head(buffer, MAX_NUM_HEADERS);
    let size: usize = buffer.len();
    assert(buffer@.len() == size);
    proof {
        lemma_reads_back(buffer@);
    }
    match read {
        Ok(Some(head)) => 100 <= head.code && head.code <= 999 && fields_are_addable(&head.headers),
        _ => true,
    }
}

/// A response that is being read.
pub enum ResponseReader {
    /// The head is not complete; these bytes of it have arrived. The method is that of the request
    /// that is answered.
    Head { buffer: Vec<u8>, method: String },
    /// The head is complete; more of the body is to come.
    Body { response: Response, content_length: Option<usize> },
}

/// A response that is being read.
pub enum ResponseReaderView {
    Head { buffer: Seq<u8>, method: Seq<char> },
    Body { response: ResponseView, content_length: Option<usize> },
}

impl View for ResponseReader {
    type V = ResponseReaderView;

    open spec fn view(&self) -> ResponseReaderView {
        match *self {
            ResponseReader::Head { buffer, method } => ResponseReaderView::Head {
                buffer: buffer@,
                method: method@,
            },
            ResponseReader::Body { response, content_length } => ResponseReaderView::Body {
                response: response@,
                content_length,
            },
        }
    }
}

/// Where reading a response has got to.
pub enum ResponseProgress {
    /// More bytes are needed.
    More(ResponseReader),
    /// The response is complete.
    Done(Response),
    /// There will be no response.
    Failed(Error),
}

/// Where reading a response has got to.
pub enum ResponseProgressView {
    More(ResponseReaderView),
    Done(ResponseView),
    Failed(ErrorView),
}

impl View for ResponseProgress {
    type V = ResponseProgressView;

    open spec fn view(&self) -> ResponseProgressView {
        match *self {
            ResponseProgress::More(reader) => ResponseProgressView::More(reader@),
            ResponseProgress::Done(response) => ResponseProgressView::Done(response@),
            ResponseProgress::Failed(error) => ResponseProgressView::Failed(error@),
        }
    }
}

/// The bytes of a head fit its limit; a body still to be read is within its limit and not yet
/// complete.
pub open spec fn reader_well_formed(reader: ResponseReaderView) -> bool {
    match reader {
        ResponseReaderView::Head { buffer, .. } => buffer.len() <= MAX_HEADERS_SIZE,
        ResponseReaderView::Body { response, content_length: announced } => {
            &&& response_well_formed(response)
            &&& response.headers.len() <= MAX_NUM_HEADERS
            &&& flattened(response.headers).len() <= MAX_NUM_HEADERS
            &&& content_length(response.headers) == Ok::<Option<usize>, ()>(announced)
            &&& response.body.len() <= MAX_BODY_SIZE
            &&& announced matches Some(n) ==> response.body.len() < n
        },
    }
}

/// The most bytes that the next read may bring.
pub open spec fn wanted(reader: ResponseReaderView) -> int {
    match reader {
        ResponseReaderView::Head { buffer, .. } => MAX_HEADERS_SIZE - buffer.len(),
        ResponseReaderView::Body { .. } => 512,
    }
}

/// A response that ends with its head: an answer to `HEAD`, an interim response, and those without
/// content or without change.
pub open spec fn has_no_body(method: Seq<char>, status: u16) -> bool {
    method == "HEAD"@ || status < 200 || status == 204 || status == 304
}

/// A response whose body may not be complete.
pub open spec fn body_progress(
    response: ResponseView,
    announced: Option<usize>,
) -> ResponseProgressView {
    if announced is None || response.body.len() < announced->0 {
        ResponseProgressView::More(
            ResponseReaderView::Body { response, content_length: announced },
        )
    } else {
        ResponseProgressView::Done(response)
    }
}

/// A response whose head is complete.
pub open spec fn head_progress(response: ResponseView, method: Seq<char>) -> ResponseProgressView {
    if has_no_body(method, response.status) {
        ResponseProgressView::Done(response)
    } else {
        match content_length(response.headers) {
            Err(_) => ResponseProgressView::Failed(ErrorView::InvalidContentLength),
            Ok(announced) => body_progress(response, announced),
        }
    }
}

/// Where reading a response gets to with one more read.
pub open spec fn read_step(
    reader: ResponseReaderView,
    event: ReadEventView,
) -> ResponseProgressView {
    match (reader, event) {
        (_, ReadEventView::Failed(message)) => ResponseProgressView::Failed(
            ErrorView::ConnectionError(message),
        ),
        (ResponseReaderView::Head { .. }, ReadEventView::End) => ResponseProgressView::Failed(
            ErrorView::IncompleteResponse,
        ),
        (ResponseReaderView::Head { buffer, method }, ReadEventView::Bytes(bytes)) => {
            let all = buffer + bytes;
            match parsed_response(all) {
                Err(error) => ResponseProgressView::Failed(error),
                Ok(None) => ResponseProgressView::More(
                    ResponseReaderView::Head { buffer: all, method },
                ),
                Ok(Some((response, len))) => head_progress(
                    ResponseView { body: all.subrange(len as int, all.len() as int), ..response },
                    method,
                ),
            }
        },
        (
            ResponseReaderView::Body { response, content_length: announced },
            ReadEventView::End,
        ) => if announced is None {
            ResponseProgressView::Done(response)
        } else {
            ResponseProgressView::Failed(ErrorView::ContentLengthMismatch)
        },
        (
            ResponseReaderView::Body { response, content_length: announced },
            ReadEventView::Bytes(bytes),
        ) => if announced is Some && response.body.len() + bytes.len() > announced->0 {
            ResponseProgressView::Failed(ErrorView::ContentLengthMismatch)
        } else if response.body.len() + bytes.len() > MAX_BODY_SIZE {
            ResponseProgressView::Failed(ErrorView::ResponseBodyTooLarge)
        } else {
            body_progress(
                ResponseView { body: response.body + bytes, ..response },
                announced,
            )
        },
    }
}

/// Where reading a response is when the first `n` of its bytes have arrived.
pub open spec fn part_progress(
    response: ResponseView,
    method: Seq<char>,
    n: int,
) -> ResponseProgressView {
    if n < head_len(response) {
        ResponseProgressView::More(
            ResponseReaderView::Head { buffer: response_bytes(response).take(n), method },
        )
    } else {
        head_progress(
            ResponseView { body: response.body.take(n - head_len(response)), ..response },
            method,
        )
    }
}

/// If a read brings more of the bytes of a response that can be read back, reading is where those
/// bytes end.
pub open spec fn gives_back(
    reader: ResponseReaderView,
    event: ReadEventView,
    progress: ResponseProgressView,
) -> bool {
    match (reader, event) {
        (ResponseReaderView::Head { buffer, method }, ReadEventView::Bytes(bytes)) => forall|
            response: ResponseView,
        | #[trigger]
            is_part(buffer + bytes, response) && is_readable(response) ==> progress
                == part_progress(response, method, (buffer + bytes).len() as int),
        _ => true,
    }
}

/// A read brings more of the bytes of a response that can be read back.
pub open spec fn brings_response(reader: ResponseReaderView, event: ReadEventView) -> bool {
    match (reader, event) {
        (ResponseReaderView::Head { buffer, .. }, ReadEventView::Bytes(bytes)) => exists|
            response: ResponseView,
        | #[trigger]
            is_part(buffer + bytes, response) && is_readable(response),
        _ => false,
    }
}

/// A response that ends with its head, or announces just the body that it has, is complete with
/// its head.
pub proof fn law_whole_response_is_done(response: ResponseView, method: Seq<char>)
    requires
        response.body.len() <= 10_000_000,
        method == "HEAD"@ || response.status < 200 || response.status == 204 || response.status
            == 304 || content_length(response.headers) == Ok::<
            Option<usize>,
            (),
        >(Some(response.body.len() as usize)),
    ensures
        head_progress(response, method) == ResponseProgressView::Done(response),
{
}

/// What a read may bring: at least one byte, and no more than is wanted.
pub open spec fn event_fits(reader: ResponseReaderView, event: ReadEventView) -> bool {
    event matches ReadEventView::Bytes(bytes) ==> 0 < bytes.len() <= wanted(reader)
}

/// If the read completes a head, a response can be made from it.
pub open spec fn event_is_buildable(reader: ResponseReaderView, event: ReadEventView) -> bool {
    match (reader, event) {
        (ResponseReaderView::Head { buffer, .. }, ReadEventView::Bytes(bytes)) => is_buildable(
            buffer + bytes,
        ),
        _ => true,
    }
}

/// What holds of every outcome of a read: a reader and a response are well-formed, and the body of
/// a response is within its limit.
pub open spec fn progress_well_formed(progress: ResponseProgressView) -> bool {
    match progress {
        ResponseProgressView::More(reader) => reader_well_formed(reader),
        ResponseProgressView::Done(response) => {
            &&& response_well_formed(response)
            &&& response.headers.len() <= MAX_NUM_HEADERS
            &&& flattened(response.headers).len() <= MAX_NUM_HEADERS
            &&& response.body.len() <= MAX_BODY_SIZE
        },
        ResponseProgressView::Failed(_) => true,
    }
}

impl ResponseReader {
    /// Nothing has been read yet of the answer to a request with the given method.
    pub fn new(request_method: &str) -> (reader: ResponseReader)
        ensures
            reader@ == (ResponseReaderView::Head { buffer: Seq::empty(), method: request_method@ }),
            reader_well_formed(reader@),
    {
        ResponseReader::Head { buffer: Vec::new(), method: request_method.to_owned() }
    }

    /// The most bytes that the next read may bring.
    pub fn wants(&self) -> (wants: usize)
        requires
            reader_well_formed(self@),
        ensures
            wants == wanted(self@),
    {
        match self {
            ResponseReader::Head { buffer, .. } => MAX_HEADERS_SIZE - buffer.len(),
            ResponseReader::Body { .. } => 512,
        }
    }
}

/// Goes on with a response whose body may not be complete.
fn continue_body(response: Response, announced: Option<usize>) -> (progress: ResponseProgress)
    requires
        response_well_formed(response@),
        response@.headers.len() <= MAX_NUM_HEADERS,
        flattened(response@.headers).len() <= MAX_NUM_HEADERS,
        response@.body.len() <= MAX_BODY_SIZE,
        content_length(response@.headers) == Ok::<Option<usize>, ()>(announced),
    ensures
        progress@ == body_progress(response@, announced),
        progress_well_formed(progress@),
{
    let complete = match announced {
        Some(n) => response.body.len() >= n,
        None => false,
    };
    if complete {
        ResponseProgress::Done(response)
    } else {
        ResponseProgress::More(ResponseReader::Body { response, content_length: announced })
    }
}

/// Goes on with a response whose head is complete.
fn finish_head(response: Response, method: &str) -> (progress: ResponseProgress)
    requires
        response_well_formed(response@),
        response@.headers.len() <= MAX_NUM_HEADERS,
        flattened(response@.headers).len() <= MAX_NUM_HEADERS,
        response@.body.len() <= MAX_BODY_SIZE,
    ensures
        progress@ == head_progress(response@, method@),
        progress_well_formed(progress@),
{
    if text_equal(method, "HEAD") || response.status < 200 || response.status == 204
        || response.status == 304 {
        return ResponseProgress::Done(response);
    }
    match get_content_length(&response) {
        Err(error) => ResponseProgress::Failed(error),
        Ok(announced) => continue_body(response, announced),
    }
}

proof fn lemma_gives_back(buffer: Seq<u8>, bytes: Seq<u8>, method: Seq<char>)
    requires
        reads_back(buffer + bytes),
        buffer.len() + bytes.len() <= usize::MAX,
    ensures
        ({
            let reader = ResponseReaderView::Head { buffer, method };
            let event = ReadEventView::Bytes(bytes);
            gives_back(reader, event, read_step(reader, event))
        }),
{
    let all = buffer + bytes;
    let reader = ResponseReaderView::Head { buffer, method };
    let event = ReadEventView::Bytes(bytes);
    assert forall|response: ResponseView| #[trigger]
        is_part(all, response) && is_readable(response) implies read_step(reader, event)
        == part_progress(
        response,
        method,
        all.len() as int,
    ) by {
        lemma_head_and_body(response, all.len() as int);
        if all.len() >= head_len(response) {
            let len = head_len(response) as int;
            assert(all.subrange(len, all.len() as int) =~= response.body.take(all.len() - len));
        }
    }
}

/// Goes on reading a response with what came of one more read.
///
/// A response that was written comes back: whatever part of its bytes is here, that part is read.
pub fn read_from_stream(reader: ResponseReader, event: ReadEvent) -> (progress: ResponseProgress)
    requires
        reader_well_formed(reader@),
        event_fits(reader@, event@),
        event_is_buildable(reader@, event@),
    ensures
        progress@ == read_step(reader@, event@),
        progress_well_formed(progress@),
        gives_back(reader@, event@, progress@),
{
    let bytes = match event {
        ReadEvent::Failed(message) => {
            return ResponseProgress::Failed(Error::ConnectionError(message));
        },
        ReadEvent::End => {
            return match reader {
                ResponseReader::Head { .. } => ResponseProgress::Failed(Error::IncompleteResponse),
                ResponseReader::Body { response, content_length } => {
                    if content_length.is_none() {
                        ResponseProgress::Done(response)
                    } else {
                        ResponseProgress::Failed(Error::ContentLengthMismatch)
                    }
                },
            };
        },
        ReadEvent::Bytes(bytes) => bytes,
    };
    match reader {
        ResponseReader::Head { buffer, method } => {
            let mut all = buffer;
            push_bytes(&mut all, bytes.as_slice());
            let parsed = parse_response(all.as_slice());
            let total: usize = all.len();
            assert(buffer@.len() + bytes@.len() == total);
            proof {
                lemma_gives_back(buffer@, bytes@, method@);
            }
            match parsed {
                Err(error) => ResponseProgress::Failed(error),
                Ok(None) => ResponseProgress::More(ResponseReader::Head { buffer: all, method }),
                Ok(Some((response, len))) => {
                    let mut response = response;
                    response.body = slice_to_vec(slice_subrange(all.as_slice(), len, total));
                    finish_head(response, method.as_str())
                },
            }
        },
        ResponseReader::Body { response, content_length } => {
            let total: usize = response.body.len() + bytes.len();
            let too_long = match content_length {
                Some(n) => total > n,
                None => false,
            };
            if too_long {
                return ResponseProgress::Failed(Error::ContentLengthMismatch);
            }
            if total > MAX_BODY_SIZE {
                return ResponseProgress::Failed(Error::ResponseBodyTooLarge);
            }
            let mut response = response;
            push_bytes(&mut response.body, bytes.as_slice());
            continue_body(response, content_length)
        },
    }
}

/// Goes on reading a response, or gives nothing where the read completes a head from which no
/// response can be made.
pub fn try_read_from_stream(reader: ResponseReader, event: ReadEvent) -> (progress: Option<
    ResponseProgress,
>)
    requires
        reader_well_formed(reader@),
        event_fits(reader@, event@),
    ensures
        progress is Some <==> event_is_buildable(reader@, event@),
        progress matches Some(next) ==> next@ == read_step(reader@, event@) && progress_well_formed(
            next@,
        ) && gives_back(reader@, event@, next@),
        brings_response(reader@, event@) ==> progress is Some,
{
    let buildable = match (&reader, &event) {
        (ResponseReader::Head { buffer, .. }, ReadEvent::Bytes(bytes)) => {
            let mut all: Vec<u8> = Vec::new();
            push_bytes(&mut all, buffer.as_slice());
            push_bytes(&mut all, bytes.as_slice());
            assert(all@ =~= buffer@ + bytes@);
            can_build_response(all.as_slice())
        },
        _ => true,
    };
    if buildable {
        Some(read_from_stream(reader, event))
    } else {
        None
    }
}

/// Where reading a response gets to with several pieces of its bytes.
pub open spec fn fed(reader: ResponseReaderView, pieces: Seq<Seq<u8>>) -> ResponseProgressView
    decreases pieces.len(),
{
    if pieces.len() == 0 {
        ResponseProgressView::More(reader)
    } else {
        match read_step(reader, ReadEventView::Bytes(pieces[0])) {
            ResponseProgressView::More(next) => fed(next, pieces.drop_first()),
            other => other,
        }
    }
}

/// However the missing part of an announced body is cut into pieces, the response ends up with the
/// same body.
pub proof fn law_body_in_any_pieces(response: ResponseView, n: usize, pieces: Seq<Seq<u8>>)
    requires
        forall|i: int| 0 <= i < pieces.len() ==> (#[trigger] pieces[i]).len() > 0,
        response.body.len() < n <= 10_000_000,
        response.body.len() + joined(pieces).len() == n,
    ensures
        fed(ResponseReaderView::Body { response, content_length: Some(n) }, pieces)
            == ResponseProgressView::Done(
            ResponseView { body: response.body + joined(pieces), ..response },
        ),
    decreases pieces.len(),
{
    assert(pieces.len() > 0);
    let first = pieces[0];
    let rest = pieces.drop_first();
    let next = ResponseView { body: response.body + first, ..response };
    assert(next.body + joined(rest) =~= response.body + joined(pieces));
    if next.body.len() < n {
        assert forall|i: int| 0 <= i < rest.len() implies (#[trigger] rest[i]).len() > 0 by {
            assert(rest[i] == pieces[i + 1]);
        }
        law_body_in_any_pieces(next, n, rest);
    } else {
        assert(rest.len() == 0) by {
            if rest.len() > 0 {
                assert(rest[0] == pieces[1]);
                assert(joined(rest).len() >= rest[0].len());
            }
        }
        assert(joined(rest) =~= Seq::<u8>::empty());
        assert(next.body =~= response.body + joined(pieces));
    }
}

/// A body without an announced length, cut into any pieces, is gathered until the upstream ends
/// it.
pub proof fn law_body_until_end(response: ResponseView, pieces: Seq<Seq<u8>>)
    requires
        response.body.len() + joined(pieces).len() <= 10_000_000,
    ensures
        ({
            let gathered = ResponseView { body: response.body + joined(pieces), ..response };
            let reader = ResponseReaderView::Body { response: gathered, content_length: None };
            &&& fed(ResponseReaderView::Body { response, content_length: None }, pieces)
                == ResponseProgressView::More(reader)
            &&& read_step(reader, ReadEventView::End) == ResponseProgressView::Done(gathered)
        }),
    decreases pieces.len(),
{
    if pieces.len() > 0 {
        let rest = pieces.drop_first();
        let next = ResponseView { body: response.body + pieces[0], ..response };
        assert(next.body + joined(rest) =~= response.body + joined(pieces));
        law_body_until_end(next, rest);
    } else {
        assert(response.body + joined(pieces) =~= response.body);
    }
}

/// The first line of a response.
pub open spec fn response_line(response: ResponseView) -> Seq<char> {
    version_text(response.version) + " "@ + decimal(response.status as nat) + " "@
        + reason_or_empty(response.status)
}

/// The first line of a response.
pub fn format_response_line(response: &Response) -> (line: String)
    requires
        is_status(response@.status),
    ensures
        line@ == response_line(response@),
        is_header_value(encode_utf8(reason_or_empty(response@.status))),
{
    let reason = reason_text(response.status);
    proof {
        let bytes = encode_utf8(reason@);
        assert forall|i: int| 0 <= i < bytes.len() implies is_value_byte(#[trigger] bytes[i]) by {
            assert(is_visible_byte(bytes[i]));
        }
    }
    let mut line = response.version.as_str().to_owned();
    line.append(" ");
    push_decimal(&mut line, response.status as usize);
    line.append(" ");
    line.append(reason.as_str());
    line
}

/// The outcomes of reading pieces of bytes one after the other, as far as each of them asked for
/// more. Each outcome is what the contract of a read says of it.
pub open spec fn is_reading(pieces: Seq<Seq<u8>>, outcomes: Seq<ResponseProgressView>) -> bool {
    &&& outcomes.len() == pieces.len() + 1
    &&& forall|i: int|
        0 <= i < pieces.len() ==> {
            let event = ReadEventView::Bytes(#[trigger] pieces[i]);
            outcomes[i] matches ResponseProgressView::More(reader) ==> {
                &&& outcomes[i + 1] == read_step(reader, event)
                &&& gives_back(reader, event, outcomes[i + 1])
            }
        }
}

/// The body is as long as the head says: empty where the response ends with its head, and otherwise
/// of the announced length.
pub open spec fn is_announced(response: ResponseView, method: Seq<char>) -> bool {
    if method == "HEAD"@ || response.status < 200 || response.status == 204 || response.status
        == 304 {
        response.body.len() == 0
    } else {
        content_length(response.headers) == Ok::<Option<usize>, ()>(
            Some(response.body.len() as usize),
        )
    }
}

/// The body goes on until the stream ends.
pub open spec fn is_open_ended(response: ResponseView, method: Seq<char>) -> bool {
    &&& method != "HEAD"@
    &&& response.status >= 200 && response.status != 204 && response.status != 304
    &&& content_length(response.headers) == Ok::<Option<usize>, ()>(None)
}

/// A response that was written is read back, into whatever pieces its bytes are cut: when the last
/// one has arrived, reading it is done.
pub proof fn law_written_response_is_read(
    response: ResponseView,
    method: Seq<char>,
    pieces: Seq<Seq<u8>>,
    outcomes: Seq<ResponseProgressView>,
)
    requires
        is_readable(response),
        response.body.len() <= 10_000_000,
        is_announced(response, method),
        forall|i: int| 0 <= i < pieces.len() ==> (#[trigger] pieces[i]).len() > 0,
        joined(pieces) == response_bytes(response),
        is_reading(pieces, outcomes),
        outcomes[0] == ResponseProgressView::More(
            ResponseReaderView::Head { buffer: Seq::empty(), method },
        ),
    ensures
        outcomes.last() == ResponseProgressView::Done(response),
{
    lemma_reading_starts(response, method, pieces, outcomes);
}

/// A response that was written without a length is read back, into whatever pieces its bytes are
/// cut: when the last one has arrived and the stream ends, reading it is done.
pub proof fn law_written_response_is_read_to_the_end(
    response: ResponseView,
    method: Seq<char>,
    pieces: Seq<Seq<u8>>,
    outcomes: Seq<ResponseProgressView>,
)
    requires
        is_readable(response),
        response.body.len() <= 10_000_000,
        is_open_ended(response, method),
        forall|i: int| 0 <= i < pieces.len() ==> (#[trigger] pieces[i]).len() > 0,
        joined(pieces) == response_bytes(response),
        is_reading(pieces, outcomes),
        outcomes[0] == ResponseProgressView::More(
            ResponseReaderView::Head { buffer: Seq::empty(), method },
        ),
    ensures
        outcomes.last() matches ResponseProgressView::More(reader) && read_step(
            reader,
            ReadEventView::End,
        ) == ResponseProgressView::Done(response),
{
    lemma_reading_starts(response, method, pieces, outcomes);
}

proof fn lemma_reading_starts(
    response: ResponseView,
    method: Seq<char>,
    pieces: Seq<Seq<u8>>,
    outcomes: Seq<ResponseProgressView>,
)
    requires
        is_readable(response),
        response.body.len() <= MAX_BODY_SIZE,
        is_announced(response, method) || is_open_ended(response, method),
        forall|i: int| 0 <= i < pieces.len() ==> (#[trigger] pieces[i]).len() > 0,
        joined(pieces) == response_bytes(response),
        is_reading(pieces, outcomes),
        outcomes[0] == ResponseProgressView::More(
            ResponseReaderView::Head { buffer: Seq::empty(), method },
        ),
    ensures
        outcomes.last() == head_progress(response, method),
{
    let all = response_bytes(response);
    assert(all.take(0) =~= Seq::empty());
    assert(all.subrange(0, all.len() as int) =~= all);
    lemma_head_and_body(response, 0);
    assert(head_len(response) > 0);
    lemma_reading_goes_on(response, method, 0, pieces, outcomes);
}

proof fn lemma_reading_goes_on(
    response: ResponseView,
    method: Seq<char>,
    n: int,
    pieces: Seq<Seq<u8>>,
    outcomes: Seq<ResponseProgressView>,
)
    requires
        is_readable(response),
        response.body.len() <= MAX_BODY_SIZE,
        is_announced(response, method) || is_open_ended(response, method),
        forall|i: int| 0 <= i < pieces.len() ==> (#[trigger] pieces[i]).len() > 0,
        0 <= n <= response_bytes(response).len(),
        joined(pieces) == response_bytes(response).subrange(
            n,
            response_bytes(response).len() as int,
        ),
        is_reading(pieces, outcomes),
        outcomes[0] == part_progress(response, method, n),
    ensures
        outcomes.last() == head_progress(response, method),
    decreases pieces.len(),
{
    let all = response_bytes(response);
    lemma_head_and_body(response, n);
    if pieces.len() == 0 {
        assert(n == all.len());
        assert(response.body.take(n - head_len(response)) =~= response.body);
    } else {
        let first = pieces[0];
        let rest = pieces.drop_first();
        let after = n + first.len();
        assert(joined(pieces) == first + joined(rest));
        assert(after <= all.len());
        assert(first =~= all.subrange(n, after)) by {
            assert(first =~= joined(pieces).take(first.len() as int));
        }
        assert(joined(rest) =~= all.subrange(after, all.len() as int)) by {
            assert(joined(rest) =~= joined(pieces).skip(first.len() as int));
        }
        assert(all.take(n) + first =~= all.take(after));
        lemma_head_and_body(response, after);
        assert(outcomes[1] == part_progress(response, method, after)) by {
            if n < head_len(response) {
                assert(is_part(all.take(n) + first, response));
            } else {
                let had = n - head_len(response);
                let has = after - head_len(response);
                assert(response.body.take(had) + first =~= response.body.take(has)) by {
                    assert forall|i: int| 0 <= i < first.len() implies first[i]
                        == response.body[had + i] by {
                        assert(first[i] == all[n + i]);
                    }
                }
            }
        }
        let outcomes_rest = outcomes.drop_first();
        assert forall|i: int| 0 <= i < rest.len() implies (#[trigger] rest[i]).len() > 0 && {
            let event = ReadEventView::Bytes(rest[i]);
            outcomes_rest[i] matches ResponseProgressView::More(reader) ==> {
                &&& outcomes_rest[i + 1] == read_step(reader, event)
                &&& gives_back(reader, event, outcomes_rest[i + 1])
            }
        } by {
            assert(rest[i] == pieces[i + 1]);
            assert(outcomes_rest[i] == outcomes[i + 1]);
            assert(outcomes_rest[i + 1] == outcomes[i + 2]);
        }
        lemma_reading_goes_on(response, method, after, rest, outcomes_rest);
        assert(outcomes_rest.last() == outcomes.last());
    }
}

/// A response as it goes over the wire.
pub open spec fn response_bytes(response: ResponseView) -> Seq<u8> {
    message_bytes(response_line(response), response.headers, response.body)
}

/// Appends a response to the bytes that go out on a stream. Its reason phrase is plain.
pub fn write_to_stream(response: &Response, stream: &mut Vec<u8>)
    requires
        is_status(response@.status),
    ensures
        final(stream)@ == old(stream)@ + response_bytes(response@),
        is_header_value(encode_utf8(reason_or_empty(response@.status))),
{
    let line = format_response_line(response);
    push_message(stream, line.as_str(), &response.headers, &response.body);
}

/// The text that an error response has for a body.
pub open spec fn error_body(status: u16) -> Seq<char> {
    error_line(status, reason_or_empty(status))
}

/// A status code with a reason phrase, as a text.
pub open spec fn error_line(status: u16, reason: Seq<char>) -> Seq<char> {
    "HTTP "@ + decimal(status as nat) + " "@ + reason
}

/// An error response: a short text with its type and its length.
pub open spec fn error_response(status: u16) -> ResponseView {
    let body = encode_utf8(error_body(status));
    ResponseView {
        status,
        version: Version::Http11,
        headers: seq![
            ("content-type"@, seq![encode_utf8("text/plain"@)]),
            ("content-length"@, seq![encode_utf8(decimal(body.len()))]),
        ],
        body,
    }
}

/// The two fields of an error response.
proof fn lemma_error_fields(length: Seq<u8>)
    requires
        is_digits(length),
    ensures
        header_name("Content-Type"@) == Some("content-type"@),
        header_name("Content-Length"@) == Some("content-length"@),
        header_name("content-length"@) == Some("content-length"@),
        is_header_value(encode_utf8("text/plain"@)),
        is_header_value(length),
        "content-type"@ != "content-length"@,
        appended(
            appended(Seq::empty(), "content-type"@, encode_utf8("text/plain"@)),
            "content-length"@,
            length,
        ) == seq![
            ("content-type"@, seq![encode_utf8("text/plain"@)]),
            ("content-length"@, seq![length]),
        ],
{
    reveal_strlit("Content-Type");
    reveal_strlit("Content-Length");
    reveal_strlit("content-type");
    reveal_strlit("content-length");
    reveal_strlit("text/plain");
    assert("Content-Type"@.map_values(|c: char| lower_char(c)) =~= "content-type"@);
    assert("Content-Length"@.map_values(|c: char| lower_char(c)) =~= "content-length"@);
    assert("content-length"@.map_values(|c: char| lower_char(c)) =~= "content-length"@);
    assert(is_token("Content-Type"@));
    assert(is_token("Content-Length"@));
    assert(is_token("content-length"@));
    assert("content-type"@.len() != "content-length"@.len());
    let plain = encode_utf8("text/plain"@);
    assert(is_ascii_chars("text/plain"@));
    is_ascii_chars_encode_utf8("text/plain"@);
    assert forall|i: int| 0 <= i < plain.len() implies is_value_byte(#[trigger] plain[i]) by {
        assert("text/plain"@[i] as u8 == plain[i]);
        assert('/' <= "text/plain"@[i] <= 'z');
    }
    let none: HeaderSeq = Seq::empty();
    let one = appended(none, "content-type"@, plain);
    assert(!has_name(none, "content-type"@));
    assert(one =~= seq![("content-type"@, seq![plain])]);
    assert(!has_name(one, "content-length"@)) by {
        if has_name(one, "content-length"@) {
            let i = place_of(one, "content-length"@);
            assert(0 <= i < one.len() && one[i].0 == "content-length"@);
        }
    }
    assert(appended(one, "content-length"@, length) =~= seq![
        ("content-type"@, seq![plain]),
        ("content-length"@, seq![length]),
    ]);
}

/// The response that the proxy gives on its own account. The length that it announces is that of
/// its body.
pub fn make_http_error(status: u16) -> (response: Response)
    requires
        is_status(status),
    ensures
        response@ == error_response(status),
        response_well_formed(response@),
        content_length(response@.headers) == Ok::<Option<usize>, ()>(
            Some(response@.body.len() as usize),
        ),
        status == 400 ==> response@.body == encode_utf8(error_line(status, "Bad Request"@)),
        status == 413 ==> response@.body == encode_utf8(error_line(status, "Payload Too Large"@)),
        status == 429 ==> response@.body == encode_utf8(error_line(status, "Too Many Requests"@)),
        status == 502 ==> response@.body == encode_utf8(error_line(status, "Bad Gateway"@)),
        status == 503 ==> response@.body == encode_utf8(error_line(status, "Service Unavailable"@)),
{
    let mut text = "HTTP ".to_owned();
    push_decimal(&mut text, status as usize);
    text.append(" ");
    text.append(reason_text(status).as_str());
    let mut body: Vec<u8> = Vec::new();
    push_bytes(&mut body, text.as_str().as_bytes());
    assert(body@ =~= encode_utf8(error_body(status)));
    let length = decimal_text(body.len());
    proof {
        lemma_decimal_bytes(body@.len());
        lemma_error_fields(encode_utf8(length@));
        lemma_error_response_announces_its_body(status);
    }
    let mut headers = Headers::new();
    headers.append("Content-Type", "text/plain".as_bytes());
    headers.append("Content-Length", length.as_str().as_bytes());
    Response { status, version: Version::Http11, headers, body }
}

/// The length that an error response announces is the length of its body.
proof fn lemma_error_response_announces_its_body(status: u16)
    requires
        encode_utf8(error_body(status)).len() <= usize::MAX,
    ensures
        content_length(error_response(status).headers) == Ok::<Option<usize>, ()>(
            Some(error_response(status).body.len() as usize),
        ),
{
    let response = error_response(status);
    let n = response.body.len();
    let length = encode_utf8(decimal(n));
    lemma_decimal_bytes(n);
    lemma_error_fields(length);
    law_decimal_reads_back(n as usize);
    let headers = response.headers;
    let name = "content-length"@;
    assert(headers[1].0 == name);
    assert(has_name(headers, name));
    let p = place_of(headers, name);
    assert(0 <= p < headers.len() && headers[p].0 == name);
    assert(p == 1);
    assert(value_of(headers, name) == Some(length));
    assert(is_visible_text(length)) by {
        assert forall|i: int| 0 <= i < length.len() implies is_visible_byte(
            #[trigger] length[i],
        ) by {
            assert(48 <= length[i] <= 57);
        }
    }
}

/// A response whose head is complete is done if it answers a `HEAD`, if its status code is below
/// 200 or is 204 or 304, or if it has as much of a body as it announces. Any other waits for its
/// body: for the rest of what it announces, or for the end of the stream where it announces
/// nothing. All that stands behind the head is its body so far.
pub proof fn law_response_waits_for_its_body(
    buffer: Seq<u8>,
    bytes: Seq<u8>,
    method: Seq<char>,
    head: ResponseView,
    len: usize,
)
    requires
        parsed_response(buffer + bytes) == Ok::<_, ErrorView>(Some((head, len))),
        len <= buffer.len() + bytes.len(),
    ensures
        ({
            let progress = read_step(
                ResponseReaderView::Head { buffer, method },
                ReadEventView::Bytes(bytes),
            );
            let response = ResponseView { body: (buffer + bytes).skip(len as int), ..head };
            let status = head.status;
            if method == "HEAD"@ || status < 200 || status == 204 || status == 304 {
                progress == ResponseProgressView::Done(response)
            } else {
                match content_length(head.headers) {
                    Err(_) => progress == ResponseProgressView::Failed(
                        ErrorView::InvalidContentLength,
                    ),
                    Ok(Some(n)) => if response.body.len() >= n {
                        progress == ResponseProgressView::Done(response)
                    } else {
                        progress == ResponseProgressView::More(
                            ResponseReaderView::Body { response, content_length: Some(n) },
                        )
                    },
                    Ok(None) => progress == ResponseProgressView::More(
                        ResponseReaderView::Body { response, content_length: None },
                    ),
                }
            }
        }),
{
    let all = buffer + bytes;
    assert(all.subrange(len as int, all.len() as int) =~= all.skip(len as int));
}

/// A response whose body is being read is done only when it is as long as announced, or when the
/// stream ends and nothing was announced. What arrives is added to the body and changes nothing
/// else of the response. A body longer than announced, or than ten million bytes, or that ends too
/// early, is an error.
pub proof fn law_body_is_gathered(
    response: ResponseView,
    announced: Option<usize>,
    bytes: Seq<u8>,
    message: Seq<char>,
)
    ensures
        ({
            let reader = ResponseReaderView::Body { response, content_length: announced };
            let longer = ResponseView { body: response.body + bytes, ..response };
            let progress = read_step(reader, ReadEventView::Bytes(bytes));
            &&& announced matches Some(n) ==> {
                &&& longer.body.len() > n ==> progress == ResponseProgressView::Failed(
                    ErrorView::ContentLengthMismatch,
                )
                &&& longer.body.len() == n <= 10_000_000 ==> progress
                    == ResponseProgressView::Done(longer)
                &&& longer.body.len() < n && longer.body.len() <= 10_000_000 ==> progress
                    == ResponseProgressView::More(
                    ResponseReaderView::Body { response: longer, content_length: announced },
                )
            }
            &&& announced is None && longer.body.len() <= 10_000_000 ==> progress
                == ResponseProgressView::More(
                ResponseReaderView::Body { response: longer, content_length: announced },
            )
            &&& (announced matches Some(n) ==> longer.body.len() <= n) && longer.body.len()
                > 10_000_000 ==> progress == ResponseProgressView::Failed(
                ErrorView::ResponseBodyTooLarge,
            )
            &&& read_step(reader, ReadEventView::End) == if announced is None {
                ResponseProgressView::Done(response)
            } else {
                ResponseProgressView::Failed(ErrorView::ContentLengthMismatch)
            }
            &&& read_step(reader, ReadEventView::Failed(message)) == ResponseProgressView::Failed(
                ErrorView::ConnectionError(message),
            )
        }),
{
}

/// A head that is not complete waits for more bytes, with all that came kept; where the stream ends
/// or fails, or the bytes are no head, it is an error that says so.
pub proof fn law_head_is_gathered(
    buffer: Seq<u8>,
    bytes: Seq<u8>,
    method: Seq<char>,
    message: Seq<char>,
)
    ensures
        ({
            let reader = ResponseReaderView::Head { buffer, method };
            &&& parsed_response(buffer + bytes) == Ok::<Option<(ResponseView, usize)>, ErrorView>(
                None,
            ) ==> read_step(reader, ReadEventView::Bytes(bytes)) == ResponseProgressView::More(
                ResponseReaderView::Head { buffer: buffer + bytes, method },
            )
            &&& response_head(buffer + bytes, 32) matches Err(error) ==> read_step(
                reader,
                ReadEventView::Bytes(bytes),
            ) == ResponseProgressView::Failed(ErrorView::MalformedResponse(error))
            &&& read_step(reader, ReadEventView::End) == ResponseProgressView::Failed(
                ErrorView::IncompleteResponse,
            )
            &&& read_step(reader, ReadEventView::Failed(message)) == ResponseProgressView::Failed(
                ErrorView::ConnectionError(message),
            )
        }),
{
}

/// The response that is read from a head has its status code and its header fields, in order.
pub proof fn law_response_is_that_of_its_head(buffer: Seq<u8>, head: ResponseHeadView)
    requires
        response_head(buffer, 32) == Ok::<_, ParseError>(Some(head)),
    ensures
        parsed_response(buffer) matches Ok(Some((response, len))) && {
            &&& len == head.len
            &&& response.status == head.code
            &&& response.version == Version::Http11
            &&& response.headers == built(head.headers)
            &&& response.body.len() == 0
        },
{
}

/// An error response has the status code it is made for, is plain text, and its text is that code
/// and its reason phrase.
pub proof fn law_error_response_tells_its_status(status: u16)
    ensures
        ({
            let response = error_response(status);
            &&& response.status == status
            &&& response.version == Version::Http11
            &&& response.body == encode_utf8(
                "HTTP "@ + decimal(status as nat) + " "@ + reason_or_empty(status),
            )
            &&& value_of(response.headers, "content-type"@) == Some(encode_utf8("text/plain"@))
            &&& value_of(response.headers, "content-length"@) == Some(
                encode_utf8(decimal(response.body.len())),
            )
            &&& response.headers.len() == 2
        }),
{
    let response = error_response(status);
    let headers = response.headers;
    let length = encode_utf8(decimal(response.body.len()));
    lemma_decimal_bytes(response.body.len());
    lemma_error_fields(length);
    reveal_strlit("content-type");
    assert(is_token("content-type"@));
    assert("content-type"@.map_values(|c: char| lower_char(c)) =~= "content-type"@);
    assert(headers[0].0 == "content-type"@);
    assert(headers[1].0 == "content-length"@);
    let p = place_of(headers, "content-type"@);
    assert(0 <= p < headers.len() && headers[p].0 == "content-type"@);
    let q = place_of(headers, "content-length"@);
    assert(0 <= q < headers.len() && headers[q].0 == "content-length"@);
}

/// An error is told with the whole message of what lies behind it.
pub proof fn law_errors_tell_what_lies_behind(error: ParseError, message: Seq<char>)
    ensures
        error_text(ErrorView::MalformedResponse(error)) == "malformed response: "@
            + parse_error_text(error),
        error_text(ErrorView::ConnectionError(message)) == "connection error: "@ + message,
        source_text(ErrorView::MalformedResponse(error)) == Some(parse_error_text(error)),
        source_text(ErrorView::ConnectionError(message)) == Some(message),
{
}

/// A response can be made from a head unless one of its parts is not accepted. Bytes that hold no
/// complete head are no hindrance.
pub proof fn law_made_from_any_accepted_head(buffer: Seq<u8>)
    ensures
        response_head(buffer, 32) matches Ok(Some(head)) ==> (is_buildable(buffer) <==> {
            &&& 100 <= head.code <= 999
            &&& forall|i: int|
                0 <= i < head.headers.len() ==> header_name((#[trigger] head.headers[i]).0) is Some
                    && is_header_value(head.headers[i].1)
        }),
        response_head(buffer, 32) is Err ==> is_buildable(buffer),
        response_head(buffer, 32) == Ok::<Option<ResponseHeadView>, ParseError>(None)
            ==> is_buildable(buffer),
{
}

/// A response is written as its first line, its header fields and its body.
pub proof fn law_response_is_written_whole(response: ResponseView)
    ensures
        response_line(response) == version_text(response.version) + " "@ + decimal(
            response.status as nat,
        ) + " "@ + reason_or_empty(response.status),
        response_bytes(response) == encode_utf8(response_line(response)) + seq![13u8, 10u8]
            + field_lines(flattened(response.headers)) + seq![13u8, 10u8] + response.body,
{
}

} // verus!
