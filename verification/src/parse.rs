//! Message heads as `httparse` reads them.
use httparse::Error as Fault;
use httparse::Status;
use vstd::prelude::*;
use vstd::string::*;
use vstd::utf8::*;

use crate::headers::{is_header_value, list_view};
use crate::message::{head_bytes, is_status, version_text, Version};
use crate::text::{decimal, is_token};

verus! {

/// What is wrong with a message head.
#[derive(Clone, Copy, PartialEq, Eq, Structural, Debug)]
pub enum ParseError {
    HeaderName,
    HeaderValue,
    NewLine,
    Status,
    Token,
    TooManyHeaders,
    Version,
}

/// The text of a parse error.
pub open spec fn parse_error_text(error: ParseError) -> Seq<char> {
    match error {
        ParseError::HeaderName => "invalid header name"@,
        ParseError::HeaderValue => "invalid header value"@,
        ParseError::NewLine => "invalid new line"@,
        ParseError::Status => "invalid response status"@,
        ParseError::Token => "invalid token"@,
        ParseError::TooManyHeaders => "too many headers"@,
        ParseError::Version => "invalid HTTP version"@,
    }
}

impl ParseError {
    /// The text of the error.
    pub fn as_str(self) -> (text: &'static str)
        ensures
            text@ == parse_error_text(self),
    {
        match self {
            ParseError::HeaderName => "invalid header name",
            ParseError::HeaderValue => "invalid header value",
            ParseError::NewLine => "invalid new line",
            ParseError::Status => "invalid response status",
            ParseError::Token => "invalid token",
            ParseError::TooManyHeaders => "too many headers",
            ParseError::Version => "invalid HTTP version",
        }
    }
}

/// The head of a request: its method, its path, its header fields in order, and the number of
/// bytes that it takes.
pub struct RequestHead {
    pub method: String,
    pub path: String,
    pub headers: Vec<(String, Vec<u8>)>,
    pub len: usize,
}

/// The head of a request.
pub struct RequestHeadView {
    pub method: Seq<char>,
    pub path: Seq<char>,
    pub headers: Seq<(Seq<char>, Seq<u8>)>,
    pub len: usize,
}

impl View for RequestHead {
    type V = RequestHeadView;

    open spec fn view(&self) -> RequestHeadView {
        RequestHeadView {
            method: self.method@,
            path: self.path@,
            headers: list_view(self.headers@),
            len: self.len,
        }
    }
}

/// The head of a response: its status code, its header fields in order, and the number of bytes
/// that it takes.
pub struct ResponseHead {
    pub code: u16,
    pub headers: Vec<(String, Vec<u8>)>,
    pub len: usize,
}

/// The head of a response.
pub struct ResponseHeadView {
    pub code: u16,
    pub headers: Seq<(Seq<char>, Seq<u8>)>,
    pub len: usize,
}

impl View for ResponseHead {
    type V = ResponseHeadView;

    open spec fn view(&self) -> ResponseHeadView {
        ResponseHeadView { code: self.code, headers: list_view(self.headers@), len: self.len }
    }
}

/// What `httparse` reads from bytes as the head of a request, with room for a number of header
/// fields: a head, nothing yet, or an error.
pub uninterp spec fn request_head(buffer: Seq<u8>, max_headers: nat) -> Result<
    Option<RequestHeadView>,
    ParseError,
>;

/// What `httparse` reads from bytes as the head of a response, with room for a number of header
/// fields: a head, nothing yet, or an error.
pub uninterp spec fn response_head(buffer: Seq<u8>, max_headers: nat) -> Result<
    Option<ResponseHeadView>,
    ParseError,
>;

/// The outcome of reading a request head.
pub open spec fn request_head_view(read: Result<Option<RequestHead>, ParseError>) -> Result<
    Option<RequestHeadView>,
    ParseError,
> {
    match read {
        Ok(Some(head)) => Ok(Some(head@)),
        Ok(None) => Ok(None),
        Err(error) => Err(error),
    }
}

/// The outcome of reading a response head.
pub open spec fn response_head_view(read: Result<Option<ResponseHead>, ParseError>) -> Result<
    Option<ResponseHeadView>,
    ParseError,
> {
    match read {
        Ok(Some(head)) => Ok(Some(head@)),
        Ok(None) => Ok(None),
        Err(error) => Err(error),
    }
}

/// The bytes have no blank and no tab at either end.
pub open spec fn is_trimmed(value: Seq<u8>) -> bool {
    value.len() > 0 ==> {
        &&& value[0] != 32 && value[0] != 9
        &&& value.last() != 32 && value.last() != 9
    }
}

/// Every name is a token, and every value a trimmed header value.
pub open spec fn fields_are_plain(list: Seq<(Seq<char>, Seq<u8>)>) -> bool {
    forall|i: int|
        0 <= i < list.len() ==> is_token((#[trigger] list[i]).0) && is_header_value(list[i].1)
            && is_trimmed(list[i].1)
}

/// A non-empty run of visible ASCII characters.
pub open spec fn is_path(path: Seq<char>) -> bool {
    &&& path.len() > 0
    &&& forall|i: int| 0 <= i < path.len() ==> '!' <= (#[trigger] path[i]) <= '~'
}

/// The first line of a request.
pub open spec fn request_start(method: Seq<char>, path: Seq<char>) -> Seq<char> {
    method + " "@ + path + " "@ + version_text(Version::Http11)
}

/// The first line of a response.
pub open spec fn response_start(code: u16, reason: Seq<char>) -> Seq<char> {
    version_text(Version::Http11) + " "@ + decimal(code as nat) + " "@ + reason
}

/// If the bytes begin with the head of a request that was written with plain header fields, that
/// head is read, or refused where it has more fields than there is room for.
pub open spec fn reads_written_request(
    buffer: Seq<u8>,
    max_headers: nat,
    read: Result<Option<RequestHeadView>, ParseError>,
) -> bool {
    forall|method: Seq<char>, path: Seq<char>, headers: Seq<(Seq<char>, Seq<u8>)>, rest: Seq<u8>|
        {
            &&& buffer == #[trigger] (head_bytes(request_start(method, path), headers) + rest)
            &&& is_token(method)
            &&& is_path(path)
            &&& fields_are_plain(headers)
        } ==> {
            let len = (buffer.len() - rest.len()) as usize;
            read == if headers.len() <= max_headers {
                Ok::<_, ParseError>(Some(RequestHeadView { method, path, headers, len }))
            } else {
                Err(ParseError::TooManyHeaders)
            }
        }
}

/// If the bytes are a part, from its start but not to its end, of the head of a request that was
/// written with plain header fields, no more than there is room for, more bytes are waited for.
pub open spec fn waits_for_written_request(
    buffer: Seq<u8>,
    max_headers: nat,
    read: Result<Option<RequestHeadView>, ParseError>,
) -> bool {
    forall|method: Seq<char>, path: Seq<char>, headers: Seq<(Seq<char>, Seq<u8>)>|
        {
            let head = #[trigger] head_bytes(request_start(method, path), headers);
            &&& buffer.len() < head.len()
            &&& buffer == head.take(buffer.len() as int)
            &&& is_token(method)
            &&& is_path(path)
            &&& fields_are_plain(headers)
            &&& headers.len() <= max_headers
        } ==> read == Ok::<Option<RequestHeadView>, ParseError>(None)
}

/// The bytes behind a request head make no difference.
pub open spec fn ignores_behind_request(
    buffer: Seq<u8>,
    max_headers: nat,
    read: Result<Option<RequestHeadView>, ParseError>,
) -> bool {
    read matches Ok(Some(head)) ==> forall|other: Seq<u8>|
        head.len <= other.len() && other.take(head.len as int) == buffer.take(head.len as int)
            ==> #[trigger] request_head(other, max_headers) == read
}

/// A request head that is read where there is other room is read the same, or refused where it has
/// more fields than there is room for.
pub open spec fn keeps_to_room_for_request(
    buffer: Seq<u8>,
    max_headers: nat,
    read: Result<Option<RequestHeadView>, ParseError>,
) -> bool {
    forall|room: nat|
        (#[trigger] request_head(buffer, room)) matches Ok(Some(head)) ==> read
            == if head.headers.len() <= max_headers {
            Ok::<_, ParseError>(Some(head))
        } else {
            Err(ParseError::TooManyHeaders)
        }
}

/// If the bytes begin with the head of a response that was written with plain header fields, that
/// head is read, or refused where it has more fields than there is room for.
pub open spec fn reads_written_response(
    buffer: Seq<u8>,
    max_headers: nat,
    read: Result<Option<ResponseHeadView>, ParseError>,
) -> bool {
    forall|code: u16, reason: Seq<char>, headers: Seq<(Seq<char>, Seq<u8>)>, rest: Seq<u8>|
        {
            &&& buffer == #[trigger] (head_bytes(response_start(code, reason), headers) + rest)
            &&& is_status(code)
            &&& is_header_value(encode_utf8(reason))
            &&& fields_are_plain(headers)
        } ==> {
            let len = (buffer.len() - rest.len()) as usize;
            read == if headers.len() <= max_headers {
                Ok::<_, ParseError>(Some(ResponseHeadView { code, headers, len }))
            } else {
                Err(ParseError::TooManyHeaders)
            }
        }
}

/// If the bytes are a part, from its start but not to its end, of the head of a response that was
/// written with plain header fields, no more than there is room for, more bytes are waited for.
pub open spec fn waits_for_written_response(
    buffer: Seq<u8>,
    max_headers: nat,
    read: Result<Option<ResponseHeadView>, ParseError>,
) -> bool {
    forall|code: u16, reason: Seq<char>, headers: Seq<(Seq<char>, Seq<u8>)>|
        {
            let head = #[trigger] head_bytes(response_start(code, reason), headers);
            &&& buffer.len() < head.len()
            &&& buffer == head.take(buffer.len() as int)
            &&& is_status(code)
            &&& is_header_value(encode_utf8(reason))
            &&& fields_are_plain(headers)
            &&& headers.len() <= max_headers
        } ==> read == Ok::<Option<ResponseHeadView>, ParseError>(None)
}

/// The bytes behind a response head make no difference.
pub open spec fn ignores_behind_response(
    buffer: Seq<u8>,
    max_headers: nat,
    read: Result<Option<ResponseHeadView>, ParseError>,
) -> bool {
    read matches Ok(Some(head)) ==> forall|other: Seq<u8>|
        head.len <= other.len() && other.take(head.len as int) == buffer.take(head.len as int)
            ==> #[trigger] response_head(other, max_headers) == read
}

/// A response head that is read where there is other room is read the same, or refused where it has
/// more fields than there is room for.
pub open spec fn keeps_to_room_for_response(
    buffer: Seq<u8>,
    max_headers: nat,
    read: Result<Option<ResponseHeadView>, ParseError>,
) -> bool {
    forall|room: nat|
        (#[trigger] response_head(buffer, room)) matches Ok(Some(head)) ==> read
            == if head.headers.len() <= max_headers {
            Ok::<_, ParseError>(Some(head))
        } else {
            Err(ParseError::TooManyHeaders)
        }
}

/// `httparse::Request::parse`, with room for `max_headers` header fields: the head where it is
/// complete, nothing where more bytes are needed, and otherwise the error. A complete head takes at
/// least one byte and no more than there are, and holds no more header fields than there is room
/// for; a head that has more is refused. The bytes behind it make no difference. From a head that
/// was written with a method, a path and plain header fields, it reads just those, and of a part of
/// it nothing yet.
#[verifier::external_body]
pub(crate) fn parse_request_head(buffer: &[u8], max_headers: usize) -> (read: Result<
    Option<RequestHead>,
    ParseError,
>)
    requires
        max_headers <= 1024,
    ensures
        request_head_view(read) == request_head(buffer@, max_headers as nat),
        read matches Ok(Some(head)) ==> 0 < head.len <= buffer@.len() && head.headers@.len()
            <= max_headers,
        reads_written_request(buffer@, max_headers as nat, request_head_view(read)),
        waits_for_written_request(buffer@, max_headers as nat, request_head_view(read)),
        ignores_behind_request(buffer@, max_headers as nat, request_head_view(read)),
        keeps_to_room_for_request(buffer@, max_headers as nat, request_head_view(read)),
{
    let mut slots = vec![httparse::EMPTY_HEADER; max_headers];
    let mut head = httparse::Request::new(&mut slots);
    match head.parse(buffer).map_err(|fault| match fault {
        Fault::HeaderName => ParseError::HeaderName, Fault::HeaderValue => ParseError::HeaderValue,
        Fault::NewLine => ParseError::NewLine, Fault::Status => ParseError::Status,
        Fault::Token => ParseError::Token, Fault::Version => ParseError::Version,
        Fault::TooManyHeaders => ParseError::TooManyHeaders,
    })? {
        Status::Partial => Ok(None),
        Status::Complete(len) => Ok(Some(RequestHead {
            method: head.method.unwrap().to_string(), path: head.path.unwrap().to_string(), len,
            headers: head.headers.iter().map(|h| (h.name.to_string(), h.value.to_vec())).collect(),
        })),
    }
}

/// `httparse::Response::parse`, with room for `max_headers` header fields: the head where it is
/// complete, nothing where more bytes are needed, and otherwise the error. A complete head takes at
/// least one byte and no more than there are, has a code of three digits, and holds no more header
/// fields than there is room for; a head that has more is refused. The bytes behind it make no
/// difference. From a head that was written with a status code, a reason phrase and plain header
/// fields, it reads just those, and of a part of it nothing yet.
#[verifier::external_body]
pub(crate) fn parse_response_head(buffer: &[u8], max_headers: usize) -> (read: Result<
    Option<ResponseHead>,
    ParseError,
>)
    requires
        max_headers <= 1024,
    ensures
        response_head_view(read) == response_head(buffer@, max_headers as nat),
        read matches Ok(Some(head)) ==> 0 < head.len <= buffer@.len() && head.headers@.len()
            <= max_headers && head.code <= 999,
        reads_written_response(buffer@, max_headers as nat, response_head_view(read)),
        waits_for_written_response(buffer@, max_headers as nat, response_head_view(read)),
        ignores_behind_response(buffer@, max_headers as nat, response_head_view(read)),
        keeps_to_room_for_response(buffer@, max_headers as nat, response_head_view(read)),
{
    let mut slots = vec![httparse::EMPTY_HEADER; max_headers];
    let mut head = httparse::Response::new(&mut slots);
    match head.parse(buffer).map_err(|fault| match fault {
        Fault::HeaderName => ParseError::HeaderName, Fault::HeaderValue => ParseError::HeaderValue,
        Fault::NewLine => ParseError::NewLine, Fault::Status => ParseError::Status,
        Fault::Token => ParseError::Token, Fault::Version => ParseError::Version,
        Fault::TooManyHeaders => ParseError::TooManyHeaders,
    })? {
        Status::Partial => Ok(None),
        Status::Complete(len) => Ok(Some(ResponseHead {
            code: head.code.unwrap(), len,
            headers: head.headers.iter().map(|h| (h.name.to_string(), h.value.to_vec())).collect(),
        })),
    }
}

} // verus!
