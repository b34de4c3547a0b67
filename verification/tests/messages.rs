use balancebeam::headers::Headers;
use balancebeam::message::{
    is_text, read_content_length, reason_text, ReadEvent, Version, MAX_BODY_SIZE,
};
use balancebeam::parse::ParseError;
use balancebeam::request;
use balancebeam::request::{
    build_request, can_build_request, extend_header_value, format_request_line, parse_request,
    Request, RequestProgress, RequestReader,
};
use balancebeam::response;
use balancebeam::response::{
    build_response, can_build_response, format_response_line, make_http_error, parse_response,
    Response, ResponseProgress, ResponseReader,
};
use balancebeam::text::{contains, decimal_text, parse_usize, text_equal, to_lower};

fn bytes(text: &str) -> ReadEvent {
    ReadEvent::Bytes(text.as_bytes().to_vec())
}

fn fields(list: &[(&str, &str)]) -> Headers {
    let mut headers = Headers::new();
    for (name, value) in list {
        headers.append(name, value.as_bytes());
    }
    headers
}

fn pairs_of(headers: &Headers) -> Vec<(String, String)> {
    headers
        .list()
        .into_iter()
        .map(|(name, value)| (name, String::from_utf8(value).unwrap()))
        .collect()
}

fn pair(name: &str, value: &str) -> (String, String) {
    (name.to_string(), value.to_string())
}

fn read_request(pieces: &[&str]) -> RequestProgress {
    let mut reader = RequestReader::new();
    for piece in pieces {
        match request::read_from_stream(reader, bytes(piece)) {
            RequestProgress::More(next) => reader = next,
            other => return other,
        }
    }
    RequestProgress::More(reader)
}

fn read_response(method: &str, pieces: &[&str]) -> ResponseProgress {
    let mut reader = ResponseReader::new(method);
    for piece in pieces {
        match response::read_from_stream(reader, bytes(piece)) {
            ResponseProgress::More(next) => reader = next,
            other => return other,
        }
    }
    ResponseProgress::More(reader)
}

fn whole_request(pieces: &[&str]) -> Request {
    match read_request(pieces) {
        RequestProgress::Done(request) => request,
        _ => panic!("no request"),
    }
}

fn whole_response(method: &str, pieces: &[&str]) -> Response {
    match read_response(method, pieces) {
        ResponseProgress::Done(response) => response,
        _ => panic!("no response"),
    }
}

fn request_error(progress: RequestProgress) -> request::Error {
    match progress {
        RequestProgress::Failed(error) => error,
        _ => panic!("no error"),
    }
}

fn response_error(progress: ResponseProgress) -> response::Error {
    match progress {
        ResponseProgress::Failed(error) => error,
        _ => panic!("no error"),
    }
}

#[test]
fn request_is_read_in_one_piece() {
    let request = whole_request(&["GET /a?b=c HTTP/1.1\r\nHost: example\r\nX-A: 1\r\nx-a:  2 \r\n\r\n"]);
    assert_eq!(request.method, "GET");
    assert_eq!(request.uri, "/a?b=c");
    assert!(request.version == Version::Http11);
    assert_eq!(
        pairs_of(&request.headers),
        vec![pair("host", "example"), pair("x-a", "1"), pair("x-a", "2")]
    );
    assert!(request.body.is_empty());
}

#[test]
fn request_is_read_in_many_pieces() {
    let request = whole_request(&["PO", "ST / HT", "TP/1.1\r\nContent-", "Length: 5\r\n\r", "\nab", "c", "de"]);
    assert_eq!(request.method, "POST");
    assert_eq!(request.body, b"abcde".to_vec());
}

#[test]
fn request_without_a_length_keeps_what_came_with_its_head() {
    let request = whole_request(&["POST / HTTP/1.1\r\n\r\nextra"]);
    assert_eq!(request.body, b"extra".to_vec());
}

#[test]
fn request_that_got_more_than_announced_with_its_head_is_done() {
    let request = whole_request(&["POST / HTTP/1.1\r\nContent-Length: 2\r\n\r\nabcd"]);
    assert_eq!(request.body, b"abcd".to_vec());
}

#[test]
fn request_of_an_older_version_is_taken_for_the_newer() {
    let request = whole_request(&["GET / HTTP/1.0\r\n\r\n"]);
    assert!(request.version == Version::Http11);
}

#[test]
fn request_uri_is_shown_as_it_was_understood() {
    let request = whole_request(&["GET http://example HTTP/1.1\r\n\r\n"]);
    assert_eq!(request.uri, "http://example/");
    let request = whole_request(&["GET /a#part HTTP/1.1\r\n\r\n"]);
    assert_eq!(request.uri, "/a");
}

#[test]
fn request_target_reads_as_itself() {
    for target in ["/", "//", "/a/b.html?x=1&y=%20?", "/!$%&'()*+,-./09:;=?@AZ[\\]^_az{|}~"] {
        let request = whole_request(&[&format!("GET {} HTTP/1.1\r\n\r\n", target)]);
        assert_eq!(request.uri, target);
    }
    let longest = format!("/{}", "a".repeat(65533));
    let head = format!("GET {} HTTP/1.1\r\n\r\n", longest);
    match parse_request(head.as_bytes()) {
        Ok(Some((request, _))) => assert_eq!(request.uri, longest),
        _ => panic!("no request"),
    }
    assert!(!can_build_request(format!("GET {}a HTTP/1.1\r\n\r\n", longest).as_bytes()));
}

#[test]
fn request_reader_wants_what_fits() {
    let reader = RequestReader::new();
    assert_eq!(reader.wants(), 8000);
    match read_request(&["GET / HTTP"]) {
        RequestProgress::More(reader) => assert_eq!(reader.wants(), 7990),
        _ => panic!("not waiting"),
    }
    match read_request(&["POST / HTTP/1.1\r\nContent-Length: 20\r\n\r\nabc"]) {
        RequestProgress::More(reader) => assert_eq!(reader.wants(), 20),
        _ => panic!("not waiting"),
    }
    match read_request(&["POST / HTTP/1.1\r\nContent-Length: 2000\r\n\r\nabc"]) {
        RequestProgress::More(reader) => assert_eq!(reader.wants(), 512),
        _ => panic!("not waiting"),
    }
}

#[test]
fn request_errors() {
    let error = request_error(request::read_from_stream(RequestReader::new(), ReadEvent::End));
    assert!(matches!(error, request::Error::IncompleteRequest(0)));
    assert_eq!(error.text(), "incomplete request after reading 0 bytes");

    let reader = match read_request(&["GET /"]) {
        RequestProgress::More(reader) => reader,
        _ => panic!("not waiting"),
    };
    let error = request_error(request::read_from_stream(reader, ReadEvent::End));
    assert!(matches!(error, request::Error::IncompleteRequest(5)));
    assert_eq!(error.text(), "incomplete request after reading 5 bytes");

    let error = request_error(read_request(&["G(T / HTTP/1.1\r\n\r\n"]));
    assert!(matches!(error, request::Error::MalformedRequest(ParseError::Token)));
    assert_eq!(error.text(), "malformed request: invalid token");

    let error = request_error(read_request(&["GET / HTTP/3.1\r\n\r\n"]));
    assert!(matches!(error, request::Error::MalformedRequest(ParseError::Version)));
    assert_eq!(error.text(), "malformed request: invalid HTTP version");

    let error = request_error(read_request(&["GET / HTTP/1.1\r\nContent-Length: x\r\n\r\n"]));
    assert!(matches!(error, request::Error::InvalidContentLength));
    assert_eq!(error.text(), "invalid Content-Length header");

    let error = request_error(read_request(&["GET / HTTP/1.1\r\nContent-Length: 10000001\r\n\r\n"]));
    assert!(matches!(error, request::Error::RequestBodyTooLarge));
    assert_eq!(error.text(), "request body exceeded maximum allowed size");

    let error = request_error(read_request(&["GET / HTTP/1.1\r\nContent-Length: 3\r\n\r\na", "bcd"]));
    assert!(matches!(error, request::Error::ContentLengthMismatch));
    assert_eq!(error.text(), "request body length did not match Content-Length");

    let reader = match read_request(&["GET / HTTP/1.1\r\nContent-Length: 3\r\n\r\na"]) {
        RequestProgress::More(reader) => reader,
        _ => panic!("not waiting"),
    };
    let error = request_error(request::read_from_stream(reader, ReadEvent::End));
    assert!(matches!(error, request::Error::ContentLengthMismatch));

    let failed = ReadEvent::Failed("reset".to_string());
    let error = request_error(request::read_from_stream(RequestReader::new(), failed));
    assert_eq!(error.text(), "connection error: reset");
    assert!(matches!(error, request::Error::ConnectionError(message) if message == "reset"));
}

#[test]
fn parse_errors_have_their_texts() {
    let too_many: String = (0..33).map(|i| format!("X-{}: 1\r\n", i)).collect();
    let cases = vec![
        (format!("GET / HTTP/1.1\r\n{}\r\n", too_many), ParseError::TooManyHeaders, "too many headers"),
        ("GET / HTTP/1.1\r\nA B: 1\r\n\r\n".to_string(), ParseError::HeaderName, "invalid header name"),
        ("GET / HTTP/1.1\r\nA: \u{1}\r\n\r\n".to_string(), ParseError::HeaderValue, "invalid header value"),
        ("GET / HTTP/1.1\rx".to_string(), ParseError::NewLine, "invalid new line"),
    ];
    for (head, expected, text) in cases {
        match parse_request(head.as_bytes()) {
            Err(request::Error::MalformedRequest(error)) => {
                assert!(error == expected);
                assert_eq!(error.as_str(), text);
            }
            _ => panic!("no error"),
        }
    }
    match parse_response(b"HTTP/1.1 2x0 OK\r\n\r\n") {
        Err(response::Error::MalformedResponse(error)) => {
            assert!(error == ParseError::Status);
            assert_eq!(error.as_str(), "invalid response status");
        }
        _ => panic!("no error"),
    }
}

#[test]
fn request_head_of_thirty_two_fields_fits() {
    let fields: String = (0..32).map(|i| format!("X-{}: 1\r\n", i)).collect();
    let request = whole_request(&[&format!("GET / HTTP/1.1\r\n{}\r\n", fields)]);
    assert_eq!(request.headers.list().len(), 32);
}

#[test]
fn request_that_cannot_be_made_is_told_apart() {
    assert!(!can_build_request(b"GET /< HTTP/1.1\r\n\r\n"));
    assert!(can_build_request(b"GET / HTTP/1.1\r\n\r\n"));
    assert!(can_build_request(b"GET /"));
    let event = bytes("GET /< HTTP/1.1\r\n\r\n");
    assert!(request::try_read_from_stream(RequestReader::new(), event).is_none());
    match request::try_read_from_stream(RequestReader::new(), bytes("GET / HTTP/1.1\r\n\r\n")) {
        Some(RequestProgress::Done(request)) => assert_eq!(request.uri, "/"),
        _ => panic!("no request"),
    }
}

#[test]
fn request_with_an_endless_field_name_cannot_be_made() {
    let longest = format!("GET / HTTP/1.1\r\n{}: 1\r\n\r\n", "a".repeat(65535));
    assert!(can_build_request(longest.as_bytes()));
    let longer = format!("GET / HTTP/1.1\r\n{}: 1\r\n\r\n", "a".repeat(65536));
    assert!(!can_build_request(longer.as_bytes()));
}

#[test]
fn errors_tell_what_lies_behind_them() {
    let error = request::Error::MalformedRequest(ParseError::Token);
    assert_eq!(error.source(), Some("invalid token".to_string()));
    let error = request::Error::ConnectionError("reset".to_string());
    assert_eq!(error.source(), Some("reset".to_string()));
    assert_eq!(request::Error::IncompleteRequest(1).source(), None);
    let error = response::Error::MalformedResponse(ParseError::Status);
    assert_eq!(error.source(), Some("invalid response status".to_string()));
    let error = response::Error::ConnectionError("gone".to_string());
    assert_eq!(error.source(), Some("gone".to_string()));
    assert_eq!(response::Error::ResponseBodyTooLarge.source(), None);
}

#[test]
fn request_is_built_from_a_head() {
    let head = balancebeam::parse::RequestHead {
        method: "PUT".to_string(),
        path: "/ignored".to_string(),
        headers: vec![("B".to_string(), b"1".to_vec()), ("b".to_string(), b"2".to_vec())],
        len: 9,
    };
    let request = build_request(head, "/shown".to_string());
    assert_eq!(request.method, "PUT");
    assert_eq!(request.uri, "/shown");
    assert_eq!(pairs_of(&request.headers), vec![pair("b", "1"), pair("b", "2")]);
}

#[test]
fn parsing_a_request_tells_where_its_head_ends() {
    match parse_request(b"GET / HTTP/1.1\r\nA: b\r\n\r\nrest") {
        Ok(Some((request, len))) => {
            assert_eq!(len, 24);
            assert!(request.body.is_empty());
        }
        _ => panic!("no request"),
    }
    assert!(matches!(parse_request(b"GET / HTTP/1.1\r\nA: b\r\n"), Ok(None)));
}

#[test]
fn request_is_written() {
    let request = Request {
        method: "POST".to_string(),
        uri: "/x".to_string(),
        version: Version::Http11,
        headers: fields(&[("Host", "h"), ("Content-Length", "2")]),
        body: b"ok".to_vec(),
    };
    assert_eq!(format_request_line(&request), "POST /x HTTP/1.1");
    let mut out = b"> ".to_vec();
    request::write_to_stream(&request, &mut out);
    let expected = b"> POST /x HTTP/1.1\r\nhost: h\r\ncontent-length: 2\r\n\r\nok";
    assert_eq!(out, expected.to_vec());
}

#[test]
fn written_request_is_read_back() {
    let request = Request {
        method: "PATCH".to_string(),
        uri: "/a/b?c=%20d".to_string(),
        version: Version::Http11,
        headers: fields(&[("Accept", "a, b"), ("Accept", ""), ("Content-Length", "3")]),
        body: vec![0, 255, 10],
    };
    let mut out = Vec::new();
    request::write_to_stream(&request, &mut out);
    match request::read_from_stream(RequestReader::new(), ReadEvent::Bytes(out)) {
        RequestProgress::Done(back) => {
            assert_eq!(back.method, request.method);
            assert_eq!(back.uri, request.uri);
            assert!(back.version == request.version);
            assert_eq!(back.headers.list(), request.headers.list());
            assert_eq!(back.body, request.body);
        }
        _ => panic!("no request"),
    }
}

#[test]
fn written_messages_are_read_back_byte_by_byte() {
    let request = Request {
        method: "POST".to_string(),
        uri: "/a".to_string(),
        version: Version::Http11,
        headers: fields(&[("Host", "h"), ("Empty", ""), ("Content-Length", "3")]),
        body: b"abc".to_vec(),
    };
    let mut out = Vec::new();
    request::write_to_stream(&request, &mut out);
    let mut reader = RequestReader::new();
    for (i, byte) in out.iter().enumerate() {
        match request::try_read_from_stream(reader, ReadEvent::Bytes(vec![*byte])).unwrap() {
            RequestProgress::More(next) => {
                assert!(i + 1 < out.len());
                reader = next;
            }
            RequestProgress::Done(back) => {
                assert_eq!(i + 1, out.len());
                assert_eq!(back.headers.list(), request.headers.list());
                assert_eq!(back.body, request.body);
                break;
            }
            RequestProgress::Failed(_) => panic!("failed"),
        }
    }

    let response = Response {
        status: 404,
        version: Version::Http11,
        headers: fields(&[("Content-Length", "2"), ("A", "b c")]),
        body: b"no".to_vec(),
    };
    let mut out = Vec::new();
    response::write_to_stream(&response, &mut out);
    let mut reader = ResponseReader::new("GET");
    for (i, byte) in out.iter().enumerate() {
        match response::try_read_from_stream(reader, ReadEvent::Bytes(vec![*byte])).unwrap() {
            ResponseProgress::More(next) => {
                assert!(i + 1 < out.len());
                reader = next;
            }
            ResponseProgress::Done(back) => {
                assert_eq!(i + 1, out.len());
                assert_eq!(back.status, 404);
                assert_eq!(back.headers.list(), response.headers.list());
                assert_eq!(back.body, response.body);
                break;
            }
            ResponseProgress::Failed(_) => panic!("failed"),
        }
    }
}

#[test]
fn open_ended_response_is_read_back() {
    let response = Response {
        status: 200,
        version: Version::Http11,
        headers: fields(&[("A", "b")]),
        body: b"text".to_vec(),
    };
    let mut out = Vec::new();
    response::write_to_stream(&response, &mut out);
    let mut reader = ResponseReader::new("GET");
    for piece in out.chunks(5) {
        match response::read_from_stream(reader, ReadEvent::Bytes(piece.to_vec())) {
            ResponseProgress::More(next) => reader = next,
            _ => panic!("not waiting"),
        }
    }
    match response::read_from_stream(reader, ReadEvent::End) {
        ResponseProgress::Done(back) => assert_eq!(back.body, response.body),
        _ => panic!("no response"),
    }
}

#[test]
fn bytes_behind_a_head_make_no_difference() {
    let head = "GET /a HTTP/1.0\nA:b \n\n";
    for rest in ["", "x", "\r\n\r\n", "GET / HTTP/1.1\r\n"] {
        match parse_request(format!("{}{}", head, rest).as_bytes()) {
            Ok(Some((request, len))) => {
                assert_eq!(len, head.len());
                assert_eq!(request.uri, "/a");
                assert_eq!(pairs_of(&request.headers), vec![pair("a", "b")]);
            }
            _ => panic!("no request"),
        }
    }
}

#[test]
fn one_field_too_many_is_refused() {
    let lines: String = (0..33).map(|_| "A:1\n").collect();
    assert!(matches!(
        parse_request(format!("GET / HTTP/1.1\n{}\n", lines).as_bytes()),
        Err(request::Error::MalformedRequest(ParseError::TooManyHeaders))
    ));
    assert!(matches!(
        parse_response(format!("HTTP/1.1 200 OK\n{}\n", lines).as_bytes()),
        Err(response::Error::MalformedResponse(ParseError::TooManyHeaders))
    ));
}

#[test]
fn header_value_is_extended() {
    let mut request = whole_request(&["GET / HTTP/1.1\r\nX-Forwarded-For: 1.1.1.1\r\nA: b\r\n\r\n"]);
    extend_header_value(&mut request, "x-forwarded-for", "2.2.2.2");
    assert_eq!(
        pairs_of(&request.headers),
        vec![pair("x-forwarded-for", "1.1.1.1, 2.2.2.2"), pair("a", "b")]
    );
    extend_header_value(&mut request, "X-New", "n");
    assert_eq!(request.headers.get("x-new"), Some(&b"n"[..]));
}

#[test]
fn extending_a_field_keeps_its_first_value_only() {
    let mut request = whole_request(&["GET / HTTP/1.1\r\nA: 1\r\nA: 2\r\n\r\n"]);
    extend_header_value(&mut request, "a", "3");
    assert_eq!(pairs_of(&request.headers), vec![pair("a", "1, 3")]);
}

#[test]
fn headers_are_a_map() {
    let mut headers = fields(&[("A", "1"), ("B", "2"), ("a", "3")]);
    assert_eq!(pairs_of(&headers), vec![pair("a", "1"), pair("a", "3"), pair("b", "2")]);
    assert_eq!(headers.get("A"), Some(&b"1"[..]));
    assert_eq!(headers.get("c"), None);
    assert!(headers.contains_key("B"));
    assert!(!headers.contains_key("no such"));
    let copy = headers.copy();
    headers.insert("A", b"4");
    assert_eq!(pairs_of(&headers), vec![pair("a", "4"), pair("b", "2")]);
    assert_eq!(copy.list().len(), 3);
    let rebuilt = Headers::from_list(&copy.list());
    assert_eq!(rebuilt.list(), copy.list());
}

#[test]
fn content_length_is_read() {
    assert!(read_content_length(&fields(&[])) == Ok(None));
    assert!(read_content_length(&fields(&[("Content-Length", "17")])) == Ok(Some(17)));
    assert!(read_content_length(&fields(&[("Content-Length", "+17")])) == Ok(Some(17)));
    assert!(read_content_length(&fields(&[("Content-Length", "007")])) == Ok(Some(7)));
    assert!(read_content_length(&fields(&[("Content-Length", "-1")])) == Err(()));
    assert!(read_content_length(&fields(&[("Content-Length", "")])) == Err(()));
    assert!(read_content_length(&fields(&[("Content-Length", "1, 2")])) == Err(()));
    assert!(read_content_length(&fields(&[("Content-Length", "1\u{e9}")])) == Err(()));
    assert!(
        read_content_length(&fields(&[("Content-Length", "99999999999999999999999")])) == Err(())
    );
    let both = fields(&[("Content-Length", "1"), ("Content-Length", "x")]);
    assert!(read_content_length(&both) == Ok(Some(1)));
}

#[test]
fn content_length_of_messages() {
    let request = whole_request(&["GET / HTTP/1.1\r\nContent-Length: 0\r\n\r\n"]);
    assert!(matches!(request::get_content_length(&request), Ok(Some(0))));
    let response = whole_response("GET", &["HTTP/1.1 204 No Content\r\nContent-Length: x\r\n\r\n"]);
    assert!(matches!(
        response::get_content_length(&response),
        Err(response::Error::InvalidContentLength)
    ));
}

#[test]
fn response_is_read_in_many_pieces() {
    let response = whole_response(
        "GET",
        &["HTTP/1.1 20", "1 Created\r\nContent-Length: 4\r\n", "\r\na", "bc", "d"],
    );
    assert_eq!(response.status, 201);
    assert!(response.version == Version::Http11);
    assert_eq!(response.body, b"abcd".to_vec());
    assert_eq!(pairs_of(&response.headers), vec![pair("content-length", "4")]);
}

#[test]
fn response_without_a_length_ends_with_its_stream() {
    let reader = match read_response("GET", &["HTTP/1.1 200 OK\r\n\r\nab", "cd"]) {
        ResponseProgress::More(reader) => reader,
        _ => panic!("not waiting"),
    };
    match response::read_from_stream(reader, ReadEvent::End) {
        ResponseProgress::Done(response) => assert_eq!(response.body, b"abcd".to_vec()),
        _ => panic!("no response"),
    }
}

#[test]
fn responses_that_end_with_their_head() {
    for (method, head) in [
        ("HEAD", "HTTP/1.1 200 OK\r\nContent-Length: 100\r\n\r\n"),
        ("GET", "HTTP/1.1 100 Continue\r\n\r\n"),
        ("GET", "HTTP/1.1 204 No Content\r\n\r\n"),
        ("GET", "HTTP/1.1 304 Not Modified\r\nContent-Length: 100\r\n\r\n"),
    ] {
        assert!(whole_response(method, &[head]).body.is_empty());
    }
    let waiting = read_response("GET", &["HTTP/1.1 200 OK\r\nContent-Length: 100\r\n\r\n"]);
    assert!(matches!(waiting, ResponseProgress::More(_)));
}

#[test]
fn response_reader_wants_what_fits() {
    assert_eq!(ResponseReader::new("GET").wants(), 8000);
    match read_response("GET", &["HTTP/1.1 200 OK\r\nContent-Length: 100\r\n\r\n"]) {
        ResponseProgress::More(reader) => assert_eq!(reader.wants(), 512),
        _ => panic!("not waiting"),
    }
}

#[test]
fn response_errors() {
    let error = response_error(response::read_from_stream(ResponseReader::new("GET"), ReadEvent::End));
    assert!(matches!(error, response::Error::IncompleteResponse));
    assert_eq!(error.text(), "incomplete response");

    let error = response_error(read_response("GET", &["HTTP/1.1 abc\r\n\r\n"]));
    assert!(matches!(error, response::Error::MalformedResponse(ParseError::Status)));
    assert_eq!(error.text(), "malformed response: invalid response status");

    let error = response_error(read_response("GET", &["HTTP/1.1 200 OK\r\nContent-Length: x\r\n\r\n"]));
    assert!(matches!(error, response::Error::InvalidContentLength));
    assert_eq!(error.text(), "invalid Content-Length header");

    let head = "HTTP/1.1 200 OK\r\nContent-Length: 3\r\n\r\na";
    let error = response_error(read_response("GET", &[head, "bcd"]));
    assert!(matches!(error, response::Error::ContentLengthMismatch));
    assert_eq!(error.text(), "response body length did not match Content-Length");

    let reader = match read_response("GET", &[head]) {
        ResponseProgress::More(reader) => reader,
        _ => panic!("not waiting"),
    };
    let error = response_error(response::read_from_stream(reader, ReadEvent::End));
    assert!(matches!(error, response::Error::ContentLengthMismatch));

    let failed = ReadEvent::Failed("gone".to_string());
    let error = response_error(response::read_from_stream(ResponseReader::new("GET"), failed));
    assert_eq!(error.text(), "connection error: gone");
}

#[test]
fn response_body_has_a_limit() {
    let mut reader = match read_response("GET", &["HTTP/1.1 200 OK\r\n\r\n"]) {
        ResponseProgress::More(reader) => reader,
        _ => panic!("not waiting"),
    };
    let mut total: usize = 0;
    loop {
        match response::read_from_stream(reader, ReadEvent::Bytes(vec![7; 512])) {
            ResponseProgress::More(next) => {
                total += 512;
                reader = next;
            }
            ResponseProgress::Failed(error) => {
                assert!(matches!(error, response::Error::ResponseBodyTooLarge));
                assert_eq!(error.text(), "response body exceeded maximum allowed size");
                break;
            }
            ResponseProgress::Done(_) => panic!("done"),
        }
    }
    assert!(total <= MAX_BODY_SIZE && total + 512 > MAX_BODY_SIZE);
}

#[test]
fn response_that_cannot_be_made_is_told_apart() {
    assert!(!can_build_response(b"HTTP/1.1 099 Odd\r\n\r\n"));
    assert!(can_build_response(b"HTTP/1.1 999 Odd\r\n\r\n"));
    let event = bytes("HTTP/1.1 099 Odd\r\n\r\n");
    assert!(response::try_read_from_stream(ResponseReader::new("GET"), event).is_none());
    let event = bytes("HTTP/1.1 204 None\r\n\r\n");
    match response::try_read_from_stream(ResponseReader::new("GET"), event) {
        Some(ResponseProgress::Done(response)) => assert_eq!(response.status, 204),
        _ => panic!("no response"),
    }
}

#[test]
fn response_is_built_from_a_head() {
    let head = balancebeam::parse::ResponseHead {
        code: 418,
        headers: vec![("A".to_string(), b"1".to_vec())],
        len: 3,
    };
    let response = build_response(head);
    assert_eq!(response.status, 418);
    assert_eq!(pairs_of(&response.headers), vec![pair("a", "1")]);
}

#[test]
fn response_is_written() {
    let response = Response {
        status: 404,
        version: Version::Http10,
        headers: fields(&[("Content-Length", "2")]),
        body: b"no".to_vec(),
    };
    assert_eq!(format_response_line(&response), "HTTP/1.0 404 Not Found");
    let mut out = Vec::new();
    response::write_to_stream(&response, &mut out);
    assert_eq!(out, b"HTTP/1.0 404 Not Found\r\ncontent-length: 2\r\n\r\nno".to_vec());
}

#[test]
fn written_response_is_read_back() {
    let response = Response {
        status: 418,
        version: Version::Http11,
        headers: fields(&[("Set-Cookie", "a=b"), ("Set-Cookie", "c"), ("Content-Length", "2")]),
        body: vec![13, 10],
    };
    let mut out = Vec::new();
    response::write_to_stream(&response, &mut out);
    match response::read_from_stream(ResponseReader::new("GET"), ReadEvent::Bytes(out)) {
        ResponseProgress::Done(back) => {
            assert_eq!(back.status, 418);
            assert_eq!(back.headers.list(), response.headers.list());
            assert_eq!(back.body, response.body);
        }
        _ => panic!("no response"),
    }
}

#[test]
fn error_responses_are_exact() {
    for (status, text) in [
        (400, "HTTP 400 Bad Request"),
        (413, "HTTP 413 Payload Too Large"),
        (429, "HTTP 429 Too Many Requests"),
        (502, "HTTP 502 Bad Gateway"),
        (503, "HTTP 503 Service Unavailable"),
        (599, "HTTP 599 "),
    ] {
        let response = make_http_error(status);
        assert_eq!(response.status, status);
        assert!(response.version == Version::Http11);
        assert_eq!(response.body, text.as_bytes().to_vec());
        assert_eq!(
            pairs_of(&response.headers),
            vec![pair("content-type", "text/plain"), pair("content-length", &text.len().to_string())]
        );
    }
}

#[test]
fn versions_and_reasons_have_texts() {
    assert_eq!(Version::Http09.as_str(), "HTTP/0.9");
    assert_eq!(Version::Http10.as_str(), "HTTP/1.0");
    assert_eq!(Version::Http11.as_str(), "HTTP/1.1");
    assert_eq!(Version::H2.as_str(), "HTTP/2.0");
    assert_eq!(Version::H3.as_str(), "HTTP/3.0");
    assert_eq!(reason_text(200), "OK");
    assert_eq!(reason_text(999), "");
    assert!(is_text(b"a b\tc"));
    assert!(!is_text(&[200]));
    assert!(!is_text(b"a\n"));
}

#[test]
fn texts_and_numbers() {
    assert!(text_equal("GET", "GET"));
    assert!(!text_equal("GET", "get"));
    assert_eq!(decimal_text(0), "0");
    assert_eq!(decimal_text(10203), "10203");
    assert_eq!(decimal_text(usize::MAX), usize::MAX.to_string());
    assert_eq!(parse_usize(decimal_text(90).as_bytes()), Some(90));
    assert_eq!(parse_usize(usize::MAX.to_string().as_bytes()), Some(usize::MAX));
    assert_eq!(parse_usize(b"18446744073709551616"), None);
    assert_eq!(parse_usize(b"+"), None);
    assert_eq!(parse_usize(b"1 "), None);
    assert!(contains(b"max-age=0, no-store", b"no-store"));
    assert!(!contains(b"no-stor", b"no-store"));
    assert!(contains(b"", b""));
    assert_eq!(to_lower(b"No-Store [Z]"), b"no-store [z]".to_vec());
}
