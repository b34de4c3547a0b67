use balancebeam::cache::{
    cache_key_for_request, cached_to_response, clone_response, maybe_store_cached_response,
    response_is_cacheable, response_to_cached, try_get_cached_response, ResponseCache,
};
use balancebeam::headers::Headers;
use balancebeam::message::Version;
use balancebeam::request::Request;
use balancebeam::response::Response;

fn header_fields(list: &[(&str, &str)]) -> Headers {
    let mut headers = Headers::new();
    for (name, value) in list {
        headers.append(name, value.as_bytes());
    }
    headers
}

fn request_for(method: &str, list: &[(&str, &str)], body: &[u8]) -> Request {
    Request {
        method: method.to_string(),
        uri: "/page?x=1".to_string(),
        version: Version::Http11,
        headers: header_fields(list),
        body: body.to_vec(),
    }
}

fn response_with(status: u16, list: &[(&str, &str)], body: &str) -> Response {
    Response {
        status,
        version: Version::Http11,
        headers: header_fields(list),
        body: body.as_bytes().to_vec(),
    }
}

fn key(text: &str) -> Option<String> {
    Some(text.to_string())
}

fn body_under(cache: &mut ResponseCache, text: &str) -> Option<String> {
    try_get_cached_response(cache, &key(text)).map(|r| String::from_utf8(r.body).unwrap())
}

fn store(cache: &mut ResponseCache, text: &str, body: &str) {
    maybe_store_cached_response(cache, &key(text), &response_with(200, &[], body));
}

#[test]
fn cache_key_is_the_uri() {
    let request = request_for("GET", &[("Accept", "x")], b"");
    assert_eq!(cache_key_for_request(&request), key("/page?x=1"));
}

#[test]
fn requests_without_a_cache_key() {
    for request in [
        request_for("POST", &[], b""),
        request_for("get", &[], b""),
        request_for("GET", &[], b"x"),
        request_for("GET", &[("Authorization", "x")], b""),
        request_for("GET", &[("Cookie", "x")], b""),
        request_for("GET", &[("Cache-Control", "max-age=0, No-Cache")], b""),
        request_for("GET", &[("Cache-Control", "no-store")], b""),
        request_for("GET", &[("Cache-Control", "PRIVATE")], b""),
        request_for("GET", &[("Cache-Control", "max-age=0"), ("cache-control", "no-store")], b""),
    ] {
        assert_eq!(cache_key_for_request(&request), None);
    }
}

#[test]
fn requests_with_harmless_directives_have_a_cache_key() {
    for request in [
        request_for("GET", &[("Cache-Control", "max-age=0")], b""),
        request_for("GET", &[("Cache-Control", "max-age=0"), ("Pragma", "no-cache")], b""),
    ] {
        assert!(cache_key_for_request(&request).is_some());
    }
}

#[test]
fn directive_counts_beside_bytes_outside_ascii() {
    let request = request_for("GET", &[("Cache-Control", "no-store, ext=\"\u{e9}\"")], b"");
    assert_eq!(cache_key_for_request(&request), None);
    let response = response_with(200, &[("Cache-Control", "\u{e9}, No-Cache")], "");
    assert!(!response_is_cacheable(&response));
    let response = response_with(200, &[("Cache-Control", "ext=\"\u{e9}\"")], "");
    assert!(response_is_cacheable(&response));
}

#[test]
fn cacheable_responses() {
    assert!(response_is_cacheable(&response_with(200, &[], "")));
    assert!(response_is_cacheable(&response_with(200, &[("Cache-Control", "public")], "")));
    for response in [
        response_with(201, &[], ""),
        response_with(500, &[], ""),
        response_with(200, &[("Set-Cookie", "a=b")], ""),
        response_with(200, &[("Cache-Control", "No-Store")], ""),
        response_with(200, &[("Cache-Control", "no-cache")], ""),
        response_with(200, &[("Cache-Control", "max-age=1, private")], ""),
        response_with(200, &[("Cache-Control", "max-age=60"), ("Cache-Control", "no-store")], ""),
        response_with(200, &[("A", "1"), ("Cache-Control", "x"), ("Cache-Control", "no-cache")], ""),
    ] {
        assert!(!response_is_cacheable(&response));
    }
}

#[test]
fn copies_of_a_response_are_equal_to_it() {
    let response = response_with(203, &[("B", "1"), ("A", "2"), ("B", "3")], "text");
    let copy = clone_response(&response);
    let cached = response_to_cached(&response);
    let back = cached_to_response(&cached);
    for other in [copy, back] {
        assert_eq!(other.status, 203);
        assert!(other.version == Version::Http11);
        assert_eq!(other.headers.list(), response.headers.list());
        assert_eq!(other.body, response.body);
    }
    assert_eq!(cached.status, 203);
}

#[test]
fn stored_response_is_looked_up() {
    let mut cache = ResponseCache::new(4);
    assert_eq!(body_under(&mut cache, "/a"), None);
    let response = response_with(200, &[("X", "1")], "first");
    maybe_store_cached_response(&mut cache, &key("/a"), &response);
    let found = try_get_cached_response(&mut cache, &key("/a")).unwrap();
    assert_eq!(found.status, 200);
    assert_eq!(found.headers.list(), response.headers.list());
    assert_eq!(found.body, b"first".to_vec());
    store(&mut cache, "/a", "second");
    assert_eq!(body_under(&mut cache, "/a"), Some("second".to_string()));
    assert!(try_get_cached_response(&mut cache, &None).is_none());
}

#[test]
fn uncacheable_response_is_not_stored() {
    let mut cache = ResponseCache::new(4);
    maybe_store_cached_response(&mut cache, &key("/a"), &response_with(404, &[], "x"));
    maybe_store_cached_response(&mut cache, &None, &response_with(200, &[], "x"));
    assert_eq!(body_under(&mut cache, "/a"), None);
}

#[test]
fn least_recently_used_response_leaves_first() {
    let mut cache = ResponseCache::new(2);
    store(&mut cache, "/a", "a");
    store(&mut cache, "/b", "b");
    assert_eq!(body_under(&mut cache, "/a"), Some("a".to_string()));
    store(&mut cache, "/c", "c");
    assert_eq!(body_under(&mut cache, "/b"), None);
    assert_eq!(body_under(&mut cache, "/a"), Some("a".to_string()));
    assert_eq!(body_under(&mut cache, "/c"), Some("c".to_string()));
    store(&mut cache, "/a", "again");
    store(&mut cache, "/d", "d");
    assert_eq!(body_under(&mut cache, "/c"), None);
    assert_eq!(body_under(&mut cache, "/a"), Some("again".to_string()));
}

#[test]
fn cache_of_no_entries_is_off() {
    let mut cache = ResponseCache::new(0);
    store(&mut cache, "/a", "a");
    assert_eq!(body_under(&mut cache, "/a"), None);
}
