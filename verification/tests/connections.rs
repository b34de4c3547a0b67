use balancebeam::config::CmdOptions;
use balancebeam::headers::Headers;
use balancebeam::message::Version;
use balancebeam::parse::ParseError;
use balancebeam::proxy::{
    check_rate_limit, check_rate_limit_at, handle_connection, handle_request, Action, Event, Phase,
    WINDOW,
};
use balancebeam::request::{Error, Request};
use balancebeam::response::Response;
use balancebeam::state::{HealthUpdate, ProxyState};

const SECOND: u128 = 1_000_000_000;

fn proxy_with(upstreams: &[&str], limit: usize, cache: usize) -> ProxyState<u32> {
    ProxyState::new(CmdOptions {
        bind: String::new(),
        upstream: upstreams.iter().map(|u| u.to_string()).collect(),
        active_health_check_interval: 0,
        active_health_check_path: "/".to_string(),
        max_requests_per_minute: limit,
        max_cache_entries: cache,
    })
}

fn get(uri: &str) -> Request {
    let mut headers = Headers::new();
    headers.append("X-Forwarded-For", b"9.9.9.9");
    Request {
        method: "GET".to_string(),
        uri: uri.to_string(),
        version: Version::Http11,
        headers,
        body: Vec::new(),
    }
}

fn answer(status: u16, body: &str) -> Response {
    Response {
        status,
        version: Version::Http11,
        headers: Headers::new(),
        body: body.as_bytes().to_vec(),
    }
}

fn reports(state: &mut ProxyState<u32>) -> Vec<String> {
    state
        .take_health_updates()
        .into_iter()
        .map(|update| match update {
            HealthUpdate::MarkDead(upstream) => format!("dead {}", upstream),
            HealthUpdate::MarkAlive(upstream) => format!("alive {}", upstream),
        })
        .collect()
}

fn step(state: &mut ProxyState<u32>, phase: Phase, event: Event<u32>) -> (Phase, Action) {
    handle_connection(state, "1.2.3.4", phase, event)
}

fn text_of(response: &Response) -> String {
    String::from_utf8(response.body.clone()).unwrap()
}

#[test]
fn limit_holds_in_a_sliding_window() {
    let mut state = proxy_with(&["a"], 2, 0);
    assert!(check_rate_limit_at(&mut state, "c", 10 * SECOND));
    assert!(check_rate_limit_at(&mut state, "c", 30 * SECOND));
    assert!(!check_rate_limit_at(&mut state, "c", 40 * SECOND));
    assert!(!check_rate_limit_at(&mut state, "c", 70 * SECOND));
    assert!(check_rate_limit_at(&mut state, "c", 70 * SECOND + 1));
    assert!(!check_rate_limit_at(&mut state, "c", 90 * SECOND));
    assert!(check_rate_limit_at(&mut state, "c", 90 * SECOND + 1));
    assert_eq!(WINDOW, 60 * SECOND);
}

#[test]
fn clients_are_counted_apart() {
    let mut state = proxy_with(&["a"], 1, 0);
    assert!(check_rate_limit_at(&mut state, "c", SECOND));
    assert!(check_rate_limit_at(&mut state, "d", SECOND));
    assert!(!check_rate_limit_at(&mut state, "c", 2 * SECOND));
    assert!(!check_rate_limit_at(&mut state, "d", 2 * SECOND));
}

#[test]
fn refused_requests_do_not_count() {
    let mut state = proxy_with(&["a"], 1, 0);
    assert!(check_rate_limit_at(&mut state, "c", 0));
    for i in 1..60 {
        assert!(!check_rate_limit_at(&mut state, "c", i * SECOND));
    }
    assert!(check_rate_limit_at(&mut state, "c", 61 * SECOND));
}

#[test]
fn no_limit_lets_everything_through() {
    let mut state = proxy_with(&["a"], 0, 0);
    for _ in 0..100 {
        assert!(check_rate_limit(&mut state, "c"));
    }
}

#[test]
fn limit_goes_by_the_clock() {
    let mut state = proxy_with(&["a"], 3, 0);
    for _ in 0..3 {
        assert!(check_rate_limit(&mut state, "c"));
    }
    assert!(!check_rate_limit(&mut state, "c"));
    assert!(check_rate_limit(&mut state, "d"));
}

#[test]
fn requests_that_could_not_be_read_are_answered() {
    let mut state = proxy_with(&["a"], 0, 0);
    for (error, status) in [
        (Error::IncompleteRequest(3), 400),
        (Error::MalformedRequest(ParseError::Token), 400),
        (Error::InvalidContentLength, 400),
        (Error::ContentLengthMismatch, 400),
        (Error::RequestBodyTooLarge, 413),
    ] {
        match step(&mut state, Phase::Reading, Event::RequestFailed(error)) {
            (Phase::Reading, Action::Respond(response)) => assert_eq!(response.status, status),
            _ => panic!("not answered"),
        }
    }
    for error in [Error::IncompleteRequest(0), Error::ConnectionError("x".to_string())] {
        let next = step(&mut state, Phase::Reading, Event::RequestFailed(error));
        assert!(matches!(next, (Phase::Closed, Action::Close)));
    }
}

#[test]
fn refused_request_is_answered() {
    let mut state = proxy_with(&["a"], 1, 0);
    let first = step(&mut state, Phase::Reading, Event::RequestRead(get("/")));
    assert!(matches!(first, (Phase::Connecting(_), Action::Connect)));
    match step(&mut state, Phase::Reading, Event::RequestRead(get("/"))) {
        (Phase::Reading, Action::Respond(response)) => {
            assert_eq!(response.status, 429);
            assert_eq!(text_of(&response), "HTTP 429 Too Many Requests");
        }
        _ => panic!("not answered"),
    }
    match handle_request(&mut state, "1.2.3.4", get("/"), false) {
        (Phase::Reading, Action::Respond(response)) => assert_eq!(response.status, 429),
        _ => panic!("not answered"),
    }
}

#[test]
fn forwarded_request_names_the_client() {
    let mut state = proxy_with(&["a", "b"], 0, 8);
    match handle_request(&mut state, "1.2.3.4", get("/x"), true) {
        (Phase::Connecting(forward), Action::Connect) => {
            assert_eq!(forward.request.headers.get("x-forwarded-for"), Some(&b"9.9.9.9, 1.2.3.4"[..]));
            assert_eq!(forward.cache_key, Some("/x".to_string()));
            assert_eq!(forward.tried, vec![false, false]);
        }
        _ => panic!("not forwarded"),
    }
}

#[test]
fn answer_is_delivered_and_cached() {
    let mut state = proxy_with(&["a", "b"], 0, 8);
    let (phase, _) = step(&mut state, Phase::Reading, Event::RequestRead(get("/x")));
    state.increment_active_requests(1);
    let (phase, action) = step(&mut state, phase, Event::Connected(1));
    assert!(matches!(action, Action::Exchange));
    match &phase {
        Phase::Exchanging(forward, idx) => {
            assert_eq!(forward.tried, vec![false, true]);
            assert_eq!(*idx, 1);
        }
        _ => panic!("no exchange"),
    }
    let (phase, action) = step(&mut state, phase, Event::Answered(answer(200, "hello")));
    match action {
        Action::Deliver(response) => assert_eq!(text_of(&response), "hello"),
        _ => panic!("not delivered"),
    }
    assert_eq!(reports(&mut state), vec!["alive b"]);
    assert_eq!(state.active_requests, vec![0, 0]);
    let next = step(&mut state, phase, Event::Delivered(77));
    assert!(matches!(next, (Phase::Reading, Action::Read)));
    assert_eq!(state.take_pooled_connection("b"), Some(77));

    match step(&mut state, Phase::Reading, Event::RequestRead(get("/x"))) {
        (Phase::Reading, Action::Respond(response)) => assert_eq!(text_of(&response), "hello"),
        _ => panic!("not answered from the cache"),
    }
    assert!(reports(&mut state).is_empty());
    let other = step(&mut state, Phase::Reading, Event::RequestRead(get("/y")));
    assert!(matches!(other, (Phase::Connecting(_), Action::Connect)));
}

#[test]
fn client_error_of_an_upstream_is_delivered_but_not_cached() {
    let mut state = proxy_with(&["a"], 0, 8);
    let (phase, _) = step(&mut state, Phase::Reading, Event::RequestRead(get("/x")));
    let (phase, _) = step(&mut state, phase, Event::Connected(0));
    let (_, action) = step(&mut state, phase, Event::Answered(answer(499, "no")));
    assert!(matches!(action, Action::Deliver(response) if response.status == 499));
    assert_eq!(reports(&mut state), vec!["alive a"]);
    let again = step(&mut state, Phase::Reading, Event::RequestRead(get("/x")));
    assert!(matches!(again, (Phase::Connecting(_), Action::Connect)));
}

#[test]
fn failing_upstreams_are_left_for_others() {
    let mut state = proxy_with(&["a", "b", "c"], 0, 8);
    let (phase, _) = step(&mut state, Phase::Reading, Event::RequestRead(get("/x")));
    state.increment_active_requests(0);
    let (phase, _) = step(&mut state, phase, Event::Connected(0));
    let (phase, action) = step(&mut state, phase, Event::Answered(answer(500, "broken")));
    assert!(matches!(action, Action::Connect));
    match &phase {
        Phase::Connecting(forward) => assert_eq!(forward.tried, vec![true, false, false]),
        _ => panic!("not connecting"),
    }
    let (phase, _) = step(&mut state, phase, Event::Connected(2));
    let (phase, action) = step(&mut state, phase, Event::NotAnswered);
    assert!(matches!(action, Action::Connect));
    let (phase, _) = step(&mut state, phase, Event::Connected(1));
    match step(&mut state, phase, Event::NotAnswered) {
        (Phase::Closed, Action::RespondAndClose(response)) => {
            assert_eq!(response.status, 502);
            assert_eq!(text_of(&response), "HTTP 502 Bad Gateway");
        }
        _ => panic!("not given up"),
    }
    assert_eq!(reports(&mut state), vec!["dead a", "dead c", "dead b"]);
    assert_eq!(state.active_requests, vec![0, 0, 0]);
    assert_eq!(state.take_pooled_connection("a"), None);
}

#[test]
fn one_good_upstream_is_enough() {
    for good in 0..3 {
        let mut state = proxy_with(&["a", "b", "c"], 0, 0);
        let (mut phase, mut action) =
            step(&mut state, Phase::Reading, Event::RequestRead(get("/x")));
        let mut steps = 0;
        for idx in 0..3 {
            assert!(matches!(action, Action::Connect));
            assert_eq!(state.active_requests, vec![0, 0, 0]);
            state.increment_active_requests(idx);
            let (next, _) = step(&mut state, phase, Event::Connected(idx));
            let mut counts = vec![0, 0, 0];
            counts[idx] = 1;
            assert_eq!(state.active_requests, counts);
            let event = if idx == good {
                Event::Answered(answer(200, "ok"))
            } else {
                Event::Answered(answer(503, "down"))
            };
            (phase, action) = step(&mut state, next, event);
            steps += 2;
            if idx == good {
                break;
            }
        }
        assert!(matches!(action, Action::Deliver(response) if text_of(&response) == "ok"));
        assert_eq!(state.active_requests, vec![0, 0, 0]);
        assert_eq!(steps, 2 * (good + 1));
    }
}

#[test]
fn no_connection_is_a_bad_gateway() {
    let mut state = proxy_with(&["a"], 0, 8);
    let (phase, _) = step(&mut state, Phase::Reading, Event::RequestRead(get("/x")));
    match step(&mut state, phase, Event::NotConnected) {
        (Phase::Closed, Action::RespondAndClose(response)) => assert_eq!(response.status, 502),
        _ => panic!("not given up"),
    }
}

#[test]
fn no_upstream_is_a_bad_gateway() {
    let mut state = proxy_with(&[], 0, 8);
    match step(&mut state, Phase::Reading, Event::RequestRead(get("/x"))) {
        (Phase::Closed, Action::RespondAndClose(response)) => assert_eq!(response.status, 502),
        _ => panic!("not given up"),
    }
}
