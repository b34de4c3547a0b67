//! The handling of a client connection: rate limiting, answers from the cache, forwarding to an
//! upstream, and failover to the next one.
use std::collections::VecDeque;
use vstd::prelude::*;
use vstd::string::*;
use vstd::utf8::*;

use crate::cache::{
    after_lookup, after_store, cache_key, cache_key_for_request, clone_response, is_cacheable,
    key_view, law_cache_key_is_for_plain_gets, law_lookup_gives_what_was_stored,
    law_only_plain_successes_are_cached, lookup_answer, maybe_store_cached_response,
    try_get_cached_response,
};
use crate::headers::{header_name, is_header_value, value_of, well_formed, MAX_HEADER_NAMES};
use crate::request::{
    extend_header_value, extended, law_extended_field, law_extending_keeps_all_other_fields, Error,
    ErrorView, Request, RequestView,
};
use crate::response::{
    error_response, make_http_error, response_well_formed, Response, ResponseView,
};
use crate::state::{
    clock_reads, counts_have_room, decremented, incremented, law_counted_in_and_out,
    law_last_returned_is_taken_first, returned, state_well_formed, taken, with_update,
    HealthUpdateView, ProxyState, ProxyStateView,
};
use crate::text::{is_token, lower_char};
use crate::upstream::{lemma_one_fewer_untried, some_untried, untried_count, verdict};

verus! {

/// The length of the window in which the requests of a client are counted, in nanoseconds.
pub const WINDOW: u128 = 60_000_000_000;

/// The time lies before the window that ends now.
pub open spec fn is_expired(time: u128, now: u128) -> bool {
    time + WINDOW < now
}

/// The times without the expired ones at their front.
pub open spec fn recent(times: Seq<u128>, now: u128) -> Seq<u128>
    decreases times.len(),
{
    if times.len() > 0 && is_expired(times[0], now) {
        recent(times.drop_first(), now)
    } else {
        times
    }
}

/// A request of a client with the given times on record: the times on record after it, and whether
/// it is let through.
pub open spec fn let_through(times: Seq<u128>, limit: nat, now: u128) -> (Seq<u128>, bool) {
    let kept = recent(times, now);
    if kept.len() >= limit {
        (kept, false)
    } else {
        (kept.push(now), true)
    }
}

/// The times on record for a client.
pub open spec fn times_of<C>(state: ProxyStateView<C>, client: Seq<char>) -> Seq<u128> {
    if state.request_counts.contains_key(client) {
        state.request_counts[client]
    } else {
        Seq::empty()
    }
}

/// A request of a client comes in: the state after it, and whether it is let through. Every
/// request is where there is no limit.
pub open spec fn rate_step<C>(state: ProxyStateView<C>, client: Seq<char>, now: u128) -> (
    ProxyStateView<C>,
    bool,
) {
    if state.max_requests_per_minute == 0 {
        (state, true)
    } else {
        let (times, accepted) = let_through(
            times_of(state, client),
            state.max_requests_per_minute as nat,
            now,
        );
        (
            ProxyStateView { request_counts: state.request_counts.insert(client, times), ..state },
            accepted,
        )
    }
}

/// There are no more recent times than times.
proof fn lemma_recent_len(times: Seq<u128>, now: u128)
    ensures
        recent(times, now).len() <= times.len(),
    decreases times.len(),
{
    if times.len() > 0 && is_expired(times[0], now) {
        lemma_recent_len(times.drop_first(), now);
    }
}

/// Takes a request to the record of a client, if the limit lets it through.
fn record_request(times: &mut VecDeque<u128>, limit: usize, now: u128) -> (accepted: bool)
    ensures
        (final(times)@, accepted) == let_through(old(times)@, limit as nat, now),
{
    let ghost before = times@;
    while times.len() > 0 && times[0] < now && now - times[0] > WINDOW
        invariant
            recent(times@, now) == recent(before, now),
        decreases times@.len(),
    {
        let ghost all = times@;
        times.pop_front();
        assert(times@ =~= all.drop_first());
    }
    if times.len() >= limit {
        return false;
    }
    times.push_back(now);
    true
}

/// Whether a request of a client that comes in now is let through.
pub fn check_rate_limit_at<C>(state: &mut ProxyState<C>, client_ip: &str, now: u128) -> (accepted:
    bool)
    requires
        old(state).wf(),
    ensures
        (final(state)@, accepted) == rate_step(old(state)@, client_ip@, now),
        final(state).wf(),
{
    if state.max_requests_per_minute == 0 {
        return true;
    }
    let limit: usize = state.max_requests_per_minute;
    proof {
        lemma_recent_len(times_of(state@, client_ip@), now);
    }
    let times = state.request_counts.entry_or(client_ip, VecDeque::new());
    let accepted = record_request(times, limit, now);
    assert(state@.request_counts =~= rate_step(old(state)@, client_ip@, now).0.request_counts);
    accepted
}

/// Whether a request of a client is let through.
pub fn check_rate_limit<C>(state: &mut ProxyState<C>, client_ip: &str) -> (accepted: bool)
    requires
        old(state).wf(),
    ensures
        exists|now: u128|
            clock_reads(old(state)@.started, now) && (final(state)@, accepted)
                == #[trigger] rate_step(old(state)@, client_ip@, now),
        old(state)@.max_requests_per_minute == 0 ==> accepted && final(state)@ == old(state)@,
        final(state).wf(),
{
    let now: u128 = state.now();
    check_rate_limit_at(state, client_ip, now)
}

/// No time lies before an earlier one.
pub open spec fn in_order(times: Seq<u128>) -> bool {
    forall|i: int, j: int|
        0 <= i <= j < times.len() ==> (#[trigger] times[i]) <= (#[trigger] times[j])
}

/// The requests of one client come in: the times on record after them, and the times of those that
/// were let through.
pub open spec fn history(limit: nat, arrivals: Seq<u128>) -> (Seq<u128>, Seq<u128>)
    decreases arrivals.len(),
{
    if arrivals.len() == 0 {
        (Seq::empty(), Seq::empty())
    } else {
        let (times, passed) = history(limit, arrivals.drop_last());
        let now = arrivals.last();
        let (after, accepted) = let_through(times, limit, now);
        (
            after,
            if accepted {
                passed.push(now)
            } else {
                passed
            },
        )
    }
}

/// The recent times are a suffix, and what comes before them is expired.
proof fn lemma_recent_is_suffix(times: Seq<u128>, now: u128)
    ensures
        ({
            let kept = recent(times, now);
            let cut = times.len() - kept.len();
            &&& 0 <= cut
            &&& kept == times.subrange(cut, times.len() as int)
            &&& forall|i: int| 0 <= i < cut ==> is_expired(#[trigger] times[i], now)
            &&& kept.len() > 0 ==> !is_expired(kept[0], now)
        }),
    decreases times.len(),
{
    let kept = recent(times, now);
    if times.len() > 0 && is_expired(times[0], now) {
        let rest = times.drop_first();
        lemma_recent_is_suffix(rest, now);
        let cut = times.len() - kept.len();
        assert(rest.subrange(cut - 1, rest.len() as int) =~= times.subrange(
            cut,
            times.len() as int,
        ));
        assert forall|i: int| 0 <= i < cut implies is_expired(#[trigger] times[i], now) by {
            if i > 0 {
                assert(rest[i - 1] == times[i]);
            }
        }
    } else {
        assert(times.subrange(0, times.len() as int) =~= times);
    }
}

/// What holds of the record of a client and of the times of the requests that were let through.
spec fn history_holds(limit: nat, last: u128, times: Seq<u128>, passed: Seq<u128>) -> bool {
    let cut = passed.len() - times.len();
    &&& 0 <= cut
    &&& times.len() <= limit
    &&& times == passed.subrange(cut, passed.len() as int)
    &&& in_order(passed)
    &&& forall|i: int| 0 <= i < passed.len() ==> (#[trigger] passed[i]) <= last
    &&& forall|i: int| 0 <= i < cut ==> is_expired(#[trigger] passed[i], last)
    &&& forall|i: int, j: int|
        0 <= i && j == i + limit && j < passed.len() ==> (#[trigger] passed[i]) + WINDOW < (
        #[trigger] passed[j])
}

proof fn lemma_history(limit: nat, arrivals: Seq<u128>)
    requires
        limit > 0,
        arrivals.len() > 0,
        in_order(arrivals),
    ensures
        history_holds(
            limit,
            arrivals.last(),
            history(limit, arrivals).0,
            history(limit, arrivals).1,
        ),
    decreases arrivals.len(),
{
    let before = arrivals.drop_last();
    let now = arrivals.last();
    let (old_times, old_passed) = history(limit, before);
    let (times, passed) = history(limit, arrivals);
    assert(in_order(before));
    if before.len() > 0 {
        lemma_history(limit, before);
        assert(before.last() == arrivals[arrivals.len() - 2]);
        assert(before.last() <= now);
    }
    lemma_recent_is_suffix(old_times, now);
    let kept = recent(old_times, now);
    let cut = old_passed.len() - kept.len();
    let old_cut = old_passed.len() - old_times.len();
    assert(kept =~= old_passed.subrange(cut, old_passed.len() as int));
    assert forall|i: int| 0 <= i < cut implies is_expired(#[trigger] old_passed[i], now) by {
        if i >= old_cut {
            assert(old_times[i - old_cut] == old_passed[i]);
        }
    }
    if kept.len() < limit {
        assert(times =~= passed.subrange(cut, passed.len() as int));
        assert forall|i: int, j: int|
            0 <= i && j == i + limit && j < passed.len() implies (#[trigger] passed[i]) + WINDOW < (
        #[trigger] passed[j]) by {
            if j == old_passed.len() {
                assert(i < cut);
                assert(passed[i] == old_passed[i]);
            } else {
                assert(passed[i] == old_passed[i] && passed[j] == old_passed[j]);
            }
        }
    }
}

/// The limit holds in every window of a minute: of any requests of a client that were let through,
/// one more than the limit, the last came more than a minute after the first.
pub proof fn law_limit_holds_in_every_window(limit: nat, arrivals: Seq<u128>, i: int)
    requires
        limit > 0,
        in_order(arrivals),
        0 <= i,
        i + limit < history(limit, arrivals).1.len(),
    ensures
        history(limit, arrivals).1[i] + 60_000_000_000 < history(limit, arrivals).1[i + limit],
{
    lemma_history(limit, arrivals);
    let passed = history(limit, arrivals).1;
    let j = i + limit;
    assert(passed[i] + WINDOW < passed[j]);
}

/// A request is refused only where as many requests as the limit says were let through in the
/// minute before it.
pub proof fn law_refused_only_at_the_limit(limit: nat, arrivals: Seq<u128>, now: u128, k: int)
    requires
        limit > 0,
        in_order(arrivals.push(now)),
        !let_through(history(limit, arrivals).0, limit, now).1,
        0 <= k < limit,
    ensures
        history(limit, arrivals).1.len() >= limit,
        history(limit, arrivals).1[history(limit, arrivals).1.len() - 1 - k] + 60_000_000_000
            >= now,
{
    let (times, passed) = history(limit, arrivals);
    lemma_recent_is_suffix(times, now);
    let kept = recent(times, now);
    assert(arrivals.len() > 0);
    assert forall|i: int, j: int| 0 <= i <= j < arrivals.len() implies (#[trigger] arrivals[i]) <= (
    #[trigger] arrivals[j]) by {
        let all = arrivals.push(now);
        assert(all[i] == arrivals[i] && all[j] == arrivals[j]);
    }
    lemma_history(limit, arrivals);
    let cut = passed.len() - times.len();
    assert(kept.len() == limit);
    assert(times.len() == limit);
    assert(kept =~= times);
    assert(kept[0] == passed[cut]);
    assert(passed[cut] <= passed[passed.len() - 1 - k]);
}

/// The requests of several clients come in, each with its time.
pub open spec fn after_requests<C>(
    state: ProxyStateView<C>,
    arrivals: Seq<(Seq<char>, u128)>,
) -> ProxyStateView<C>
    decreases arrivals.len(),
{
    if arrivals.len() == 0 {
        state
    } else {
        let before = after_requests(state, arrivals.drop_last());
        rate_step(before, arrivals.last().0, arrivals.last().1).0
    }
}

/// The times at which the requests of one client came in.
pub open spec fn arrivals_of(arrivals: Seq<(Seq<char>, u128)>, client: Seq<char>) -> Seq<u128>
    decreases arrivals.len(),
{
    if arrivals.len() == 0 {
        Seq::empty()
    } else {
        let before = arrivals_of(arrivals.drop_last(), client);
        if arrivals.last().0 == client {
            before.push(arrivals.last().1)
        } else {
            before
        }
    }
}

/// What is on record for a client depends on its own requests alone, whatever the requests of
/// other clients between them.
pub proof fn law_clients_are_counted_apart<C>(
    state: ProxyStateView<C>,
    arrivals: Seq<(Seq<char>, u128)>,
    client: Seq<char>,
)
    requires
        state.max_requests_per_minute > 0,
        times_of(state, client) == Seq::<u128>::empty(),
    ensures
        times_of(after_requests(state, arrivals), client) == history(
            state.max_requests_per_minute as nat,
            arrivals_of(arrivals, client),
        ).0,
        after_requests(state, arrivals).max_requests_per_minute == state.max_requests_per_minute,
    decreases arrivals.len(),
{
    if arrivals.len() > 0 {
        let before = arrivals.drop_last();
        law_clients_are_counted_apart(state, before, client);
        if arrivals.last().0 == client {
            let own = arrivals_of(arrivals, client);
            assert(own.drop_last() =~= arrivals_of(before, client));
        }
    }
}

/// A request on its way to an upstream.
pub struct Forward {
    pub request: Request,
    /// The key under which the answer may be cached.
    pub cache_key: Option<String>,
    /// For each upstream, whether it was tried.
    pub tried: Vec<bool>,
}

/// A request on its way to an upstream.
pub struct ForwardView {
    pub request: RequestView,
    pub cache_key: Option<Seq<char>>,
    pub tried: Seq<bool>,
}

impl View for Forward {
    type V = ForwardView;

    open spec fn view(&self) -> ForwardView {
        ForwardView {
            request: self.request@,
            cache_key: key_view(self.cache_key),
            tried: self.tried@,
        }
    }
}

/// Where the handling of a client connection stands.
pub enum Phase {
    /// A request is being read.
    Reading,
    /// A connection to an upstream is sought.
    Connecting(Forward),
    /// The request was handed to this upstream.
    Exchanging(Forward, usize),
    /// The answer of this upstream is being sent to the client.
    Delivering(usize),
    /// The connection is closed.
    Closed,
}

/// Where the handling of a client connection stands.
pub enum PhaseView {
    Reading,
    Connecting(ForwardView),
    Exchanging(ForwardView, usize),
    Delivering(usize),
    Closed,
}

impl View for Phase {
    type V = PhaseView;

    open spec fn view(&self) -> PhaseView {
        match *self {
            Phase::Reading => PhaseView::Reading,
            Phase::Connecting(forward) => PhaseView::Connecting(forward@),
            Phase::Exchanging(forward, idx) => PhaseView::Exchanging(forward@, idx),
            Phase::Delivering(idx) => PhaseView::Delivering(idx),
            Phase::Closed => PhaseView::Closed,
        }
    }
}

/// What came of the last thing that was to be done. `C` is a connection to an upstream.
pub enum Event<C> {
    /// The client sent a request.
    RequestRead(Request),
    /// No request could be read.
    RequestFailed(Error),
    /// There is a connection to this upstream.
    Connected(usize),
    /// No upstream could be connected to.
    NotConnected,
    /// The upstream answered.
    Answered(Response),
    /// The exchange with the upstream failed or took too long.
    NotAnswered,
    /// The answer was sent to the client; this connection to the upstream is idle.
    Delivered(C),
}

/// What came of the last thing that was to be done.
pub enum EventView<C> {
    RequestRead(RequestView),
    RequestFailed(ErrorView),
    Connected(usize),
    NotConnected,
    Answered(ResponseView),
    NotAnswered,
    Delivered(C),
}

impl<C> View for Event<C> {
    type V = EventView<C>;

    open spec fn view(&self) -> EventView<C> {
        match *self {
            Event::RequestRead(request) => EventView::RequestRead(request@),
            Event::RequestFailed(error) => EventView::RequestFailed(error@),
            Event::Connected(idx) => EventView::Connected(idx),
            Event::NotConnected => EventView::NotConnected,
            Event::Answered(response) => EventView::Answered(response@),
            Event::NotAnswered => EventView::NotAnswered,
            Event::Delivered(connection) => EventView::Delivered(connection),
        }
    }
}

/// What is to be done next.
pub enum Action {
    /// Read the next request of the client.
    Read,
    /// Send this response to the client, and read its next request.
    Respond(Response),
    /// Send this response to the client, and close the connection.
    RespondAndClose(Response),
    /// Close the connection.
    Close,
    /// Connect to an upstream that was not tried.
    Connect,
    /// Send the request to the upstream and read its answer.
    Exchange,
    /// Send this answer of the upstream to the client.
    Deliver(Response),
}

/// What is to be done next.
pub enum ActionView {
    Read,
    Respond(ResponseView),
    RespondAndClose(ResponseView),
    Close,
    Connect,
    Exchange,
    Deliver(ResponseView),
}

impl View for Action {
    type V = ActionView;

    open spec fn view(&self) -> ActionView {
        match *self {
            Action::Read => ActionView::Read,
            Action::Respond(response) => ActionView::Respond(response@),
            Action::RespondAndClose(response) => ActionView::RespondAndClose(response@),
            Action::Close => ActionView::Close,
            Action::Connect => ActionView::Connect,
            Action::Exchange => ActionView::Exchange,
            Action::Deliver(response) => ActionView::Deliver(response@),
        }
    }
}

/// The status code with which a request that could not be read is answered.
pub open spec fn error_status(error: ErrorView) -> u16 {
    match error {
        ErrorView::RequestBodyTooLarge => 413,
        ErrorView::ConnectionError(_) => 503,
        _ => 400,
    }
}

/// The client is gone: it sent nothing more, or its stream failed.
pub open spec fn client_is_gone(error: ErrorView) -> bool {
    match error {
        ErrorView::IncompleteRequest(n) => n == 0,
        ErrorView::ConnectionError(_) => true,
        _ => false,
    }
}

/// No request could be read.
pub open spec fn failed_read_step(error: ErrorView) -> (PhaseView, ActionView) {
    if client_is_gone(error) {
        (PhaseView::Closed, ActionView::Close)
    } else {
        (PhaseView::Reading, ActionView::Respond(error_response(error_status(error))))
    }
}

/// No upstream answered.
pub open spec fn gave_up() -> (PhaseView, ActionView) {
    (PhaseView::Closed, ActionView::RespondAndClose(error_response(502)))
}

/// The request goes to the next upstream, if one was not tried.
pub open spec fn next_try(forward: ForwardView) -> (PhaseView, ActionView) {
    if some_untried(forward.tried) {
        (PhaseView::Connecting(forward), ActionView::Connect)
    } else {
        gave_up()
    }
}

/// A request as it goes to an upstream: its `X-Forwarded-For` field names the client.
pub open spec fn forwarded(request: RequestView, client: Seq<char>) -> RequestView {
    RequestView {
        headers: extended(request.headers, "x-forwarded-for"@, encode_utf8(client)),
        ..request
    }
}

/// A request was read, and the limit lets it through or not.
pub open spec fn request_step<C>(
    state: ProxyStateView<C>,
    client: Seq<char>,
    request: RequestView,
    accepted: bool,
) -> (ProxyStateView<C>, (PhaseView, ActionView)) {
    if !accepted {
        (state, (PhaseView::Reading, ActionView::Respond(error_response(429))))
    } else {
        let key = cache_key(request);
        let after = ProxyStateView {
            response_cache: after_lookup(state.response_cache, key),
            ..state
        };
        match lookup_answer(state.response_cache, key) {
            Some(response) => (after, (PhaseView::Reading, ActionView::Respond(response))),
            None => (
                after,
                next_try(
                    ForwardView {
                        request: forwarded(request, client),
                        cache_key: key,
                        tried: Seq::new(state.upstream_addresses.len(), |i: int| false),
                    },
                ),
            ),
        }
    }
}

/// The exchange with an upstream is over, and what it says of the upstream is reported.
pub open spec fn after_exchange<C>(
    state: ProxyStateView<C>,
    idx: usize,
    alive: bool,
) -> ProxyStateView<C> {
    let upstream = state.upstream_addresses[idx as int];
    decremented(with_update(state, verdict(upstream, alive)), idx as int)
}

/// The upstream answered.
pub open spec fn answer_step<C>(
    state: ProxyStateView<C>,
    forward: ForwardView,
    idx: usize,
    response: ResponseView,
) -> (ProxyStateView<C>, (PhaseView, ActionView)) {
    if response.status >= 500 {
        (after_exchange(state, idx, false), next_try(forward))
    } else {
        let after = after_exchange(state, idx, true);
        (
            ProxyStateView {
                response_cache: after_store(after.response_cache, forward.cache_key, response),
                ..after
            },
            (PhaseView::Delivering(idx), ActionView::Deliver(response)),
        )
    }
}

/// Where the handling of a client connection gets to with one more event, at a time.
pub open spec fn connection_step<C>(
    state: ProxyStateView<C>,
    client: Seq<char>,
    phase: PhaseView,
    event: EventView<C>,
    now: u128,
) -> (ProxyStateView<C>, (PhaseView, ActionView)) {
    match (phase, event) {
        (PhaseView::Reading, EventView::RequestRead(request)) => {
            let (after, accepted) = rate_step(state, client, now);
            request_step(after, client, request, accepted)
        },
        (PhaseView::Reading, EventView::RequestFailed(error)) => (state, failed_read_step(error)),
        (PhaseView::Connecting(forward), EventView::Connected(idx)) => (
            state,
            (
                PhaseView::Exchanging(
                    ForwardView { tried: forward.tried.update(idx as int, true), ..forward },
                    idx,
                ),
                ActionView::Exchange,
            ),
        ),
        (PhaseView::Exchanging(forward, idx), EventView::Answered(response)) => answer_step(
            state,
            forward,
            idx,
            response,
        ),
        (PhaseView::Exchanging(forward, idx), _) => (
            after_exchange(state, idx, false),
            next_try(forward),
        ),
        (PhaseView::Delivering(idx), EventView::Delivered(connection)) => (
            returned(state, state.upstream_addresses[idx as int], connection),
            (PhaseView::Reading, ActionView::Read),
        ),
        (PhaseView::Connecting(_), EventView::NotConnected) => (state, gave_up()),
        _ => (state, gave_up()),
    }
}

/// Every upstream has a mark, and the header fields are well-formed.
pub open spec fn forward_well_formed<C>(state: ProxyStateView<C>, forward: ForwardView) -> bool {
    &&& forward.tried.len() == state.upstream_addresses.len()
    &&& well_formed(forward.request.headers)
}

/// A connection is sought only where an upstream was not tried, and an upstream that has the
/// request is marked as tried.
pub open spec fn phase_well_formed<C>(state: ProxyStateView<C>, phase: PhaseView) -> bool {
    match phase {
        PhaseView::Connecting(forward) => {
            &&& forward_well_formed(state, forward)
            &&& some_untried(forward.tried)
        },
        PhaseView::Exchanging(forward, idx) => {
            &&& forward_well_formed(state, forward)
            &&& idx < forward.tried.len()
            &&& forward.tried[idx as int]
        },
        PhaseView::Delivering(idx) => idx < state.upstream_addresses.len(),
        _ => true,
    }
}

/// What may come of what is to be done in each phase.
pub open spec fn event_fits<C>(phase: PhaseView, event: EventView<C>) -> bool {
    match (phase, event) {
        (PhaseView::Reading, EventView::RequestRead(request)) => {
            &&& well_formed(request.headers)
            &&& request.headers.len() < MAX_HEADER_NAMES
        },
        (PhaseView::Reading, EventView::RequestFailed(_)) => true,
        (PhaseView::Connecting(forward), EventView::Connected(idx)) => {
            &&& idx < forward.tried.len()
            &&& !forward.tried[idx as int]
        },
        (PhaseView::Connecting(_), EventView::NotConnected) => true,
        (PhaseView::Exchanging(_, _), EventView::Answered(response)) => response_well_formed(
            response,
        ),
        (PhaseView::Exchanging(_, _), EventView::NotAnswered) => true,
        (PhaseView::Delivering(_), EventView::Delivered(_)) => true,
        _ => false,
    }
}

/// A response that goes to the client is well-formed.
pub open spec fn action_well_formed(action: ActionView) -> bool {
    match action {
        ActionView::Respond(response) => response_well_formed(response),
        ActionView::RespondAndClose(response) => response_well_formed(response),
        ActionView::Deliver(response) => response_well_formed(response),
        _ => true,
    }
}

/// What a pair of phase and action holds.
pub open spec fn pair_view(pair: (Phase, Action)) -> (PhaseView, ActionView) {
    (pair.0@, pair.1@)
}

/// `X-Forwarded-For` is the name of a field.
proof fn lemma_forwarded_field()
    ensures
        header_name("x-forwarded-for"@) is Some,
{
    reveal_strlit("x-forwarded-for");
    assert(is_token("x-forwarded-for"@));
}

/// Answers a request that could not be read.
fn answer_failed_read(error: Error) -> (next: (Phase, Action))
    ensures
        pair_view(next) == failed_read_step(error@),
        action_well_formed(next.1@),
{
    let status: u16 = match error {
        Error::IncompleteRequest(n) => {
            if n == 0 {
                return (Phase::Closed, Action::Close);
            }
            400
        },
        Error::ConnectionError(_) => {
            return (Phase::Closed, Action::Close);
        },
        Error::RequestBodyTooLarge => 413,
        _ => 400,
    };
    (Phase::Reading, Action::Respond(make_http_error(status)))
}

/// Answers that no upstream answered.
fn give_up() -> (next: (Phase, Action))
    ensures
        pair_view(next) == gave_up(),
        action_well_formed(next.1@),
{
    (Phase::Closed, Action::RespondAndClose(make_http_error(502)))
}

/// Whether some upstream was not tried.
fn has_untried(tried: &Vec<bool>) -> (found: bool)
    ensures
        found == some_untried(tried@),
{
    let mut i: usize = 0;
    while i < tried.len()
        invariant
            i <= tried@.len(),
            forall|j: int| 0 <= j < i ==> #[trigger] tried@[j],
        decreases tried@.len() - i,
    {
        if !tried[i] {
            assert(!tried@[i as int]);
            return true;
        }
        i = i + 1;
    }
    false
}

/// Hands a request to the next upstream, if one was not tried.
fn try_next(forward: Forward) -> (next: (Phase, Action))
    ensures
        pair_view(next) == next_try(forward@),
        action_well_formed(next.1@),
{
    if has_untried(&forward.tried) {
        (Phase::Connecting(forward), Action::Connect)
    } else {
        give_up()
    }
}

/// Goes on with a request that was read, which the limit lets through or not.
pub fn handle_request<C>(
    state: &mut ProxyState<C>,
    client_ip: &str,
    request: Request,
    accepted: bool,
) -> (next: (Phase, Action))
    requires
        old(state).wf(),
        well_formed(request@.headers),
        request@.headers.len() < MAX_HEADER_NAMES,
        is_header_value(encode_utf8(client_ip@)),
    ensures
        (final(state)@, pair_view(next)) == request_step(
            old(state)@,
            client_ip@,
            request@,
            accepted,
        ),
        final(state).wf(),
        phase_well_formed(final(state)@, next.0@),
        action_well_formed(next.1@),
{
    if !accepted {
        return (Phase::Reading, Action::Respond(make_http_error(429)));
    }
    let cache_key = cache_key_for_request(&request);
    match try_get_cached_response(&mut state.response_cache, &cache_key) {
        Some(cached_response) => (Phase::Reading, Action::Respond(cached_response)),
        None => {
            proof {
                lemma_forwarded_field();
            }
            let mut request = request;
            extend_header_value(&mut request, "x-forwarded-for", client_ip);
            let tried: Vec<bool> = vec![false; state.upstream_addresses.len()];
            assert(tried@ =~= Seq::new(state@.upstream_addresses.len(), |i: int| false));
            try_next(Forward { request, cache_key, tried })
        },
    }
}

/// Ends the exchange with an upstream and reports what it says of the upstream.
fn end_exchange<C>(state: &mut ProxyState<C>, idx: usize, alive: bool)
    requires
        old(state).wf(),
        idx < old(state)@.upstream_addresses.len(),
    ensures
        final(state)@ == after_exchange(old(state)@, idx, alive),
        final(state).wf(),
{
    let upstream = state.upstream_addresses[idx].as_str().to_owned();
    assert(upstream@ == state@.upstream_addresses[idx as int]);
    if alive {
        state.mark_upstream_alive(upstream.as_str());
    } else {
        state.mark_upstream_dead(upstream.as_str());
    }
    state.decrement_active_requests(idx);
}

/// Goes on with the answer of an upstream.
fn handle_answer<C>(
    state: &mut ProxyState<C>,
    forward: Forward,
    idx: usize,
    response: Response,
) -> (next: (Phase, Action))
    requires
        old(state).wf(),
        forward_well_formed(old(state)@, forward@),
        idx < old(state)@.upstream_addresses.len(),
        response_well_formed(response@),
    ensures
        (final(state)@, pair_view(next)) == answer_step(old(state)@, forward@, idx, response@),
        final(state).wf(),
        phase_well_formed(final(state)@, next.0@),
        action_well_formed(next.1@),
{
    if response.status >= 500 {
        end_exchange(state, idx, false);
        return try_next(forward);
    }
    end_exchange(state, idx, true);
    maybe_store_cached_response(&mut state.response_cache, &forward.cache_key, &response);
    (Phase::Delivering(idx), Action::Deliver(clone_response(&response)))
}

/// Goes on with the handling of a client connection.
pub fn handle_connection<C>(
    state: &mut ProxyState<C>,
    client_ip: &str,
    phase: Phase,
    event: Event<C>,
) -> (next: (Phase, Action))
    requires
        old(state).wf(),
        phase_well_formed(old(state)@, phase@),
        event_fits(phase@, event@),
        is_header_value(encode_utf8(client_ip@)),
    ensures
        exists|now: u128|
            (event is RequestRead ==> clock_reads(old(state)@.started, now)) && (
                final(state)@,
                pair_view(next),
            ) == #[trigger] connection_step(old(state)@, client_ip@, phase@, event@, now),
        !(event is RequestRead) ==> (final(state)@, pair_view(next)) == connection_step(
            old(state)@,
            client_ip@,
            phase@,
            event@,
            0,
        ),
        final(state).wf(),
        phase_well_formed(final(state)@, next.0@),
        action_well_formed(next.1@),
{
    let ghost before = state@;
    // Only what comes of a request that was read depends on the time.
    let ghost at_any_time = connection_step(before, client_ip@, phase@, event@, 0);
    match (phase, event) {
        (Phase::Reading, Event::RequestRead(request)) => {
            let accepted = check_rate_limit(state, client_ip);
            proof {
                let now = choose|now: u128|
                    clock_reads(before.started, now) && (state@, accepted) == #[trigger] rate_step(
                        before,
                        client_ip@,
                        now,
                    );
                let step = connection_step(before, client_ip@, phase@, event@, now);
                assert(step == request_step(state@, client_ip@, request@, accepted));
            }
            handle_request(state, client_ip, request, accepted)
        },
        (Phase::Reading, Event::RequestFailed(error)) => answer_failed_read(error),
        (Phase::Connecting(forward), Event::Connected(idx)) => {
            let mut forward = forward;
            forward.tried[idx] = true;
            (Phase::Exchanging(forward, idx), Action::Exchange)
        },
        (Phase::Exchanging(forward, idx), Event::Answered(response)) => handle_answer(
            state,
            forward,
            idx,
            response,
        ),
        (Phase::Exchanging(forward, idx), _) => {
            end_exchange(state, idx, false);
            try_next(forward)
        },
        (Phase::Delivering(idx), Event::Delivered(connection)) => {
            let upstream = state.upstream_addresses[idx].as_str().to_owned();
            assert(upstream@ == state@.upstream_addresses[idx as int]);
            state.return_connection_to_pool(upstream.as_str(), connection);
            (Phase::Reading, Action::Read)
        },
        _ => give_up(),
    }
}

/// How many steps at most lie between a phase and the answer to the request.
pub open spec fn steps_left(phase: PhaseView) -> nat {
    match phase {
        PhaseView::Connecting(forward) => 2 * untried_count(forward.tried),
        PhaseView::Exchanging(forward, _) => 2 * untried_count(forward.tried) + 1,
        _ => 0,
    }
}

/// Forwarding a request ends, and no upstream gets it twice: each step answers the client, hands
/// the request to an upstream that did not have it, or goes on to one that did not have it, and
/// fewer steps are left after it.
pub proof fn law_forwarding_ends<C>(
    state: ProxyStateView<C>,
    client: Seq<char>,
    phase: PhaseView,
    event: EventView<C>,
    now: u128,
)
    requires
        phase is Connecting || phase is Exchanging,
        phase_well_formed(state, phase),
        event_fits(phase, event),
    ensures
        ({
            let (next, action) = connection_step(state, client, phase, event, now).1;
            match next {
                PhaseView::Connecting(forward) => {
                    &&& action is Connect
                    &&& phase matches PhaseView::Exchanging(before, _) && forward == before
                    &&& steps_left(next) < steps_left(phase)
                },
                PhaseView::Exchanging(forward, idx) => {
                    &&& action is Exchange
                    &&& phase matches PhaseView::Connecting(before) && !before.tried[idx as int]
                        && forward.tried == before.tried.update(idx as int, true)
                    &&& steps_left(next) < steps_left(phase)
                },
                PhaseView::Delivering(_) => action is Deliver,
                PhaseView::Closed => action is RespondAndClose,
                PhaseView::Reading => false,
            }
        }),
{
    if let (PhaseView::Connecting(forward), EventView::Connected(idx)) = (phase, event) {
        lemma_one_fewer_untried(forward.tried, idx as int);
    }
}

/// An upstream that fails, is too slow or answers with a server error is reported as dead, its
/// answer reaches neither the client nor the cache, and the request goes to an upstream that did
/// not have it. Where there is none, the client is answered that the gateway failed.
pub proof fn law_failover<C>(
    state: ProxyStateView<C>,
    client: Seq<char>,
    forward: ForwardView,
    idx: usize,
    event: EventView<C>,
    now: u128,
)
    requires
        phase_well_formed(state, PhaseView::Exchanging(forward, idx)),
        event_fits(PhaseView::Exchanging(forward, idx), event),
        event matches EventView::Answered(response) ==> response.status >= 500,
    ensures
        ({
            let phase = PhaseView::Exchanging(forward, idx);
            let (after, (next, action)) = connection_step(state, client, phase, event, now);
            &&& after.health_updates == state.health_updates.push(
                HealthUpdateView::MarkDead(state.upstream_addresses[idx as int]),
            )
            &&& after.response_cache == state.response_cache
            &&& after.connection_pool == state.connection_pool
            &&& if some_untried(forward.tried) {
                next == PhaseView::Connecting(forward) && action is Connect
            } else {
                next is Closed && action == ActionView::RespondAndClose(error_response(502))
            }
        }),
{
}

/// The answer of an upstream that is no server error goes to the client as it is, and the upstream
/// is reported as alive.
pub proof fn law_answer_is_delivered<C>(
    state: ProxyStateView<C>,
    client: Seq<char>,
    forward: ForwardView,
    idx: usize,
    response: ResponseView,
    now: u128,
)
    requires
        response.status < 500,
    ensures
        ({
            let phase = PhaseView::Exchanging(forward, idx);
            let event = EventView::Answered(response);
            let (after, (next, action)) = connection_step(state, client, phase, event, now);
            &&& after.health_updates == state.health_updates.push(
                HealthUpdateView::MarkAlive(state.upstream_addresses[idx as int]),
            )
            &&& next == PhaseView::Delivering(idx)
            &&& action == ActionView::Deliver(response)
            &&& after.connection_pool == state.connection_pool
            &&& after.request_counts == state.request_counts
            &&& after.dead_upstreams == state.dead_upstreams
        }),
{
}

/// Whatever comes of an exchange, the request is counted in flight to its upstream from the moment
/// there is a connection until the exchange is over, and no longer.
pub proof fn law_exchange_is_counted<C>(
    state: ProxyStateView<C>,
    client: Seq<char>,
    forward: ForwardView,
    idx: usize,
    event: EventView<C>,
    now: u128,
)
    requires
        state_well_formed(state),
        phase_well_formed(state, PhaseView::Exchanging(forward, idx)),
        state.active_requests[idx as int] < usize::MAX,
        event_fits(PhaseView::Exchanging(forward, idx), event),
    ensures
        ({
            let phase = PhaseView::Exchanging(forward, idx);
            let counted = incremented(state, idx as int);
            connection_step(counted, client, phase, event, now).0.active_requests
                == state.active_requests
        }),
{
    law_counted_in_and_out(state, idx as int);
}

/// A request goes to an upstream as it came, but that its `X-Forwarded-For` field ends with the
/// address of the client, behind the value that it had.
pub proof fn law_forwarded_request_names_the_client(
    request: RequestView,
    client: Seq<char>,
    other: Seq<char>,
)
    requires
        well_formed(request.headers),
    ensures
        value_of(forwarded(request, client).headers, "x-forwarded-for"@) == Some(
            match value_of(request.headers, "x-forwarded-for"@) {
                Some(value) => value + encode_utf8(", "@) + encode_utf8(client),
                None => encode_utf8(client),
            },
        ),
        header_name(other) != header_name("x-forwarded-for"@) ==> value_of(
            forwarded(request, client).headers,
            other,
        ) == value_of(request.headers, other),
        forwarded(request, client).method == request.method,
        forwarded(request, client).uri == request.uri,
        forwarded(request, client).version == request.version,
        forwarded(request, client).body == request.body,
{
    lemma_forwarded_field();
    law_extended_field(request.headers, "x-forwarded-for"@, encode_utf8(client), other);
}

/// A cacheable response that was delivered to one client answers the next request with the same
/// cache key, without an upstream, if the limit lets the request through.
pub proof fn law_delivered_response_is_cached<C>(
    state: ProxyStateView<C>,
    client: Seq<char>,
    forward: ForwardView,
    idx: usize,
    response: ResponseView,
    request: RequestView,
    other_client: Seq<char>,
)
    requires
        state_well_formed(state),
        state.response_cache is Some,
        response_well_formed(response),
        is_cacheable(response),
        cache_key(request) is Some,
        forward.cache_key == cache_key(request),
    ensures
        ({
            let after = answer_step(state, forward, idx, response).0;
            let (last, (next, action)) = request_step(after, other_client, request, true);
            &&& next is Reading
            &&& action == ActionView::Respond(response)
            &&& last.health_updates == after.health_updates
            &&& last.active_requests == after.active_requests
        }),
{
    law_lookup_gives_what_was_stored(
        state.response_cache->0,
        forward.cache_key->0,
        response,
    );
}

/// A request that the limit does not let through is answered that there are too many, and neither
/// the cache nor any upstream is asked.
pub proof fn law_refused_request<C>(
    state: ProxyStateView<C>,
    client: Seq<char>,
    request: RequestView,
    now: u128,
)
    requires
        !rate_step(state, client, now).1,
    ensures
        ({
            let event = EventView::RequestRead(request);
            let (after, (next, action)) = connection_step(
                state,
                client,
                PhaseView::Reading,
                event,
                now,
            );
            &&& next is Reading
            &&& action == ActionView::Respond(error_response(429))
            &&& after == (ProxyStateView { request_counts: after.request_counts, ..state })
        }),
{
}

/// A request that could not be read leaves the state as it is. It is answered, and the connection
/// goes on, unless the client is gone.
pub proof fn law_failed_read<C>(
    state: ProxyStateView<C>,
    client: Seq<char>,
    error: ErrorView,
    now: u128,
)
    ensures
        ({
            let event = EventView::<C>::RequestFailed(error);
            let (after, (next, action)) = connection_step(
                state,
                client,
                PhaseView::Reading,
                event,
                now,
            );
            &&& after == state
            &&& match error {
                ErrorView::ConnectionError(_) => next is Closed && action is Close,
                ErrorView::IncompleteRequest(0) => next is Closed && action is Close,
                ErrorView::RequestBodyTooLarge => next is Reading && action == ActionView::Respond(
                    error_response(413),
                ),
                _ => next is Reading && action == ActionView::Respond(error_response(400)),
            }
        }),
{
}

/// The connection of a delivered answer is the next one to be used for its upstream.
pub proof fn law_delivered_connection_is_reused<C>(
    state: ProxyStateView<C>,
    client: Seq<char>,
    idx: usize,
    connection: C,
    now: u128,
)
    ensures
        ({
            let phase = PhaseView::Delivering(idx);
            let event = EventView::Delivered(connection);
            let (after, (next, action)) = connection_step(state, client, phase, event, now);
            &&& next is Reading
            &&& action is Read
            &&& taken(after, state.upstream_addresses[idx as int]).1 == Some(connection)
        }),
{
    law_last_returned_is_taken_first(state, state.upstream_addresses[idx as int], connection);
}

/// A moment in the handling of a client connection: the state, where the handling stands, and what
/// is to be done next.
pub struct Moment<C> {
    pub state: ProxyStateView<C>,
    pub phase: PhaseView,
    pub action: ActionView,
}

/// What came of what was to be done, the state that it left, and the time.
pub struct Occurrence<C> {
    pub event: EventView<C>,
    pub state: ProxyStateView<C>,
    pub now: u128,
}

/// The handling of a client connection gets from one moment to the next. In between, the upstreams
/// stay as they are, and so do the counts of requests in flight, but for the request that is
/// counted when a connection was found.
pub open spec fn is_step<C>(
    client: Seq<char>,
    from: Moment<C>,
    what: Occurrence<C>,
    to: Moment<C>,
) -> bool {
    &&& phase_well_formed(from.state, from.phase)
    &&& event_fits(from.phase, what.event)
    &&& what.state.upstream_addresses == from.state.upstream_addresses
    &&& what.state.active_requests == match (from.phase, what.event) {
        (PhaseView::Connecting(_), EventView::Connected(idx)) => incremented(
            from.state,
            idx as int,
        ).active_requests,
        _ => from.state.active_requests,
    }
    &&& (to.state, (to.phase, to.action)) == connection_step(
        what.state,
        client,
        from.phase,
        what.event,
        what.now,
    )
}

/// The handling of a client connection goes from moment to moment.
pub open spec fn is_run<C>(
    client: Seq<char>,
    moments: Seq<Moment<C>>,
    occurrences: Seq<Occurrence<C>>,
) -> bool {
    &&& moments.len() == occurrences.len() + 1
    &&& forall|i: int|
        0 <= i < occurrences.len() ==> is_step(
            client,
            moments[i],
            #[trigger] occurrences[i],
            moments[i + 1],
        )
}

/// Throughout the handling of a client connection, the counts of requests in flight are those of
/// the start, with one more for the upstream that has the request. So they are back to those of the
/// start whenever no upstream has it, in particular at the close.
pub proof fn law_counts_come_back<C>(
    client: Seq<char>,
    moments: Seq<Moment<C>>,
    occurrences: Seq<Occurrence<C>>,
    k: int,
)
    requires
        is_run(client, moments, occurrences),
        state_well_formed(moments[0].state),
        counts_have_room(moments[0].state),
        !(moments[0].phase is Exchanging),
        0 <= k < moments.len(),
    ensures
        moments[k].state.upstream_addresses == moments[0].state.upstream_addresses,
        moments[k].state.active_requests == match moments[k].phase {
            PhaseView::Exchanging(_, idx) => incremented(
                moments[0].state,
                idx as int,
            ).active_requests,
            _ => moments[0].state.active_requests,
        },
    decreases k,
{
    if k > 0 {
        law_counts_come_back(client, moments, occurrences, k - 1);
        let start = moments[0].state;
        let from = moments[k - 1];
        let what = occurrences[k - 1];
        assert(is_step(client, from, what, moments[k]));
        if let PhaseView::Exchanging(_, idx) = from.phase {
            assert(start.active_requests[idx as int] < usize::MAX);
            law_counted_in_and_out(start, idx as int);
            let counted = ProxyStateView {
                active_requests: incremented(start, idx as int).active_requests,
                ..what.state
            };
            assert(what.state.active_requests == counted.active_requests);
        }
    }
}

/// What comes of connecting and asking agrees with which upstreams are good: a good one can be
/// connected to, and answers with no server error; one that is not good does not answer so.
pub open spec fn agrees<C>(good: Seq<bool>, phase: PhaseView, event: EventView<C>) -> bool {
    match (phase, event) {
        (PhaseView::Connecting(forward), EventView::NotConnected) => forall|i: int|
            0 <= i < good.len() && #[trigger] good[i] ==> forward.tried[i],
        (PhaseView::Exchanging(_, idx), EventView::Answered(response)) => good[idx as int] == (
        response.status < 500),
        (PhaseView::Exchanging(_, idx), _) => !good[idx as int],
        _ => true,
    }
}

/// The request is on its way to an upstream.
pub open spec fn is_forwarding(phase: PhaseView) -> bool {
    phase is Connecting || phase is Exchanging
}

/// Every upstream that had the request, but for the one that has it now, is not good; and no more
/// steps are left than two for each upstream, less those taken.
spec fn forwarding_holds(good: Seq<bool>, phase: PhaseView, steps: int) -> bool {
    &&& steps_left(phase) + steps <= 2 * good.len()
    &&& match phase {
        PhaseView::Connecting(forward) => {
            &&& forward.tried.len() == good.len()
            &&& forall|i: int| 0 <= i < good.len() && #[trigger] good[i] ==> !forward.tried[i]
        },
        PhaseView::Exchanging(forward, idx) => {
            &&& forward.tried.len() == good.len()
            &&& forall|i: int|
                0 <= i < good.len() && #[trigger] good[i] ==> i == idx || !forward.tried[i]
        },
        _ => true,
    }
}

/// There are no more untried upstreams than upstreams.
proof fn lemma_untried_count_bound(tried: Seq<bool>)
    ensures
        untried_count(tried) <= tried.len(),
    decreases tried.len(),
{
    if tried.len() > 0 {
        lemma_untried_count_bound(tried.drop_last());
    }
}

proof fn lemma_forwarding_holds<C>(
    client: Seq<char>,
    good: Seq<bool>,
    moments: Seq<Moment<C>>,
    occurrences: Seq<Occurrence<C>>,
    k: int,
)
    requires
        is_run(client, moments, occurrences),
        moments[0].phase matches PhaseView::Connecting(forward) && forward.tried == Seq::new(
            good.len(),
            |i: int| false,
        ),
        forall|i: int|
            0 <= i < occurrences.len() ==> is_forwarding(moments[i].phase) && agrees(
                good,
                moments[i].phase,
                (#[trigger] occurrences[i]).event,
            ),
        0 <= k < moments.len(),
        is_forwarding(moments[k].phase),
    ensures
        forwarding_holds(good, moments[k].phase, k),
    decreases k,
{
    if k == 0 {
        lemma_untried_count_bound(moments[0].phase->Connecting_0.tried);
    } else {
        let from = moments[k - 1];
        let what = occurrences[k - 1];
        assert(is_step(client, from, what, moments[k]));
        assert(is_forwarding(from.phase) && agrees(good, from.phase, what.event));
        lemma_forwarding_holds(client, good, moments, occurrences, k - 1);
        if let (PhaseView::Connecting(forward), EventView::Connected(idx)) = (
            from.phase,
            what.event,
        ) {
            lemma_one_fewer_untried(forward.tried, idx as int);
        }
    }
}

/// A request that goes to the upstreams is answered with a bad gateway if and only if none of them
/// is good. Otherwise a good one answers, and its answer is delivered as it came. It takes at most
/// two steps for each upstream.
pub proof fn law_forwarding_fails_only_without_a_good_upstream<C>(
    client: Seq<char>,
    good: Seq<bool>,
    moments: Seq<Moment<C>>,
    occurrences: Seq<Occurrence<C>>,
)
    requires
        is_run(client, moments, occurrences),
        moments[0].phase matches PhaseView::Connecting(forward) && forward.tried == Seq::new(
            good.len(),
            |i: int| false,
        ),
        forall|i: int|
            0 <= i < occurrences.len() ==> is_forwarding(moments[i].phase) && agrees(
                good,
                moments[i].phase,
                (#[trigger] occurrences[i]).event,
            ),
        !is_forwarding(moments.last().phase),
    ensures
        moments.last().action == ActionView::RespondAndClose(error_response(502)) <==> forall|
            i: int,
        |
            0 <= i < good.len() ==> !#[trigger] good[i],
        match moments.last().phase {
            PhaseView::Closed => moments.last().action == ActionView::RespondAndClose(
                error_response(502),
            ),
            PhaseView::Delivering(idx) => {
                &&& idx < good.len()
                &&& good[idx as int]
                &&& occurrences.last().event matches EventView::Answered(response)
                    && moments.last().action == ActionView::Deliver(response)
            },
            _ => false,
        },
        occurrences.len() <= 2 * good.len(),
{
    let k = occurrences.len() - 1;
    assert(k >= 0);
    let from = moments[k];
    let what = occurrences[k];
    assert(is_step(client, from, what, moments[k + 1]));
    assert(is_forwarding(from.phase) && agrees(good, from.phase, what.event));
    lemma_forwarding_holds(client, good, moments, occurrences, k);
    match from.phase {
        PhaseView::Connecting(forward) => {
            lemma_some_steps_left(forward.tried);
            if exists|i: int| 0 <= i < good.len() && #[trigger] good[i] {
                let i = choose|i: int| 0 <= i < good.len() && #[trigger] good[i];
                assert(forward.tried[i]);
            }
        },
        PhaseView::Exchanging(forward, idx) => {
            if moments[k + 1].phase is Closed {
                assert(!some_untried(forward.tried));
                assert forall|i: int| 0 <= i < good.len() implies !#[trigger] good[i] by {
                    if good[i] && i != idx {
                        assert(!forward.tried[i]);
                    }
                }
            } else {
                assert(good[idx as int]);
            }
        },
        _ => {},
    }
}

/// Where an upstream was not tried, one is counted.
proof fn lemma_some_steps_left(tried: Seq<bool>)
    ensures
        some_untried(tried) ==> untried_count(tried) > 0,
    decreases tried.len(),
{
    if some_untried(tried) {
        let i = choose|i: int| 0 <= i < tried.len() && !(#[trigger] tried[i]);
        if tried.last() {
            let rest = tried.drop_last();
            assert(!rest[i]);
            lemma_some_steps_left(rest);
        }
    }
}

/// The times of the requests of a client that were let through, among the requests of all clients.
pub open spec fn passed_of<C>(
    state: ProxyStateView<C>,
    arrivals: Seq<(Seq<char>, u128)>,
    client: Seq<char>,
) -> Seq<u128>
    decreases arrivals.len(),
{
    if arrivals.len() == 0 {
        Seq::empty()
    } else {
        let before = arrivals.drop_last();
        let (who, now) = arrivals.last();
        let passed = passed_of(state, before, client);
        if who == client && rate_step(after_requests(state, before), who, now).1 {
            passed.push(now)
        } else {
            passed
        }
    }
}

/// What was let through of one client among all is what is let through of its requests alone.
proof fn lemma_passed_of<C>(
    state: ProxyStateView<C>,
    arrivals: Seq<(Seq<char>, u128)>,
    client: Seq<char>,
)
    requires
        state.max_requests_per_minute > 0,
        times_of(state, client) == Seq::<u128>::empty(),
    ensures
        passed_of(state, arrivals, client) == history(
            state.max_requests_per_minute as nat,
            arrivals_of(arrivals, client),
        ).1,
    decreases arrivals.len(),
{
    if arrivals.len() > 0 {
        let before = arrivals.drop_last();
        lemma_passed_of(state, before, client);
        law_clients_are_counted_apart(state, before, client);
        if arrivals.last().0 == client {
            assert(arrivals_of(arrivals, client).drop_last() =~= arrivals_of(before, client));
        }
    }
}

/// The requests of one client come in order if those of all clients do.
proof fn lemma_own_arrivals_in_order(
    arrivals: Seq<(Seq<char>, u128)>,
    client: Seq<char>,
    now: u128,
)
    requires
        forall|i: int, j: int|
            0 <= i <= j < arrivals.len() ==> (#[trigger] arrivals[i]).1 <= (
            #[trigger] arrivals[j]).1,
        forall|i: int| 0 <= i < arrivals.len() ==> (#[trigger] arrivals[i]).1 <= now,
    ensures
        in_order(arrivals_of(arrivals, client)),
        forall|i: int|
            0 <= i < arrivals_of(arrivals, client).len() ==> (#[trigger] arrivals_of(
                arrivals,
                client,
            )[i]) <= now,
    decreases arrivals.len(),
{
    if arrivals.len() > 0 {
        let before = arrivals.drop_last();
        let last = arrivals[arrivals.len() - 1].1;
        assert forall|i: int| 0 <= i < before.len() implies (#[trigger] before[i]).1 <= last by {
            assert(before[i] == arrivals[i]);
        }
        lemma_own_arrivals_in_order(before, client, last);
    }
}

/// A request is let through if and only if fewer requests of its client than the limit were let
/// through before it, or the one that lies as many back as the limit says was let through more than
/// a minute, that is sixty thousand million nanoseconds, before it. Requests of other clients make
/// no difference, and neither do those that were refused.
pub proof fn law_limit_is_for_each_client_and_minute<C>(
    state: ProxyStateView<C>,
    arrivals: Seq<(Seq<char>, u128)>,
    client: Seq<char>,
    now: u128,
)
    requires
        state.max_requests_per_minute > 0,
        times_of(state, client) == Seq::<u128>::empty(),
        forall|i: int, j: int|
            0 <= i <= j < arrivals.len() ==> (#[trigger] arrivals[i]).1 <= (
            #[trigger] arrivals[j]).1,
        forall|i: int| 0 <= i < arrivals.len() ==> (#[trigger] arrivals[i]).1 <= now,
    ensures
        ({
            let passed = passed_of(state, arrivals, client);
            let limit = state.max_requests_per_minute;
            rate_step(after_requests(state, arrivals), client, now).1 <==> passed.len() < limit
                || passed[passed.len() - limit] + 60_000_000_000 < now
        }),
{
    let limit = state.max_requests_per_minute as nat;
    let own = arrivals_of(arrivals, client);
    let (times, passed) = history(limit, own);
    lemma_passed_of(state, arrivals, client);
    law_clients_are_counted_apart(state, arrivals, client);
    lemma_own_arrivals_in_order(arrivals, client, now);
    lemma_recent_is_suffix(times, now);
    let kept = recent(times, now);
    if own.len() > 0 {
        lemma_history(limit, own);
        assert(own.last() <= now);
        let cut = passed.len() - times.len();
        if kept.len() >= limit {
            assert(kept =~= times);
            assert(passed[passed.len() - limit] == kept[0]);
        } else if passed.len() >= limit {
            let p = passed.len() - limit;
            if p >= cut {
                assert(times[p - cut] == passed[p]);
                assert(is_expired(times[p - cut], now));
            } else {
                assert(is_expired(passed[p], own.last()));
            }
        }
    }
}

/// Where there is no limit every request is let through, and nothing goes on record.
pub proof fn law_no_limit_lets_everything_through<C>(
    state: ProxyStateView<C>,
    client: Seq<char>,
    now: u128,
)
    requires
        state.max_requests_per_minute == 0,
    ensures
        rate_step(state, client, now) == (state, true),
{
}

/// Deciding on a request changes nothing but the record of its client.
pub proof fn law_deciding_changes_one_record<C>(
    state: ProxyStateView<C>,
    client: Seq<char>,
    now: u128,
    other: Seq<char>,
)
    ensures
        rate_step(state, client, now).0 == (ProxyStateView {
            request_counts: rate_step(state, client, now).0.request_counts,
            ..state
        }),
        other != client ==> times_of(rate_step(state, client, now).0, other) == times_of(
            state,
            other,
        ),
{
}

/// The upstream to which there is a connection gets the request as it stands, with the method, the
/// URI, the version, all header fields and the whole body that it had before, and its answer will
/// be cached under the same key. Finding the connection changes nothing else.
pub proof fn law_upstream_gets_the_request<C>(
    state: ProxyStateView<C>,
    client: Seq<char>,
    forward: ForwardView,
    idx: usize,
    now: u128,
)
    ensures
        ({
            let phase = PhaseView::Connecting(forward);
            let event = EventView::<C>::Connected(idx);
            let (after, (next, action)) = connection_step(state, client, phase, event, now);
            &&& after == state
            &&& action is Exchange
            &&& next matches PhaseView::Exchanging(sent, to) && {
                &&& to == idx
                &&& sent.request.method == forward.request.method
                &&& sent.request.uri == forward.request.uri
                &&& sent.request.version == forward.request.version
                &&& sent.request.headers == forward.request.headers
                &&& sent.request.body == forward.request.body
                &&& sent.cache_key == forward.cache_key
                &&& sent.tried == forward.tried.update(idx as int, true)
            }
        }),
{
}

/// After a failed exchange the next upstream is sought for the same request.
pub proof fn law_failover_keeps_the_request<C>(
    state: ProxyStateView<C>,
    client: Seq<char>,
    forward: ForwardView,
    idx: usize,
    event: EventView<C>,
    now: u128,
)
    ensures
        ({
            let phase = PhaseView::Exchanging(forward, idx);
            let (after, (next, action)) = connection_step(state, client, phase, event, now);
            next matches PhaseView::Connecting(kept) ==> {
                &&& kept.request.method == forward.request.method
                &&& kept.request.uri == forward.request.uri
                &&& kept.request.version == forward.request.version
                &&& kept.request.headers == forward.request.headers
                &&& kept.request.body == forward.request.body
                &&& kept.cache_key == forward.cache_key
                &&& kept.tried == forward.tried
            }
        }),
{
}

/// A request that is let through and has no cached answer goes to the upstreams, none of which was
/// tried: the method, the URI, the version and the body are the client's, and the header fields are
/// the client's with its address at the end of `X-Forwarded-For`. Where there is no upstream, the
/// client is answered that the gateway failed.
pub proof fn law_request_is_forwarded<C>(
    state: ProxyStateView<C>,
    client: Seq<char>,
    request: RequestView,
    now: u128,
)
    requires
        rate_step(state, client, now).1,
        lookup_answer(state.response_cache, cache_key(request)) is None,
    ensures
        ({
            let event = EventView::<C>::RequestRead(request);
            let (after, (next, action)) = connection_step(
                state,
                client,
                PhaseView::Reading,
                event,
                now,
            );
            if state.upstream_addresses.len() == 0 {
                next is Closed && action == ActionView::RespondAndClose(error_response(502))
            } else {
                &&& action is Connect
                &&& next matches PhaseView::Connecting(forward) && {
                    &&& forward.request.method == request.method
                    &&& forward.request.uri == request.uri
                    &&& forward.request.version == request.version
                    &&& forward.request.body == request.body
                    &&& forward.request.headers == extended(
                        request.headers,
                        "x-forwarded-for"@,
                        encode_utf8(client),
                    )
                    &&& forward.cache_key == cache_key(request)
                    &&& forward.tried.len() == state.upstream_addresses.len()
                    &&& forall|i: int|
                        0 <= i < forward.tried.len() ==> !(#[trigger] forward.tried[i])
                }
            }
        }),
{
    let tried = Seq::new(state.upstream_addresses.len(), |i: int| false);
    if state.upstream_addresses.len() > 0 {
        assert(!tried[0]);
    }
}

/// Every header field of a request reaches the upstream with all its values and in its place, but
/// for `X-Forwarded-For`, whose one value is then its first value so far, a comma and a blank, and
/// the address of the client; or that address alone, behind all other fields, where there was none.
pub proof fn law_forwarded_request_keeps_all_fields(
    request: RequestView,
    client: Seq<char>,
    i: int,
)
    requires
        well_formed(request.headers),
        0 <= i < request.headers.len(),
    ensures
        ({
            let headers = request.headers;
            let after = forwarded(request, client).headers;
            &&& headers[i].0 != "x-forwarded-for"@ ==> after[i] == headers[i]
            &&& headers[i].0 == "x-forwarded-for"@ ==> after.len() == headers.len() && after[i] == (
                "x-forwarded-for"@,
                seq![headers[i].1[0] + encode_utf8(", "@) + encode_utf8(client)],
            )
            &&& (forall|j: int|
                0 <= j < headers.len() ==> (#[trigger] headers[j]).0 != "x-forwarded-for"@)
                ==> after == headers.push(("x-forwarded-for"@, seq![encode_utf8(client)]))
        }),
{
    lemma_forwarded_field();
    reveal_strlit("x-forwarded-for");
    assert("x-forwarded-for"@.map_values(|c: char| lower_char(c)) =~= "x-forwarded-for"@);
    law_extending_keeps_all_other_fields(
        request.headers,
        "x-forwarded-for"@,
        encode_utf8(client),
        i,
    );
}

/// Along every run from a request that was read, whatever upstream is sought for it or gets it gets
/// exactly the request that the client sent, with its address added, and its answer may be cached
/// only under the key of that request.
pub proof fn law_every_upstream_gets_what_the_client_sent<C>(
    client: Seq<char>,
    request: RequestView,
    moments: Seq<Moment<C>>,
    occurrences: Seq<Occurrence<C>>,
    k: int,
)
    requires
        is_run(client, moments, occurrences),
        occurrences.len() > 0,
        moments[0].phase is Reading,
        occurrences[0].event == EventView::<C>::RequestRead(request),
        1 <= k < moments.len(),
        forall|i: int| 1 <= i <= k ==> is_forwarding((#[trigger] moments[i]).phase),
    ensures
        ({
            let sent = match moments[k].phase {
                PhaseView::Connecting(forward) => forward,
                PhaseView::Exchanging(forward, _) => forward,
                _ => arbitrary(),
            };
            &&& sent.request.method == request.method
            &&& sent.request.uri == request.uri
            &&& sent.request.version == request.version
            &&& sent.request.body == request.body
            &&& sent.request.headers == extended(
                request.headers,
                "x-forwarded-for"@,
                encode_utf8(client),
            )
            &&& sent.cache_key == cache_key(request)
        }),
    decreases k,
{
    let from = moments[k - 1];
    let what = occurrences[k - 1];
    assert(is_step(client, from, what, moments[k]));
    assert(is_forwarding(moments[k].phase));
    if k > 1 {
        assert(is_forwarding(moments[k - 1].phase));
        law_every_upstream_gets_what_the_client_sent(client, request, moments, occurrences, k - 1);
    }
}

/// A request that is not a `GET` is neither answered from the cache nor does it change it, and its
/// answer is not cached.
pub proof fn law_other_methods_pass_the_cache_by<C>(
    state: ProxyStateView<C>,
    client: Seq<char>,
    request: RequestView,
    now: u128,
    idx: usize,
    response: ResponseView,
)
    requires
        request.method != "GET"@,
        rate_step(state, client, now).1,
    ensures
        ({
            let event = EventView::<C>::RequestRead(request);
            let (after, (next, action)) = connection_step(
                state,
                client,
                PhaseView::Reading,
                event,
                now,
            );
            &&& after.response_cache == state.response_cache
            &&& !(action is Respond)
            &&& next matches PhaseView::Connecting(forward) ==> answer_step(
                after,
                forward,
                idx,
                response,
            ).0.response_cache == state.response_cache
        }),
{
    law_cache_key_is_for_plain_gets(request);
}

/// An answer goes into the cache only if its status code is 200.
pub proof fn law_only_successes_are_cached<C>(
    state: ProxyStateView<C>,
    forward: ForwardView,
    idx: usize,
    response: ResponseView,
)
    requires
        response.status != 200 || forward.cache_key is None,
    ensures
        answer_step(state, forward, idx, response).0.response_cache == state.response_cache,
{
    law_only_plain_successes_are_cached(response);
}

/// A request that is let through and has a cached answer is answered with it, without an upstream,
/// and the next request is read.
pub proof fn law_cached_answer_is_given<C>(
    state: ProxyStateView<C>,
    client: Seq<char>,
    request: RequestView,
    now: u128,
    found: ResponseView,
)
    requires
        rate_step(state, client, now).1,
        lookup_answer(state.response_cache, cache_key(request)) == Some(found),
    ensures
        ({
            let event = EventView::<C>::RequestRead(request);
            let (after, (next, action)) = connection_step(
                state,
                client,
                PhaseView::Reading,
                event,
                now,
            );
            &&& next is Reading
            &&& action == ActionView::Respond(found)
            &&& after == (ProxyStateView {
                request_counts: after.request_counts,
                response_cache: after.response_cache,
                ..state
            })
        }),
{
}

/// Where no upstream can be connected to, the client is answered that the gateway failed, the
/// connection is closed, and the state stays as it is.
pub proof fn law_no_connection_is_a_bad_gateway<C>(
    state: ProxyStateView<C>,
    client: Seq<char>,
    forward: ForwardView,
    now: u128,
)
    ensures
        ({
            let phase = PhaseView::Connecting(forward);
            let (after, (next, action)) = connection_step(
                state,
                client,
                phase,
                EventView::NotConnected,
                now,
            );
            &&& after == state
            &&& next is Closed
            &&& action == ActionView::RespondAndClose(error_response(502))
        }),
{
}

} // verus!
