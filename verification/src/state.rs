//! What the connections of the proxy share: the upstream servers and their health, the requests
//! of each client, idle connections, requests in flight, and the response cache.
use std::collections::VecDeque;
use vstd::hash_set::StringHashSet;
use vstd::prelude::*;
use vstd::string::*;

use crate::cache::{cache_well_formed, CacheView, ResponseCache, MAX_CACHE_CAPACITY};
use crate::config::CmdOptions;
use crate::keyed::Keyed;

verus! {

/// News of the health of an upstream.
pub enum HealthUpdate {
    MarkDead(String),
    MarkAlive(String),
}

/// News of the health of an upstream.
pub enum HealthUpdateView {
    MarkDead(Seq<char>),
    MarkAlive(Seq<char>),
}

impl View for HealthUpdate {
    type V = HealthUpdateView;

    open spec fn view(&self) -> HealthUpdateView {
        match *self {
            HealthUpdate::MarkDead(upstream) => HealthUpdateView::MarkDead(upstream@),
            HealthUpdate::MarkAlive(upstream) => HealthUpdateView::MarkAlive(upstream@),
        }
    }
}

/// The seconds that connecting to an upstream, and an exchange with it, may take.
pub const IO_TIMEOUT: u64 = 1;

/// `std::time::Instant`. Proofs see nothing of it.
#[verifier::external_type_specification]
#[verifier::external_body]
pub struct ExInstant(std::time::Instant);

/// `std::time::Instant::now`: the present moment. Nothing is claimed of it, since it rests on the
/// clock.
#[verifier::external_body]
fn present() -> (moment: std::time::Instant) {
    std::time::Instant::now()
}

/// `std::time::Instant::elapsed`: the time since a moment, in nanoseconds. Nothing is claimed of
/// it, since it rests on the clock.
#[verifier::external_body]
fn nanoseconds_since(moment: &std::time::Instant) -> (nanoseconds: u128) {
    moment.elapsed().as_nanos()
}

/// The clock, read against a moment, may give this number of nanoseconds.
pub closed spec fn clock_reads(moment: std::time::Instant, nanoseconds: u128) -> bool {
    call_ensures(nanoseconds_since, (&moment,), nanoseconds)
}

/// What the clock gives is what reading it in nanoseconds gives, and nothing made of that.
proof fn law_clock_is_read_in_nanoseconds(moment: std::time::Instant, nanoseconds: u128)
    ensures
        clock_reads(moment, nanoseconds) <==> call_ensures(
            nanoseconds_since,
            (&moment,),
            nanoseconds,
        ),
{
}

/// What the connections of the proxy share. `C` is a connection to an upstream.
pub struct ProxyState<C> {
    pub active_health_check_interval: usize,
    pub active_health_check_path: String,
    pub max_requests_per_minute: usize,
    pub upstream_addresses: Vec<String>,
    /// The upstreams that are thought not to answer.
    pub dead_upstreams: StringHashSet,
    /// News of the health of upstreams that was not applied yet, the oldest first.
    pub health_updates: Vec<HealthUpdate>,
    /// For each client, when its latest requests were let through, the oldest first.
    pub request_counts: Keyed<VecDeque<u128>>,
    /// For each upstream, its idle connections.
    pub connection_pool: Keyed<Vec<C>>,
    /// For each upstream, the number of its requests in flight.
    pub active_requests: Vec<usize>,
    pub response_cache: ResponseCache,
    /// The moment from which time is counted.
    pub started: std::time::Instant,
}

/// What the connections of the proxy share.
pub struct ProxyStateView<C> {
    pub active_health_check_interval: usize,
    pub active_health_check_path: Seq<char>,
    pub max_requests_per_minute: usize,
    pub upstream_addresses: Seq<Seq<char>>,
    pub dead_upstreams: Set<Seq<char>>,
    pub health_updates: Seq<HealthUpdateView>,
    pub request_counts: Map<Seq<char>, Seq<u128>>,
    pub connection_pool: Map<Seq<char>, Seq<C>>,
    pub active_requests: Seq<usize>,
    pub response_cache: Option<CacheView>,
    pub started: std::time::Instant,
}

/// The texts that strings hold.
pub open spec fn texts(strings: Seq<String>) -> Seq<Seq<char>> {
    strings.map_values(|s: String| s@)
}

impl<C> View for ProxyState<C> {
    type V = ProxyStateView<C>;

    open spec fn view(&self) -> ProxyStateView<C> {
        ProxyStateView {
            active_health_check_interval: self.active_health_check_interval,
            active_health_check_path: self.active_health_check_path@,
            max_requests_per_minute: self.max_requests_per_minute,
            upstream_addresses: texts(self.upstream_addresses@),
            dead_upstreams: self.dead_upstreams@,
            health_updates: self.health_updates@.map_values(|update: HealthUpdate| update@),
            request_counts: self.request_counts@.map_values(|times: VecDeque<u128>| times@),
            connection_pool: self.connection_pool@.map_values(|idle: Vec<C>| idle@),
            active_requests: self.active_requests@,
            response_cache: self.response_cache@,
            started: self.started,
        }
    }
}

/// Every upstream has its count of requests in flight, the cache is well-formed, and no client has
/// more requests on record than the limit lets through.
pub open spec fn state_well_formed<C>(state: ProxyStateView<C>) -> bool {
    &&& state.active_requests.len() == state.upstream_addresses.len()
    &&& cache_well_formed(state.response_cache)
    &&& forall|client: Seq<char>| #[trigger]
        state.request_counts.contains_key(client) ==> state.request_counts[client].len()
            <= state.max_requests_per_minute
}

/// No count of requests in flight is at its largest.
pub open spec fn counts_have_room<C>(state: ProxyStateView<C>) -> bool {
    forall|i: int|
        0 <= i < state.active_requests.len() ==> (#[trigger] state.active_requests[i]) < usize::MAX
}

/// The state with one more piece of news.
pub open spec fn with_update<C>(
    state: ProxyStateView<C>,
    update: HealthUpdateView,
) -> ProxyStateView<C> {
    ProxyStateView { health_updates: state.health_updates.push(update), ..state }
}

/// The upstreams that are thought not to answer, after a piece of news.
pub open spec fn updated(dead: Set<Seq<char>>, update: HealthUpdateView) -> Set<Seq<char>> {
    match update {
        HealthUpdateView::MarkDead(upstream) => dead.insert(upstream),
        HealthUpdateView::MarkAlive(upstream) => dead.remove(upstream),
    }
}

/// The state with one request more in flight to an upstream.
pub open spec fn incremented<C>(state: ProxyStateView<C>, idx: int) -> ProxyStateView<C> {
    ProxyStateView {
        active_requests: state.active_requests.update(
            idx,
            (state.active_requests[idx] + 1) as usize,
        ),
        ..state
    }
}

/// The state with one request fewer in flight to an upstream, as far as there is one.
pub open spec fn decremented<C>(state: ProxyStateView<C>, idx: int) -> ProxyStateView<C> {
    if state.active_requests[idx] > 0 {
        ProxyStateView {
            active_requests: state.active_requests.update(
                idx,
                (state.active_requests[idx] - 1) as usize,
            ),
            ..state
        }
    } else {
        state
    }
}

/// The idle connections to an upstream.
pub open spec fn idle<C>(state: ProxyStateView<C>, upstream: Seq<char>) -> Seq<C> {
    if state.connection_pool.contains_key(upstream) {
        state.connection_pool[upstream]
    } else {
        Seq::empty()
    }
}

/// The state with other idle connections to an upstream.
pub open spec fn with_idle<C>(
    state: ProxyStateView<C>,
    upstream: Seq<char>,
    connections: Seq<C>,
) -> ProxyStateView<C> {
    ProxyStateView {
        connection_pool: state.connection_pool.insert(upstream, connections),
        ..state
    }
}

/// The idle connection that was last returned is taken, if there is one.
pub open spec fn taken<C>(state: ProxyStateView<C>, upstream: Seq<char>) -> (
    ProxyStateView<C>,
    Option<C>,
) {
    let connections = idle(state, upstream);
    if connections.len() > 0 {
        (with_idle(state, upstream, connections.drop_last()), Some(connections.last()))
    } else {
        (state, None)
    }
}

/// An idle connection is returned.
pub open spec fn returned<C>(
    state: ProxyStateView<C>,
    upstream: Seq<char>,
    connection: C,
) -> ProxyStateView<C> {
    with_idle(state, upstream, idle(state, upstream).push(connection))
}

/// The state at the start: no upstream is dead, nothing is in flight, and nothing is on record.
pub open spec fn fresh_state<C>(
    upstream_addresses: Seq<Seq<char>>,
    active_health_check_interval: usize,
    active_health_check_path: Seq<char>,
    max_requests_per_minute: usize,
    max_cache_entries: usize,
    started: std::time::Instant,
) -> ProxyStateView<C> {
    ProxyStateView {
        active_health_check_interval,
        active_health_check_path,
        max_requests_per_minute,
        upstream_addresses,
        dead_upstreams: Set::empty(),
        health_updates: Seq::empty(),
        request_counts: Map::empty(),
        connection_pool: Map::empty(),
        active_requests: Seq::new(upstream_addresses.len(), |i: int| 0usize),
        response_cache: if max_cache_entries == 0 {
            None
        } else {
            Some(CacheView { capacity: max_cache_entries as nat, entries: Seq::empty() })
        },
        started,
    }
}

impl<C> ProxyState<C> {
    /// The tables are in order, and so is what they hold.
    pub open spec fn wf(&self) -> bool {
        &&& self.request_counts.wf()
        &&& self.connection_pool.wf()
        &&& state_well_formed(self@)
    }

    /// The state at the start.
    pub fn new(options: CmdOptions) -> (state: ProxyState<C>)
        requires
            options.max_cache_entries <= MAX_CACHE_CAPACITY,
        ensures
            state@ == fresh_state::<C>(
                texts(options.upstream@),
                options.active_health_check_interval,
                options.active_health_check_path@,
                options.max_requests_per_minute,
                options.max_cache_entries,
                state.started,
            ),
            state.wf(),
    {
        let upstream_count: usize = options.upstream.len();
        let active_requests: Vec<usize> = vec![0; upstream_count];
        let state = ProxyState {
            active_health_check_interval: options.active_health_check_interval,
            active_health_check_path: options.active_health_check_path,
            max_requests_per_minute: options.max_requests_per_minute,
            upstream_addresses: options.upstream,
            dead_upstreams: StringHashSet::new(),
            health_updates: Vec::new(),
            request_counts: Keyed::new(),
            connection_pool: Keyed::new(),
            active_requests,
            response_cache: ResponseCache::new(options.max_cache_entries),
            started: present(),
        };
        proof {
            let view = state@;
            assert(view.health_updates =~= Seq::empty());
            assert(view.request_counts =~= Map::empty());
            assert(view.connection_pool =~= Map::empty());
            assert(view.active_requests =~= Seq::new(
                texts(options.upstream@).len(),
                |i: int| 0usize,
            ));
        }
        state
    }

    /// The time since the start, in nanoseconds. It rests on the clock, and whoever reads it is
    /// right for every value that it may have.
    pub(crate) fn now(&self) -> (now: u128)
        ensures
            clock_reads(self.started, now),
    {
        let clock = nanoseconds_since;
        clock(&self.started)
    }

    /// Reports that an upstream does not answer.
    pub fn mark_upstream_dead(&mut self, upstream: &str)
        requires
            old(self).wf(),
        ensures
            final(self)@ == with_update(old(self)@, HealthUpdateView::MarkDead(upstream@)),
            final(self).wf(),
    {
        self.health_updates.push(HealthUpdate::MarkDead(upstream.to_owned()));
        assert(self@.health_updates =~= old(self)@.health_updates.push(
            HealthUpdateView::MarkDead(upstream@),
        ));
    }

    /// Reports that an upstream answers.
    pub fn mark_upstream_alive(&mut self, upstream: &str)
        requires
            old(self).wf(),
        ensures
            final(self)@ == with_update(old(self)@, HealthUpdateView::MarkAlive(upstream@)),
            final(self).wf(),
    {
        self.health_updates.push(HealthUpdate::MarkAlive(upstream.to_owned()));
        assert(self@.health_updates =~= old(self)@.health_updates.push(
            HealthUpdateView::MarkAlive(upstream@),
        ));
    }

    /// Takes out all news of the health of upstreams, the oldest first.
    pub fn take_health_updates(&mut self) -> (updates: Vec<HealthUpdate>)
        requires
            old(self).wf(),
        ensures
            updates@.map_values(|update: HealthUpdate| update@) == old(self)@.health_updates,
            final(self)@ == (ProxyStateView { health_updates: Seq::empty(), ..old(self)@ }),
            final(self).wf(),
    {
        let mut updates: Vec<HealthUpdate> = Vec::new();
        std::mem::swap(&mut updates, &mut self.health_updates);
        assert(self@.health_updates =~= Seq::empty());
        updates
    }

    /// Takes note of the health of an upstream.
    pub fn apply_health_update(&mut self, update: HealthUpdate)
        requires
            old(self).wf(),
        ensures
            final(self)@ == (ProxyStateView {
                dead_upstreams: updated(old(self)@.dead_upstreams, update@),
                ..old(self)@
            }),
            final(self).wf(),
    {
        match update {
            HealthUpdate::MarkDead(upstream) => {
                self.dead_upstreams.insert(upstream);
            },
            HealthUpdate::MarkAlive(upstream) => {
                self.dead_upstreams.remove(upstream.as_str());
            },
        }
    }

    /// Counts one request more in flight to an upstream.
    pub fn increment_active_requests(&mut self, upstream_idx: usize)
        requires
            old(self).wf(),
            upstream_idx < old(self)@.active_requests.len(),
            old(self)@.active_requests[upstream_idx as int] < usize::MAX,
        ensures
            final(self)@ == incremented(old(self)@, upstream_idx as int),
            final(self).wf(),
    {
        let count: usize = self.active_requests[upstream_idx];
        self.active_requests[upstream_idx] = count + 1;
    }

    /// Counts one request fewer in flight to an upstream.
    pub fn decrement_active_requests(&mut self, upstream_idx: usize)
        requires
            old(self).wf(),
            upstream_idx < old(self)@.active_requests.len(),
        ensures
            final(self)@ == decremented(old(self)@, upstream_idx as int),
            final(self).wf(),
    {
        let count: usize = self.active_requests[upstream_idx];
        if count > 0 {
            self.active_requests[upstream_idx] = count - 1;
        }
    }

    /// Takes the idle connection to an upstream that was last returned.
    pub fn take_pooled_connection(&mut self, upstream: &str) -> (connection: Option<C>)
        requires
            old(self).wf(),
        ensures
            (final(self)@, connection) == taken(old(self)@, upstream@),
            final(self).wf(),
    {
        let connection = match self.connection_pool.get_mut(upstream) {
            Some(connections) => connections.pop(),
            None => None,
        };
        assert(self@.connection_pool =~= taken(old(self)@, upstream@).0.connection_pool);
        connection
    }

    /// Puts an idle connection to an upstream aside.
    pub fn return_connection_to_pool(&mut self, upstream: &str, stream: C)
        requires
            old(self).wf(),
        ensures
            final(self)@ == returned(old(self)@, upstream@, stream),
            final(self).wf(),
    {
        let connections = self.connection_pool.entry_or(upstream, Vec::new());
        connections.push(stream);
        assert(self@.connection_pool =~= returned(old(self)@, upstream@, stream).connection_pool);
    }
}

/// Counting a request in makes one more for its upstream, counting it out makes one fewer as far as
/// there is one, and the counts of all other upstreams stay.
pub proof fn law_one_request_is_counted<C>(state: ProxyStateView<C>, idx: int, other: int)
    requires
        0 <= idx < state.active_requests.len(),
        0 <= other < state.active_requests.len(),
        state.active_requests[idx] < usize::MAX,
    ensures
        incremented(state, idx).active_requests.len() == state.active_requests.len(),
        decremented(state, idx).active_requests.len() == state.active_requests.len(),
        incremented(state, idx).active_requests[idx] == state.active_requests[idx] + 1,
        state.active_requests[idx] > 0 ==> decremented(state, idx).active_requests[idx]
            == state.active_requests[idx] - 1,
        state.active_requests[idx] == 0 ==> decremented(state, idx).active_requests[idx] == 0,
        other != idx ==> incremented(state, idx).active_requests[other]
            == state.active_requests[other],
        other != idx ==> decremented(state, idx).active_requests[other]
            == state.active_requests[other],
{
}

/// At the start every upstream is thought to answer, has no request in flight and no idle
/// connection, no client has a request on record, and the cache is empty.
pub proof fn law_start_is_blank<C>(
    upstream_addresses: Seq<Seq<char>>,
    interval: usize,
    path: Seq<char>,
    limit: usize,
    cache_entries: usize,
    started: std::time::Instant,
    name: Seq<char>,
    idx: int,
)
    ensures
        ({
            let state = fresh_state::<C>(
                upstream_addresses,
                interval,
                path,
                limit,
                cache_entries,
                started,
            );
            &&& state.upstream_addresses == upstream_addresses
            &&& state.active_health_check_interval == interval
            &&& state.active_health_check_path == path
            &&& state.max_requests_per_minute == limit
            &&& !state.dead_upstreams.contains(name)
            &&& state.health_updates.len() == 0
            &&& !state.request_counts.contains_key(name)
            &&& idle(state, name).len() == 0
            &&& state.active_requests.len() == upstream_addresses.len()
            &&& 0 <= idx < upstream_addresses.len() ==> state.active_requests[idx] == 0
            &&& cache_entries == 0 <==> state.response_cache is None
            &&& state.response_cache matches Some(cache) ==> cache.capacity == cache_entries
                && cache.entries.len() == 0
        }),
{
}

/// Counting a request in and out again leaves the state as it was.
pub proof fn law_counted_in_and_out<C>(state: ProxyStateView<C>, idx: int)
    requires
        0 <= idx < state.active_requests.len(),
        state.active_requests[idx] < usize::MAX,
    ensures
        decremented(incremented(state, idx), idx) == state,
{
    assert(decremented(incremented(state, idx), idx).active_requests =~= state.active_requests);
}

/// The connection that was last returned is taken first, and taking it leaves the connections as
/// they were.
pub proof fn law_last_returned_is_taken_first<C>(
    state: ProxyStateView<C>,
    upstream: Seq<char>,
    connection: C,
)
    ensures
        taken(returned(state, upstream, connection), upstream).1 == Some(connection),
        idle(taken(returned(state, upstream, connection), upstream).0, upstream) == idle(
            state,
            upstream,
        ),
{
    assert(idle(state, upstream).push(connection).drop_last() =~= idle(state, upstream));
}

/// Taking or returning a connection to an upstream leaves the connections to others alone.
pub proof fn law_pools_are_apart<C>(
    state: ProxyStateView<C>,
    upstream: Seq<char>,
    other: Seq<char>,
    connection: C,
)
    requires
        upstream != other,
    ensures
        idle(returned(state, upstream, connection), other) == idle(state, other),
        idle(taken(state, upstream).0, other) == idle(state, other),
{
}

/// After news of an upstream was applied the upstream is dead or alive as the news says, and every
/// other upstream is as it was.
pub proof fn law_update_is_heeded(dead: Set<Seq<char>>, upstream: Seq<char>, other: Seq<char>)
    requires
        upstream != other,
    ensures
        updated(dead, HealthUpdateView::MarkDead(upstream)).contains(upstream),
        !updated(dead, HealthUpdateView::MarkAlive(upstream)).contains(upstream),
        updated(dead, HealthUpdateView::MarkDead(upstream)).contains(other) == dead.contains(other),
        updated(dead, HealthUpdateView::MarkAlive(upstream)).contains(other) == dead.contains(
            other,
        ),
{
}

} // verus!
