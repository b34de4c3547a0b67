//! The choice of an upstream for a request, connecting to it, and active health checks.
use vstd::prelude::*;
use vstd::slice::slice_to_vec;
use vstd::string::*;
use vstd::utf8::*;

use crate::headers::{
    accepts_value, appended, has_name, header_name, is_header_value, is_value_byte, place_of,
    well_formed, HeaderSeq, Headers,
};
use crate::message::{is_target, parse_uri, uri_text, Version};
use crate::request::{Request, RequestView};
use crate::state::{
    counts_have_room, idle, incremented, taken, texts, updated, with_update, HealthUpdateView,
    ProxyState, ProxyStateView,
};
use crate::text::{is_token, lower_char};

verus! {

/// The upstreams among the first `n` that were not tried and are dead, or are not, as asked for;
/// in their order.
pub open spec fn untried(
    upstreams: Seq<Seq<char>>,
    dead: Set<Seq<char>>,
    tried: Seq<bool>,
    is_dead: bool,
    n: nat,
) -> Seq<usize>
    decreases n,
{
    if n == 0 {
        seq![]
    } else {
        let i = n - 1;
        let before = untried(upstreams, dead, tried, is_dead, i as nat);
        if !tried[i] && dead.contains(upstreams[i]) == is_dead {
            before.push(i as usize)
        } else {
            before
        }
    }
}

/// The upstreams to choose from: the healthy ones that were not tried or, where there is none, the
/// dead ones that were not tried.
pub open spec fn candidates(
    upstreams: Seq<Seq<char>>,
    dead: Set<Seq<char>>,
    tried: Seq<bool>,
) -> Seq<usize> {
    let healthy = untried(upstreams, dead, tried, false, upstreams.len());
    if healthy.len() > 0 {
        healthy
    } else {
        untried(upstreams, dead, tried, true, upstreams.len())
    }
}

/// The upstreams to choose from.
pub fn get_candidate_upstreams<C>(state: &ProxyState<C>, tried: &[bool]) -> (found: Vec<usize>)
    requires
        tried@.len() >= state@.upstream_addresses.len(),
    ensures
        found@ == candidates(state@.upstream_addresses, state@.dead_upstreams, tried@),
{
    let ghost upstreams = state@.upstream_addresses;
    let ghost dead_set = state@.dead_upstreams;
    let mut healthy: Vec<usize> = Vec::new();
    let mut dead: Vec<usize> = Vec::new();
    let mut idx: usize = 0;
    while idx < state.upstream_addresses.len()
        invariant
            idx <= state.upstream_addresses@.len() <= tried@.len(),
            upstreams == texts(state.upstream_addresses@),
            dead_set == state.dead_upstreams@,
            healthy@ == untried(upstreams, dead_set, tried@, false, idx as nat),
            dead@ == untried(upstreams, dead_set, tried@, true, idx as nat),
        decreases state.upstream_addresses@.len() - idx,
    {
        assert(upstreams[idx as int] == state.upstream_addresses@[idx as int]@);
        if !tried[idx] {
            if state.dead_upstreams.contains(state.upstream_addresses[idx].as_str()) {
                dead.push(idx);
            } else {
                healthy.push(idx);
            }
        }
        idx = idx + 1;
    }
    if healthy.is_empty() {
        dead
    } else {
        healthy
    }
}

/// What stands in the list of untried upstreams, and in which order.
proof fn lemma_untried(
    upstreams: Seq<Seq<char>>,
    dead: Set<Seq<char>>,
    tried: Seq<bool>,
    is_dead: bool,
    n: nat,
)
    requires
        n <= usize::MAX,
    ensures
        forall|k: int|
            0 <= k < untried(upstreams, dead, tried, is_dead, n).len() ==> {
                let i = #[trigger] untried(upstreams, dead, tried, is_dead, n)[k];
                i < n && !tried[i as int] && dead.contains(upstreams[i as int]) == is_dead
            },
        forall|i: int|
            0 <= i < n && !(#[trigger] tried[i]) && dead.contains(upstreams[i]) == is_dead
                ==> untried(upstreams, dead, tried, is_dead, n).contains(i as usize),
        forall|j: int, k: int|
            0 <= j < k < untried(upstreams, dead, tried, is_dead, n).len() ==> (
            #[trigger] untried(upstreams, dead, tried, is_dead, n)[j]) < (#[trigger] untried(
                upstreams,
                dead,
                tried,
                is_dead,
                n,
            )[k]),
    decreases n,
{
    if n > 0 {
        let last = n - 1;
        lemma_untried(upstreams, dead, tried, is_dead, last as nat);
        let before = untried(upstreams, dead, tried, is_dead, last as nat);
        let all = untried(upstreams, dead, tried, is_dead, n);
        assert forall|i: int|
            0 <= i < n && !(#[trigger] tried[i]) && dead.contains(upstreams[i])
                == is_dead implies all.contains(i as usize) by {
            if i < last {
                assert(before.contains(i as usize));
                let k = before.index_of(i as usize);
                assert(all[k] == i as usize);
            } else {
                assert(all[all.len() - 1] == i as usize);
            }
        }
    }
}

/// An upstream is a candidate just if it was not tried and is healthy, or no untried upstream is
/// healthy. Candidates stand in the order of the upstreams, each once. There is none just if every
/// upstream was tried.
pub proof fn law_candidates(
    upstreams: Seq<Seq<char>>,
    dead: Set<Seq<char>>,
    tried: Seq<bool>,
    i: usize,
)
    requires
        upstreams.len() <= usize::MAX,
        upstreams.len() <= tried.len(),
    ensures
        candidates(upstreams, dead, tried).contains(i) <==> {
            &&& i < upstreams.len()
            &&& !tried[i as int]
            &&& !dead.contains(upstreams[i as int]) || forall|j: int|
                0 <= j < upstreams.len() && !(#[trigger] tried[j]) ==> dead.contains(upstreams[j])
        },
        forall|j: int, k: int|
            0 <= j < k < candidates(upstreams, dead, tried).len() ==> (#[trigger] candidates(
                upstreams,
                dead,
                tried,
            )[j]) < (#[trigger] candidates(upstreams, dead, tried)[k]),
        candidates(upstreams, dead, tried).len() == 0 <==> forall|j: int|
            0 <= j < upstreams.len() ==> #[trigger] tried[j],
{
    let n = upstreams.len();
    lemma_untried(upstreams, dead, tried, false, n);
    lemma_untried(upstreams, dead, tried, true, n);
    let healthy = untried(upstreams, dead, tried, false, n);
    let sick = untried(upstreams, dead, tried, true, n);
    let all = candidates(upstreams, dead, tried);
    if healthy.len() > 0 {
        let h = healthy[0] as int;
        assert(!tried[h] && !dead.contains(upstreams[h]));
        if i < n && !tried[i as int] && !dead.contains(upstreams[i as int]) {
            assert(healthy.contains(i));
        }
    } else {
        assert forall|j: int| 0 <= j < n && !(#[trigger] tried[j]) implies dead.contains(
            upstreams[j],
        ) by {
            if !dead.contains(upstreams[j]) {
                assert(healthy.contains(j as usize));
            }
        }
        if i < n && !tried[i as int] {
            assert(sick.contains(i));
        }
        if sick.len() == 0 {
            assert forall|j: int| 0 <= j < n implies #[trigger] tried[j] by {
                if !tried[j] {
                    assert(sick.contains(j as usize));
                }
            }
        } else {
            assert(!tried[sick[0] as int]);
        }
    }
}

/// An untried upstream that was reported as alive is a candidate.
pub proof fn law_alive_upstream_is_a_candidate(
    upstreams: Seq<Seq<char>>,
    dead: Set<Seq<char>>,
    tried: Seq<bool>,
    i: usize,
)
    requires
        upstreams.len() <= usize::MAX,
        upstreams.len() <= tried.len(),
        i < upstreams.len(),
        !tried[i as int],
    ensures
        candidates(
            upstreams,
            updated(dead, HealthUpdateView::MarkAlive(upstreams[i as int])),
            tried,
        ).contains(i),
{
    let after = updated(dead, HealthUpdateView::MarkAlive(upstreams[i as int]));
    law_candidates(upstreams, after, tried, i);
}

/// An upstream that was reported as dead is no candidate as long as another untried upstream is
/// healthy.
pub proof fn law_dead_upstream_is_passed_over(
    upstreams: Seq<Seq<char>>,
    dead: Set<Seq<char>>,
    tried: Seq<bool>,
    i: usize,
    other: int,
)
    requires
        upstreams.len() <= usize::MAX,
        upstreams.len() <= tried.len(),
        i < upstreams.len(),
        0 <= other < upstreams.len(),
        !tried[other],
        !dead.contains(upstreams[other]),
        upstreams[other] != upstreams[i as int],
    ensures
        !candidates(
            upstreams,
            updated(dead, HealthUpdateView::MarkDead(upstreams[i as int])),
            tried,
        ).contains(i),
{
    let after = updated(dead, HealthUpdateView::MarkDead(upstreams[i as int]));
    law_candidates(upstreams, after, tried, i);
}

/// The other of two places drawn: a draw from one place fewer skips the first place drawn.
pub open spec fn other_place(first: int, draw: int) -> int {
    if draw >= first {
        draw + 1
    } else {
        draw
    }
}

/// The less loaded of the candidates at two places; the first where they are equally loaded.
pub open spec fn less_loaded(
    active: Seq<usize>,
    candidates: Seq<usize>,
    first: int,
    second: int,
) -> usize {
    if active[candidates[first] as int] <= active[candidates[second] as int] {
        candidates[first]
    } else {
        candidates[second]
    }
}

/// Every candidate is an upstream.
pub open spec fn are_upstreams(candidates: Seq<usize>, n: nat) -> bool {
    forall|k: int| 0 <= k < candidates.len() ==> (#[trigger] candidates[k]) < n
}

/// The less loaded of two candidates, for two given draws: one of all places, and one of all
/// places but one.
pub fn pick_of_two(
    active_requests: &[usize],
    candidates: &[usize],
    first_draw: usize,
    second_draw: usize,
) -> (chosen: usize)
    requires
        first_draw < candidates@.len(),
        second_draw < candidates@.len() - 1,
        are_upstreams(candidates@, active_requests@.len()),
    ensures
        chosen == less_loaded(
            active_requests@,
            candidates@,
            first_draw as int,
            other_place(first_draw as int, second_draw as int),
        ),
{
    let count: usize = candidates.len();
    assert(second_draw < count);
    let second_pos: usize = if second_draw >= first_draw {
        second_draw + 1
    } else {
        second_draw
    };
    let first_idx: usize = candidates[first_draw];
    let second_idx: usize = candidates[second_pos];
    if active_requests[first_idx] <= active_requests[second_idx] {
        first_idx
    } else {
        second_idx
    }
}

/// `rand::rngs::StdRng`. Proofs see nothing of it.
#[verifier::external_type_specification]
#[verifier::external_body]
pub struct ExStdRng(rand::rngs::StdRng);

/// `from_entropy` of `rand::rngs::StdRng`: a generator with a seed from the operating system.
///
/// It panics where the operating system gives no randomness.
#[verifier::external_body]
fn seeded_generator() -> (rng: rand::rngs::StdRng) {
    rand::SeedableRng::from_entropy()
}

/// `rand::Rng::gen_range` on the numbers below a bound: one of them.
#[verifier::external_body]
fn draw_below(rng: &mut rand::rngs::StdRng, bound: usize) -> (draw: usize)
    requires
        bound > 0,
    ensures
        draw < bound,
{
    rand::Rng::gen_range(rng, 0..bound)
}

/// Two draws of a generator that was seeded for them may come to this: the first among all places,
/// and the second among all places but one.
pub closed spec fn are_drawn(count: usize, first: usize, second: usize) -> bool {
    exists|
        seeded: rand::rngs::StdRng,
        before: &mut rand::rngs::StdRng,
        between: &mut rand::rngs::StdRng,
    |
        {
            &&& #[trigger] call_ensures(seeded_generator, (), seeded)
            &&& *before == seeded
            &&& #[trigger] call_ensures(draw_below, (before, count), first)
            &&& #[trigger] call_ensures(draw_below, (between, (count - 1) as usize), second)
        }
}

/// What the choice by two draws may come to: the only candidate, or else the less loaded of the
/// candidates at the two places that were drawn.
pub open spec fn may_choose(active: Seq<usize>, candidates: Seq<usize>, chosen: usize) -> bool {
    if candidates.len() == 1 {
        chosen == candidates[0]
    } else {
        exists|first: usize, second: usize|
            {
                &&& #[trigger] are_drawn(candidates.len() as usize, first, second)
                &&& first < candidates.len()
                &&& second < candidates.len() - 1
                &&& chosen == less_loaded(
                    active,
                    candidates,
                    first as int,
                    other_place(first as int, second as int),
                )
            }
    }
}

/// The draws are those of a generator seeded for them, the first below the number of places and the
/// second below one fewer, and nothing made of them.
proof fn law_draws_are_those_of_the_generator(count: usize, first: usize, second: usize)
    requires
        count > 1,
    ensures
        are_drawn(count, first, second) <==> exists|
            seeded: rand::rngs::StdRng,
            before: &mut rand::rngs::StdRng,
            between: &mut rand::rngs::StdRng,
        |
            {
                &&& #[trigger] call_ensures(seeded_generator, (), seeded)
                &&& *before == seeded
                &&& #[trigger] call_ensures(draw_below, (before, count), first)
                &&& #[trigger] call_ensures(draw_below, (between, (count - 1) as usize), second)
            },
        are_drawn(count, first, second) ==> first < count && second < count - 1,
{
}

/// Chooses the less loaded of two candidates drawn at random.
pub fn choose_upstream_power_of_two<C>(state: &ProxyState<C>, candidates: &[usize]) -> (chosen:
    usize)
    requires
        candidates@.len() > 0,
        are_upstreams(candidates@, state@.active_requests.len()),
    ensures
        may_choose(state@.active_requests, candidates@, chosen),
        candidates@.contains(chosen),
{
    if candidates.len() == 1 {
        assert(candidates@.contains(candidates@[0]));
        return candidates[0];
    }
    let generator = seeded_generator;
    let draw = draw_below;
    let mut rng = generator();
    let first_draw: usize = draw(&mut rng, candidates.len());
    let second_draw: usize = draw(&mut rng, candidates.len() - 1);
    assert(are_drawn(candidates@.len() as usize, first_draw, second_draw));
    let chosen: usize = pick_of_two(
        state.active_requests.as_slice(),
        candidates,
        first_draw,
        second_draw,
    );
    proof {
        let first = first_draw as int;
        let second = other_place(first, second_draw as int);
        assert(chosen == less_loaded(state@.active_requests, candidates@, first, second));
        assert(candidates@.contains(candidates@[first]));
        assert(candidates@.contains(candidates@[second]));
    }
    chosen
}

/// A choice by two draws is never the most loaded candidate alone: some other candidate has at
/// least as many requests in flight.
pub proof fn law_choice_is_not_the_most_loaded(
    active: Seq<usize>,
    candidates: Seq<usize>,
    chosen: usize,
)
    requires
        candidates.len() > 1,
        may_choose(active, candidates, chosen),
        forall|j: int, k: int|
            0 <= j < k < candidates.len() ==> (#[trigger] candidates[j]) != (
            #[trigger] candidates[k]),
    ensures
        candidates.contains(chosen),
        exists|other: usize| #[trigger]
            candidates.contains(other) && other != chosen && active[chosen as int]
                <= active[other as int],
{
    let (first, second) = choose|first: int, second: int|
        #![trigger less_loaded(active, candidates, first, second)]
        {
            &&& 0 <= first < candidates.len()
            &&& 0 <= second < candidates.len()
            &&& first != second
            &&& chosen == less_loaded(active, candidates, first, second)
        };
    let a = candidates[first];
    let b = candidates[second];
    assert(candidates.contains(a));
    assert(candidates.contains(b));
    assert(a != b);
}

/// The message for an upstream whose name stands for no address.
pub open spec fn unresolved_text(upstream: Seq<char>) -> Seq<char> {
    "upstream "@ + upstream + " did not resolve to any addresses"@
}

/// The address to connect to: the first of those that the name of an upstream stands for.
///
/// A lookup gives its first address, nothing where there is none, or a message where it failed.
pub fn resolve_upstream<A>(upstream: &str, lookup: Result<Option<A>, String>) -> (address: Result<
    A,
    String,
>)
    ensures
        match lookup {
            Ok(Some(first)) => address == Ok::<A, String>(first),
            Ok(None) => address is Err && address->Err_0@ == unresolved_text(upstream@),
            Err(message) => address is Err && address->Err_0@ == message@,
        },
{
    match lookup {
        Ok(Some(first)) => Ok(first),
        Ok(None) => {
            let mut message = "upstream ".to_owned();
            message.append(upstream);
            message.append(" did not resolve to any addresses");
            Err(message)
        },
        Err(message) => Err(message),
    }
}

/// An upstream that is being connected to, and those that were tried so far, it among them.
pub struct ConnectAttempt {
    pub attempted: Vec<bool>,
    pub upstream_idx: usize,
}

/// An upstream that is being connected to, and those that were tried so far, it among them.
pub struct ConnectAttemptView {
    pub attempted: Seq<bool>,
    pub upstream_idx: usize,
}

impl View for ConnectAttempt {
    type V = ConnectAttemptView;

    open spec fn view(&self) -> ConnectAttemptView {
        ConnectAttemptView { attempted: self.attempted@, upstream_idx: self.upstream_idx }
    }
}

/// What came of connecting to an upstream.
pub enum DialOutcome<C> {
    /// The name of the upstream stands for no address, with this message.
    Unresolved(String),
    /// There is a connection.
    Connected(C),
    /// The connection was refused, with this message.
    Failed(String),
    /// It took too long.
    TimedOut,
}

/// What came of connecting to an upstream.
pub enum DialOutcomeView<C> {
    Unresolved(Seq<char>),
    Connected(C),
    Failed(Seq<char>),
    TimedOut,
}

impl<C> View for DialOutcome<C> {
    type V = DialOutcomeView<C>;

    open spec fn view(&self) -> DialOutcomeView<C> {
        match *self {
            DialOutcome::Unresolved(message) => DialOutcomeView::Unresolved(message@),
            DialOutcome::Connected(connection) => DialOutcomeView::Connected(connection),
            DialOutcome::Failed(message) => DialOutcomeView::Failed(message@),
            DialOutcome::TimedOut => DialOutcomeView::TimedOut,
        }
    }
}

/// What to do next to get a connection.
pub enum ConnectStep<C> {
    /// Connect to this upstream.
    Dial(ConnectAttempt),
    /// There is a connection to this upstream.
    Connected(C, usize),
    /// No upstream is left; the last failure had this message.
    Failed(String),
}

/// What to do next to get a connection.
pub enum ConnectStepView<C> {
    Dial(ConnectAttemptView),
    Connected(C, usize),
    Failed(Seq<char>),
}

impl<C> View for ConnectStep<C> {
    type V = ConnectStepView<C>;

    open spec fn view(&self) -> ConnectStepView<C> {
        match *self {
            ConnectStep::Dial(attempt) => ConnectStepView::Dial(attempt@),
            ConnectStep::Connected(connection, idx) => ConnectStepView::Connected(connection, idx),
            ConnectStep::Failed(message) => ConnectStepView::Failed(message@),
        }
    }
}

/// The number of upstreams that were not tried.
pub open spec fn untried_count(tried: Seq<bool>) -> nat
    decreases tried.len(),
{
    if tried.len() == 0 {
        0
    } else if tried.last() {
        untried_count(tried.drop_last())
    } else {
        untried_count(tried.drop_last()) + 1
    }
}

/// Some upstream was not tried.
pub open spec fn some_untried(tried: Seq<bool>) -> bool {
    exists|i: int| 0 <= i < tried.len() && !(#[trigger] tried[i])
}

/// An upstream was chosen: an idle connection to it is used, if there is one.
pub open spec fn chosen_step<C>(
    state: ProxyStateView<C>,
    attempted: Seq<bool>,
    idx: usize,
) -> (ProxyStateView<C>, ConnectStepView<C>) {
    match taken(state, state.upstream_addresses[idx as int]) {
        (left, Some(connection)) => (
            incremented(left, idx as int),
            ConnectStepView::Connected(connection, idx),
        ),
        (left, None) => (
            left,
            ConnectStepView::Dial(
                ConnectAttemptView {
                    attempted: attempted.update(idx as int, true),
                    upstream_idx: idx,
                },
            ),
        ),
    }
}

/// What the search for an upstream may come to: a candidate is chosen by two draws, and where
/// there is none the search ends with the given message.
pub open spec fn search_step<C>(
    state: ProxyStateView<C>,
    attempted: Seq<bool>,
    message: Option<Seq<char>>,
    after: ProxyStateView<C>,
    step: ConnectStepView<C>,
) -> bool {
    let found = candidates(state.upstream_addresses, state.dead_upstreams, attempted);
    if found.len() == 0 {
        after == state && message is Some && step == ConnectStepView::<C>::Failed(message->0)
    } else {
        exists|idx: usize| #[trigger]
            found.contains(idx) && may_choose(state.active_requests, found, idx) && (after, step)
                == chosen_step(state, attempted, idx)
    }
}

/// The message for an upstream that took too long.
pub open spec fn timeout_text(upstream: Seq<char>) -> Seq<char> {
    "Timed out connecting to upstream "@ + upstream
}

/// What connecting to an upstream in vain leads to: the state, and the message of the failure.
pub open spec fn dial_failure<C>(
    state: ProxyStateView<C>,
    upstream: Seq<char>,
    outcome: DialOutcomeView<C>,
) -> (ProxyStateView<C>, Seq<char>) {
    match outcome {
        DialOutcomeView::Unresolved(message) => (state, message),
        DialOutcomeView::Failed(message) => (
            with_update(state, HealthUpdateView::MarkDead(upstream)),
            message,
        ),
        _ => (
            with_update(state, HealthUpdateView::MarkDead(upstream)),
            timeout_text(upstream),
        ),
    }
}

/// What connecting to an upstream may lead to: the connection is counted, or the search goes on.
pub open spec fn continued<C>(
    state: ProxyStateView<C>,
    attempt: ConnectAttemptView,
    outcome: DialOutcomeView<C>,
    after: ProxyStateView<C>,
    step: ConnectStepView<C>,
) -> bool {
    match outcome {
        DialOutcomeView::Connected(connection) => {
            &&& after == incremented(state, attempt.upstream_idx as int)
            &&& step == ConnectStepView::Connected(connection, attempt.upstream_idx)
        },
        failure => {
            let upstream = state.upstream_addresses[attempt.upstream_idx as int];
            let (left, message) = dial_failure(state, upstream, failure);
            search_step(left, attempt.attempted, Some(message), after, step)
        },
    }
}

/// Every upstream has a mark, and the one that is being connected to is marked as tried.
pub open spec fn attempt_well_formed<C>(
    state: ProxyStateView<C>,
    attempt: ConnectAttemptView,
) -> bool {
    &&& attempt.attempted.len() == state.upstream_addresses.len()
    &&& attempt.upstream_idx < attempt.attempted.len()
    &&& attempt.attempted[attempt.upstream_idx as int]
}

/// What holds of every step towards a connection.
pub open spec fn step_well_formed<C>(
    state: ProxyStateView<C>,
    step: ConnectStepView<C>,
) -> bool {
    match step {
        ConnectStepView::Dial(attempt) => attempt_well_formed(state, attempt),
        ConnectStepView::Connected(_, idx) => idx < state.upstream_addresses.len(),
        ConnectStepView::Failed(_) => true,
    }
}

/// Goes on with an upstream that was chosen.
pub fn use_upstream<C>(state: &mut ProxyState<C>, attempted: Vec<bool>, upstream_idx: usize) -> (
    step: ConnectStep<C>)
    requires
        old(state).wf(),
        counts_have_room(old(state)@),
        attempted@.len() == old(state)@.upstream_addresses.len(),
        upstream_idx < attempted@.len(),
    ensures
        (final(state)@, step@) == chosen_step(old(state)@, attempted@, upstream_idx),
        final(state).wf(),
        step_well_formed(final(state)@, step@),
{
    let mut attempted = attempted;
    attempted[upstream_idx] = true;
    let upstream = state.upstream_addresses[upstream_idx].as_str().to_owned();
    assert(upstream@ == state@.upstream_addresses[upstream_idx as int]);
    match state.take_pooled_connection(upstream.as_str()) {
        Some(connection) => {
            state.increment_active_requests(upstream_idx);
            ConnectStep::Connected(connection, upstream_idx)
        },
        None => ConnectStep::Dial(ConnectAttempt { attempted, upstream_idx }),
    }
}

/// Searches on for an upstream.
fn search<C>(state: &mut ProxyState<C>, attempted: Vec<bool>, last_error: Option<String>) -> (step:
    ConnectStep<C>)
    requires
        old(state).wf(),
        counts_have_room(old(state)@),
        attempted@.len() == old(state)@.upstream_addresses.len(),
        last_error is Some || some_untried(attempted@),
    ensures
        search_step(
            old(state)@,
            attempted@,
            match last_error {
                Some(message) => Some(message@),
                None => None,
            },
            final(state)@,
            step@,
        ),
        final(state).wf(),
        step_well_formed(final(state)@, step@),
{
    let found = get_candidate_upstreams(state, attempted.as_slice());
    let count: usize = attempted.len();
    assert(state@.upstream_addresses.len() == count);
    proof {
        lemma_candidates_are_upstreams(
            state@.upstream_addresses,
            state@.dead_upstreams,
            attempted@,
        );
        law_candidates(state@.upstream_addresses, state@.dead_upstreams, attempted@, 0);
    }
    if found.is_empty() {
        return ConnectStep::Failed(last_error.unwrap());
    }
    let upstream_idx: usize = choose_upstream_power_of_two(state, found.as_slice());
    use_upstream(state, attempted, upstream_idx)
}

/// Every candidate is an upstream.
proof fn lemma_candidates_are_upstreams(
    upstreams: Seq<Seq<char>>,
    dead: Set<Seq<char>>,
    tried: Seq<bool>,
)
    requires
        upstreams.len() <= usize::MAX,
    ensures
        are_upstreams(candidates(upstreams, dead, tried), upstreams.len()),
{
    lemma_untried(upstreams, dead, tried, false, upstreams.len());
    lemma_untried(upstreams, dead, tried, true, upstreams.len());
}

/// Starts the search for a connection to an upstream that was not tried.
pub fn connect_to_upstream<C>(state: &mut ProxyState<C>, tried: &[bool]) -> (step: ConnectStep<C>)
    requires
        old(state).wf(),
        counts_have_room(old(state)@),
        tried@.len() == old(state)@.upstream_addresses.len(),
        some_untried(tried@),
    ensures
        search_step(old(state)@, tried@, None, final(state)@, step@),
        final(state).wf(),
        step_well_formed(final(state)@, step@),
{
    search(state, slice_to_vec(tried), None)
}

/// Goes on with what came of connecting to an upstream.
pub fn continue_connecting<C>(
    state: &mut ProxyState<C>,
    attempt: ConnectAttempt,
    outcome: DialOutcome<C>,
) -> (step: ConnectStep<C>)
    requires
        old(state).wf(),
        counts_have_room(old(state)@),
        attempt_well_formed(old(state)@, attempt@),
    ensures
        continued(old(state)@, attempt@, outcome@, final(state)@, step@),
        final(state).wf(),
        step_well_formed(final(state)@, step@),
{
    let upstream_idx: usize = attempt.upstream_idx;
    let upstream = state.upstream_addresses[upstream_idx].as_str().to_owned();
    assert(upstream@ == state@.upstream_addresses[upstream_idx as int]);
    match outcome {
        DialOutcome::Connected(connection) => {
            state.increment_active_requests(upstream_idx);
            ConnectStep::Connected(connection, upstream_idx)
        },
        DialOutcome::Unresolved(message) => search(state, attempt.attempted, Some(message)),
        DialOutcome::Failed(message) => {
            state.mark_upstream_dead(upstream.as_str());
            search(state, attempt.attempted, Some(message))
        },
        DialOutcome::TimedOut => {
            let mut message = "Timed out connecting to upstream ".to_owned();
            message.append(upstream.as_str());
            state.mark_upstream_dead(upstream.as_str());
            search(state, attempt.attempted, Some(message))
        },
    }
}

/// Marking an untried upstream as tried leaves one fewer.
pub proof fn lemma_one_fewer_untried(tried: Seq<bool>, i: int)
    requires
        0 <= i < tried.len(),
        !tried[i],
    ensures
        untried_count(tried.update(i, true)) + 1 == untried_count(tried),
    decreases tried.len(),
{
    let after = tried.update(i, true);
    if i == tried.len() - 1 {
        assert(after.drop_last() =~= tried.drop_last());
    } else {
        lemma_one_fewer_untried(tried.drop_last(), i);
        assert(after.drop_last() =~= tried.drop_last().update(i, true));
    }
}

/// The search for a connection ends: each step ends it, or connects to an upstream that was not
/// tried before, so that one fewer is left. It fails only when every upstream was tried.
pub proof fn law_search_ends<C>(
    state: ProxyStateView<C>,
    attempted: Seq<bool>,
    message: Option<Seq<char>>,
    after: ProxyStateView<C>,
    step: ConnectStepView<C>,
)
    requires
        state.upstream_addresses.len() <= usize::MAX,
        attempted.len() == state.upstream_addresses.len(),
        search_step(state, attempted, message, after, step),
    ensures
        step matches ConnectStepView::Dial(attempt) ==> {
            &&& !attempted[attempt.upstream_idx as int]
            &&& attempt.attempted == attempted.update(attempt.upstream_idx as int, true)
            &&& untried_count(attempt.attempted) + 1 == untried_count(attempted)
        },
        step matches ConnectStepView::Connected(_, idx) ==> !attempted[idx as int],
        step is Failed ==> !some_untried(attempted),
{
    let found = candidates(state.upstream_addresses, state.dead_upstreams, attempted);
    law_candidates(state.upstream_addresses, state.dead_upstreams, attempted, 0);
    if found.len() > 0 {
        let idx = choose|idx: usize| #[trigger]
            found.contains(idx) && may_choose(state.active_requests, found, idx) && (after, step)
                == chosen_step(state, attempted, idx);
        law_candidates(state.upstream_addresses, state.dead_upstreams, attempted, idx);
        lemma_one_fewer_untried(attempted, idx as int);
    }
}

/// The search for a connection changes no count of requests in flight but that of the upstream to
/// which there is a connection at its end, which grows by one.
pub proof fn law_connection_is_counted<C>(
    state: ProxyStateView<C>,
    attempted: Seq<bool>,
    message: Option<Seq<char>>,
    after: ProxyStateView<C>,
    step: ConnectStepView<C>,
)
    requires
        search_step(state, attempted, message, after, step),
    ensures
        after.active_requests == match step {
            ConnectStepView::Connected(_, idx) => incremented(state, idx as int).active_requests,
            _ => state.active_requests,
        },
{
}

/// A search for a connection, from its start: the states and steps that it gets to, and what comes
/// of connecting to the upstream that each step but the last asks for.
pub open spec fn is_search<C>(
    start: ProxyStateView<C>,
    tried: Seq<bool>,
    states: Seq<ProxyStateView<C>>,
    steps: Seq<ConnectStepView<C>>,
    outcomes: Seq<DialOutcomeView<C>>,
) -> bool {
    &&& steps.len() == outcomes.len() + 1
    &&& states.len() == steps.len()
    &&& search_step(start, tried, None, states[0], steps[0])
    &&& forall|i: int|
        0 <= i < outcomes.len() ==> steps[i] is Dial && continued(
            states[i],
            steps[i]->Dial_0,
            #[trigger] outcomes[i],
            states[i + 1],
            steps[i + 1],
        )
}

/// The upstream was connected to in vain.
pub open spec fn dialed_in_vain<C>(
    steps: Seq<ConnectStepView<C>>,
    outcomes: Seq<DialOutcomeView<C>>,
    upstream: int,
) -> bool {
    exists|j: int|
        0 <= j < outcomes.len() && !((#[trigger] outcomes[j]) is Connected) && steps[j] is Dial
            && steps[j]->Dial_0.upstream_idx == upstream
}

/// A search for a connection takes at most one step for each untried upstream. It ends with a
/// connection to one of them, which is counted in flight, or when each of them was connected to in
/// vain, with the counts as they were.
pub proof fn law_search_is_thorough<C>(
    start: ProxyStateView<C>,
    tried: Seq<bool>,
    states: Seq<ProxyStateView<C>>,
    steps: Seq<ConnectStepView<C>>,
    outcomes: Seq<DialOutcomeView<C>>,
)
    requires
        start.upstream_addresses.len() <= usize::MAX,
        tried.len() == start.upstream_addresses.len(),
        is_search(start, tried, states, steps, outcomes),
        !(steps.last() is Dial),
    ensures
        states.last().upstream_addresses == start.upstream_addresses,
        match steps.last() {
            ConnectStepView::Connected(_, idx) => {
                &&& idx < tried.len()
                &&& !tried[idx as int]
                &&& states.last().active_requests == incremented(
                    start,
                    idx as int,
                ).active_requests
            },
            ConnectStepView::Failed(_) => {
                &&& states.last().active_requests == start.active_requests
                &&& forall|i: int|
                    0 <= i < tried.len() && !(#[trigger] tried[i]) ==> dialed_in_vain(
                        steps,
                        outcomes,
                        i,
                    )
            },
            ConnectStepView::Dial(_) => false,
        },
        outcomes.len() <= untried_count(tried),
{
    let k = outcomes.len() - 1;
    if k < 0 {
        lemma_search_step(start, tried, None, states[0], steps[0]);
    } else {
        lemma_search_holds(start, tried, states, steps, outcomes, k);
        let state = states[k];
        let attempt = steps[k]->Dial_0;
        let outcome = outcomes[k];
        assert(continued(state, attempt, outcome, states[k + 1], steps[k + 1]));
        if !(outcome is Connected) {
            let upstream = state.upstream_addresses[attempt.upstream_idx as int];
            let (left, message) = dial_failure(state, upstream, outcome);
            lemma_search_step(left, attempt.attempted, Some(message), states[k + 1], steps[k + 1]);
            if steps[k + 1] is Failed {
                assert forall|i: int| 0 <= i < tried.len() && !(#[trigger] tried[i]) implies
                    dialed_in_vain(steps, outcomes, i) by {
                    assert(attempt.attempted[i]);
                }
            }
        }
    }
}

/// What holds while a search goes on: the counts are as they were, and every upstream that was
/// tried in it, but for the one that is being connected to, was connected to in vain.
spec fn search_holds<C>(
    start: ProxyStateView<C>,
    tried: Seq<bool>,
    state: ProxyStateView<C>,
    steps: Seq<ConnectStepView<C>>,
    outcomes: Seq<DialOutcomeView<C>>,
    k: int,
) -> bool {
    let attempt = steps[k]->Dial_0;
    &&& state.upstream_addresses == start.upstream_addresses
    &&& state.active_requests == start.active_requests
    &&& attempt.attempted.len() == tried.len()
    &&& attempt.upstream_idx < tried.len()
    &&& !tried[attempt.upstream_idx as int]
    &&& forall|i: int|
        0 <= i < tried.len() && (#[trigger] tried[i]) ==> attempt.attempted[i]
    &&& forall|i: int|
        0 <= i < tried.len() && !tried[i] && #[trigger] attempt.attempted[i] ==> i
            == attempt.upstream_idx || dialed_in_vain(steps, outcomes, i)
    &&& untried_count(attempt.attempted) + k + 1 <= untried_count(tried)
}

proof fn lemma_search_holds<C>(
    start: ProxyStateView<C>,
    tried: Seq<bool>,
    states: Seq<ProxyStateView<C>>,
    steps: Seq<ConnectStepView<C>>,
    outcomes: Seq<DialOutcomeView<C>>,
    k: int,
)
    requires
        start.upstream_addresses.len() <= usize::MAX,
        tried.len() == start.upstream_addresses.len(),
        is_search(start, tried, states, steps, outcomes),
        0 <= k < outcomes.len(),
    ensures
        search_holds(start, tried, states[k], steps, outcomes, k),
    decreases k,
{
    assert(continued(states[k], steps[k]->Dial_0, outcomes[k], states[k + 1], steps[k + 1]));
    if k == 0 {
        lemma_search_step(start, tried, None, states[0], steps[0]);
    } else {
        lemma_search_holds(start, tried, states, steps, outcomes, k - 1);
        let state = states[k - 1];
        let before = steps[k - 1]->Dial_0;
        let outcome = outcomes[k - 1];
        assert(continued(state, before, outcome, states[k], steps[k]));
        let upstream = state.upstream_addresses[before.upstream_idx as int];
        let (left, message) = dial_failure(state, upstream, outcome);
        lemma_search_step(left, before.attempted, Some(message), states[k], steps[k]);
        let attempt = steps[k]->Dial_0;
        assert(dialed_in_vain(steps, outcomes, before.upstream_idx as int));
        assert forall|i: int|
            0 <= i < tried.len() && !tried[i] && #[trigger] attempt.attempted[i] implies i
            == attempt.upstream_idx || dialed_in_vain(steps, outcomes, i) by {
            if i != attempt.upstream_idx {
                assert(before.attempted[i]);
            }
        }
        assert forall|i: int| 0 <= i < tried.len() && #[trigger] tried[i] implies
            attempt.attempted[i] by {
            assert(before.attempted[i]);
        }
    }
}

/// One step of a search.
proof fn lemma_search_step<C>(
    state: ProxyStateView<C>,
    attempted: Seq<bool>,
    message: Option<Seq<char>>,
    after: ProxyStateView<C>,
    step: ConnectStepView<C>,
)
    requires
        state.upstream_addresses.len() <= usize::MAX,
        attempted.len() == state.upstream_addresses.len(),
        search_step(state, attempted, message, after, step),
    ensures
        after.upstream_addresses == state.upstream_addresses,
        match step {
            ConnectStepView::Dial(attempt) => {
                &&& attempt.upstream_idx < attempted.len()
                &&& !attempted[attempt.upstream_idx as int]
                &&& attempt.attempted == attempted.update(attempt.upstream_idx as int, true)
                &&& untried_count(attempt.attempted) + 1 == untried_count(attempted)
                &&& after.active_requests == state.active_requests
            },
            ConnectStepView::Connected(_, idx) => {
                &&& idx < attempted.len()
                &&& !attempted[idx as int]
                &&& after.active_requests == incremented(state, idx as int).active_requests
            },
            ConnectStepView::Failed(_) => {
                &&& after.active_requests == state.active_requests
                &&& forall|i: int| 0 <= i < attempted.len() ==> #[trigger] attempted[i]
            },
        },
{
    law_search_ends(state, attempted, message, after, step);
    law_connection_is_counted(state, attempted, message, after, step);
    let found = candidates(state.upstream_addresses, state.dead_upstreams, attempted);
    law_candidates(state.upstream_addresses, state.dead_upstreams, attempted, 0);
    if found.len() > 0 {
        let idx = choose|idx: usize| #[trigger]
            found.contains(idx) && may_choose(state.active_requests, found, idx) && (after, step)
                == chosen_step(state, attempted, idx);
        law_candidates(state.upstream_addresses, state.dead_upstreams, attempted, idx);
    }
}

/// The request that an active health check sends.
pub open spec fn probe(uri: Seq<char>, upstream: Seq<char>) -> RequestView {
    RequestView {
        method: "GET"@,
        uri,
        version: Version::Http11,
        headers: seq![
            ("host"@, seq![encode_utf8(upstream)]),
            ("content-length"@, seq![encode_utf8("0"@)]),
        ],
        body: Seq::empty(),
    }
}

/// The path is a URI and the name of the upstream may stand in a header field.
pub open spec fn can_probe(path: Seq<char>, upstream: Seq<char>) -> bool {
    &&& uri_text(path) is Some
    &&& is_header_value(encode_utf8(upstream))
}

/// The two fields of a health check.
proof fn lemma_probe_fields(host: Seq<u8>)
    ensures
        header_name("Host"@) == Some("host"@),
        header_name("Content-Length"@) == Some("content-length"@),
        is_header_value(encode_utf8("0"@)),
        appended(appended(Seq::empty(), "host"@, host), "content-length"@, encode_utf8("0"@))
            == seq![
            ("host"@, seq![host]),
            ("content-length"@, seq![encode_utf8("0"@)]),
        ],
{
    reveal_strlit("Host");
    reveal_strlit("host");
    reveal_strlit("Content-Length");
    reveal_strlit("content-length");
    reveal_strlit("0");
    assert("Host"@.map_values(|c: char| lower_char(c)) =~= "host"@);
    assert("Content-Length"@.map_values(|c: char| lower_char(c)) =~= "content-length"@);
    assert(is_token("Host"@));
    assert(is_token("Content-Length"@));
    let zero = encode_utf8("0"@);
    assert(is_ascii_chars("0"@));
    is_ascii_chars_encode_utf8("0"@);
    assert("0"@[0] as u8 == zero[0]);
    assert forall|i: int| 0 <= i < zero.len() implies is_value_byte(#[trigger] zero[i]) by {
        assert(i == 0);
    }
    let none: HeaderSeq = Seq::empty();
    assert(!has_name(none, "host"@));
    let one = appended(none, "host"@, host);
    assert(one =~= seq![("host"@, seq![host])]);
    assert("host"@.len() != "content-length"@.len());
    assert(!has_name(one, "content-length"@)) by {
        if has_name(one, "content-length"@) {
            let i = place_of(one, "content-length"@);
            assert(0 <= i < one.len() && one[i].0 == "content-length"@);
        }
    }
    assert(appended(one, "content-length"@, zero) =~= seq![
        ("host"@, seq![host]),
        ("content-length"@, seq![zero]),
    ]);
}

/// The request that an active health check sends, for a URI that was read.
pub fn build_probe(uri: String, upstream: &str) -> (request: Request)
    requires
        is_header_value(encode_utf8(upstream@)),
    ensures
        request@ == probe(uri@, upstream@),
        well_formed(request@.headers),
{
    proof {
        lemma_probe_fields(encode_utf8(upstream@));
    }
    let mut headers = Headers::new();
    headers.append("Host", upstream.as_bytes());
    headers.append("Content-Length", "0".as_bytes());
    let request = Request {
        method: "GET".to_owned(),
        uri,
        version: Version::Http11,
        headers,
        body: Vec::new(),
    };
    assert(request@.body =~= Seq::empty());
    request
}

/// How far a round of active health checks has got.
#[derive(Clone, Copy)]
pub enum HealthCheck {
    /// This upstream is being connected to.
    Dialing(usize),
    /// This upstream was sent a request.
    Probing(usize),
}

/// What came of the last thing that a round of active health checks asked for.
#[derive(Clone, Copy)]
pub enum HealthEvent {
    /// There is no connection to the upstream.
    NotConnected,
    /// There is a connection to the upstream.
    Connected,
    /// The upstream answered with this status code.
    Answered(u16),
    /// The upstream did not answer.
    NotAnswered,
}

/// What a round of active health checks asks for next.
pub enum HealthStep {
    /// Connect to this upstream.
    Dial(usize),
    /// Send this request to this upstream.
    Probe(usize, Request),
    /// The round is over.
    Done,
}

/// What a round of active health checks asks for next.
pub enum HealthStepView {
    Dial(usize),
    Probe(usize, RequestView),
    Done,
}

impl View for HealthStep {
    type V = HealthStepView;

    open spec fn view(&self) -> HealthStepView {
        match *self {
            HealthStep::Dial(idx) => HealthStepView::Dial(idx),
            HealthStep::Probe(idx, request) => HealthStepView::Probe(idx, request@),
            HealthStep::Done => HealthStepView::Done,
        }
    }
}

/// An upstream is healthy if it answers, and with a status code that tells of no error.
pub open spec fn is_healthy(event: HealthEvent) -> bool {
    match event {
        HealthEvent::Answered(status) => status < 400,
        _ => false,
    }
}

/// What is reported of an upstream that was checked.
pub open spec fn verdict(upstream: Seq<char>, healthy: bool) -> HealthUpdateView {
    if healthy {
        HealthUpdateView::MarkAlive(upstream)
    } else {
        HealthUpdateView::MarkDead(upstream)
    }
}

/// The check of an upstream begins, if there are as many.
pub open spec fn check_from(count: nat, idx: int) -> HealthStepView {
    if idx < count {
        HealthStepView::Dial(idx as usize)
    } else {
        HealthStepView::Done
    }
}

/// Where a round of active health checks gets to with one more event.
pub open spec fn health_step<C>(
    state: ProxyStateView<C>,
    check: HealthCheck,
    event: HealthEvent,
) -> (ProxyStateView<C>, HealthStepView) {
    match (check, event) {
        (HealthCheck::Dialing(idx), HealthEvent::Connected) => (
            state,
            HealthStepView::Probe(
                idx,
                probe(
                    uri_text(state.active_health_check_path)->0,
                    state.upstream_addresses[idx as int],
                ),
            ),
        ),
        (HealthCheck::Dialing(idx), _) | (HealthCheck::Probing(idx), _) => (
            with_update(
                state,
                verdict(state.upstream_addresses[idx as int], is_healthy(event)),
            ),
            check_from(state.upstream_addresses.len(), idx + 1),
        ),
    }
}

/// The upstream that is being checked.
pub open spec fn checked_upstream(check: HealthCheck) -> usize {
    match check {
        HealthCheck::Dialing(idx) => idx,
        HealthCheck::Probing(idx) => idx,
    }
}

/// What may come of a connection attempt, and of a request.
pub open spec fn health_event_fits(check: HealthCheck, event: HealthEvent) -> bool {
    match check {
        HealthCheck::Dialing(_) => event is Connected || event is NotConnected,
        HealthCheck::Probing(_) => event is Answered || event is NotAnswered,
    }
}

/// If a request is to be sent next, it can be made.
pub open spec fn health_event_is_probeable<C>(
    state: ProxyStateView<C>,
    check: HealthCheck,
    event: HealthEvent,
) -> bool {
    check is Dialing && event is Connected ==> can_probe(
        state.active_health_check_path,
        state.upstream_addresses[checked_upstream(check) as int],
    )
}

/// Begins a round of active health checks.
pub fn start_health_checks<C>(state: &ProxyState<C>) -> (step: HealthStep)
    ensures
        step@ == check_from(state@.upstream_addresses.len(), 0),
{
    if state.upstream_addresses.len() > 0 {
        HealthStep::Dial(0)
    } else {
        HealthStep::Done
    }
}

/// Reports on an upstream and goes on to the next one.
fn finish_check<C>(state: &mut ProxyState<C>, idx: usize, healthy: bool) -> (step: HealthStep)
    requires
        old(state).wf(),
        idx < old(state)@.upstream_addresses.len(),
    ensures
        final(state)@ == with_update(
            old(state)@,
            verdict(old(state)@.upstream_addresses[idx as int], healthy),
        ),
        step@ == check_from(old(state)@.upstream_addresses.len(), idx + 1),
        final(state).wf(),
{
    let count: usize = state.upstream_addresses.len();
    let upstream = state.upstream_addresses[idx].as_str().to_owned();
    assert(upstream@ == state@.upstream_addresses[idx as int]);
    if healthy {
        state.mark_upstream_alive(upstream.as_str());
    } else {
        state.mark_upstream_dead(upstream.as_str());
    }
    if idx + 1 < count {
        HealthStep::Dial(idx + 1)
    } else {
        HealthStep::Done
    }
}

/// Goes on with a round of active health checks: each upstream is connected to and sent a request,
/// and what came of it is reported.
pub fn run_active_health_checks<C>(
    state: &mut ProxyState<C>,
    check: HealthCheck,
    event: HealthEvent,
) -> (step: HealthStep)
    requires
        old(state).wf(),
        checked_upstream(check) < old(state)@.upstream_addresses.len(),
        health_event_fits(check, event),
        health_event_is_probeable(old(state)@, check, event),
    ensures
        (final(state)@, step@) == health_step(old(state)@, check, event),
        step@ matches HealthStepView::Probe(_, request) ==> is_target(
            old(state)@.active_health_check_path,
        ) ==> request.uri == old(state)@.active_health_check_path,
        final(state).wf(),
{
    match check {
        HealthCheck::Dialing(idx) => match event {
            HealthEvent::Connected => {
                let uri = parse_uri(state.active_health_check_path.as_str()).unwrap();
                let upstream = state.upstream_addresses[idx].as_str();
                assert(upstream@ == state@.upstream_addresses[idx as int]);
                HealthStep::Probe(idx, build_probe(uri, upstream))
            },
            _ => finish_check(state, idx, false),
        },
        HealthCheck::Probing(idx) => {
            let healthy = match event {
                HealthEvent::Answered(status) => status < 400,
                _ => false,
            };
            finish_check(state, idx, healthy)
        },
    }
}

/// Goes on with a round of active health checks, or gives nothing where the request that is to be
/// sent cannot be made.
pub fn try_run_active_health_checks<C>(
    state: &mut ProxyState<C>,
    check: HealthCheck,
    event: HealthEvent,
) -> (step: Option<HealthStep>)
    requires
        old(state).wf(),
        checked_upstream(check) < old(state)@.upstream_addresses.len(),
        health_event_fits(check, event),
    ensures
        step is Some <==> health_event_is_probeable(old(state)@, check, event),
        match step {
            Some(next) => (final(state)@, next@) == health_step(old(state)@, check, event),
            None => final(state)@ == old(state)@,
        },
        is_target(old(state)@.active_health_check_path) && is_header_value(
            encode_utf8(old(state)@.upstream_addresses[checked_upstream(check) as int]),
        ) ==> step is Some,
        step matches Some(HealthStep::Probe(_, request)) ==> is_target(
            old(state)@.active_health_check_path,
        ) ==> request@.uri == old(state)@.active_health_check_path,
        final(state).wf(),
{
    let probeable = match (check, event) {
        (HealthCheck::Dialing(idx), HealthEvent::Connected) => {
            let upstream = state.upstream_addresses[idx].as_str();
            assert(upstream@ == state@.upstream_addresses[idx as int]);
            parse_uri(state.active_health_check_path.as_str()).is_some() && accepts_value(
                upstream.as_bytes(),
            )
        },
        _ => true,
    };
    if probeable {
        Some(run_active_health_checks(state, check, event))
    } else {
        None
    }
}

/// What came of checking an upstream, from connecting to its answer.
pub enum CheckOutcome {
    NotConnected,
    NotAnswered,
    Answered(u16),
}

/// An upstream that was checked is healthy.
pub open spec fn outcome_is_healthy(outcome: CheckOutcome) -> bool {
    match outcome {
        CheckOutcome::Answered(status) => status < 400,
        _ => false,
    }
}

/// Where a round of active health checks gets to with the check of one upstream.
pub open spec fn after_check<C>(
    state: ProxyStateView<C>,
    idx: usize,
    outcome: CheckOutcome,
) -> (ProxyStateView<C>, HealthStepView) {
    match outcome {
        CheckOutcome::NotConnected => health_step(
            state,
            HealthCheck::Dialing(idx),
            HealthEvent::NotConnected,
        ),
        CheckOutcome::NotAnswered => health_step(
            health_step(state, HealthCheck::Dialing(idx), HealthEvent::Connected).0,
            HealthCheck::Probing(idx),
            HealthEvent::NotAnswered,
        ),
        CheckOutcome::Answered(status) => health_step(
            health_step(state, HealthCheck::Dialing(idx), HealthEvent::Connected).0,
            HealthCheck::Probing(idx),
            HealthEvent::Answered(status),
        ),
    }
}

/// Where a round of active health checks that has got to a step ends, with what comes of checking
/// each upstream from there on.
pub open spec fn after_round<C>(
    state: ProxyStateView<C>,
    step: HealthStepView,
    outcomes: Seq<CheckOutcome>,
) -> (ProxyStateView<C>, HealthStepView)
    decreases outcomes.len(),
{
    match step {
        HealthStepView::Dial(idx) => if outcomes.len() == 0 {
            (state, step)
        } else {
            let (after, next) = after_check(state, idx, outcomes[0]);
            after_round(after, next, outcomes.drop_first())
        },
        _ => (state, step),
    }
}

/// The reports on the upstreams from one on, in their order.
pub open spec fn verdicts(
    upstreams: Seq<Seq<char>>,
    from: int,
    outcomes: Seq<CheckOutcome>,
) -> Seq<HealthUpdateView> {
    Seq::new(
        outcomes.len(),
        |k: int| verdict(upstreams[from + k], outcome_is_healthy(outcomes[k])),
    )
}

/// A round of active health checks reports once on every upstream, in their order, and changes
/// nothing else: alive where it answered with a status code below 400, dead where it did not
/// answer, answered with an error, or could not be connected to.
pub proof fn law_round_reports_on_every_upstream<C>(
    state: ProxyStateView<C>,
    outcomes: Seq<CheckOutcome>,
)
    requires
        state.upstream_addresses.len() <= usize::MAX,
        outcomes.len() == state.upstream_addresses.len(),
    ensures
        after_round(state, check_from(state.upstream_addresses.len(), 0), outcomes) == (
            ProxyStateView {
                health_updates: state.health_updates + verdicts(
                    state.upstream_addresses,
                    0,
                    outcomes,
                ),
                ..state
            },
            HealthStepView::Done,
        ),
{
    lemma_round_from(state, 0, outcomes);
}

proof fn lemma_round_from<C>(state: ProxyStateView<C>, from: int, outcomes: Seq<CheckOutcome>)
    requires
        0 <= from,
        state.upstream_addresses.len() <= usize::MAX,
        from + outcomes.len() == state.upstream_addresses.len(),
    ensures
        after_round(state, check_from(state.upstream_addresses.len(), from), outcomes) == (
            ProxyStateView {
                health_updates: state.health_updates + verdicts(
                    state.upstream_addresses,
                    from,
                    outcomes,
                ),
                ..state
            },
            HealthStepView::Done,
        ),
    decreases outcomes.len(),
{
    let upstreams = state.upstream_addresses;
    if outcomes.len() == 0 {
        assert(state.health_updates + verdicts(upstreams, from, outcomes)
            =~= state.health_updates);
    } else {
        let rest = outcomes.drop_first();
        let (after, next) = after_check(state, from as usize, outcomes[0]);
        let first = verdict(upstreams[from], outcome_is_healthy(outcomes[0]));
        assert(after == with_update(state, first));
        assert(next == check_from(upstreams.len(), from + 1));
        lemma_round_from(after, from + 1, rest);
        assert(verdicts(upstreams, from, outcomes) =~= seq![first] + verdicts(
            upstreams,
            from + 1,
            rest,
        )) by {
            assert forall|k: int| 0 <= k < rest.len() implies verdicts(upstreams, from, outcomes)[k
                + 1] == #[trigger] verdicts(upstreams, from + 1, rest)[k] by {
                assert(rest[k] == outcomes[k + 1]);
            }
        }
        assert(state.health_updates.push(first) + verdicts(upstreams, from + 1, rest)
            =~= state.health_updates + verdicts(upstreams, from, outcomes));
    }
}

/// Of two candidates the one with fewer requests in flight is taken, and the first where they have
/// as many.
pub proof fn law_fewer_requests_win(
    active: Seq<usize>,
    candidates: Seq<usize>,
    first: int,
    second: int,
)
    ensures
        ({
            let a = candidates[first];
            let b = candidates[second];
            &&& active[a as int] < active[b as int] ==> less_loaded(
                active,
                candidates,
                first,
                second,
            ) == a
            &&& active[a as int] > active[b as int] ==> less_loaded(
                active,
                candidates,
                first,
                second,
            ) == b
            &&& active[a as int] == active[b as int] ==> less_loaded(
                active,
                candidates,
                first,
                second,
            ) == a
        }),
{
}

/// The two places drawn are different, and any two different places are those of some draws: for
/// every pair of candidates the draws may come to comparing just them.
pub proof fn law_any_two_candidates_may_be_compared(count: usize, a: int, b: int)
    requires
        0 <= a < count,
        0 <= b < count,
        a != b,
    ensures
        exists|draw: int| 0 <= draw < count - 1 && #[trigger] other_place(a, draw) == b,
        forall|first: int, draw: int|
            0 <= first < count && 0 <= draw < count - 1 ==> {
                let other = #[trigger] other_place(first, draw);
                0 <= other < count && other != first
            },
        forall|first: int, d: int, e: int|
            0 <= first < count && 0 <= d < e < count - 1 ==> #[trigger] other_place(first, d)
                != #[trigger] other_place(first, e),
{
    let draw = if b < a {
        b
    } else {
        b - 1
    };
    assert(other_place(a, draw) == b);
}

/// The choice is by the draws alone: among more than one candidate, what may be chosen is just the
/// less loaded of the candidates at the place of a first draw among all of them and at the other
/// place of a second draw among one fewer, for whatever these draws come to.
pub proof fn law_draws_decide(active: Seq<usize>, candidates: Seq<usize>, chosen: usize)
    requires
        1 < candidates.len() <= usize::MAX,
    ensures
        may_choose(active, candidates, chosen) <==> exists|first: usize, second: usize|
            {
                let a = candidates[first as int];
                let b = candidates[if second >= first {
                    second + 1
                } else {
                    second as int
                }];
                &&& #[trigger] are_drawn(candidates.len() as usize, first, second)
                &&& chosen == if active[a as int] <= active[b as int] {
                    a
                } else {
                    b
                }
            },
{
    let count = candidates.len() as usize;
    assert forall|first: usize, second: usize| #[trigger]
        are_drawn(count, first, second) implies first < count && second < count - 1 by {
        law_draws_are_those_of_the_generator(count, first, second);
    }
    if exists|first: usize, second: usize|
        {
            let a = candidates[first as int];
            let b = candidates[if second >= first {
                second + 1
            } else {
                second as int
            }];
            &&& #[trigger] are_drawn(count, first, second)
            &&& chosen == if active[a as int] <= active[b as int] {
                a
            } else {
                b
            }
        } {
        let (first, second) = choose|first: usize, second: usize|
            {
                let a = candidates[first as int];
                let b = candidates[if second >= first {
                    second + 1
                } else {
                    second as int
                }];
                &&& #[trigger] are_drawn(count, first, second)
                &&& chosen == if active[a as int] <= active[b as int] {
                    a
                } else {
                    b
                }
            };
        assert(chosen == less_loaded(
            active,
            candidates,
            first as int,
            other_place(first as int, second as int),
        ));
    }
}

/// An upstream that was chosen is used over the idle connection that was last returned, which then
/// counts as in flight; where it has none, it is connected to, and the state stays as it is. Either
/// way no other upstream is concerned.
pub proof fn law_idle_connections_come_first<C>(
    state: ProxyStateView<C>,
    attempted: Seq<bool>,
    idx: usize,
)
    requires
        0 <= idx < state.upstream_addresses.len(),
        attempted.len() == state.upstream_addresses.len(),
        state.active_requests.len() == state.upstream_addresses.len(),
        state.active_requests[idx as int] < usize::MAX,
    ensures
        ({
            let waiting = idle(state, state.upstream_addresses[idx as int]);
            let (after, step) = chosen_step(state, attempted, idx);
            if waiting.len() > 0 {
                &&& step == ConnectStepView::Connected(waiting.last(), idx)
                &&& idle(after, state.upstream_addresses[idx as int]) == waiting.drop_last()
                &&& after.active_requests[idx as int] == state.active_requests[idx as int] + 1
                &&& after.health_updates == state.health_updates
            } else {
                &&& after == state
                &&& step matches ConnectStepView::Dial(attempt) && attempt.upstream_idx == idx
                    && attempt.attempted == attempted.update(idx as int, true)
            }
        }),
{
}

/// An upstream that refuses a connection or takes too long is reported as dead; one whose name
/// stands for no address is not. Nothing else of the state changes, and the failure is told.
pub proof fn law_failed_connection_is_reported<C>(
    state: ProxyStateView<C>,
    upstream: Seq<char>,
    message: Seq<char>,
)
    ensures
        dial_failure(state, upstream, DialOutcomeView::Unresolved(message)) == (state, message),
        ({
            let (after, told) = dial_failure(state, upstream, DialOutcomeView::Failed(message));
            &&& told == message
            &&& after == (ProxyStateView {
                health_updates: state.health_updates.push(HealthUpdateView::MarkDead(upstream)),
                ..state
            })
        }),
        ({
            let (after, told) = dial_failure(state, upstream, DialOutcomeView::TimedOut);
            &&& told == "Timed out connecting to upstream "@ + upstream
            &&& after == (ProxyStateView {
                health_updates: state.health_updates.push(HealthUpdateView::MarkDead(upstream)),
                ..state
            })
        }),
{
}

/// A health check asks with a `GET` without a body for the path, names the upstream as the host,
/// and has a length of zero.
pub proof fn law_probe_asks_for_the_path(uri: Seq<char>, upstream: Seq<char>)
    ensures
        probe(uri, upstream).method == "GET"@,
        probe(uri, upstream).uri == uri,
        probe(uri, upstream).version == Version::Http11,
        probe(uri, upstream).body.len() == 0,
        probe(uri, upstream).headers.len() == 2,
        probe(uri, upstream).headers[0] == ("host"@, seq![encode_utf8(upstream)]),
        probe(uri, upstream).headers[1] == ("content-length"@, seq![encode_utf8("0"@)]),
{
}

/// A check of an upstream ends with one report on it and the check of the next upstream, or the end
/// of the round: alive if and only if it answered with a status code below 400. Where there is a
/// connection, the upstream is sent a request first, and nothing is reported yet.
pub proof fn law_check_reports_by_status<C>(
    state: ProxyStateView<C>,
    idx: usize,
    status: u16,
)
    requires
        idx < state.upstream_addresses.len() <= usize::MAX,
    ensures
        ({
            let upstream = state.upstream_addresses[idx as int];
            let next = if idx + 1 < state.upstream_addresses.len() {
                HealthStepView::Dial((idx + 1) as usize)
            } else {
                HealthStepView::Done
            };
            let dead = ProxyStateView {
                health_updates: state.health_updates.push(HealthUpdateView::MarkDead(upstream)),
                ..state
            };
            let alive = ProxyStateView {
                health_updates: state.health_updates.push(HealthUpdateView::MarkAlive(upstream)),
                ..state
            };
            let dialing = HealthCheck::Dialing(idx);
            let probing = HealthCheck::Probing(idx);
            &&& health_step(state, dialing, HealthEvent::NotConnected) == (dead, next)
            &&& health_step(state, probing, HealthEvent::NotAnswered) == (dead, next)
            &&& status < 400 ==> health_step(state, probing, HealthEvent::Answered(status)) == (
                alive,
                next,
            )
            &&& status >= 400 ==> health_step(state, probing, HealthEvent::Answered(status)) == (
                dead,
                next,
            )
            &&& health_step(state, dialing, HealthEvent::Connected).0 == state
            &&& health_step(state, dialing, HealthEvent::Connected).1
                matches HealthStepView::Probe(asked, request) && asked == idx
                && request.headers[0].1[0] == encode_utf8(upstream) && (uri_text(
                state.active_health_check_path,
            ) matches Some(uri) ==> request.uri == uri)
        }),
{
}

/// A round of active health checks begins with the first upstream, if there is one.
pub proof fn law_round_begins_with_the_first(count: nat)
    ensures
        count > 0 ==> check_from(count, 0) == HealthStepView::Dial(0),
        count == 0 ==> check_from(count, 0) is Done,
{
}

/// The report of a round on each upstream goes by what its check came to: alive if and only if it
/// answered with a status code below 400.
pub proof fn law_round_goes_by_status<C>(
    state: ProxyStateView<C>,
    outcomes: Seq<CheckOutcome>,
    k: int,
)
    requires
        state.upstream_addresses.len() <= usize::MAX,
        outcomes.len() == state.upstream_addresses.len(),
        0 <= k < outcomes.len(),
    ensures
        ({
            let count = state.upstream_addresses.len();
            let (after, step) = after_round(state, check_from(count, 0), outcomes);
            let upstream = state.upstream_addresses[k];
            let report = after.health_updates[state.health_updates.len() + k];
            &&& step is Done
            &&& after.health_updates.len() == state.health_updates.len() + count
            &&& outcomes[k] is NotConnected ==> report == HealthUpdateView::MarkDead(upstream)
            &&& outcomes[k] is NotAnswered ==> report == HealthUpdateView::MarkDead(upstream)
            &&& outcomes[k] matches CheckOutcome::Answered(status) ==> report == if status < 400 {
                HealthUpdateView::MarkAlive(upstream)
            } else {
                HealthUpdateView::MarkDead(upstream)
            }
        }),
{
    law_round_reports_on_every_upstream(state, outcomes);
}

/// A name that stands for no address is named in the failure.
pub proof fn law_unresolved_upstream_is_named(upstream: Seq<char>)
    ensures
        unresolved_text(upstream) == "upstream "@ + upstream
            + " did not resolve to any addresses"@,
{
}

} // verus!
