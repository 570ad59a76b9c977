//! One request and the providers that are asked for it, one after another.
//!
//! The request is sent, and what came of it is told to `Exchange::advance`, which
//! says what to do next: send it once more, hand the answer on, or give up.

use crate::state::{
    counted, first_named, lemma_behind_current_reaches, skipped_providers_are_not_asked,
    skipping_is_for_good, steps_change_one_thing, the_first_of_a_name_is_found, AppState,
    AppStateView, ProviderView,
};
use vstd::prelude::*;

verus! {

/// The way on which a request came in.
#[derive(Debug, Clone, Copy, PartialEq, Eq, Structural)]
pub enum Route {
    OpenAi,
    Anthropic,
    CatchAll,
}

/// What came of a request that was sent.
#[derive(Debug, Clone, Copy, PartialEq, Eq, Structural)]
pub enum Event {
    /// No answer within the time allowed.
    TimedOut,
    /// The request could not be sent, or the answer broke off.
    SendFailed,
    /// An answer with this status.
    Answered(u16),
    /// The answer was good, but its body could not be read.
    BodyUnreadable,
}

/// What to do next.
#[derive(Debug, Clone, Copy, PartialEq, Eq, Structural)]
pub enum Action {
    /// Send the request to the provider of the exchange.
    Send,
    /// Hand the answer on.
    Deliver,
    /// Answer that all providers failed.
    GiveUp,
}

/// A request on its way.
#[derive(Debug, Clone, Copy, PartialEq, Eq, Structural)]
pub struct Exchange {
    pub route: Route,
    /// How many providers have failed.
    pub attempt: usize,
    /// How many may be tried.
    pub max_retries: usize,
    /// The position of the provider that is asked.
    pub provider: usize,
    /// Whether there is a body that bears cache marks.
    pub has_cached_body: bool,
    /// Whether that body is sent.
    pub with_cache: bool,
}

/// Whether an answer with that status is handed on.
pub open spec fn is_good(route: Route, status: u16) -> bool {
    200 <= status < 300 || (route == Route::CatchAll && 300 <= status < 400)
}

/// The state after a failure of that provider is counted; the next provider
/// becomes current unless no further one may be tried.
pub open spec fn failure_counted(
    state: AppStateView,
    provider: int,
    may_retry: bool,
) -> AppStateView {
    let noted = state.error_counted().failure_recorded(state.providers[provider].name);
    if may_retry {
        noted.rotated()
    } else {
        noted
    }
}

impl Exchange {
    /// An exchange at its start: as many providers may be tried as there are.
    pub open spec fn fresh(state: AppStateView, route: Route, has_cached_body: bool) -> Exchange {
        Exchange {
            route,
            attempt: 0,
            max_retries: state.providers.len() as usize,
            provider: 0,
            has_cached_body,
            with_cache: false,
        }
    }

    /// The provider exists, and may be tried.
    pub open spec fn well_formed(self, state: AppStateView) -> bool {
        &&& self.attempt < self.max_retries
        &&& self.provider < state.providers.len()
        &&& self.with_cache ==> self.has_cached_body
    }

    /// The exchange after the next provider is chosen, and whether one was.
    pub open spec fn chosen(self, state: AppStateView) -> (Exchange, Action) {
        match state.next_available() {
            Some(i) => if self.attempt < self.max_retries {
                (
                    Exchange {
                        provider: i as usize,
                        with_cache: self.has_cached_body,
                        ..self
                    },
                    Action::Send,
                )
            } else {
                (self, Action::GiveUp)
            },
            None => (self, Action::GiveUp),
        }
    }

    /// Whether the provider refuses the cache marks, and the body without them is
    /// to be tried.
    pub open spec fn refuses_cache(self, event: Event) -> bool {
        self.route == Route::Anthropic && self.with_cache && event == Event::Answered(400)
    }

    /// The state after a failure, which is counted once, whatever it was. A provider
    /// to which the body was too large is skipped for good.
    pub open spec fn state_after_failure(self, state: AppStateView, event: Event) -> AppStateView {
        let provider = self.provider as int;
        let may_retry = self.attempt + 1 < self.max_retries;
        let kept = if event == Event::Answered(413) {
            state.skipping(state.providers[provider].name)
        } else {
            state
        };
        failure_counted(kept, provider, may_retry)
    }

    /// What follows an event: the state, the exchange, and what to do.
    pub open spec fn advanced(self, state: AppStateView, event: Event) -> (
        AppStateView,
        Exchange,
        Action,
    ) {
        if event matches Event::Answered(status) && is_good(self.route, status) {
            (state, self, Action::Deliver)
        } else if self.refuses_cache(event) {
            (state, Exchange { with_cache: false, ..self }, Action::Send)
        } else {
            let after = self.state_after_failure(state, event);
            let next = Exchange { attempt: (self.attempt + 1) as usize, ..self }.chosen(after);
            (after, next.0, next.1)
        }
    }
}

fn good(route: Route, status: u16) -> (r: bool)
    ensures
        r == is_good(route, status),
{
    (200 <= status && status < 300) || (route == Route::CatchAll && 300 <= status && status < 400)
}

/// Counts a failure of that provider; the next becomes current unless no further
/// one may be tried.
fn count_failure(state: &mut AppState, provider: usize, may_retry: bool)
    requires
        old(state)@.well_formed(),
        provider < old(state)@.providers.len(),
    ensures
        final(state)@ == failure_counted(old(state)@, provider as int, may_retry),
        final(state)@.well_formed(),
        final(state)@.providers == old(state)@.providers,
{
    let name: String = state.providers[provider].name.clone();
    state.count_error();
    state.record_failure(name.as_str());
    if may_retry {
        state.rotate_provider();
    }
}

impl Exchange {
    /// Chooses the next provider, where one is left that may be tried.
    fn choose_provider(&mut self, state: &AppState) -> (r: Action)
        ensures
            (*final(self), r) == old(self).chosen(state@),
            r == Action::Send ==> final(self).provider < state@.providers.len(),
    {
        if self.attempt < self.max_retries {
            match state.next_available_index() {
                Some(i) => {
                    self.provider = i;
                    self.with_cache = self.has_cached_body;
                    Action::Send
                },
                None => Action::GiveUp,
            }
        } else {
            Action::GiveUp
        }
    }

    /// Begins an exchange: as many providers may be tried as there are.
    pub fn begin(state: &AppState, route: Route, has_cached_body: bool) -> (r: (Exchange, Action))
        ensures
            r == Exchange::fresh(state@, route, has_cached_body).chosen(state@),
            r.1 == Action::Send ==> r.0.well_formed(state@),
    {
        let mut exchange: Exchange = Exchange {
            route,
            attempt: 0,
            max_retries: state.providers.len(),
            provider: 0,
            has_cached_body,
            with_cache: false,
        };
        let action: Action = exchange.choose_provider(state);
        (exchange, action)
    }

    /// Takes in what came of the request, and says what to do next.
    pub fn advance(&mut self, state: &mut AppState, event: Event) -> (r: Action)
        requires
            old(state)@.well_formed(),
            old(self).well_formed(old(state)@),
        ensures
            (final(state)@, *final(self), r) == old(self).advanced(old(state)@, event),
            final(state)@.well_formed(),
            final(state)@.providers == old(state)@.providers,
            r != Action::GiveUp ==> final(self).well_formed(final(state)@),
    {
        match event {
            Event::Answered(status) => {
                if good(self.route, status) {
                    return Action::Deliver;
                }
                if self.route == Route::Anthropic && self.with_cache && status == 400 {
                    self.with_cache = false;
                    return Action::Send;
                }
                if status == 413 {
                    let name: String = state.providers[self.provider].name.clone();
                    state.skip_provider_permanently(name.as_str());
                }
            },
            _ => {},
        }
        let may_retry: bool = self.attempt < self.max_retries - 1;
        count_failure(state, self.provider, may_retry);
        self.attempt += 1;
        self.choose_provider(state)
    }
}

impl Exchange {
    /// How often the request may still be sent, at most.
    pub open spec fn sends_left(self) -> int {
        2 * (self.max_retries - self.attempt) - if self.with_cache {
            0int
        } else {
            1int
        }
    }
}

/// An exchange ends: each time the request is sent again it may be sent less often
/// than before, and where no body bears cache marks each provider that failed is
/// one less to try.
pub proof fn exchanges_end(exchange: Exchange, state: AppStateView, event: Event)
    requires
        state.well_formed(),
        exchange.well_formed(state),
    ensures
        exchange.sends_left() >= 1,
        ({
            let (_, next, action) = exchange.advanced(state, event);
            &&& action == Action::Send ==> 1 <= next.sends_left() < exchange.sends_left()
            &&& action == Action::Send && !exchange.has_cached_body ==> next.attempt
                == exchange.attempt + 1 && next.attempt < next.max_retries
            &&& next.max_retries == exchange.max_retries
        }),
{
}

/// A request is given up only when as many providers have failed as may be tried,
/// or all are skipped.
pub proof fn giving_up_is_the_last_resort(exchange: Exchange, state: AppStateView, event: Event)
    requires
        state.well_formed(),
        exchange.well_formed(state),
    ensures
        ({
            let (after, next, action) = exchange.advanced(state, event);
            action == Action::GiveUp ==> next.attempt == next.max_retries || forall|p: int|
                0 <= p < after.providers.len() ==> #[trigger] after.is_skipped(p)
        }),
{
    let after = exchange.advanced(state, event).0;
    lemma_state_after_failure(exchange, state, event);
    if after.well_formed() {
        skipped_providers_are_not_asked(after);
    }
}

/// A good answer is handed on, and leaves the state as it is.
pub proof fn good_answers_are_delivered(exchange: Exchange, state: AppStateView, status: u16)
    requires
        is_good(exchange.route, status),
    ensures
        exchange.advanced(state, Event::Answered(status)) == (state, exchange, Action::Deliver),
{
}

/// A provider that refuses the cache marks is asked once more, without them, and
/// nothing is counted against it.
pub proof fn refused_cache_marks_are_left_out(exchange: Exchange, state: AppStateView)
    requires
        exchange.well_formed(state),
        exchange.route == Route::Anthropic,
        exchange.with_cache,
    ensures
        ({
            let (after, next, action) = exchange.advanced(state, Event::Answered(400));
            &&& action == Action::Send
            &&& after == state
            &&& next.provider == exchange.provider
            &&& !next.with_cache
            &&& next.attempt == exchange.attempt
        }),
{
}

/// The sum of some counts.
pub open spec fn total(counts: Seq<usize>) -> int
    decreases counts.len(),
{
    if counts.len() == 0 {
        0
    } else {
        total(counts.drop_last()) + counts.last()
    }
}

proof fn lemma_total_update(counts: Seq<usize>, i: int, n: usize)
    requires
        0 <= i < counts.len(),
    ensures
        total(counts.update(i, n)) == total(counts) - counts[i] + n,
    decreases counts.len(),
{
    let after = counts.update(i, n);
    if i < counts.len() - 1 {
        lemma_total_update(counts.drop_last(), i, n);
        assert(after.drop_last() =~= counts.drop_last().update(i, n));
    } else {
        assert(after.drop_last() =~= counts.drop_last());
    }
}

/// A name from the list is found in the list.
proof fn lemma_named_is_found(providers: Seq<ProviderView>, i: int)
    requires
        0 <= i < providers.len(),
    ensures
        first_named(providers, providers[i].name) matches Some(k) && 0 <= k < providers.len()
            && providers[k].name == providers[i].name,
    decreases providers.len(),
{
    let name = providers[i].name;
    if i < providers.len() - 1 {
        lemma_named_is_found(providers.drop_last(), i);
    } else {
        lemma_first_named_bounds(providers.drop_last(), name);
    }
}

proof fn lemma_first_named_bounds(providers: Seq<ProviderView>, name: Seq<char>)
    ensures
        first_named(providers, name) matches Some(k) ==> 0 <= k < providers.len()
            && providers[k].name == name,
    decreases providers.len(),
{
    if providers.len() > 0 {
        lemma_first_named_bounds(providers.drop_last(), name);
    }
}

/// A failure leaves the providers and their number of counts.
proof fn lemma_state_after_failure(exchange: Exchange, state: AppStateView, event: Event)
    requires
        state.well_formed(),
        exchange.well_formed(state),
    ensures
        exchange.state_after_failure(state, event).providers == state.providers,
        exchange.state_after_failure(state, event).well_formed(),
{
    lemma_named_is_found(state.providers, exchange.provider as int);
}

/// Whether no count is at its greatest.
pub open spec fn counts_have_room(state: AppStateView) -> bool {
    &&& state.stats.total_errors < usize::MAX
    &&& state.stats.total_rotations < usize::MAX
    &&& forall|i: int|
        0 <= i < state.stats.provider_failures.len() ==> #[trigger] state.stats.provider_failures[i]
            < usize::MAX
}

/// Each failure, on whatever route, is one error and one failure of a provider, and
/// makes the next provider current once, unless no further one may be tried. A
/// count that is at its greatest starts again, and is left out.
pub proof fn failures_are_counted_once(exchange: Exchange, state: AppStateView, event: Event)
    requires
        state.well_formed(),
        exchange.well_formed(state),
        counts_have_room(state),
    ensures
        ({
            let after = exchange.state_after_failure(state, event);
            let name = state.providers[exchange.provider as int].name;
            &&& after.stats.total_errors == state.stats.total_errors + 1
            &&& total(after.stats.provider_failures) == total(state.stats.provider_failures) + 1
            &&& first_named(state.providers, name) matches Some(k)
                && after.stats.provider_failures[k] == state.stats.provider_failures[k] + 1
            &&& after.stats.total_rotations == state.stats.total_rotations + if exchange.attempt + 1
                < exchange.max_retries {
                1int
            } else {
                0int
            }
            &&& after.stats.total_requests == state.stats.total_requests
        }),
{
    let provider = exchange.provider as int;
    lemma_named_is_found(state.providers, provider);
    let k = first_named(state.providers, state.providers[provider].name)->0;
    assert(state.stats.provider_failures[k] < usize::MAX);
    lemma_total_update(
        state.stats.provider_failures,
        k,
        counted(state.stats.provider_failures[k]),
    );
}

/// A provider to which a body was too large is skipped, and the next one asked has
/// another name.
pub proof fn too_large_bodies_are_sent_elsewhere(exchange: Exchange, state: AppStateView)
    requires
        state.well_formed(),
        exchange.well_formed(state),
    ensures
        ({
            let name = state.providers[exchange.provider as int].name;
            let (after, next, action) = exchange.advanced(state, Event::Answered(413));
            &&& after.stats.skipped_providers.contains(name)
            &&& action == Action::Send ==> after.providers[next.provider as int].name != name
        }),
{
    let name = state.providers[exchange.provider as int].name;
    let after = exchange.advanced(state, Event::Answered(413)).0;
    lemma_state_after_failure(exchange, state, Event::Answered(413));
    skipping_is_for_good(state, name, name);
    skipped_providers_are_not_asked(after);
}

/// What follows some events, each told while the request is being sent.
pub open spec fn after_events(exchange: Exchange, state: AppStateView, events: Seq<Event>) -> (
    AppStateView,
    Exchange,
    Action,
)
    decreases events.len(),
{
    if events.len() == 0 {
        (state, exchange, Action::Send)
    } else {
        let (before, current, action) = after_events(exchange, state, events.drop_last());
        if action == Action::Send {
            current.advanced(before, events.last())
        } else {
            (before, current, action)
        }
    }
}

/// Whatever comes, the providers stay the same, and while the request is being sent
/// the provider that is asked is one of them.
pub proof fn the_providers_stay(exchange: Exchange, state: AppStateView, events: Seq<Event>)
    requires
        state.well_formed(),
        exchange.well_formed(state),
    ensures
        ({
            let (after, last, outcome) = after_events(exchange, state, events);
            &&& after.well_formed()
            &&& after.providers == state.providers
            &&& outcome == Action::Send ==> last.well_formed(after)
        }),
    decreases events.len(),
{
    if events.len() > 0 {
        the_providers_stay(exchange, state, events.drop_last());
        let (before, current, action) = after_events(exchange, state, events.drop_last());
        if action == Action::Send {
            lemma_state_after_failure(current, before, events.last());
            skipped_providers_are_not_asked(current.state_after_failure(before, events.last()));
        }
    }
}

/// Whether an event is a failure that moves on by one provider. Left out are a body
/// that is too large, for which the provider is skipped, and cache marks that are
/// refused, for which the provider is asked once more.
pub open spec fn is_plain_failure(route: Route, has_cached_body: bool, event: Event) -> bool {
    match event {
        Event::Answered(status) => {
            &&& !is_good(route, status)
            &&& status != 413
            &&& !(route == Route::Anthropic && has_cached_body && status == 400)
        },
        _ => true,
    }
}

/// The provider that is asked after so many rotations.
pub open spec fn asked_after(state: AppStateView, rotations: nat) -> Option<int> {
    AppStateView {
        current_index: (state.current_index + rotations) as usize,
        ..state
    }.next_available()
}

/// The providers are tried in turn: the current one first, after each failure the
/// one that follows, from the last back to the first, and in place of one that is
/// skipped the next that is not. When as many have failed as there are providers,
/// the request is given up; where all are skipped it is not sent. The count of
/// rotations starts again at zero after the greatest index.
pub proof fn providers_are_tried_in_turn(
    state: AppStateView,
    route: Route,
    has_cached_body: bool,
    events: Seq<Event>,
)
    requires
        state.well_formed(),
        state.current_index + state.providers.len() <= usize::MAX,
        forall|i: int|
            0 <= i < events.len() ==> is_plain_failure(
                route,
                has_cached_body,
                #[trigger] events[i],
            ),
    ensures
        ({
            let n = state.providers.len() as int;
            let (first, action) = Exchange::fresh(state, route, has_cached_body).chosen(state);
            let (_, last, outcome) = after_events(first, state, events);
            let all_skipped = forall|p: int| 0 <= p < n ==> #[trigger] state.is_skipped(p);
            &&& action == Action::Send <==> !all_skipped
            &&& !all_skipped ==> outcome == if events.len() < n {
                Action::Send
            } else {
                Action::GiveUp
            }
            &&& !all_skipped && events.len() < n ==> asked_after(state, events.len()) == Some(
                last.provider as int,
            ) && !state.is_skipped(last.provider as int)
        }),
{
    skipped_providers_are_not_asked(state);
    let first = Exchange::fresh(state, route, has_cached_body).chosen(state).0;
    if state.next_available() is Some {
        lemma_in_turn(first, state, events);
        let there = AppStateView {
            current_index: (state.current_index + events.len()) as usize,
            ..state
        };
        assert(forall|p: int| there.is_skipped(p) == state.is_skipped(p));
        skipped_providers_are_not_asked(there);
    }
}

/// In as many turns as there are providers each one that is not skipped is asked:
/// when its place in the list is reached.
pub proof fn every_provider_has_its_turn(state: AppStateView, provider: int) -> (turn: int)
    requires
        state.well_formed(),
        state.current_index + state.providers.len() <= usize::MAX,
        0 <= provider < state.providers.len(),
        !state.is_skipped(provider),
    ensures
        0 <= turn < state.providers.len(),
        asked_after(state, turn as nat) == Some(provider),
{
    let turn = lemma_behind_current_reaches(state, provider);
    let there = AppStateView { current_index: (state.current_index + turn) as usize, ..state };
    assert(there.behind_current(0) == provider);
    assert(!there.is_skipped(there.behind_current(0)));
    turn
}

/// While none is skipped the providers are asked in the order of the list.
pub proof fn none_is_left_out_while_none_is_skipped(state: AppStateView, rotations: nat)
    requires
        state.well_formed(),
        state.stats.skipped_providers == Set::<Seq<char>>::empty(),
        state.current_index + rotations <= usize::MAX,
    ensures
        asked_after(state, rotations) == Some(
            (state.current_index + rotations) % (state.providers.len() as int),
        ),
{
    let there = AppStateView {
        current_index: (state.current_index + rotations) as usize,
        ..state
    };
    assert(!there.is_skipped(there.behind_current(0)));
}

proof fn lemma_in_turn(first: Exchange, state: AppStateView, events: Seq<Event>)
    requires
        state.well_formed(),
        state.next_available() is Some,
        state.current_index + state.providers.len() <= usize::MAX,
        first == Exchange::fresh(state, first.route, first.has_cached_body).chosen(state).0,
        forall|i: int|
            0 <= i < events.len() ==> is_plain_failure(
                first.route,
                first.has_cached_body,
                #[trigger] events[i],
            ),
    ensures
        ({
            let n = state.providers.len() as int;
            let (after, last, outcome) = after_events(first, state, events);
            &&& events.len() < n ==> {
                &&& outcome == Action::Send
                &&& last.well_formed(after)
                &&& last.attempt == events.len()
                &&& last.max_retries == n
                &&& last.route == first.route
                &&& last.has_cached_body == first.has_cached_body
                &&& asked_after(state, events.len()) == Some(last.provider as int)
                &&& after.well_formed()
                &&& after.providers == state.providers
                &&& after.stats.skipped_providers == state.stats.skipped_providers
                &&& after.current_index == state.current_index + events.len()
            }
            &&& events.len() >= n ==> outcome == Action::GiveUp
        }),
    decreases events.len(),
{
    let n = state.providers.len() as int;
    skipped_providers_are_not_asked(state);
    if events.len() == 0 {
        lemma_same_next(state, state, 0);
    } else {
        let shorter = events.drop_last();
        assert forall|i: int| 0 <= i < shorter.len() implies is_plain_failure(
            first.route,
            first.has_cached_body,
            #[trigger] shorter[i],
        ) by {
            assert(shorter[i] == events[i]);
        }
        lemma_in_turn(first, state, shorter);
        let (before, current, action) = after_events(first, state, shorter);
        let event = events.last();
        assert(is_plain_failure(first.route, first.has_cached_body, events[events.len() - 1]));
        if shorter.len() < n {
            lemma_state_after_failure(current, before, event);
            let after = current.state_after_failure(before, event);
            if events.len() < n {
                lemma_same_next(state, after, events.len());
                assert(forall|p: int| after.is_skipped(p) == state.is_skipped(p));
                skipped_providers_are_not_asked(after);
            }
        }
    }
}

/// Which provider is next depends on the list, the index and what is skipped alone.
proof fn lemma_same_next(state: AppStateView, after: AppStateView, rotations: nat)
    requires
        after.providers == state.providers,
        after.stats.skipped_providers == state.stats.skipped_providers,
        after.current_index == state.current_index + rotations,
    ensures
        after.next_available() == asked_after(state, rotations),
{
    let there = AppStateView {
        current_index: (state.current_index + rotations) as usize,
        ..state
    };
    lemma_same_available(after, there, 0);
}

proof fn lemma_same_available(a: AppStateView, b: AppStateView, i: nat)
    requires
        a.providers == b.providers,
        a.stats.skipped_providers == b.stats.skipped_providers,
        a.current_index == b.current_index,
    ensures
        a.available_from(i) == b.available_from(i),
    decreases a.providers.len() - i,
{
    if i < a.providers.len() {
        lemma_same_available(a, b, i + 1);
    }
}

/// An answer is handed on exactly where its status is one of success, or, on the
/// catch-all route, of redirection; and then nothing changes.
pub proof fn only_good_answers_are_delivered(
    exchange: Exchange,
    state: AppStateView,
    event: Event,
)
    ensures
        ({
            let (after, next, action) = exchange.advanced(state, event);
            &&& action == Action::Deliver <==> (event matches Event::Answered(status) && (200
                <= status < 300 || (exchange.route == Route::CatchAll && 300 <= status < 400)))
            &&& action == Action::Deliver ==> after == state && next == exchange
        }),
{
}

/// Whether any provider is left that is not skipped.
pub open spec fn some_are_left(state: AppStateView) -> bool {
    exists|p: int|
        0 <= p < state.providers.len() && !state.stats.skipped_providers.contains(
            (#[trigger] state.providers[p]).name,
        )
}

proof fn lemma_some_are_left(state: AppStateView)
    requires
        state.well_formed(),
    ensures
        some_are_left(state) <==> state.next_available() is Some,
        state.next_available() matches Some(p) ==> 0 <= p < state.providers.len(),
{
    skipped_providers_are_not_asked(state);
    if state.next_available() is Some {
        let p = state.next_available()->0;
        assert(!state.stats.skipped_providers.contains(state.providers[p].name));
    }
    if some_are_left(state) {
        let p = choose|p: int|
            0 <= p < state.providers.len() && !state.stats.skipped_providers.contains(
                (#[trigger] state.providers[p]).name,
            );
        assert(!state.is_skipped(p));
    }
}

/// After anything but a good answer the request is sent on or given up. Where an
/// Anthropic request with cache marks is answered 400, the same provider is asked once
/// more without them, and nothing is counted. Else it is a failure of that provider:
/// it is counted, as one error and one failure of the first provider of that name; the
/// provider is skipped from then on if the answer was 413; and if there is a provider
/// left to try, the next becomes current and the one whose turn it is is asked, with
/// the cache marks where there are some.
pub proof fn anything_else_is_a_failure(exchange: Exchange, state: AppStateView, event: Event)
    requires
        state.well_formed(),
        exchange.well_formed(state),
        !(event matches Event::Answered(status) && (200 <= status < 300 || (exchange.route
            == Route::CatchAll && 300 <= status < 400))),
    ensures
        ({
            let (after, next, action) = exchange.advanced(state, event);
            let name = state.providers[exchange.provider as int].name;
            let refused = exchange.route == Route::Anthropic && exchange.with_cache && event
                == Event::Answered(400);
            let too_large = event == Event::Answered(413);
            let may_retry = exchange.attempt + 1 < exchange.max_retries;
            let current = state.providers[state.current_index as int % (
            state.providers.len() as int)];
            let passed = if too_large && current.name == name
                && !state.stats.skipped_providers.contains(name) {
                counted(state.current_index)
            } else {
                state.current_index
            };
            let before = state.stats.provider_failures;
            &&& refused ==> {
                &&& after == state
                &&& action == Action::Send
                &&& next == (Exchange { with_cache: false, ..exchange })
            }
            &&& !refused ==> {
                &&& after.stats.total_errors == counted(state.stats.total_errors)
                &&& after.stats.total_requests == state.stats.total_requests
                &&& after.stats.total_rotations == if may_retry {
                    counted(state.stats.total_rotations)
                } else {
                    state.stats.total_rotations
                }
                &&& after.stats.provider_failures.len() == before.len()
                &&& forall|i: int|
                    0 <= i < before.len() ==> #[trigger] after.stats.provider_failures[i] == if (
                    state.providers[i].name == name && forall|j: int|
                        0 <= j < i ==> (#[trigger] state.providers[j]).name != name) {
                        counted(before[i])
                    } else {
                        before[i]
                    }
                &&& after.stats.skipped_providers == if too_large {
                    state.stats.skipped_providers.insert(name)
                } else {
                    state.stats.skipped_providers
                }
                &&& after.current_index == if may_retry {
                    counted(passed)
                } else {
                    passed
                }
                &&& after.providers == state.providers
                &&& after.expected_api_key == state.expected_api_key
                &&& after.cache_enabled == state.cache_enabled
                &&& after.compress_enabled == state.compress_enabled
                &&& next.attempt == exchange.attempt + 1
                &&& next.max_retries == exchange.max_retries
                &&& next.route == exchange.route
                &&& next.has_cached_body == exchange.has_cached_body
                &&& action == if may_retry && some_are_left(after) {
                    Action::Send
                } else {
                    Action::GiveUp
                }
                &&& action == Action::Send ==> {
                    &&& after.next_available() == Some(next.provider as int)
                    &&& next.with_cache == exchange.has_cached_body
                }
            }
        }),
{
    let provider = exchange.provider as int;
    let name = state.providers[provider].name;
    let kept = if event == Event::Answered(413) {
        state.skipping(name)
    } else {
        state
    };
    steps_change_one_thing(state, name);
    steps_change_one_thing(kept, name);
    let noted = kept.error_counted();
    let recorded = noted.failure_recorded(name);
    the_first_of_a_name_is_found(state.providers, name);
    lemma_state_after_failure(exchange, state, event);
    let after = exchange.state_after_failure(state, event);
    lemma_some_are_left(after);
    let before = state.stats.provider_failures;
    assert forall|i: int| 0 <= i < before.len() implies #[trigger] after.stats.provider_failures[i]
        == if (state.providers[i].name == name && forall|j: int|
        0 <= j < i ==> (#[trigger] state.providers[j]).name != name) {
        counted(before[i])
    } else {
        before[i]
    } by {
        assert(after.stats.provider_failures[i] == kept.failure_recorded(
            name,
        ).stats.provider_failures[i]);
    }
}

/// A request begins with the provider whose turn it is, and with the cache marks where
/// there are some; as many providers may be tried as there are. It is not sent where
/// none is left.
pub proof fn a_request_begins_with_the_provider_whose_turn_it_is(
    state: AppStateView,
    route: Route,
    has_cached_body: bool,
)
    requires
        state.well_formed(),
    ensures
        ({
            let (first, action) = Exchange::fresh(state, route, has_cached_body).chosen(state);
            &&& action == if some_are_left(state) {
                Action::Send
            } else {
                Action::GiveUp
            }
            &&& first.attempt == 0
            &&& first.max_retries == state.providers.len()
            &&& first.route == route
            &&& first.has_cached_body == has_cached_body
            &&& action == Action::Send ==> {
                &&& state.next_available() == Some(first.provider as int)
                &&& first.with_cache == has_cached_body
            }
        }),
{
    lemma_some_are_left(state);
}

} // verus!
