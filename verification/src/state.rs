//! The providers, which of them is asked next, and what is counted.

use crate::text::same_text;
use std::sync::Arc;
use vstd::arithmetic::div_mod::{
    lemma_add_mod_noop_right, lemma_fundamental_div_mod, lemma_fundamental_div_mod_converse,
    lemma_small_mod,
};
use vstd::prelude::*;

verus! {

/// A provider.
#[derive(Debug, PartialEq, Eq)]
pub struct Provider {
    pub name: String,
    pub base_url: String,
    pub model: String,
    pub api_key: String,
}

/// What is counted, and the names of the providers that are skipped for good.
#[derive(Debug, PartialEq, Eq)]
pub struct Stats {
    pub total_requests: usize,
    pub total_errors: usize,
    pub total_rotations: usize,
    pub provider_failures: Vec<usize>,
    pub skipped_providers: Vec<String>,
}

/// The state that all requests share.
#[derive(Debug, PartialEq, Eq)]
pub struct AppState {
    pub providers: Arc<Vec<Provider>>,
    pub current_index: usize,
    pub stats: Stats,
    pub expected_api_key: String,
    pub cache_enabled: bool,
    pub compress_enabled: bool,
}

/// What a provider stands for.
pub struct ProviderView {
    pub name: Seq<char>,
    pub base_url: Seq<char>,
    pub model: Seq<char>,
    pub api_key: Seq<char>,
}

/// What the counts stand for.
#[verifier::ext_equal]
pub struct StatsView {
    pub total_requests: usize,
    pub total_errors: usize,
    pub total_rotations: usize,
    pub provider_failures: Seq<usize>,
    pub skipped_providers: Set<Seq<char>>,
}

/// What the state stands for.
#[verifier::ext_equal]
pub struct AppStateView {
    pub providers: Seq<ProviderView>,
    pub current_index: usize,
    pub stats: StatsView,
    pub expected_api_key: Seq<char>,
    pub cache_enabled: bool,
    pub compress_enabled: bool,
}

impl View for Provider {
    type V = ProviderView;

    open spec fn view(&self) -> ProviderView {
        ProviderView {
            name: self.name@,
            base_url: self.base_url@,
            model: self.model@,
            api_key: self.api_key@,
        }
    }
}

impl Clone for Provider {
    fn clone(&self) -> (r: Provider)
        ensures
            r@ == self@,
    {
        Provider {
            name: self.name.clone(),
            base_url: self.base_url.clone(),
            model: self.model.clone(),
            api_key: self.api_key.clone(),
        }
    }
}

/// What the providers of a list stand for.
pub open spec fn providers_view(providers: Seq<Provider>) -> Seq<ProviderView> {
    Seq::new(providers.len(), |i: int| providers[i]@)
}

/// The names of a list.
pub open spec fn names(list: Seq<String>) -> Set<Seq<char>> {
    Set::new(|name: Seq<char>| exists|i: int| 0 <= i < list.len() && (#[trigger] list[i])@ == name)
}

impl View for Stats {
    type V = StatsView;

    open spec fn view(&self) -> StatsView {
        StatsView {
            total_requests: self.total_requests,
            total_errors: self.total_errors,
            total_rotations: self.total_rotations,
            provider_failures: self.provider_failures@,
            skipped_providers: names(self.skipped_providers@),
        }
    }
}

impl View for AppState {
    type V = AppStateView;

    open spec fn view(&self) -> AppStateView {
        AppStateView {
            providers: providers_view(self.providers@),
            current_index: self.current_index,
            stats: self.stats@,
            expected_api_key: self.expected_api_key@,
            cache_enabled: self.cache_enabled,
            compress_enabled: self.compress_enabled,
        }
    }
}

/// The count after one more. After the greatest comes zero.
pub open spec fn counted(n: usize) -> usize {
    if n == usize::MAX {
        0
    } else {
        (n + 1) as usize
    }
}

/// The position of the first provider of that name.
pub open spec fn first_named(providers: Seq<ProviderView>, name: Seq<char>) -> Option<int>
    decreases providers.len(),
{
    if providers.len() == 0 {
        None
    } else {
        match first_named(providers.drop_last(), name) {
            Some(i) => Some(i),
            None => if providers.last().name == name {
                Some(providers.len() - 1)
            } else {
                None
            },
        }
    }
}

impl AppStateView {
    /// There is a provider, and a count of failures for each.
    pub open spec fn well_formed(self) -> bool {
        &&& 0 < self.providers.len() <= usize::MAX
        &&& self.stats.provider_failures.len() == self.providers.len()
    }

    /// Whether a provider is skipped for good.
    pub open spec fn is_skipped(self, provider: int) -> bool {
        self.stats.skipped_providers.contains(self.providers[provider].name)
    }

    /// The provider that is `i` places behind the current one, going round.
    pub open spec fn behind_current(self, i: int) -> int {
        (self.current_index + i) % (self.providers.len() as int)
    }

    /// The first provider that is not skipped, from `i` places behind the current
    /// one on.
    pub open spec fn available_from(self, i: nat) -> Option<int>
        decreases self.providers.len() - i,
    {
        if i >= self.providers.len() {
            None
        } else if !self.is_skipped(self.behind_current(i as int)) {
            Some(self.behind_current(i as int))
        } else {
            self.available_from(i + 1)
        }
    }

    /// The provider to ask next: the current one, or the first behind it that is
    /// not skipped.
    pub open spec fn next_available(self) -> Option<int> {
        self.available_from(0)
    }

    /// The state after a failure of the provider of that name is noted.
    pub open spec fn failure_recorded(self, name: Seq<char>) -> AppStateView {
        match first_named(self.providers, name) {
            Some(i) => AppStateView {
                stats: StatsView {
                    provider_failures: self.stats.provider_failures.update(
                        i,
                        counted(self.stats.provider_failures[i]),
                    ),
                    ..self.stats
                },
                ..self
            },
            None => self,
        }
    }

    /// The state after the provider of that name is skipped for good. If it was
    /// the current one, the next becomes current.
    pub open spec fn skipping(self, name: Seq<char>) -> AppStateView {
        if self.stats.skipped_providers.contains(name) {
            self
        } else {
            AppStateView {
                current_index: if self.providers[self.behind_current(0)].name == name {
                    counted(self.current_index)
                } else {
                    self.current_index
                },
                stats: StatsView {
                    skipped_providers: self.stats.skipped_providers.insert(name),
                    ..self.stats
                },
                ..self
            }
        }
    }

    /// The state after the next provider becomes current.
    pub open spec fn rotated(self) -> AppStateView {
        AppStateView {
            current_index: counted(self.current_index),
            stats: StatsView {
                total_rotations: counted(self.stats.total_rotations),
                ..self.stats
            },
            ..self
        }
    }

    /// The state after a request is counted.
    pub open spec fn request_counted(self) -> AppStateView {
        AppStateView {
            stats: StatsView {
                total_requests: counted(self.stats.total_requests),
                ..self.stats
            },
            ..self
        }
    }

    /// The state after an error is counted.
    pub open spec fn error_counted(self) -> AppStateView {
        AppStateView {
            stats: StatsView { total_errors: counted(self.stats.total_errors), ..self.stats },
            ..self
        }
    }
}

/// One more place behind, going round.
proof fn lemma_one_further(x: int, n: int)
    requires
        n > 0,
        x >= 0,
    ensures
        (x + 1) % n == if x % n + 1 == n {
            0
        } else {
            x % n + 1
        },
{
    lemma_fundamental_div_mod(x, n);
    let q = x / n;
    let r = x % n;
    if r + 1 == n {
        assert(x + 1 == (q + 1) * n + 0) by (nonlinear_arith)
            requires
                x == n * q + r,
                r + 1 == n,
        ;
        lemma_fundamental_div_mod_converse(x + 1, n, q + 1, 0);
    } else {
        assert(x + 1 == q * n + (r + 1)) by (nonlinear_arith)
            requires
                x == n * q + r,
        ;
        lemma_fundamental_div_mod_converse(x + 1, n, q, r + 1);
    }
}

impl Stats {
    /// Nothing is counted and nothing skipped.
    pub fn new(provider_count: usize) -> (r: Stats)
        ensures
            r@ == (StatsView {
                total_requests: 0,
                total_errors: 0,
                total_rotations: 0,
                provider_failures: Seq::new(provider_count as nat, |i: int| 0usize),
                skipped_providers: Set::empty(),
            }),
    {
        let mut provider_failures: Vec<usize> = Vec::new();
        let mut i: usize = 0;
        while i < provider_count
            invariant
                i <= provider_count,
                provider_failures@ =~= Seq::new(i as nat, |i: int| 0usize),
            decreases provider_count - i,
        {
            provider_failures.push(0);
            i += 1;
        }
        let out: Stats = Stats {
            total_requests: 0,
            total_errors: 0,
            total_rotations: 0,
            provider_failures,
            skipped_providers: Vec::new(),
        };
        assert(names(out.skipped_providers@) =~= Set::empty());
        out
    }
}

impl AppState {
    /// The state at the start: the first provider is current.
    pub fn new(
        providers: Vec<Provider>,
        expected_api_key: String,
        cache_enabled: bool,
        compress_enabled: bool,
    ) -> (r: AppState)
        ensures
            r@ == (AppStateView {
                providers: providers_view(providers@),
                current_index: 0,
                stats: StatsView {
                    total_requests: 0,
                    total_errors: 0,
                    total_rotations: 0,
                    provider_failures: Seq::new(providers@.len(), |i: int| 0usize),
                    skipped_providers: Set::empty(),
                },
                expected_api_key: expected_api_key@,
                cache_enabled,
                compress_enabled,
            }),
            providers@.len() > 0 ==> r@.well_formed(),
    {
        let stats: Stats = Stats::new(providers.len());
        AppState {
            providers: Arc::new(providers),
            current_index: 0,
            stats,
            expected_api_key,
            cache_enabled,
            compress_enabled,
        }
    }

    /// Counts a request.
    pub fn count_request(&mut self)
        ensures
            final(self)@ == old(self)@.request_counted(),
    {
        self.stats.total_requests = self.stats.total_requests.wrapping_add(1);
    }

    /// Counts an error.
    pub fn count_error(&mut self)
        ensures
            final(self)@ == old(self)@.error_counted(),
    {
        self.stats.total_errors = self.stats.total_errors.wrapping_add(1);
    }

    /// Notes a failure of the provider of that name.
    pub fn record_failure(&mut self, provider_name: &str)
        requires
            old(self)@.well_formed(),
        ensures
            final(self)@ == old(self)@.failure_recorded(provider_name@),
            final(self)@.well_formed(),
    {
        let ghost all = self@.providers;
        let mut i: usize = 0;
        while i < self.providers.len()
            invariant
                i <= self.providers@.len(),
                *self == *old(self),
                self@.well_formed(),
                all == self@.providers,
                first_named(all.take(i as int), provider_name@) is None,
            decreases self.providers@.len() - i,
        {
            assert(all.take(i + 1).drop_last() =~= all.take(i as int));
            assert(all.take(i + 1).last() == self.providers@[i as int]@);
            if same_text(self.providers[i].name.as_str(), provider_name) {
                proof {
                    lemma_first_named_prefix(all, provider_name@, i + 1);
                }
                let failures: usize = self.stats.provider_failures[i];
                self.stats.provider_failures.set(i, failures.wrapping_add(1));
                return ;
            }
            i += 1;
        }
        assert(all.take(i as int) =~= all);
    }

    /// Whether a provider of that name is skipped for good.
    fn skips(&self, name: &str) -> (r: bool)
        ensures
            r == self@.stats.skipped_providers.contains(name@),
    {
        let mut i: usize = 0;
        while i < self.stats.skipped_providers.len()
            invariant
                i <= self.stats.skipped_providers@.len(),
                forall|k: int|
                    0 <= k < i ==> (#[trigger] self.stats.skipped_providers@[k])@ != name@,
            decreases self.stats.skipped_providers@.len() - i,
        {
            if same_text(self.stats.skipped_providers[i].as_str(), name) {
                return true;
            }
            i += 1;
        }
        false
    }

    /// Skips the provider of that name for good. If it is the current one, the
    /// next becomes current.
    pub fn skip_provider_permanently(&mut self, name: &str)
        requires
            old(self)@.well_formed(),
        ensures
            final(self)@ == old(self)@.skipping(name@),
            final(self)@.well_formed(),
    {
        if !self.skips(name) {
            let ghost before = self.stats.skipped_providers@;
            self.stats.skipped_providers.push(name.to_owned());
            let ghost after = self.stats.skipped_providers@;
            assert(names(after) =~= names(before).insert(name@)) by {
                assert(after[before.len() as int]@ == name@);
                assert forall|x: Seq<char>| names(before).contains(x) implies names(
                    after,
                ).contains(x) by {
                    let i = choose|i: int| 0 <= i < before.len() && (#[trigger] before[i])@ == x;
                    assert(after[i]@ == x);
                }
            }
            let current: usize = self.current_index % self.providers.len();
            if same_text(self.providers[current].name.as_str(), name) {
                self.current_index = self.current_index.wrapping_add(1);
            }
        }
    }

    /// The position of the provider to ask next.
    pub fn next_available_index(&self) -> (r: Option<usize>)
        ensures
            match r {
                Some(i) => self@.next_available() == Some(i as int) && i < self.providers@.len(),
                None => self@.next_available() is None,
            },
    {
        let n: usize = self.providers.len();
        if n == 0 {
            return None;
        }
        let mut at: usize = self.current_index % n;
        let mut i: usize = 0;
        while i < n
            invariant
                n == self.providers@.len(),
                n > 0,
                i <= n,
                at < n,
                at == self@.behind_current(i as int),
                self@.available_from(i as nat) == self@.next_available(),
            decreases n - i,
        {
            if !self.skips(self.providers[at].name.as_str()) {
                return Some(at);
            }
            proof {
                lemma_one_further(self.current_index + i, n as int);
            }
            at = if at == n - 1 {
                0
            } else {
                at + 1
            };
            i += 1;
        }
        None
    }

    /// The provider to ask next: the current one, or the first behind it that is
    /// not skipped.
    pub fn get_next_available_provider(&self) -> (r: Option<&Provider>)
        ensures
            match r {
                Some(provider) => self@.next_available() matches Some(i) && provider@
                    == self@.providers[i],
                None => self@.next_available() is None,
            },
    {
        match self.next_available_index() {
            Some(i) => Some(&self.providers[i]),
            None => None,
        }
    }

    /// Makes the next provider the current one.
    pub fn rotate_provider(&mut self)
        ensures
            final(self)@ == old(self)@.rotated(),
    {
        self.current_index = self.current_index.wrapping_add(1);
        self.stats.total_rotations = self.stats.total_rotations.wrapping_add(1);
    }
}

/// What is first in the beginning of a list is first in the list.
proof fn lemma_first_named_prefix(providers: Seq<ProviderView>, name: Seq<char>, n: int)
    requires
        0 <= n <= providers.len(),
        first_named(providers.take(n), name) is Some,
    ensures
        first_named(providers, name) == first_named(providers.take(n), name),
    decreases providers.len(),
{
    if n == providers.len() {
        assert(providers.take(n) =~= providers);
    } else {
        assert(providers.drop_last().take(n) =~= providers.take(n));
        lemma_first_named_prefix(providers.drop_last(), name, n);
    }
}

/// What is found from some place on: the first there that is not skipped, or
/// none where all from there on are skipped.
proof fn lemma_available_from(state: AppStateView, i: nat)
    requires
        state.providers.len() > 0,
    ensures
        match state.available_from(i) {
            Some(p) => {
                &&& 0 <= p < state.providers.len()
                &&& !state.is_skipped(p)
            },
            None => forall|k: int|
                i <= k < state.providers.len() ==> state.is_skipped(
                    #[trigger] state.behind_current(k),
                ),
        },
    decreases state.providers.len() - i,
{
    if i < state.providers.len() {
        if state.is_skipped(state.behind_current(i as int)) {
            lemma_available_from(state, i + 1);
        }
    }
}

/// Every provider is some places behind the current one.
pub proof fn lemma_behind_current_reaches(state: AppStateView, provider: int) -> (i: int)
    requires
        0 <= provider < state.providers.len(),
    ensures
        0 <= i < state.providers.len(),
        state.behind_current(i) == provider,
{
    let n = state.providers.len() as int;
    let c = state.current_index as int;
    let i = (provider - c) % n;
    lemma_add_mod_noop_right(c, provider - c, n);
    lemma_small_mod(provider as nat, n as nat);
    i
}

/// A provider that is skipped is not asked; and one is asked unless all are
/// skipped.
pub proof fn skipped_providers_are_not_asked(state: AppStateView)
    requires
        state.well_formed(),
    ensures
        state.next_available() matches Some(p) ==> 0 <= p < state.providers.len()
            && !state.is_skipped(p),
        state.next_available() is None <==> forall|p: int|
            0 <= p < state.providers.len() ==> #[trigger] state.is_skipped(p),
{
    lemma_available_from(state, 0);
    if state.next_available() is None {
        assert forall|p: int| 0 <= p < state.providers.len() implies #[trigger] state.is_skipped(
            p,
        ) by {
            let i = lemma_behind_current_reaches(state, p);
            assert(state.is_skipped(state.behind_current(i)));
        }
    }
}

/// Whatever is skipped stays skipped, whatever happens, and a provider is not
/// asked once its name is skipped.
pub proof fn skipping_is_for_good(state: AppStateView, name: Seq<char>, other: Seq<char>)
    requires
        state.well_formed(),
    ensures
        state.skipping(name).stats.skipped_providers.contains(name),
        state.skipping(name).next_available() matches Some(p)
            ==> state.providers[p].name != name,
        state.stats.skipped_providers.subset_of(state.skipping(name).stats.skipped_providers),
        state.failure_recorded(other).stats.skipped_providers == state.stats.skipped_providers,
        state.rotated().stats.skipped_providers == state.stats.skipped_providers,
        state.request_counted().stats.skipped_providers == state.stats.skipped_providers,
        state.error_counted().stats.skipped_providers == state.stats.skipped_providers,
{
    skipped_providers_are_not_asked(state.skipping(name));
}

/// While none is skipped, the current provider is asked, and rotating goes on to
/// the one that follows it in the list, from the last back to the first. The
/// count starts again at zero after the greatest index.
pub proof fn rotation_follows_the_list(state: AppStateView)
    requires
        state.well_formed(),
        state.stats.skipped_providers == Set::<Seq<char>>::empty(),
        state.current_index < usize::MAX,
    ensures
        state.next_available() matches Some(p) && state.rotated().next_available() == Some(
            if p + 1 == state.providers.len() {
                0
            } else {
                p + 1
            },
        ),
{
    let n = state.providers.len() as int;
    assert(!state.is_skipped(state.behind_current(0)));
    assert(!state.rotated().is_skipped(state.rotated().behind_current(0)));
    lemma_one_further(state.current_index as int, n);
}

/// A provider that is alone in not being skipped is asked wherever the rotation
/// stands.
pub proof fn the_last_provider_left_is_asked(state: AppStateView, provider: int)
    requires
        state.well_formed(),
        0 <= provider < state.providers.len(),
        forall|p: int|
            0 <= p < state.providers.len() && p != provider ==> #[trigger] state.is_skipped(p),
        !state.is_skipped(provider),
    ensures
        state.next_available() == Some(provider),
        state.rotated().next_available() == Some(provider),
{
    skipped_providers_are_not_asked(state);
    let after = state.rotated();
    assert(forall|p: int| state.is_skipped(p) == after.is_skipped(p));
    skipped_providers_are_not_asked(after);
}

/// The place that is so many places behind another in a list of `n`, going round.
pub open spec fn going_round(from: int, places: int, n: int) -> int {
    (from + places) % n
}

/// The provider that is asked is the current one, or the nearest behind it, going
/// round, whose name is not skipped.
pub proof fn the_nearest_provider_is_asked(state: AppStateView) -> (places: int)
    requires
        state.well_formed(),
    ensures
        state.next_available() matches Some(p) ==> {
            let n = state.providers.len() as int;
            let c = state.current_index as int;
            &&& 0 <= places < n
            &&& p == going_round(c, places, n)
            &&& !state.stats.skipped_providers.contains(state.providers[p].name)
            &&& forall|k: int|
                0 <= k < places ==> state.stats.skipped_providers.contains(
                    state.providers[#[trigger] going_round(c, k, n)].name,
                )
        },
        state.next_available() is None ==> forall|p: int|
            0 <= p < state.providers.len() ==> state.stats.skipped_providers.contains(
                (#[trigger] state.providers[p]).name,
            ),
{
    skipped_providers_are_not_asked(state);
    if state.next_available() is None {
        assert forall|p: int| 0 <= p < state.providers.len() implies
            state.stats.skipped_providers.contains((#[trigger] state.providers[p]).name) by {
            assert(state.is_skipped(p));
        }
        0
    } else {
        let places = lemma_nearest(state, 0);
        let n = state.providers.len() as int;
        let c = state.current_index as int;
        assert forall|k: int| 0 <= k < places implies state.stats.skipped_providers.contains(
            state.providers[#[trigger] going_round(c, k, n)].name,
        ) by {
            assert(state.is_skipped(state.behind_current(k)));
        }
        places
    }
}

proof fn lemma_nearest(state: AppStateView, from: nat) -> (places: int)
    requires
        state.available_from(from) is Some,
        forall|k: int| 0 <= k < from ==> state.is_skipped(#[trigger] state.behind_current(k)),
    ensures
        from <= places < state.providers.len(),
        state.available_from(from) == Some(state.behind_current(places)),
        !state.is_skipped(state.behind_current(places)),
        forall|k: int| 0 <= k < places ==> state.is_skipped(#[trigger] state.behind_current(k)),
    decreases state.providers.len() - from,
{
    if state.is_skipped(state.behind_current(from as int)) {
        lemma_nearest(state, from + 1)
    } else {
        from as int
    }
}

/// The first provider of a name has that name, and none before it has; where there is
/// none, no provider has it.
pub proof fn the_first_of_a_name_is_found(providers: Seq<ProviderView>, name: Seq<char>)
    ensures
        match first_named(providers, name) {
            Some(i) => {
                &&& 0 <= i < providers.len()
                &&& providers[i].name == name
                &&& forall|j: int| 0 <= j < i ==> (#[trigger] providers[j]).name != name
            },
            None => forall|j: int|
                0 <= j < providers.len() ==> (#[trigger] providers[j]).name != name,
        },
    decreases providers.len(),
{
    if providers.len() > 0 {
        let front = providers.drop_last();
        the_first_of_a_name_is_found(front, name);
        assert(forall|j: int| 0 <= j < front.len() ==> front[j] == providers[j]);
    }
}

/// Each step counts what it is about, and changes nothing else.
pub proof fn steps_change_one_thing(state: AppStateView, name: Seq<char>)
    requires
        state.well_formed(),
    ensures
        state.request_counted() == (AppStateView {
            stats: StatsView {
                total_requests: counted(state.stats.total_requests),
                ..state.stats
            },
            ..state
        }),
        state.error_counted() == (AppStateView {
            stats: StatsView { total_errors: counted(state.stats.total_errors), ..state.stats },
            ..state
        }),
        state.rotated() == (AppStateView {
            current_index: counted(state.current_index),
            stats: StatsView {
                total_rotations: counted(state.stats.total_rotations),
                ..state.stats
            },
            ..state
        }),
        ({
            let after = state.failure_recorded(name);
            let before = state.stats.provider_failures;
            &&& after == (AppStateView {
                stats: StatsView {
                    provider_failures: after.stats.provider_failures,
                    ..state.stats
                },
                ..state
            })
            &&& after.stats.provider_failures.len() == before.len()
            &&& forall|i: int|
                0 <= i < before.len() ==> #[trigger] after.stats.provider_failures[i] == if (
                state.providers[i].name == name && forall|j: int|
                    0 <= j < i ==> (#[trigger] state.providers[j]).name != name) {
                    counted(before[i])
                } else {
                    before[i]
                }
        }),
        ({
            let after = state.skipping(name);
            let current = state.providers[state.current_index as int % (
            state.providers.len() as int)];
            &&& after == (AppStateView {
                current_index: after.current_index,
                stats: StatsView {
                    skipped_providers: state.stats.skipped_providers.insert(name),
                    ..state.stats
                },
                ..state
            })
            &&& after.current_index == if current.name == name
                && !state.stats.skipped_providers.contains(name) {
                counted(state.current_index)
            } else {
                state.current_index
            }
        }),
{
    the_first_of_a_name_is_found(state.providers, name);
    if state.stats.skipped_providers.contains(name) {
        assert(state.stats.skipped_providers.insert(name) =~= state.stats.skipped_providers);
    }
    let after = state.failure_recorded(name);
    let before = state.stats.provider_failures;
    assert forall|i: int| 0 <= i < before.len() implies #[trigger] after.stats.provider_failures[i]
        == if (state.providers[i].name == name && forall|j: int|
        0 <= j < i ==> (#[trigger] state.providers[j]).name != name) {
        counted(before[i])
    } else {
        before[i]
    } by {
        match first_named(state.providers, name) {
            Some(k) => {
                if k < i {
                    assert(state.providers[k].name == name);
                }
                if i < k {
                    assert(state.providers[i].name != name);
                }
            },
            None => {
                assert(state.providers[i].name != name);
            },
        }
    }
}

/// A count goes up by one, and after the greatest comes zero.
pub proof fn counts_go_up_by_one(n: usize)
    ensures
        n < usize::MAX ==> counted(n) == n + 1,
        n == usize::MAX ==> counted(n) == 0,
{
}

} // verus!
