//! What the proxy answers of its own accord.

use crate::forward::bearer;
use crate::headers::{header_text, headers_view, text_of_header, Header};
use crate::json::{has_only, Json, JsonView};
use crate::state::{AppState, AppStateView};
use crate::text::same_text;
use vstd::prelude::*;

verus! {

/// An answer that says what went wrong.
#[derive(Debug, PartialEq, Eq)]
pub struct ErrorResponse {
    pub status: u16,
    pub error: String,
}

impl ErrorResponse {
    /// The body of the answer.
    pub fn body(&self) -> (r: Json)
        ensures
            r@ == JsonView::object().with("error"@, JsonView::String(self.error@)),
    {
        Json::object().with("error", Json::text(self.error.as_str()))
    }

    /// The client did not show the key.
    pub fn unauthorized() -> (r: ErrorResponse)
        ensures
            r.status == 401,
            r.error@ == "Unauthorized"@,
    {
        ErrorResponse { status: 401, error: "Unauthorized".to_owned() }
    }

    /// No provider answered.
    pub fn all_providers_failed() -> (r: ErrorResponse)
        ensures
            r.status == 502,
            r.error@ == "All providers failed"@,
    {
        ErrorResponse { status: 502, error: "All providers failed".to_owned() }
    }

    /// The request was too large to be read.
    pub fn body_too_large() -> (r: ErrorResponse)
        ensures
            r.status == 413,
            r.error@ == "Request body too large"@,
    {
        ErrorResponse { status: 413, error: "Request body too large".to_owned() }
    }
}

/// Whether a request may pass: where a key is expected, its header shows that key
/// as a bearer token.
pub open spec fn is_authorized(expected: Seq<char>, authorization: Option<Seq<char>>) -> bool {
    expected.len() == 0 || authorization == Some("Bearer "@ + expected)
}

/// The counts of failures by the name of the provider; of two providers with one
/// name the later counts.
pub open spec fn failures_object(state: AppStateView, n: int) -> JsonView
    decreases n,
{
    if n <= 0 {
        JsonView::object()
    } else {
        failures_object(state, n - 1).with(
            state.providers[n - 1].name,
            JsonView::Int(state.stats.provider_failures[n - 1] as int),
        )
    }
}

/// The report on the state of the proxy.
pub open spec fn health_report(state: AppStateView) -> JsonView {
    let current = match state.next_available() {
        Some(i) => state.providers[i].name,
        None => "none"@,
    };
    JsonView::object().with("status"@, JsonView::String("ok"@)).with(
        "providers"@,
        JsonView::Int(state.providers.len() as int),
    ).with("current_provider"@, JsonView::String(current)).with(
        "total_requests"@,
        JsonView::Int(state.stats.total_requests as int),
    ).with("total_errors"@, JsonView::Int(state.stats.total_errors as int)).with(
        "total_rotations"@,
        JsonView::Int(state.stats.total_rotations as int),
    )
}

/// The report on what was counted.
pub open spec fn stats_report(state: AppStateView) -> JsonView {
    JsonView::object().with(
        "total_requests"@,
        JsonView::Int(state.stats.total_requests as int),
    ).with("total_errors"@, JsonView::Int(state.stats.total_errors as int)).with(
        "total_rotations"@,
        JsonView::Int(state.stats.total_rotations as int),
    ).with("provider_failures"@, failures_object(state, state.providers.len() as int))
}

/// The key lets a request in as a bearer token, and where a key is expected no
/// request gets in without a header, nor with the bare key.
pub proof fn the_key_lets_in(expected: Seq<char>)
    ensures
        is_authorized(expected, Some("Bearer "@ + expected)),
        is_authorized(expected, None) <==> expected.len() == 0,
        is_authorized(expected, Some(expected)) <==> expected.len() == 0,
{
    reveal_strlit("Bearer ");
    assert(("Bearer "@ + expected).len() == 7 + expected.len());
}

/// A provider whose name no later one has is reported with its own count.
pub proof fn failures_are_reported_by_name(state: AppStateView, n: int, i: int)
    requires
        0 <= i < n <= state.providers.len(),
        forall|j: int|
            i < j < n ==> (#[trigger] state.providers[j]).name != state.providers[i].name,
    ensures
        failures_object(state, n).u64_at(state.providers[i].name) == Some(
            state.stats.provider_failures[i] as u64,
        ),
    decreases n,
{
    if i < n - 1 {
        assert(state.providers[n - 1].name != state.providers[i].name);
        failures_are_reported_by_name(state, n - 1, i);
    }
}

fn count(n: usize) -> (r: Json)
    ensures
        r@ == JsonView::Int(n as int),
{
    Json::Unsigned(n as u64)
}

impl AppState {
    /// Lets a request with these headers pass, or says that it may not.
    pub fn auth_check(&self, headers: &Vec<Header>) -> (r: Result<(), ErrorResponse>)
        ensures
            r is Ok <==> is_authorized(
                self@.expected_api_key,
                header_text(headers_view(headers@), "authorization"@),
            ),
            r matches Err(response) ==> response.status == 401 && response.error@
                == "Unauthorized"@,
    {
        if self.expected_api_key.as_str().is_empty() {
            return Ok(());
        }
        match text_of_header(headers, "authorization") {
            Some(authorization) => {
                let shown: String = bearer(self.expected_api_key.as_str());
                if same_text(authorization, shown.as_str()) {
                    Ok(())
                } else {
                    Err(ErrorResponse::unauthorized())
                }
            },
            None => Err(ErrorResponse::unauthorized()),
        }
    }

    /// Lets a request with these headers pass and counts it, or says that it may not
    /// pass.
    pub fn let_in(&mut self, headers: &Vec<Header>) -> (r: Result<(), ErrorResponse>)
        ensures
            r is Ok <==> is_authorized(
                old(self)@.expected_api_key,
                header_text(headers_view(headers@), "authorization"@),
            ),
            r matches Err(response) ==> response.status == 401 && response.error@
                == "Unauthorized"@,
            final(self)@ == if r is Ok {
                old(self)@.request_counted()
            } else {
                old(self)@
            },
    {
        match self.auth_check(headers) {
            Ok(()) => {
                self.count_request();
                Ok(())
            },
            Err(response) => Err(response),
        }
    }

    /// The report on the state of the proxy.
    pub fn health(&self) -> (r: Json)
        ensures
            r@ == health_report(self@),
    {
        let current: &str = match self.get_next_available_provider() {
            Some(provider) => provider.name.as_str(),
            None => "none",
        };
        Json::object().with("status", Json::text("ok")).with(
            "providers",
            count(self.providers.len()),
        ).with("current_provider", Json::text(current)).with(
            "total_requests",
            count(self.stats.total_requests),
        ).with("total_errors", count(self.stats.total_errors)).with(
            "total_rotations",
            count(self.stats.total_rotations),
        )
    }

    /// The report on what was counted.
    pub fn stats(&self) -> (r: Json)
        requires
            self@.well_formed(),
        ensures
            r@ == stats_report(self@),
    {
        let mut failures: Json = Json::object();
        let mut i: usize = 0;
        while i < self.providers.len()
            invariant
                i <= self.providers@.len(),
                self@.well_formed(),
                failures@ is Object,
                failures@ == failures_object(self@, i as int),
            decreases self.providers@.len() - i,
        {
            failures.set(
                self.providers[i].name.as_str(),
                count(self.stats.provider_failures[i]),
            );
            i += 1;
        }
        Json::object().with("total_requests", count(self.stats.total_requests)).with(
            "total_errors",
            count(self.stats.total_errors),
        ).with("total_rotations", count(self.stats.total_rotations)).with(
            "provider_failures",
            failures,
        )
    }
}

/// Where a key is expected, a request passes where its header is `Bearer`, a space and
/// that key, and with nothing else; where none is, every request passes.
pub proof fn only_the_key_lets_in(expected: Seq<char>, authorization: Option<Seq<char>>)
    ensures
        expected == Seq::<char>::empty() ==> is_authorized(expected, authorization),
        expected != Seq::<char>::empty() ==> (is_authorized(expected, authorization)
            <==> authorization == Some("Bearer "@ + expected)),
{
    assert(expected.len() == 0 ==> expected =~= Seq::empty());
}

proof fn lemma_report_names_differ()
    ensures
        "status"@ != "providers"@,
        "status"@ != "current_provider"@,
        "status"@ != "total_requests"@,
        "status"@ != "total_errors"@,
        "status"@ != "total_rotations"@,
        "providers"@ != "current_provider"@,
        "providers"@ != "total_requests"@,
        "providers"@ != "total_errors"@,
        "providers"@ != "total_rotations"@,
        "current_provider"@ != "total_requests"@,
        "current_provider"@ != "total_errors"@,
        "current_provider"@ != "total_rotations"@,
        "total_requests"@ != "total_errors"@,
        "total_requests"@ != "total_rotations"@,
        "total_errors"@ != "total_rotations"@,
        "provider_failures"@ != "total_requests"@,
        "provider_failures"@ != "total_errors"@,
        "provider_failures"@ != "total_rotations"@,
{
    reveal_strlit("status");
    reveal_strlit("providers");
    reveal_strlit("current_provider");
    reveal_strlit("total_requests");
    reveal_strlit("total_errors");
    reveal_strlit("total_rotations");
    reveal_strlit("provider_failures");
    assert("status"@.len() == 6);
    assert("providers"@.len() == 9);
    assert("current_provider"@.len() == 16);
    assert("total_requests"@.len() == 14);
    assert("total_errors"@.len() == 12);
    assert("total_rotations"@.len() == 15);
    assert("provider_failures"@.len() == 17);
}

/// The report on the state of the proxy says that all is well, how many providers there
/// are, which of them is asked next, if any, and what was counted, and nothing else.
pub proof fn the_state_is_reported(state: AppStateView)
    ensures
        ({
            let report = health_report(state);
            &&& report.get("status"@) == Some(JsonView::String("ok"@))
            &&& report.get("providers"@) == Some(JsonView::Int(state.providers.len() as int))
            &&& report.get("current_provider"@) == Some(
                JsonView::String(
                    match state.next_available() {
                        Some(i) => state.providers[i].name,
                        None => "none"@,
                    },
                ),
            )
            &&& report.get("total_requests"@) == Some(
                JsonView::Int(state.stats.total_requests as int),
            )
            &&& report.get("total_errors"@) == Some(JsonView::Int(state.stats.total_errors as int))
            &&& report.get("total_rotations"@) == Some(
                JsonView::Int(state.stats.total_rotations as int),
            )
            &&& has_only(
                report,
                seq![
                    "status"@,
                    "providers"@,
                    "current_provider"@,
                    "total_requests"@,
                    "total_errors"@,
                    "total_rotations"@,
                ],
            )
        }),
{
    lemma_report_names_differ();
    let names = seq![
        "status"@,
        "providers"@,
        "current_provider"@,
        "total_requests"@,
        "total_errors"@,
        "total_rotations"@,
    ];
    assert(names[0] == "status"@ && names[1] == "providers"@ && names[2] == "current_provider"@);
    assert(names[3] == "total_requests"@ && names[4] == "total_errors"@);
    assert(names[5] == "total_rotations"@);
}

/// The report on what was counted says each of the counts, and nothing else.
pub proof fn the_counts_are_reported(state: AppStateView)
    ensures
        ({
            let report = stats_report(state);
            &&& report.get("total_requests"@) == Some(
                JsonView::Int(state.stats.total_requests as int),
            )
            &&& report.get("total_errors"@) == Some(JsonView::Int(state.stats.total_errors as int))
            &&& report.get("total_rotations"@) == Some(
                JsonView::Int(state.stats.total_rotations as int),
            )
            &&& report.get("provider_failures"@) == Some(
                failures_object(state, state.providers.len() as int),
            )
            &&& has_only(
                report,
                seq![
                    "total_requests"@,
                    "total_errors"@,
                    "total_rotations"@,
                    "provider_failures"@,
                ],
            )
        }),
{
    lemma_report_names_differ();
    let names = seq![
        "total_requests"@,
        "total_errors"@,
        "total_rotations"@,
        "provider_failures"@,
    ];
    assert(names[0] == "total_requests"@ && names[1] == "total_errors"@);
    assert(names[2] == "total_rotations"@ && names[3] == "provider_failures"@);
}

/// The failures are reported under the names of providers and no others.
pub proof fn failures_are_reported_for_providers(state: AppStateView, n: int, name: Seq<char>)
    requires
        0 <= n <= state.providers.len(),
    ensures
        failures_object(state, n) is Object,
        failures_object(state, n).get(name) is Some <==> exists|i: int|
            0 <= i < n && (#[trigger] state.providers[i]).name == name,
    decreases n,
{
    if n > 0 {
        failures_are_reported_for_providers(state, n - 1, name);
        assert(state.providers[n - 1].name == state.providers[n - 1].name);
    }
}

} // verus!
