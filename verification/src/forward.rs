//! What is sent to a provider: where to, with which body, and on whose behalf.

use crate::anthropic::cache::{
    apply_cache_hints, cache_hinted, cache_hints_ask_the_same, cache_markable, is_cache_markable,
};
use crate::anthropic::request::{openai_request, request_to_openai};
use crate::codec::{depth_limit, json_of_bytes, json_text, reads_back};
use crate::compress::{
    apply_compress_hint_anthropic, apply_compress_hint_openai, hinted_anthropic, hinted_openai,
};
use crate::exchange::{after_events, the_providers_stay, Action, Event, Exchange, Route};
use crate::headers::{header_text, headers_view, text_of_header, Header, HeaderView};
use crate::json::{opt_view, Json, JsonView};
use crate::reply::is_authorized;
use crate::state::{AppState, AppStateView, Provider, ProviderView};
use crate::text::{
    a_character_is_taken_off_the_end, after_prefix, dropping_prefix, prefixes_are_what_comes_first,
    same_text, strip_prefix, trim_end_char, without_prefix, without_trailing_char,
};
use vstd::prelude::*;
use vstd::utf8::encode_utf8;

verus! {

/// Whether a request asks for a stream.
pub open spec fn asks_for_stream(body: JsonView) -> bool {
    match body.get("stream"@) {
        Some(JsonView::Bool(b)) => b,
        _ => false,
    }
}

/// Whether a request asks for a stream.
pub fn is_streaming_request(body: &Json) -> (r: bool)
    ensures
        r == asks_for_stream(body@),
{
    match body.get("stream") {
        Some(stream) => match stream.as_bool() {
            Some(b) => b,
            None => false,
        },
        None => false,
    }
}

/// The address of a path at a provider.
pub open spec fn address(base_url: Seq<char>, path: Seq<char>) -> Seq<char> {
    trim_end_char(base_url, '/') + path
}

/// The path at the provider of a request that came in under `/v1`.
pub open spec fn openai_path(path: Seq<char>) -> Seq<char> {
    without_prefix(path, "/v1"@)
}

/// The path at the provider of any other request.
pub open spec fn catch_all_path(path: Seq<char>) -> Seq<char> {
    match strip_prefix(path, "/v1"@) {
        Some(rest) => rest,
        None => without_prefix(path, "/anthropic"@),
    }
}

fn address_of(base_url: &str, path: &str) -> (r: String)
    ensures
        r@ == address(base_url@, path@),
{
    without_trailing_char(base_url, '/').concat(path)
}

/// Where a request of the OpenAI format goes.
pub fn openai_url(base_url: &str, path: &str) -> (r: String)
    ensures
        r@ == address(base_url@, openai_path(path@)),
{
    let rest: String = dropping_prefix(path, "/v1");
    address_of(base_url, rest.as_str())
}

/// Where a request of the Anthropic format goes.
pub fn anthropic_url(base_url: &str) -> (r: String)
    ensures
        r@ == address(base_url@, "/chat/completions"@),
{
    address_of(base_url, "/chat/completions")
}

/// Where any other request goes.
pub fn catch_all_url(base_url: &str, path: &str) -> (r: String)
    ensures
        r@ == address(base_url@, catch_all_path(path@)),
{
    let rest: String = match after_prefix(path, "/v1") {
        Some(rest) => rest,
        None => dropping_prefix(path, "/anthropic"),
    };
    address_of(base_url, rest.as_str())
}

/// The header by which a provider knows its client.
pub fn bearer(api_key: &str) -> (r: String)
    ensures
        r@ == "Bearer "@ + api_key@,
{
    "Bearer ".to_owned().concat(api_key)
}

/// A body that asks for the given model.
pub open spec fn for_model(body: JsonView, model: Seq<char>) -> JsonView {
    body.with("model"@, JsonView::String(model))
}

/// Makes a body ask for the given model, whatever it asked for.
pub fn set_model(body: &mut Json, model: &str)
    requires
        old(body)@.accepts_members(),
    ensures
        final(body)@ == for_model(old(body)@, model@),
{
    body.set("model", Json::text(model));
}

/// The bytes that are sent for a request: a JSON value asks for the given model,
/// anything else is sent as it came.
pub open spec fn bytes_for_model(
    parsed: Option<JsonView>,
    raw: Seq<u8>,
    model: Seq<char>,
) -> Seq<u8> {
    match parsed {
        Some(body) => encode_utf8(json_text(for_model(body, model))),
        None => raw,
    }
}

/// The bytes that are sent for a request with that JSON value, or, where it has none,
/// with those bytes.
pub fn body_for_model(parsed: Option<&Json>, raw: &Vec<u8>, model: &str) -> (r: Vec<u8>)
    requires
        parsed matches Some(body) ==> body@.accepts_members(),
    ensures
        r@ == bytes_for_model(opt_view(parsed), raw@, model@),
        parsed matches Some(body) ==> reads_back(for_model(body@, model@), depth_limit())
            ==> json_of_bytes(r@) == Some(for_model(body@, model@)),
{
    match parsed {
        Some(body) => {
            let mut asked: Json = body.copy();
            set_model(&mut asked, model);
            asked.to_bytes()
        },
        None => {
            let out: Vec<u8> = raw.clone();
            assert(out@ =~= raw@);
            out
        },
    }
}

/// An Anthropic request with the hints that are switched on.
pub open spec fn compressed(body: JsonView, compress_enabled: bool) -> JsonView {
    if compress_enabled {
        hinted_anthropic(body)
    } else {
        body
    }
}

/// Whether the bodies for an Anthropic request can be made.
pub open spec fn is_preparable(
    body: JsonView,
    compress_enabled: bool,
    cache_enabled: bool,
) -> bool {
    &&& compress_enabled ==> body.accepts_members()
    &&& cache_enabled ==> cache_markable(compressed(body, compress_enabled))
}

/// The bodies that are sent for an Anthropic request: the plain one, and, where
/// caching is switched on, the one made with cache marks.
///
/// There are none where a hint or a mark has no place in the body.
pub fn anthropic_bodies(body: Json, compress_enabled: bool, cache_enabled: bool) -> (r: Option<
    (Json, Option<Json>),
>)
    ensures
        r is Some <==> is_preparable(body@, compress_enabled, cache_enabled),
        r matches Some(bodies) ==> {
            let asked = compressed(body@, compress_enabled);
            &&& bodies.0@ == openai_request(asked)
            &&& bodies.1 is Some <==> cache_enabled
            &&& bodies.1 matches Some(cached) ==> cached@ == openai_request(cache_hinted(asked))
        },
{
    let mut asked: Json = body;
    if compress_enabled {
        if !asked.accepts_members() {
            return None;
        }
        apply_compress_hint_anthropic(&mut asked);
    }
    if cache_enabled && !is_cache_markable(&asked) {
        return None;
    }
    let plain: Json = request_to_openai(&mut asked);
    let cached: Option<Json> = if cache_enabled {
        apply_cache_hints(&mut asked);
        Some(request_to_openai(&mut asked))
    } else {
        None
    };
    Some((plain, cached))
}

/// A request that has come in, with what is needed to send it on.
#[derive(Debug, PartialEq, Eq)]
pub enum Incoming {
    /// A request of the OpenAI format.
    OpenAi { path: String, body: Json },
    /// A request of the Anthropic format: its plain body, and the one made with
    /// cache marks where caching is switched on.
    Anthropic { plain: Json, cached: Option<Json> },
    /// Any other request: its bytes, and the value that they spell.
    CatchAll {
        method: String,
        path: String,
        headers: Vec<Header>,
        raw: Vec<u8>,
        parsed: Option<Json>,
    },
}

/// What a request that has come in stands for.
pub enum IncomingView {
    OpenAi { path: Seq<char>, body: JsonView },
    Anthropic { plain: JsonView, cached: Option<JsonView> },
    CatchAll {
        method: Seq<char>,
        path: Seq<char>,
        headers: Seq<HeaderView>,
        raw: Seq<u8>,
        parsed: Option<JsonView>,
    },
}

/// What an optional value stands for.
pub open spec fn opt_json(v: Option<Json>) -> Option<JsonView> {
    match v {
        Some(j) => Some(j@),
        None => None,
    }
}

impl View for Incoming {
    type V = IncomingView;

    open spec fn view(&self) -> IncomingView {
        match *self {
            Incoming::OpenAi { path, body } => IncomingView::OpenAi { path: path@, body: body@ },
            Incoming::Anthropic { plain, cached } => IncomingView::Anthropic {
                plain: plain@,
                cached: opt_json(cached),
            },
            Incoming::CatchAll { method, path, headers, raw, parsed } => IncomingView::CatchAll {
                method: method@,
                path: path@,
                headers: headers_view(headers@),
                raw: raw@,
                parsed: opt_json(parsed),
            },
        }
    }
}

/// A request to a provider.
#[derive(Debug, PartialEq, Eq)]
pub struct Outgoing {
    pub method: String,
    pub url: String,
    /// The header `Authorization`.
    pub authorization: String,
    /// The header `Content-Type`.
    pub content_type: String,
    pub body: Vec<u8>,
}

/// What a request to a provider stands for.
#[verifier::ext_equal]
pub struct OutgoingView {
    pub method: Seq<char>,
    pub url: Seq<char>,
    pub authorization: Seq<char>,
    pub content_type: Seq<char>,
    pub body: Seq<u8>,
}

impl View for Outgoing {
    type V = OutgoingView;

    open spec fn view(&self) -> OutgoingView {
        OutgoingView {
            method: self.method@,
            url: self.url@,
            authorization: self.authorization@,
            content_type: self.content_type@,
            body: self.body@,
        }
    }
}

impl IncomingView {
    /// The way on which the request came in.
    pub open spec fn route(self) -> Route {
        match self {
            IncomingView::OpenAi { .. } => Route::OpenAi,
            IncomingView::Anthropic { .. } => Route::Anthropic,
            IncomingView::CatchAll { .. } => Route::CatchAll,
        }
    }

    /// Whether there is a body that bears cache marks.
    pub open spec fn has_cached_body(self) -> bool {
        self matches IncomingView::Anthropic { cached, .. } && cached is Some
    }

    /// The JSON value that is sent, but for the model, where one is.
    pub open spec fn json(self, with_cache: bool) -> Option<JsonView> {
        match self {
            IncomingView::OpenAi { body, .. } => Some(body),
            IncomingView::Anthropic { plain, cached } => if with_cache && cached is Some {
                cached
            } else {
                Some(plain)
            },
            IncomingView::CatchAll { parsed, .. } => parsed,
        }
    }

    /// Whether every value that may be sent can ask for a model.
    pub open spec fn is_sendable(self) -> bool {
        &&& self.json(true) matches Some(body) ==> body.accepts_members()
        &&& self.json(false) matches Some(body) ==> body.accepts_members()
    }

    /// What is sent where no JSON value is.
    pub open spec fn raw_bytes(self) -> Seq<u8> {
        match self {
            IncomingView::CatchAll { raw, .. } => raw,
            _ => Seq::empty(),
        }
    }

    /// The path at the provider.
    pub open spec fn provider_path(self) -> Seq<char> {
        match self {
            IncomingView::OpenAi { path, .. } => openai_path(path),
            IncomingView::Anthropic { .. } => "/chat/completions"@,
            IncomingView::CatchAll { path, .. } => catch_all_path(path),
        }
    }

    /// The content type: the client's on the catch-all route, where it gives one.
    pub open spec fn content_type(self) -> Seq<char> {
        match self {
            IncomingView::CatchAll { headers, .. } => match header_text(
                headers,
                "content-type"@,
            ) {
                Some(text) => text,
                None => "application/json"@,
            },
            _ => "application/json"@,
        }
    }

    /// The method: the client's on the catch-all route.
    pub open spec fn method(self) -> Seq<char> {
        match self {
            IncomingView::CatchAll { method, .. } => method,
            _ => "POST"@,
        }
    }
}

/// The request that is sent to a provider.
pub open spec fn outgoing(
    provider: ProviderView,
    with_cache: bool,
    incoming: IncomingView,
) -> OutgoingView {
    OutgoingView {
        method: incoming.method(),
        url: address(provider.base_url, incoming.provider_path()),
        authorization: "Bearer "@ + provider.api_key,
        content_type: incoming.content_type(),
        body: bytes_for_model(incoming.json(with_cache), incoming.raw_bytes(), provider.model),
    }
}

impl Incoming {
    /// A request of the OpenAI format, with the hint where that is switched on.
    pub fn openai(path: String, body: Json, compress_enabled: bool) -> (r: Incoming)
        ensures
            r@ == (IncomingView::OpenAi {
                path: path@,
                body: if compress_enabled {
                    hinted_openai(body@)
                } else {
                    body@
                },
            }),
    {
        let mut asked: Json = body;
        if compress_enabled {
            apply_compress_hint_openai(&mut asked);
        }
        Incoming::OpenAi { path, body: asked }
    }

    /// A request of the Anthropic format, with the hints that are switched on. There
    /// is none where a hint or a mark has no place in the body.
    pub fn anthropic(body: Json, compress_enabled: bool, cache_enabled: bool) -> (r: Option<
        Incoming,
    >)
        ensures
            r is Some <==> is_preparable(body@, compress_enabled, cache_enabled),
            r matches Some(incoming) ==> incoming@ == (IncomingView::Anthropic {
                plain: openai_request(compressed(body@, compress_enabled)),
                cached: if cache_enabled {
                    Some(openai_request(cache_hinted(compressed(body@, compress_enabled))))
                } else {
                    None
                },
            }) && incoming@.is_sendable(),
    {
        match anthropic_bodies(body, compress_enabled, cache_enabled) {
            Some((plain, cached)) => Some(Incoming::Anthropic { plain, cached }),
            None => None,
        }
    }

    /// Any other request.
    pub fn catch_all(method: String, path: String, headers: Vec<Header>, raw: Vec<u8>) -> (r:
        Incoming)
        ensures
            r@ == (IncomingView::CatchAll {
                method: method@,
                path: path@,
                headers: headers_view(headers@),
                raw: raw@,
                parsed: json_of_bytes(raw@),
            }),
    {
        let parsed: Option<Json> = Json::parse_bytes(raw.as_slice());
        Incoming::CatchAll { method, path, headers, raw, parsed }
    }

    /// The way on which the request came in.
    pub fn route(&self) -> (r: Route)
        ensures
            r == self@.route(),
    {
        match self {
            Incoming::OpenAi { .. } => Route::OpenAi,
            Incoming::Anthropic { .. } => Route::Anthropic,
            Incoming::CatchAll { .. } => Route::CatchAll,
        }
    }

    /// Whether there is a body that bears cache marks.
    pub fn has_cached_body(&self) -> (r: bool)
        ensures
            r == self@.has_cached_body(),
    {
        match self {
            Incoming::Anthropic { cached, .. } => cached.is_some(),
            _ => false,
        }
    }

    /// The JSON value that is sent, but for the model, where one is.
    fn json(&self, with_cache: bool) -> (r: Option<&Json>)
        ensures
            opt_view(r) == self@.json(with_cache),
    {
        match self {
            Incoming::OpenAi { body, .. } => Some(body),
            Incoming::Anthropic { plain, cached } => match cached {
                Some(cached) => if with_cache {
                    Some(cached)
                } else {
                    Some(plain)
                },
                None => Some(plain),
            },
            Incoming::CatchAll { parsed, .. } => parsed.as_ref(),
        }
    }

    /// Whether every value that may be sent can ask for a model.
    pub fn is_sendable(&self) -> (r: bool)
        ensures
            r == self@.is_sendable(),
    {
        let cached: bool = match self.json(true) {
            Some(body) => body.accepts_members(),
            None => true,
        };
        let plain: bool = match self.json(false) {
            Some(body) => body.accepts_members(),
            None => true,
        };
        cached && plain
    }
}

/// The request that an exchange sends for one that has come in: to its provider,
/// with that provider's key and model. Of a client's headers it bears at most the
/// content type.
pub fn outgoing_request(exchange: &Exchange, state: &AppState, incoming: &Incoming) -> (r: Outgoing)
    requires
        exchange.provider < state@.providers.len(),
        incoming@.is_sendable(),
    ensures
        r@ == outgoing(
            state@.providers[exchange.provider as int],
            exchange.with_cache,
            incoming@,
        ),
        incoming@.json(exchange.with_cache) matches Some(body) ==> {
            let asked = for_model(body, state@.providers[exchange.provider as int].model);
            reads_back(asked, depth_limit()) ==> json_of_bytes(r.body@) == Some(asked)
        },
{
    let provider: &Provider = &state.providers[exchange.provider];
    let base_url: &str = provider.base_url.as_str();
    let none: Vec<u8> = Vec::new();
    let (method, url, content_type, raw): (String, String, String, &Vec<u8>) = match incoming {
        Incoming::OpenAi { path, .. } => (
            "POST".to_owned(),
            openai_url(base_url, path.as_str()),
            "application/json".to_owned(),
            &none,
        ),
        Incoming::Anthropic { .. } => (
            "POST".to_owned(),
            anthropic_url(base_url),
            "application/json".to_owned(),
            &none,
        ),
        Incoming::CatchAll { method, path, headers, raw, .. } => {
            let content_type: String = match text_of_header(headers, "content-type") {
                Some(text) => text.to_owned(),
                None => "application/json".to_owned(),
            };
            (method.clone(), catch_all_url(base_url, path.as_str()), content_type, raw)
        },
    };
    let body: Vec<u8> = body_for_model(
        incoming.json(exchange.with_cache),
        raw,
        provider.model.as_str(),
    );
    Outgoing { method, url, authorization: bearer(provider.api_key.as_str()), content_type, body }
}

/// Whether a header of an answer is handed on. The length and the encoding are
/// those of the answer as it is sent.
pub fn passes_header(name: &str) -> (r: bool)
    ensures
        r == (name@ != "transfer-encoding"@ && name@ != "content-length"@),
{
    !same_text(name, "transfer-encoding") && !same_text(name, "content-length")
}

/// A base address loses the slashes at its end and nothing else, so that one slash
/// joins it to a path that begins with one.
pub proof fn bases_lose_their_last_slashes(base_url: Seq<char>)
    ensures
        ({
            let base = trim_end_char(base_url, '/');
            &&& base.len() <= base_url.len()
            &&& base_url.take(base.len() as int) == base
            &&& base.len() > 0 ==> base.last() != '/'
            &&& forall|i: int| base.len() <= i < base_url.len() ==> base_url[i] == '/'
        }),
    decreases base_url.len(),
{
    let base = trim_end_char(base_url, '/');
    if base_url.len() > 0 && base_url.last() == '/' {
        bases_lose_their_last_slashes(base_url.drop_last());
        assert(base_url.take(base.len() as int) =~= base_url.drop_last().take(base.len() as int));
        assert forall|i: int| base.len() <= i < base_url.len() implies base_url[i] == '/' by {
            if i < base_url.len() - 1 {
                assert(base_url.drop_last()[i] == '/');
            }
        }
    } else {
        assert(base_url.take(base.len() as int) =~= base);
    }
}

/// Whatever model a body asks for, it is sent asking for the provider's, and
/// everything else in it is left.
pub proof fn the_model_is_the_providers(body: JsonView, model: Seq<char>, key: Seq<char>)
    requires
        body.accepts_members(),
    ensures
        for_model(body, model).str_at("model"@) == Some(model),
        key != "model"@ ==> for_model(body, model).get(key) == body.get(key),
{
}

/// Every Anthropic request that is converted can be sent asking for the provider's
/// model, and is then sent asking for it.
pub proof fn converted_requests_ask_for_the_providers_model(body: JsonView, model: Seq<char>)
    ensures
        openai_request(body).accepts_members(),
        for_model(openai_request(body), model).str_at("model"@) == Some(model),
{
}

/// With and without cache marks the provider is sent the same body.
pub proof fn cached_and_plain_bodies_are_the_same(body: JsonView, compress_enabled: bool)
    ensures
        openai_request(cache_hinted(compressed(body, compress_enabled))) == openai_request(
            compressed(body, compress_enabled),
        ),
{
    cache_hints_ask_the_same(compressed(body, compress_enabled));
}

/// A request bears the key of the provider it is sent to, and a value that it bears
/// asks for that provider's model.
pub proof fn requests_are_the_providers(
    provider: ProviderView,
    with_cache: bool,
    incoming: IncomingView,
)
    requires
        incoming.is_sendable(),
    ensures
        outgoing(provider, with_cache, incoming).authorization == "Bearer "@ + provider.api_key,
        incoming.json(with_cache) matches Some(body) ==> {
            let asked = for_model(body, provider.model);
            &&& asked.str_at("model"@) == Some(provider.model)
            &&& outgoing(provider, with_cache, incoming).body == encode_utf8(json_text(asked))
        },
{
}

/// The requests that an exchange sends, one before the first event and one after
/// each that calls for it.
pub open spec fn requests_sent(
    exchange: Exchange,
    state: AppStateView,
    incoming: IncomingView,
    events: Seq<Event>,
) -> Seq<OutgoingView>
    decreases events.len(),
{
    let (after, last, action) = after_events(exchange, state, events);
    let request = outgoing(after.providers[last.provider as int], last.with_cache, incoming);
    if events.len() == 0 {
        seq![request]
    } else {
        let before = requests_sent(exchange, state, incoming, events.drop_last());
        if action == Action::Send {
            before.push(request)
        } else {
            before
        }
    }
}

/// The requests that are sent for one that came in and was let in.
pub open spec fn requests_for(
    state: AppStateView,
    incoming: IncomingView,
    events: Seq<Event>,
) -> Seq<OutgoingView> {
    let counted = state.request_counted();
    let (first, action) = Exchange::fresh(
        counted,
        incoming.route(),
        incoming.has_cached_body(),
    ).chosen(counted);
    if action == Action::Send {
        requests_sent(first, counted, incoming, events)
    } else {
        Seq::empty()
    }
}

/// Whether a request is the one that is sent to some provider of the list.
pub open spec fn is_to_a_provider(
    request: OutgoingView,
    providers: Seq<ProviderView>,
    incoming: IncomingView,
) -> bool {
    exists|p: int, with_cache: bool|
        0 <= p < providers.len() && request == #[trigger] outgoing(
            providers[p],
            with_cache,
            incoming,
        )
}

/// Each request that is sent is the one to some provider of the list.
pub proof fn requests_go_to_providers(
    exchange: Exchange,
    state: AppStateView,
    incoming: IncomingView,
    events: Seq<Event>,
)
    requires
        state.well_formed(),
        exchange.well_formed(state),
    ensures
        forall|i: int|
            0 <= i < requests_sent(exchange, state, incoming, events).len() ==> is_to_a_provider(
                #[trigger] requests_sent(exchange, state, incoming, events)[i],
                state.providers,
                incoming,
            ),
    decreases events.len(),
{
    the_providers_stay(exchange, state, events);
    let (after, last, action) = after_events(exchange, state, events);
    let sent = requests_sent(exchange, state, incoming, events);
    if events.len() > 0 {
        requests_go_to_providers(exchange, state, incoming, events.drop_last());
    }
    assert forall|i: int| 0 <= i < sent.len() implies is_to_a_provider(
        #[trigger] sent[i],
        state.providers,
        incoming,
    ) by {
        if events.len() > 0 && i < requests_sent(
            exchange,
            state,
            incoming,
            events.drop_last(),
        ).len() {
            assert(sent[i] == requests_sent(exchange, state, incoming, events.drop_last())[i]);
        } else {
            assert(sent[i] == outgoing(
                state.providers[last.provider as int],
                last.with_cache,
                incoming,
            ));
        }
    }
}

/// Of a client's headers none but the content type reaches a provider: two requests
/// of the catch-all route that are let in and differ in other headers alone are sent
/// on alike, whatever comes of each sending.
pub proof fn client_headers_are_not_sent_on(
    state: AppStateView,
    method: Seq<char>,
    path: Seq<char>,
    raw: Seq<u8>,
    parsed: Option<JsonView>,
    headers: Seq<HeaderView>,
    others: Seq<HeaderView>,
    events: Seq<Event>,
)
    requires
        is_authorized(state.expected_api_key, header_text(headers, "authorization"@)),
        is_authorized(state.expected_api_key, header_text(others, "authorization"@)),
        header_text(headers, "content-type"@) == header_text(others, "content-type"@),
    ensures
        requests_for(
            state,
            IncomingView::CatchAll { method, path, headers, raw, parsed },
            events,
        ) == requests_for(
            state,
            IncomingView::CatchAll { method, path, headers: others, raw, parsed },
            events,
        ),
{
    let counted = state.request_counted();
    let one = IncomingView::CatchAll { method, path, headers, raw, parsed };
    let other = IncomingView::CatchAll { method, path, headers: others, raw, parsed };
    let first = Exchange::fresh(counted, Route::CatchAll, false).chosen(counted).0;
    lemma_sent_alike(first, counted, one, other, events);
}

proof fn lemma_sent_alike(
    exchange: Exchange,
    state: AppStateView,
    one: IncomingView,
    other: IncomingView,
    events: Seq<Event>,
)
    requires
        forall|provider: ProviderView, with_cache: bool| #[trigger]
            outgoing(provider, with_cache, one) == outgoing(provider, with_cache, other),
    ensures
        requests_sent(exchange, state, one, events) == requests_sent(
            exchange,
            state,
            other,
            events,
        ),
    decreases events.len(),
{
    if events.len() > 0 {
        lemma_sent_alike(exchange, state, one, other, events.drop_last());
    }
}

/// A request goes to the provider's base address, without the slashes at its end, and
/// the path that it came in under: without `/v1`, and on the catch-all route without
/// `/anthropic` where that stands in its place. An Anthropic request goes to the chat
/// completions. The method and the content type are the client's on the catch-all route
/// alone.
pub proof fn requests_go_where_their_paths_say(
    provider: ProviderView,
    with_cache: bool,
    incoming: IncomingView,
    base: Seq<char>,
    slashes: nat,
    rest: Seq<char>,
)
    requires
        provider.base_url == base + Seq::new(slashes, |i: int| '/'),
        base.len() > 0 ==> base.last() != '/',
    ensures
        ({
            let sent = outgoing(provider, with_cache, incoming);
            match incoming {
                IncomingView::OpenAi { path, .. } => {
                    &&& sent.method == "POST"@
                    &&& sent.content_type == "application/json"@
                    &&& path == "/v1"@ + rest ==> sent.url == base + rest
                    &&& (forall|r: Seq<char>| path != #[trigger] ("/v1"@ + r)) ==> sent.url == base
                        + path
                },
                IncomingView::Anthropic { .. } => {
                    &&& sent.method == "POST"@
                    &&& sent.content_type == "application/json"@
                    &&& sent.url == base + "/chat/completions"@
                },
                IncomingView::CatchAll { method, path, headers, .. } => {
                    &&& sent.method == method
                    &&& sent.content_type == match header_text(headers, "content-type"@) {
                        Some(text) => text,
                        None => "application/json"@,
                    }
                    &&& path == "/v1"@ + rest ==> sent.url == base + rest
                    &&& path == "/anthropic"@ + rest ==> sent.url == base + rest
                    &&& (forall|r: Seq<char>| path != #[trigger] ("/v1"@ + r)) && (forall|
                        r: Seq<char>,
                    | path != #[trigger] ("/anthropic"@ + r)) ==> sent.url == base + path
                },
            }
        }),
{
    a_character_is_taken_off_the_end(base, '/', slashes);
    match incoming {
        IncomingView::OpenAi { path, .. } => {
            lemma_path_without(path, "/v1"@, rest);
        },
        IncomingView::Anthropic { .. } => {},
        IncomingView::CatchAll { path, .. } => {
            reveal_strlit("/v1");
            reveal_strlit("/anthropic");
            lemma_path_without(path, "/v1"@, rest);
            lemma_path_without(path, "/anthropic"@, rest);
            if path == "/anthropic"@ + rest {
                assert(path[1] == 'a');
                if strip_prefix(path, "/v1"@) is Some {
                    assert(path.take(3)[1] == 'v');
                }
            }
        },
    }
}

proof fn lemma_path_without(path: Seq<char>, prefix: Seq<char>, rest: Seq<char>)
    ensures
        path == prefix + rest ==> strip_prefix(path, prefix) == Some(rest) && without_prefix(
            path,
            prefix,
        ) == rest,
        (forall|r: Seq<char>| path != #[trigger] (prefix + r)) ==> strip_prefix(path, prefix)
            is None && without_prefix(path, prefix) == path,
{
    prefixes_are_what_comes_first(path, prefix, rest);
    match strip_prefix(path, prefix) {
        Some(r) => {
            prefixes_are_what_comes_first(path, prefix, r);
            assert(path == prefix + r);
        },
        None => {},
    }
}

/// What is sent is the value that came in, but for the model: an Anthropic request with
/// its cache marks where they are wanted and there are any, else the plain one. Bytes that
/// spell no value are sent as they came.
pub proof fn requests_say_what_came_in(
    provider: ProviderView,
    with_cache: bool,
    incoming: IncomingView,
)
    ensures
        ({
            let sent = outgoing(provider, with_cache, incoming).body;
            let model = JsonView::String(provider.model);
            match incoming {
                IncomingView::OpenAi { body, .. } => sent == encode_utf8(
                    json_text(body.with("model"@, model)),
                ),
                IncomingView::Anthropic { plain, cached: Some(marked) } => {
                    &&& with_cache ==> sent == encode_utf8(json_text(marked.with("model"@, model)))
                    &&& !with_cache ==> sent == encode_utf8(json_text(plain.with("model"@, model)))
                },
                IncomingView::Anthropic { plain, cached: None } => sent == encode_utf8(
                    json_text(plain.with("model"@, model)),
                ),
                IncomingView::CatchAll { parsed: Some(body), .. } => sent == encode_utf8(
                    json_text(body.with("model"@, model)),
                ),
                IncomingView::CatchAll { raw, parsed: None, .. } => sent == raw,
            }
        }),
{
}

/// A stream is asked for by the member `stream`, and only by saying that it is true.
pub proof fn streams_are_asked_for_by_name(body: JsonView)
    ensures
        asks_for_stream(body) <==> body.get("stream"@) == Some(JsonView::Bool(true)),
{
}

/// A request is known by the way it came in, has a marked body where it is an Anthropic
/// one that was given one, and can be sent where all that it may send can have members.
pub proof fn requests_are_told_apart(incoming: IncomingView)
    ensures
        incoming.route() == Route::OpenAi <==> incoming is OpenAi,
        incoming.route() == Route::Anthropic <==> incoming is Anthropic,
        incoming.route() == Route::CatchAll <==> incoming is CatchAll,
        incoming.has_cached_body() <==> (incoming matches IncomingView::Anthropic {
            cached: Some(_),
            ..
        }),
        incoming.is_sendable() <==> match incoming {
            IncomingView::OpenAi { body, .. } => body is Object || body is Null,
            IncomingView::Anthropic { plain, cached } => (plain is Object || plain is Null) && (
            cached matches Some(marked) ==> marked is Object || marked is Null),
            IncomingView::CatchAll { parsed, .. } => parsed matches Some(body) ==> body is Object
                || body is Null,
        },
{
    match incoming {
        IncomingView::Anthropic { plain, cached } => {
            assert(incoming.json(false) == Some(plain));
            match cached {
                Some(marked) => {
                    assert(incoming.json(true) == Some(marked));
                },
                None => {
                    assert(incoming.json(true) == Some(plain));
                },
            }
        },
        _ => {
            assert(incoming.json(true) == incoming.json(false));
        },
    }
}

/// An Anthropic request is prepared without the hint where that is switched off, and
/// cannot be prepared only where the hint or a mark that is switched on has no place.
pub proof fn requests_are_prepared_as_switched_on(body: JsonView)
    ensures
        compressed(body, false) == body,
        compressed(body, true) == hinted_anthropic(body),
        is_preparable(body, false, false),
        is_preparable(body, true, false) <==> body is Object || body is Null,
        is_preparable(body, false, true) <==> cache_markable(body),
        is_preparable(body, true, true) <==> (body is Object || body is Null) && cache_markable(
            hinted_anthropic(body),
        ),
{
}

} // verus!
