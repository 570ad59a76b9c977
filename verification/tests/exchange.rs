use llmkeyrotator::exchange::{Action, Event, Exchange, Route};
use llmkeyrotator::state::{AppState, Provider};

fn provider(name: &str) -> Provider {
    Provider {
        name: name.to_string(),
        base_url: String::new(),
        model: String::new(),
        api_key: String::new(),
    }
}

fn state(names: &[&str]) -> AppState {
    AppState::new(names.iter().map(|n| provider(n)).collect(), String::new(), false, false)
}

fn asked(route: Route, has_cached_body: bool, state: &mut AppState, events: &[Event]) -> (Vec<usize>, Action) {
    let (mut exchange, mut action) = Exchange::begin(state, route, has_cached_body);
    let mut providers = Vec::new();
    for event in events {
        if action != Action::Send {
            break;
        }
        providers.push(exchange.provider);
        action = exchange.advance(state, *event);
    }
    (providers, action)
}

#[test]
fn a_good_answer_is_delivered_and_counts_nothing() {
    for status in [200, 204, 299] {
        for route in [Route::OpenAi, Route::Anthropic, Route::CatchAll] {
            let mut s = state(&["a", "b"]);
            assert_eq!(
                asked(route, false, &mut s, &[Event::Answered(status)]),
                (vec![0], Action::Deliver)
            );
            assert_eq!(s, state(&["a", "b"]));
        }
    }
}

#[test]
fn redirections_are_delivered_on_the_catch_all_route_alone() {
    for status in [300, 302, 399] {
        let mut s = state(&["a"]);
        assert_eq!(
            asked(Route::CatchAll, false, &mut s, &[Event::Answered(status)]).1,
            Action::Deliver
        );
        assert_eq!(
            asked(Route::OpenAi, false, &mut s, &[Event::Answered(status)]).1,
            Action::GiveUp
        );
        assert_eq!(
            asked(Route::Anthropic, false, &mut s, &[Event::Answered(status)]).1,
            Action::GiveUp
        );
    }
}

#[test]
fn providers_are_tried_in_turn_from_the_current_one() {
    let mut s = state(&["a", "b", "c"]);
    s.rotate_provider();
    let events = [Event::Answered(500), Event::TimedOut, Event::SendFailed];
    assert_eq!(
        asked(Route::OpenAi, false, &mut s, &events),
        (vec![1, 2, 0], Action::GiveUp)
    );
    assert_eq!(s.stats.total_errors, 3);
    assert_eq!(s.stats.total_rotations, 3);
    assert_eq!(s.stats.provider_failures, vec![1, 1, 1]);
    assert_eq!(s.current_index, 3);
}

#[test]
fn the_last_failure_does_not_rotate() {
    let mut s = state(&["a"]);
    assert_eq!(
        asked(Route::OpenAi, false, &mut s, &[Event::BodyUnreadable]),
        (vec![0], Action::GiveUp)
    );
    assert_eq!(s.stats.total_errors, 1);
    assert_eq!(s.stats.total_rotations, 0);
    assert_eq!(s.current_index, 0);
}

#[test]
fn the_next_request_begins_where_rotation_stands() {
    let mut s = state(&["a", "b"]);
    let events = [Event::Answered(429), Event::Answered(200)];
    assert_eq!(asked(Route::OpenAi, false, &mut s, &events), (vec![0, 1], Action::Deliver));
    assert_eq!(
        asked(Route::OpenAi, false, &mut s, &[Event::Answered(200)]),
        (vec![1], Action::Deliver)
    );
}

#[test]
fn a_timeout_counts_once_on_every_route() {
    for route in [Route::OpenAi, Route::Anthropic, Route::CatchAll] {
        let mut s = state(&["a", "b"]);
        let events = [Event::TimedOut, Event::Answered(200)];
        assert_eq!(asked(route, false, &mut s, &events), (vec![0, 1], Action::Deliver));
        assert_eq!(s.stats.total_errors, 1);
        assert_eq!(s.stats.total_rotations, 1);
        assert_eq!(s.current_index, 1);
        assert_eq!(s.stats.provider_failures, vec![1, 0]);
    }
}

#[test]
fn all_but_the_skipped_ones_are_asked() {
    let mut s = state(&["a", "b", "c", "d"]);
    s.skip_provider_permanently("c");
    let events = [Event::TimedOut, Event::SendFailed, Event::Answered(500), Event::Answered(500)];
    assert_eq!(
        asked(Route::Anthropic, false, &mut s, &events),
        (vec![0, 1, 3, 3], Action::GiveUp)
    );
    assert_eq!(s.stats.total_errors, 4);
    assert_eq!(s.stats.total_rotations, 3);
}

#[test]
fn refused_cache_marks_are_left_out_for_the_same_provider() {
    let mut s = state(&["a", "b"]);
    let (mut exchange, action) = Exchange::begin(&s, Route::Anthropic, true);
    assert_eq!(action, Action::Send);
    assert!(exchange.with_cache);
    assert_eq!(exchange.advance(&mut s, Event::Answered(400)), Action::Send);
    assert!(!exchange.with_cache);
    assert_eq!(exchange.provider, 0);
    assert_eq!(s, state(&["a", "b"]));
    assert_eq!(exchange.advance(&mut s, Event::Answered(400)), Action::Send);
    assert!(exchange.with_cache);
    assert_eq!(exchange.provider, 1);
    assert_eq!(s.stats.total_errors, 1);
    assert_eq!(exchange.advance(&mut s, Event::Answered(503)), Action::GiveUp);
    assert_eq!(s.stats.provider_failures, vec![1, 1]);
}

#[test]
fn a_bad_request_without_cache_marks_is_a_failure() {
    let mut s = state(&["a", "b"]);
    let events = [Event::Answered(400), Event::Answered(400)];
    assert_eq!(asked(Route::Anthropic, false, &mut s, &events), (vec![0, 1], Action::GiveUp));
    let mut s = state(&["a", "b"]);
    assert_eq!(asked(Route::OpenAi, true, &mut s, &events), (vec![0, 1], Action::GiveUp));
}

#[test]
fn a_body_too_large_skips_the_provider_for_good() {
    let mut s = state(&["a", "b", "c"]);
    let events = [Event::Answered(413), Event::Answered(200)];
    // The skip moves on once and the failure once more.
    assert_eq!(asked(Route::OpenAi, false, &mut s, &events), (vec![0, 2], Action::Deliver));
    assert_eq!(s.stats.skipped_providers, vec!["a".to_string()]);
    assert_eq!(s.current_index, 2);
    assert_eq!(s.stats.total_rotations, 1);
}

#[test]
fn the_exchange_ends_when_all_are_skipped() {
    let mut s = state(&["a", "a"]);
    let events = [Event::Answered(413), Event::Answered(200)];
    assert_eq!(asked(Route::CatchAll, false, &mut s, &events), (vec![0], Action::GiveUp));
    let (_, action) = Exchange::begin(&s, Route::OpenAi, false);
    assert_eq!(action, Action::GiveUp);
}
