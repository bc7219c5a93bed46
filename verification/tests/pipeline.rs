use bytes::Bytes;
use futures::executor::block_on;
use nationstates::client::{NsClient, NsClientBuilder, SLOTS};
use nationstates::error::{ConfigurationError, NsError};
use nationstates::pipeline::{
    conclude, dispatch, ending, settle, Action, Event, NsResponse, Stage, IDENTIFICATION_HEADER,
};
use nationstates::throttle::{Throttle, ThrottlePolicy};
use nationstates::plain::{InvalidHeader, PlainBuilder, PlainRequest};
use nationstates::query::{And, Nothing, Shard};
use nationstates::request::{Client, RequestBuilder, Response};
use nationstates::NS_URL;
use std::future::{ready, Ready};
use std::sync::atomic::{AtomicUsize, Ordering};
use std::sync::Arc;
use std::time::Duration;

#[derive(Debug, Clone, PartialEq)]
struct Canned {
    status: u16,
    headers: Vec<(String, String)>,
    body: Result<Vec<u8>, String>,
}

impl Response for Canned {
    type Error = String;

    fn status(&self) -> u16 {
        self.status
    }

    fn get_header(&self, name: &str) -> Option<Bytes> {
        self.headers
            .iter()
            .find(|(key, _)| key.eq_ignore_ascii_case(name))
            .map(|(_, value)| Bytes::from(value.clone().into_bytes()))
    }

    fn body(self) -> Result<Bytes, String> {
        self.body.map(Bytes::from)
    }

    fn code(&self) -> u16 {
        self.status
    }

    fn header(&self, name: &str) -> Option<Bytes> {
        self.get_header(name)
    }

    fn reads(&self, _read: Result<Bytes, String>) -> bool {
        true
    }
}

#[derive(Debug, Clone)]
struct Double {
    answer: Result<Canned, String>,
    sent: Arc<AtomicUsize>,
}

impl Double {
    fn answering(answer: Result<Canned, String>) -> Double {
        Double { answer, sent: Arc::new(AtomicUsize::new(0)) }
    }

    fn sends(&self) -> usize {
        self.sent.load(Ordering::SeqCst)
    }
}

impl Client for Double {
    type Error = String;
    type Response = Canned;
    type Output = Ready<Result<Canned, String>>;
    type Builder = PlainBuilder;

    fn send(&self, _request: PlainRequest) -> Self::Output {
        self.sent.fetch_add(1, Ordering::SeqCst);
        ready(self.answer.clone())
    }

    fn get(&self, url: &str) -> PlainBuilder {
        PlainBuilder::get(url)
    }

    fn sends(&self, _request: PlainRequest, _pending: Self::Output) -> bool {
        true
    }
}

fn status(code: u16) -> Canned {
    Canned {
        status: code,
        headers: vec![("X-Ratelimit-Requests-Seen".to_string(), "3".to_string())],
        body: Ok(b"<NATION id=\"testlandia\"></NATION>".to_vec()),
    }
}

fn handle(double: Double) -> NsClient<Double> {
    match NsClientBuilder::new().user_agent("tester/1.0").build(double, None) {
        Ok(client) => client,
        Err(error) => panic!("unexpected {:?}", error),
    }
}

fn pair(key: &str, value: &str) -> (String, String) {
    (key.to_string(), value.to_string())
}

#[test]
fn no_identification_means_no_handle() {
    let double = Double::answering(Ok(status(200)));
    let made = NsClientBuilder::new().build(double.clone(), None);
    assert!(matches!(made, Err(ConfigurationError::MissingUserAgent)));
    let made = NsClientBuilder::new().throttle(Duration::from_secs(1)).build(double.clone(), None);
    assert!(matches!(made, Err(ConfigurationError::MissingUserAgent)));
    let made = NsClient::new(double.clone(), None);
    assert!(matches!(made, Err(ConfigurationError::MissingUserAgent)));
    assert_eq!(double.sends(), 0);
}

#[test]
fn identification_comes_from_the_options_first() {
    let double = Double::answering(Ok(status(200)));
    let both = NsClientBuilder::new().user_agent("configured").build(double.clone(), Some("environment"));
    assert_eq!(both.ok().map(|c| c.user_agent().to_string()), Some("configured".to_string()));
    let env_only = NsClientBuilder::new().build(double.clone(), Some("environment"));
    assert_eq!(env_only.ok().map(|c| c.user_agent().to_string()), Some("environment".to_string()));
    let plain = NsClient::new(double, Some("environment"));
    assert_eq!(plain.ok().map(|c| c.user_agent().to_string()), Some("environment".to_string()));
}

#[test]
fn last_configured_identification_wins() {
    let double = Double::answering(Ok(status(200)));
    let made = NsClientBuilder::new().user_agent("first").user_agent("second").build(double, None);
    assert_eq!(made.ok().map(|c| c.user_agent().to_string()), Some("second".to_string()));
}

#[test]
fn handle_keeps_the_default_policy() {
    let client = handle(Double::answering(Ok(status(200))));
    let policy = client.policy();
    assert_eq!(policy.max_requests, 50);
    assert_eq!(policy.window_ms, 35_000);
    assert_eq!(policy.interval(), Some(700));
    let plain = NsClient::new(Double::answering(Ok(status(200))), Some("x"));
    assert_eq!(plain.ok().map(|c| c.policy().window_ms), Some(35_000));
}

#[test]
fn handle_takes_the_configured_window() {
    let double = Double::answering(Ok(status(200)));
    let made = NsClientBuilder::new()
        .throttle(Duration::from_secs(10))
        .user_agent("tester")
        .build(double, None);
    let client = match made {
        Ok(client) => client,
        Err(error) => panic!("unexpected {:?}", error),
    };
    assert_eq!(client.policy().max_requests, 50);
    assert_eq!(client.policy().window_ms, 10_000);
    assert_eq!(client.acquire(0), Some(0));
    assert_eq!(client.acquire(0), Some(200));
}

#[test]
fn handle_has_fifteen_slots() {
    let client = handle(Double::answering(Ok(status(200))));
    assert_eq!(SLOTS, 15);
    assert_eq!(client.slot().available_permits(), 15);
}

#[test]
fn clones_share_one_throttle() {
    let first = handle(Double::answering(Ok(status(200))));
    let second = first.clone();
    let third = second.clone();
    assert_eq!(first.acquire(0), Some(0));
    assert_eq!(second.acquire(0), Some(700));
    assert_eq!(first.acquire(0), Some(1_400));
    assert_eq!(third.acquire(1_500), Some(2_100));
    assert_eq!(second.acquire(10_000), Some(10_000));
    assert_eq!(first.acquire(10_000), Some(10_700));
    assert_eq!(second.user_agent(), "tester/1.0");
    assert_eq!(third.policy(), first.policy());
}

#[test]
fn clones_share_one_pool() {
    let first = handle(Double::answering(Ok(status(200))));
    let second = first.clone();
    assert!(Arc::ptr_eq(first.slot(), second.slot()));
    let permit = first.slot().try_acquire();
    assert!(permit.is_ok());
    assert_eq!(second.slot().available_permits(), 14);
    drop(permit);
    assert_eq!(second.slot().available_permits(), 15);
}

#[test]
fn clones_together_keep_the_quota() {
    let first = handle(Double::answering(Ok(status(200))));
    let second = first.clone();
    let mut times = Vec::new();
    for round in 0..60u64 {
        let now = round * 10;
        for client in [&first, &second] {
            match client.acquire(now) {
                Some(at) => times.push(at),
                None => panic!("no dispatch granted"),
            }
        }
    }
    assert_eq!(times.len(), 120);
    for pair in times.windows(2) {
        assert!(pair[1] - pair[0] >= 700);
    }
    for (i, start) in times.iter().enumerate() {
        let within = times[i..].iter().filter(|t| **t - *start < 35_000).count();
        assert!(within <= 50);
    }
}

#[test]
fn clone_can_give_back_what_another_was_granted() {
    let first = handle(Double::answering(Ok(status(200))));
    let second = first.clone();
    assert_eq!(first.acquire(0), Some(0));
    assert_eq!(second.acquire(0), Some(700));
    assert!(first.give_back(700));
    assert!(!second.give_back(700));
    assert_eq!(second.acquire(0), Some(700));
}

#[test]
fn clone_can_give_back_an_older_grant() {
    let first = handle(Double::answering(Ok(status(200))));
    let second = first.clone();
    assert_eq!(first.acquire(0), Some(0));
    assert_eq!(second.acquire(0), Some(700));
    assert!(second.give_back(0));
    assert_eq!(first.acquire(0), Some(0));
    assert_eq!(second.acquire(0), Some(1_400));
}

#[test]
fn failed_build_gives_its_grant_back() {
    let double = Double::answering(Ok(status(200)));
    let client = handle(double.clone());
    let request = client.request(Shard::new("q", "name")).user_agent("broken\nagent");
    let builder = request.assemble();
    let at = match client.acquire(0) {
        Some(at) => at,
        None => panic!("no dispatch granted"),
    };
    assert_eq!(at, 0);
    let done: Result<NsResponse<Canned>, NsError<InvalidHeader, String>> =
        match dispatch(client.backend(), builder) {
            Ok(pending) => conclude(block_on(pending)),
            Err(error) => Err(error),
        };
    assert_eq!(ending(&done), Event::BuildFailed);
    assert!(client.settle(at, ending(&done)));
    assert_eq!(double.sends(), 0);
    assert_eq!(client.acquire(0), Some(0));
    assert_eq!(client.slot().available_permits(), 15);
}

#[test]
fn sent_request_keeps_its_grant() {
    let client = handle(Double::answering(Err("connection refused".to_string())));
    assert_eq!(client.acquire(0), Some(0));
    assert!(!client.settle(0, Event::SendFailed));
    assert_eq!(client.acquire(0), Some(700));
    assert!(!client.settle(700, Event::Responded));
    assert!(!client.settle(700, Event::Assembled));
    assert!(!client.settle(700, Event::Granted));
    assert_eq!(client.acquire(0), Some(1_400));
}

#[test]
fn settling_on_a_throttle() {
    let mut ticker = match Throttle::new(ThrottlePolicy::default()) {
        Some(made) => made,
        None => panic!("no throttle"),
    };
    assert_eq!(ticker.acquire(0), Some(0));
    assert_eq!(ticker.acquire(0), Some(700));
    assert!(!settle(&mut ticker, 0, Event::Responded));
    assert!(settle(&mut ticker, 0, Event::BuildFailed));
    assert!(!settle(&mut ticker, 0, Event::BuildFailed));
    assert_eq!(ticker.acquire(0), Some(0));
    assert_eq!(ticker.acquire(0), Some(1_400));
}

#[test]
fn options_tell_what_is_configured() {
    let options = NsClientBuilder::new();
    assert_eq!(options.configured_user_agent(), None);
    assert_eq!(options.configured_throttle(), None);
    let options = options.user_agent("tester").throttle(Duration::from_secs(3));
    assert_eq!(options.configured_user_agent(), Some("tester"));
    assert_eq!(options.configured_throttle(), Some(Duration::from_secs(3)));
}

#[test]
fn separate_handles_have_separate_throttles() {
    let first = handle(Double::answering(Ok(status(200))));
    let second = handle(Double::answering(Ok(status(200))));
    assert_eq!(first.acquire(0), Some(0));
    assert_eq!(second.acquire(0), Some(0));
    assert!(!Arc::ptr_eq(first.slot(), second.slot()));
}

#[test]
fn request_is_assembled_with_parameters_then_identification() {
    let client = handle(Double::answering(Ok(status(200))));
    let request = client.request(And(Shard::new("nation", "testlandia"), Shard::new("q", "motto")));
    let built = request.assemble().build();
    assert_eq!(
        built,
        Ok(PlainRequest {
            url: NS_URL.to_string(),
            headers: vec![pair("User-Agent", "tester/1.0")],
            queries: vec![pair("nation", "testlandia"), pair("q", "motto")],
        })
    );
    assert_eq!(IDENTIFICATION_HEADER, "User-Agent");
    assert_eq!(client.backend().sends(), 0);
    assert_eq!(client.acquire(5), Some(5));
}

#[test]
fn request_without_a_query_is_still_a_request() {
    let client = handle(Double::answering(Ok(status(200))));
    let built = client.request(Nothing).assemble().build();
    assert_eq!(
        built,
        Ok(PlainRequest {
            url: NS_URL.to_string(),
            headers: vec![pair("User-Agent", "tester/1.0")],
            queries: vec![],
        })
    );
}

#[test]
fn identification_of_one_request_leaves_the_handle_alone() {
    let client = handle(Double::answering(Ok(status(200))));
    let special = client.request(Shard::new("q", "name")).user_agent("special/2.0");
    let built = special.assemble().build();
    assert_eq!(built.map(|r| r.headers), Ok(vec![pair("User-Agent", "special/2.0")]));
    assert_eq!(client.user_agent(), "tester/1.0");
    let usual = client.request(Shard::new("q", "name")).assemble().build();
    assert_eq!(usual.map(|r| r.headers), Ok(vec![pair("User-Agent", "tester/1.0")]));
}

#[test]
fn assembling_twice_gives_the_same_request() {
    let client = handle(Double::answering(Ok(status(200))));
    let request = client.request(Shard::new("q", "name"));
    assert_eq!(request.assemble().build(), request.assemble().build());
}

#[test]
fn failed_build_sends_nothing() {
    let double = Double::answering(Ok(status(200)));
    let client = handle(double.clone());
    let request = client.request(Shard::new("q", "name")).user_agent("broken\nagent");
    let sent = dispatch(client.backend(), request.assemble());
    assert!(matches!(sent, Err(NsError::BuildError(InvalidHeader { index: 0 }))));
    assert_eq!(double.sends(), 0);
}

#[test]
fn good_build_is_sent_once() {
    let double = Double::answering(Ok(status(200)));
    let client = handle(double.clone());
    let sent = dispatch(client.backend(), client.request(Nothing).assemble());
    assert_eq!(double.sends(), 1);
    let pending = match sent {
        Ok(pending) => pending,
        Err(_) => panic!("the request was refused"),
    };
    let done: Result<NsResponse<Canned>, NsError<InvalidHeader, String>> = conclude(block_on(pending));
    assert_eq!(ending(&done), Event::Responded);
    assert_eq!(done.ok().map(|r| r.status()), Some(200));
    assert_eq!(double.sends(), 1);
}

#[test]
fn not_found_is_a_completed_request() {
    let double = Double::answering(Ok(status(404)));
    let client = handle(double.clone());
    let pending = match dispatch(client.backend(), client.request(Shard::new("nation", "nobody")).assemble()) {
        Ok(pending) => pending,
        Err(_) => panic!("the request was refused"),
    };
    let done: Result<NsResponse<Canned>, NsError<InvalidHeader, String>> = conclude(block_on(pending));
    assert_eq!(ending(&done), Event::Responded);
    assert_eq!(Stage::Dispatching.after(ending(&done)), Some(Stage::Completed));
    match done {
        Ok(response) => {
            assert_eq!(response.status(), 404);
            assert_eq!(response.into_inner(), status(404));
        }
        Err(_) => panic!("a status is no failure"),
    }
}

#[test]
fn server_error_is_a_completed_request() {
    let done: Result<NsResponse<Canned>, NsError<InvalidHeader, String>> = conclude(Ok(status(503)));
    assert_eq!(done.ok().map(|r| r.status()), Some(503));
    let done: Result<NsResponse<Canned>, NsError<InvalidHeader, String>> = conclude(Ok(status(429)));
    assert_eq!(ending(&done), Event::Responded);
}

#[test]
fn refused_connection_is_a_failed_send() {
    let double = Double::answering(Err("connection refused".to_string()));
    let client = handle(double.clone());
    let pending = match dispatch(client.backend(), client.request(Nothing).assemble()) {
        Ok(pending) => pending,
        Err(_) => panic!("the request was refused"),
    };
    let done: Result<NsResponse<Canned>, NsError<InvalidHeader, String>> = conclude(block_on(pending));
    assert_eq!(ending(&done), Event::SendFailed);
    assert_eq!(Stage::Dispatching.after(ending(&done)), Some(Stage::Failed));
    match done {
        Err(NsError::SendError(cause)) => assert_eq!(cause, "connection refused"),
        _ => panic!("expected a send error"),
    }
    assert_eq!(double.sends(), 1);
}

#[test]
fn failed_build_ends_as_failed() {
    let done: Result<NsResponse<Canned>, NsError<InvalidHeader, String>> =
        Err(NsError::BuildError(InvalidHeader { index: 3 }));
    assert_eq!(ending(&done), Event::BuildFailed);
    assert_eq!(Stage::Dispatching.after(ending(&done)), Some(Stage::Failed));
}

#[test]
fn response_gives_status_headers_and_body() {
    let done: Result<NsResponse<Canned>, NsError<InvalidHeader, String>> = conclude(Ok(status(200)));
    let response = match done {
        Ok(response) => response,
        Err(_) => panic!("expected a response"),
    };
    assert_eq!(response.status(), 200);
    assert_eq!(response.status(), 200);
    assert_eq!(response.get_header("x-ratelimit-requests-seen"), Some(Bytes::from_static(b"3")));
    assert_eq!(response.get_header("Content-Type"), None);
    assert_eq!(response.body(), Ok(Bytes::from_static(b"<NATION id=\"testlandia\"></NATION>")));
}

#[test]
fn unreadable_body_is_reported_when_it_is_read() {
    let canned = Canned { status: 200, headers: vec![], body: Err("cut off".to_string()) };
    let done: Result<NsResponse<Canned>, NsError<InvalidHeader, String>> = conclude(Ok(canned));
    assert_eq!(ending(&done), Event::Responded);
    match done {
        Ok(response) => {
            assert_eq!(response.status(), 200);
            assert_eq!(response.body(), Err("cut off".to_string()));
        }
        Err(_) => panic!("expected a response"),
    }
}

#[test]
fn stages_follow_one_another() {
    assert_eq!(Stage::Assembling.after(Event::Assembled), Some(Stage::Throttled));
    assert_eq!(Stage::Throttled.after(Event::Granted), Some(Stage::Dispatching));
    assert_eq!(Stage::Dispatching.after(Event::Responded), Some(Stage::Completed));
    assert_eq!(Stage::Dispatching.after(Event::BuildFailed), Some(Stage::Failed));
    assert_eq!(Stage::Dispatching.after(Event::SendFailed), Some(Stage::Failed));
}

#[test]
fn stages_refuse_what_cannot_happen() {
    assert_eq!(Stage::Assembling.after(Event::Granted), None);
    assert_eq!(Stage::Assembling.after(Event::BuildFailed), None);
    assert_eq!(Stage::Assembling.after(Event::Responded), None);
    assert_eq!(Stage::Throttled.after(Event::Assembled), None);
    assert_eq!(Stage::Throttled.after(Event::BuildFailed), None);
    assert_eq!(Stage::Throttled.after(Event::SendFailed), None);
    assert_eq!(Stage::Throttled.after(Event::Responded), None);
    assert_eq!(Stage::Dispatching.after(Event::Granted), None);
    let events = [Event::Assembled, Event::Granted, Event::BuildFailed, Event::SendFailed, Event::Responded];
    for event in events {
        assert_eq!(Stage::Completed.after(event), None);
        assert_eq!(Stage::Failed.after(event), None);
    }
}

#[test]
fn runs_of_events() {
    assert_eq!(Stage::Assembling.replay(&vec![]), Some(Stage::Assembling));
    assert_eq!(Stage::Assembling.replay(&vec![Event::Assembled]), Some(Stage::Throttled));
    assert_eq!(
        Stage::Assembling.replay(&vec![Event::Assembled, Event::Granted, Event::Responded]),
        Some(Stage::Completed)
    );
    assert_eq!(
        Stage::Assembling.replay(&vec![Event::Assembled, Event::Granted, Event::BuildFailed]),
        Some(Stage::Failed)
    );
    assert_eq!(
        Stage::Assembling.replay(&vec![Event::Assembled, Event::Granted, Event::SendFailed]),
        Some(Stage::Failed)
    );
    assert_eq!(Stage::Assembling.replay(&vec![Event::Assembled, Event::BuildFailed]), None);
    assert_eq!(Stage::Assembling.replay(&vec![Event::Granted, Event::Assembled]), None);
    assert_eq!(
        Stage::Assembling.replay(&vec![Event::Assembled, Event::Granted, Event::Responded, Event::Responded]),
        None
    );
    assert_eq!(
        Stage::Assembling.replay(&vec![Event::Assembled, Event::Assembled, Event::Granted, Event::Responded]),
        None
    );
    assert_eq!(Stage::Throttled.replay(&vec![Event::Granted, Event::SendFailed]), Some(Stage::Failed));
}

#[test]
fn each_stage_has_its_action() {
    assert_eq!(Stage::Assembling.action(), Action::Assemble);
    assert_eq!(Stage::Throttled.action(), Action::Wait);
    assert_eq!(Stage::Dispatching.action(), Action::Dispatch);
    assert_eq!(Stage::Completed.action(), Action::Return);
    assert_eq!(Stage::Failed.action(), Action::Return);
}

#[test]
fn whole_pipeline_by_its_stages() {
    let double = Double::answering(Ok(status(404)));
    let client = handle(double.clone());
    let mut stage = Stage::Assembling;
    let mut log = Vec::new();

    assert_eq!(stage.action(), Action::Assemble);
    let builder = client.request(Shard::new("q", "flag")).assemble();
    stage = stage.after(Event::Assembled).unwrap_or(Stage::Failed);
    log.push(stage);

    assert_eq!(stage.action(), Action::Wait);
    let at = client.acquire(1_000);
    assert_eq!(at, Some(1_000));
    stage = stage.after(Event::Granted).unwrap_or(Stage::Failed);
    log.push(stage);

    assert_eq!(stage.action(), Action::Dispatch);
    let done: Result<NsResponse<Canned>, NsError<InvalidHeader, String>> =
        match dispatch(client.backend(), builder) {
            Ok(pending) => conclude(block_on(pending)),
            Err(error) => Err(error),
        };
    stage = stage.after(ending(&done)).unwrap_or(Stage::Failed);
    log.push(stage);

    assert_eq!(stage.action(), Action::Return);
    assert_eq!(log, vec![Stage::Throttled, Stage::Dispatching, Stage::Completed]);
    assert_eq!(done.ok().map(|r| r.status()), Some(404));
    assert_eq!(double.sends(), 1);
}
