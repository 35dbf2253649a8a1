//! The shared vector store and what its routes answer.

use brain::http::{read_request, Bad, Request};
use brain::semantic::Digest;
use brain::server::{
    answer_fetch, answer_publish, constant_eq, default_store_path, is_healthy, is_long_enough,
    port, refusal, route, saves, wire, Chunks, FetchRequest, PublishRequest, Routed, Store,
};

fn bits(value: f32) -> u32 {
    value.to_bits()
}

fn chunks(value: f32) -> Chunks {
    vec![vec![bits(value), bits(value + 1.0)]]
}

const TOKEN: &str = "a-token-of-at-least-thirty-two-chars";

fn request(method: &str, path: &str, token: Option<&str>, body: &str) -> Request {
    let auth = match token {
        Some(token) => format!("Authorization: Bearer {token}\r\n"),
        None => String::new(),
    };
    let raw = format!(
        "{method} {path} HTTP/1.1\r\n{auth}Content-Length: {}\r\n\r\n{body}",
        body.len()
    );
    read_request(raw.as_bytes()).expect("parse")
}

fn vectors_in(value: &serde_json::Value) -> Option<Chunks> {
    value
        .as_array()?
        .iter()
        .map(|vector| {
            vector
                .as_array()?
                .iter()
                .map(|number| number.as_f64().map(|n| bits(n as f32)))
                .collect()
        })
        .collect()
}

fn fetch_in(body: &[u8]) -> Option<FetchRequest> {
    let value: serde_json::Value = serde_json::from_slice(body).ok()?;
    Some(FetchRequest {
        model: value.get("model")?.as_str()?.to_string(),
        digests: value
            .get("digests")?
            .as_array()?
            .iter()
            .map(|digest| digest.as_u64())
            .collect::<Option<Vec<u64>>>()?,
    })
}

fn publish_in(body: &[u8]) -> Option<PublishRequest> {
    let value: serde_json::Value = serde_json::from_slice(body).ok()?;
    Some(PublishRequest {
        model: value.get("model")?.as_str()?.to_string(),
        entries: value
            .get("entries")?
            .as_array()?
            .iter()
            .map(|entry| Some((entry.get(0)?.as_u64()?, vectors_in(entry.get(1)?)?)))
            .collect::<Option<Vec<(u64, Chunks)>>>()?,
    })
}

/// What a request is answered, the found vectors handed over as they are.
fn answer(request: &Request, store: &mut Store) -> (u16, Vec<u8>, Vec<(u64, Chunks)>) {
    match route(request, TOKEN, store) {
        Routed::Answer(status, body) => (status, body, Vec::new()),
        Routed::Fetch => match answer_fetch(fetch_in(&request.body), store) {
            Ok(response) => (200, Vec::new(), response.found),
            Err((status, body)) => (status, body, Vec::new()),
        },
        Routed::Publish => {
            let (status, body) = answer_publish(publish_in(&request.body), store);
            (status, body, Vec::new())
        }
    }
}

#[test]
fn health_needs_no_token() {
    let mut store = Store::default();
    let (status, body, _) = answer(&request("GET", "/health", None, ""), &mut store);

    assert_eq!(status, 200);
    assert_eq!(
        String::from_utf8_lossy(&body),
        "{\"ok\":true,\"vectors\":0}"
    );
}

#[test]
fn fetching_without_a_token_is_refused() {
    let mut store = Store::default();
    let asked = "{\"model\":\"nomic\",\"digests\":[7]}";

    let (status, _, _) = answer(&request("POST", "/fetch", None, asked), &mut store);
    assert_eq!(status, 401);

    let (status, _, _) = answer(&request("POST", "/fetch", Some("wrong"), asked), &mut store);
    assert_eq!(status, 401);
}

#[test]
fn a_publish_then_a_fetch_round_trips_over_the_wire_format() {
    let mut store = Store::default();

    let (status, body, _) = answer(
        &request(
            "POST",
            "/publish",
            Some(TOKEN),
            "{\"model\":\"nomic\",\"entries\":[[7,[[0.5,0.5]]]]}",
        ),
        &mut store,
    );
    assert_eq!(status, 200);
    assert_eq!(String::from_utf8_lossy(&body), "{\"added\":1}");

    let (status, _, found) = answer(
        &request(
            "POST",
            "/fetch",
            Some(TOKEN),
            "{\"model\":\"nomic\",\"digests\":[7,9]}",
        ),
        &mut store,
    );
    assert_eq!(status, 200);
    assert_eq!(found, vec![(7, vec![vec![bits(0.5), bits(0.5)]])]);
}

#[test]
fn a_body_that_is_not_the_expected_shape_is_a_bad_request() {
    let mut store = Store::default();
    let (status, _, _) = answer(
        &request("POST", "/fetch", Some(TOKEN), "{\"model\":\"nomic\"}"),
        &mut store,
    );

    assert_eq!(status, 400);
}

#[test]
fn an_unknown_route_is_a_404_and_not_a_hint() {
    let mut store = Store::default();
    let (status, _, _) = answer(&request("GET", "/vectors", Some(TOKEN), ""), &mut store);

    assert_eq!(status, 404);
}

#[test]
fn a_token_of_the_wrong_length_is_refused_without_comparing_it() {
    assert!(!constant_eq("short", TOKEN));
    assert!(constant_eq(TOKEN, TOKEN));
}

#[test]
fn a_published_vector_comes_back() {
    let mut store = Store::default();
    store.publish("nomic", vec![(7, chunks(1.0))]);

    assert_eq!(store.fetch("nomic", &[7]), vec![(7, chunks(1.0))]);
}

#[test]
fn a_digest_the_store_does_not_hold_is_absent_rather_than_an_error() {
    let mut store = Store::default();
    store.publish("nomic", vec![(7, chunks(1.0))]);

    assert_eq!(store.fetch("nomic", &[7, 8]), vec![(7, chunks(1.0))]);
}

#[test]
fn another_model_never_sees_these_vectors() {
    let mut store = Store::default();
    store.publish("nomic", vec![(7, chunks(1.0))]);

    assert!(store.fetch("e5", &[7]).is_empty());
}

#[test]
fn republishing_the_same_digest_is_not_counted_as_new() {
    let mut store = Store::default();

    assert_eq!(store.publish("nomic", vec![(7, chunks(1.0))]), 1);
    assert_eq!(store.publish("nomic", vec![(7, chunks(1.0))]), 0);
    assert_eq!(store.len(), 1);
}

#[test]
fn an_empty_vector_is_refused_rather_than_cached() {
    let mut store = Store::default();

    assert_eq!(store.publish("nomic", vec![(7, Vec::new())]), 0);
    assert!(store.is_empty());
}

#[test]
fn what_is_held_is_not_overwritten() {
    let mut store = Store::default();
    store.publish("nomic", vec![(7, chunks(1.0))]);
    store.publish("nomic", vec![(7, chunks(9.0))]);

    assert_eq!(store.fetch("nomic", &[7]), vec![(7, chunks(1.0))]);
}

#[test]
fn a_store_lists_what_it_holds() {
    let mut store = Store::default();
    store.publish("nomic", vec![(8, chunks(2.0)), (7, chunks(1.0))]);
    store.publish("e5", vec![(9, chunks(3.0))]);

    assert_eq!(store.models(), ["e5", "nomic"]);
    let mut digests = store.digests("nomic");
    digests.sort();
    assert_eq!(digests, [7, 8]);
    assert_eq!(store.len(), 3);
    assert!(store.digests("other").is_empty());
}

#[test]
fn a_method_that_is_not_post_finds_no_route_even_with_the_token() {
    let mut store = Store::default();
    for path in ["/fetch", "/publish"] {
        let (status, _, _) = answer(&request("GET", path, Some(TOKEN), ""), &mut store);
        assert_eq!(status, 404);
        let (status, _, _) = answer(&request("GET", path, None, ""), &mut store);
        assert_eq!(status, 401);
    }
}

#[test]
fn a_refused_publish_changes_nothing() {
    let mut store = Store::default();
    let (status, body) = answer_publish(None, &mut store);
    assert_eq!(status, 400);
    assert_eq!(body, b"{\"error\":\"bad request\"}");
    assert!(store.is_empty());
}

#[test]
fn a_request_that_cannot_be_read_is_refused_unless_there_was_none() {
    assert!(refusal(Bad::Closed).is_none());
    assert_eq!(refusal(Bad::Malformed).expect("an answer").0, 400);
    assert_eq!(refusal(Bad::TooLarge).expect("an answer").0, 413);
}

#[test]
fn only_a_publish_that_went_well_is_saved() {
    assert!(saves("/publish", 200));
    assert!(!saves("/publish", 400));
    assert!(!saves("/fetch", 200));
}

#[test]
fn the_store_is_kept_in_the_data_volume() {
    assert_eq!(
        default_store_path(None),
        "/var/lib/brain-vectors/vectors.json"
    );
    assert_eq!(default_store_path(Some("/data")), "/data/vectors.json");
}

#[test]
fn the_wire_carries_the_bare_number() {
    assert_eq!(wire(Digest(7)), 7);
}

#[test]
fn a_secret_has_to_be_long() {
    assert!(is_long_enough(TOKEN));
    assert!(!is_long_enough("short"));
    assert!(is_long_enough("12345678901234567890123456789012"));
    assert!(!is_long_enough("1234567890123456789012345678901"));
}

#[test]
fn a_port_is_what_follows_the_last_colon() {
    assert_eq!(port("0.0.0.0:8082"), "8082");
    assert_eq!(port("[::]:8082"), "8082");
    assert_eq!(port("8082"), "8082");
}

#[test]
fn a_server_that_answers_is_healthy() {
    assert!(is_healthy("HTTP/1.1 200 OK"));
    assert!(!is_healthy("HTTP/1.1 404 Not Found"));
    assert!(!is_healthy(""));
}
