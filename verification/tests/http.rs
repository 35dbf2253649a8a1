//! Reading a request and writing a response.

use brain::http::{head_line, parse_head, read_request, respond, Bad, Request, MAX_BODY, MAX_HEAD};

fn parse(raw: &str) -> Result<Request, Bad> {
    read_request(raw.as_bytes())
}

#[test]
fn a_get_with_no_body_parses() {
    let request = parse("GET /health HTTP/1.1\r\nHost: nas\r\n\r\n").expect("parse");

    assert_eq!(request.method, "GET");
    assert_eq!(request.path, "/health");
    assert_eq!(request.header("host"), Some("nas"));
    assert!(request.body.is_empty());
}

#[test]
fn a_post_body_is_read_to_its_content_length() {
    let request =
        parse("POST /fetch HTTP/1.1\r\nContent-Length: 7\r\n\r\n{\"a\":1}").expect("parse");

    assert_eq!(request.body, b"{\"a\":1}");
}

#[test]
fn header_names_are_matched_whatever_their_case() {
    let request = parse("GET / HTTP/1.1\r\nCoNtEnT-lEnGtH: 0\r\n\r\n").expect("parse");

    assert_eq!(request.header("content-length"), Some("0"));
}

#[test]
fn a_bearer_token_is_pulled_out_of_the_authorization_header() {
    let request = parse("GET / HTTP/1.1\r\nAuthorization: Bearer hunter2\r\n\r\n").expect("parse");

    assert_eq!(request.bearer(), Some("hunter2"));
}

#[test]
fn a_non_bearer_authorization_is_not_mistaken_for_one() {
    let request = parse("GET / HTTP/1.1\r\nAuthorization: Basic abc\r\n\r\n").expect("parse");

    assert_eq!(request.bearer(), None);
}

#[test]
fn a_connection_that_closes_without_asking_anything_is_not_an_error() {
    assert_eq!(parse(""), Err(Bad::Closed));
}

#[test]
fn a_body_shorter_than_its_content_length_is_malformed() {
    assert_eq!(
        parse("POST /fetch HTTP/1.1\r\nContent-Length: 99\r\n\r\nshort"),
        Err(Bad::Malformed)
    );
}

#[test]
fn a_content_length_that_is_not_a_number_is_malformed() {
    assert_eq!(
        parse("POST /fetch HTTP/1.1\r\nContent-Length: lots\r\n\r\n"),
        Err(Bad::Malformed)
    );
}

#[test]
fn an_enormous_body_is_refused_before_it_is_allocated() {
    assert_eq!(
        parse("POST /publish HTTP/1.1\r\nContent-Length: 999999999\r\n\r\n"),
        Err(Bad::TooLarge)
    );
}

#[test]
fn an_endless_stream_of_headers_is_refused() {
    let mut raw = String::from("GET / HTTP/1.1\r\n");
    for n in 0..2000 {
        raw.push_str(&format!("X-Filler-{n}: padding padding padding\r\n"));
    }
    raw.push_str("\r\n");

    assert_eq!(parse(&raw), Err(Bad::TooLarge));
}

#[test]
fn a_response_carries_its_length_and_closes() {
    let out = respond(200, b"{}");
    let text = String::from_utf8(out).expect("utf-8");

    assert!(text.starts_with("HTTP/1.1 200 OK\r\n"));
    assert!(text.contains("Content-Length: 2\r\n"));
    assert!(text.contains("Connection: close\r\n"));
    assert!(text.ends_with("\r\n\r\n{}"));
}

#[test]
fn what_follows_a_request_is_not_read() {
    let one = parse("POST / HTTP/1.1\r\nContent-Length: 2\r\n\r\nab").expect("parse");
    let more = parse("POST / HTTP/1.1\r\nContent-Length: 2\r\n\r\nabcdef").expect("parse");
    assert_eq!(one, more);
}

#[test]
fn a_body_of_just_the_limit_is_not_too_large() {
    let head = format!("POST / HTTP/1.1\r\nContent-Length: {MAX_BODY}\r\n\r\n");
    assert_eq!(parse_head(head.into_bytes()).expect("head").length, MAX_BODY);

    let head = format!("POST / HTTP/1.1\r\nContent-Length: {}\r\n\r\n", MAX_BODY + 1);
    assert!(matches!(parse_head(head.into_bytes()), Err(Bad::TooLarge)));
}

#[test]
fn a_head_is_taken_line_by_line() {
    let mut head = Vec::new();
    assert_eq!(head_line(&mut head, b"GET / HTTP/1.1\r\n"), Ok(false));
    assert_eq!(head_line(&mut head, b"Host: nas\r\n"), Ok(false));
    assert_eq!(head_line(&mut head, b"\r\n"), Ok(true));

    let long = vec![b'a'; MAX_HEAD + 1];
    let mut head = Vec::new();
    assert_eq!(head_line(&mut head, &long), Err(Bad::TooLarge));
}

#[test]
fn a_head_that_is_not_one_is_malformed() {
    assert_eq!(parse("\r\n\r\n"), Err(Bad::Malformed));
    assert_eq!(parse("GET\r\n\r\n"), Err(Bad::Malformed));
    assert_eq!(parse("GET / HTTP/1.1\r\nno colon here\r\n\r\n"), Err(Bad::Malformed));
    assert_eq!(read_request(b"GET /\xff HTTP/1.1\r\n\r\n"), Err(Bad::Malformed));
}

#[test]
fn every_status_has_its_reason() {
    for (status, reason) in [
        (200u16, "200 OK"),
        (400, "400 Bad Request"),
        (401, "401 Unauthorized"),
        (404, "404 Not Found"),
        (413, "413 Payload Too Large"),
        (500, "500 Error"),
    ] {
        let text = String::from_utf8(respond(status, b"")).expect("utf-8");
        assert!(text.starts_with(&format!("HTTP/1.1 {reason}\r\n")), "{text}");
    }
}

#[test]
fn a_request_is_the_same_whatever_follows_it() {
    let raw = b"POST /x HTTP/1.1\r\n  X-Some : \t value one \r\nContent-Length:  3 \r\n\r\nabc";
    let request = read_request(raw).expect("a request");
    assert_eq!(request.header("x-some"), Some("value one"));
    assert_eq!(request.header("content-length"), Some("3"));
    assert_eq!(request.body, b"abc");
    let mut longer = raw.to_vec();
    longer.extend_from_slice(b"POST /y HTTP/1.1");
    assert_eq!(read_request(&longer), Ok(request));
    let bare = read_request(b"GET / HTTP/1.1\r\n\r\nabc").expect("a request");
    assert!(bare.body.is_empty());
}
