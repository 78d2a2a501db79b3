use gemma4_serving::auth::{check_auth, constant_time_eq, let_in};
use gemma4_serving::refusal::{error, error_param, reason_phrase, Refusal};
use gemma4_serving::server::{
    admits, read_line, route, Endpoint, HttpRequest, HttpResponse, Next, RequestReader, ResponseBody,
};
use std::sync::mpsc;

/// Feeds lines to a reader until it asks for something else.
fn feed(lines: &[&str]) -> (RequestReader, Result<Next, Refusal>) {
    let mut reader = RequestReader::new();
    let mut last = Ok(Next::Line);
    for line in lines {
        last = reader.on_line(line.as_bytes().to_vec());
        if last.is_err() {
            break;
        }
    }
    (reader, last)
}

fn refusal(lines: &[&str]) -> (u16, String) {
    let refusal = feed(lines).1.unwrap_err();
    (refusal.status, refusal.body.error.message)
}

#[test]
fn request_is_read() {
    let (reader, next) = feed(&[
        "POST /v1/completions?x=1 HTTP/1.1\r\n",
        "Content-Length: 3\r\n",
        "X-Thing:  a: b \r\n",
        "no colon here\n",
        "\r\n",
    ]);
    assert_eq!(next.unwrap(), Next::Body(3));
    let request = reader.on_body(b"abc".to_vec()).ok().unwrap();
    assert_eq!(request.method, "POST");
    assert_eq!(request.path, "/v1/completions?x=1");
    assert_eq!(request.header("content-length"), Some("3"));
    assert_eq!(request.header("x-thing"), Some("a: b"));
    assert_eq!(request.header("other"), None);
    assert_eq!(request.headers.len(), 2);
    assert_eq!(request.body, b"abc");
}

#[test]
fn closed_connection_gives_nothing() {
    assert_eq!(feed(&[""]).1.unwrap(), Next::Nothing);
    assert_eq!(
        refusal(&["GET / HTTP/1.1\r\n", ""]),
        (400, "connection closed while reading headers".to_owned())
    );
}

#[test]
fn request_without_a_length_has_no_body() {
    assert_eq!(feed(&["GET / HTTP/1.1\n", "\n"]).1.unwrap(), Next::Body(0));
}

#[test]
fn malformed_request_lines_are_refused() {
    for line in ["GET\r\n", " / HTTP/1.1\r\n", "GET  HTTP/1.1\r\n", "\r\n"] {
        assert_eq!(refusal(&[line]), (400, "malformed request line".to_owned()));
    }
}

#[test]
fn long_lines_are_refused() {
    assert_eq!(
        refusal(&["GET /with-no-end"]),
        (431, "request line or header too large".to_owned())
    );
}

#[test]
fn lines_must_be_utf8() {
    let refusal = read_line(vec![0xff, b'\n']).unwrap_err();
    assert_eq!(refusal.status, 400);
    assert_eq!(refusal.body.error.message, "request line is not valid UTF-8");
    assert_eq!(read_line("é\r\r\n".as_bytes().to_vec()).unwrap(), Some("é".to_owned()));
    assert_eq!(read_line(b"\r\n".to_vec()).unwrap(), Some(String::new()));
    assert_eq!(read_line(Vec::new()).unwrap(), None);
}

#[test]
fn headers_are_limited() {
    let mut lines = vec!["GET / HTTP/1.1\n".to_owned()];
    for i in 0..100 {
        lines.push(format!("h{i}: v\n"));
    }
    let views: Vec<&str> = lines.iter().map(|line| line.as_str()).collect();
    assert_eq!(feed(&views).1.unwrap(), Next::Line);
    lines.push("one: more\n".to_owned());
    let views: Vec<&str> = lines.iter().map(|line| line.as_str()).collect();
    assert_eq!(refusal(&views), (431, "request headers too large".to_owned()));

    let long = format!("a: {}\n", "b".repeat(8000));
    let mut lines = vec!["GET / HTTP/1.1\n"];
    for _ in 0..9 {
        lines.push(&long);
    }
    assert_eq!(refusal(&lines), (431, "request headers too large".to_owned()));
}

#[test]
fn transfer_encoding_is_refused() {
    assert_eq!(
        refusal(&["POST / HTTP/1.1\n", "TRANSFER-encoding: chunked\n", "\n"]),
        (501, "transfer-encoding is not supported; send a content-length body".to_owned())
    );
}

#[test]
fn content_lengths_are_checked() {
    let with = |value: &str| {
        let line = format!("content-length: {value}\n");
        feed(&["POST / HTTP/1.1\n", line.as_str(), "\n"]).1
    };
    assert_eq!(with("+7").unwrap(), Next::Body(7));
    assert_eq!(with("33554432").unwrap(), Next::Body(33554432));
    let large = with("33554433").unwrap_err();
    assert_eq!((large.status, large.body.error.message.as_str()), (413, "request body too large"));
    for value in ["-1", "x", "", "1 2", "18446744073709551616", "+"] {
        let refusal = with(value).unwrap_err();
        assert_eq!(refusal.status, 400);
        assert_eq!(refusal.body.error.message, format!("malformed content-length header: {value}"));
    }
    assert_eq!(
        refusal(&["POST / HTTP/1.1\n", "content-length: 1\n", "Content-Length: 2\n", "\n"]),
        (400, "conflicting content-length headers".to_owned())
    );
    assert_eq!(
        feed(&["POST / HTTP/1.1\n", "content-length: 2\n", "Content-Length: 2\n", "\n"]).1.unwrap(),
        Next::Body(2)
    );
}

#[test]
fn short_bodies_are_refused() {
    let (reader, _) = feed(&["POST / HTTP/1.1\n", "content-length: 4\n", "\n"]);
    let refusal = reader.on_body(b"abc".to_vec()).err().unwrap();
    assert_eq!(refusal.status, 400);
    assert_eq!(refusal.body.error.message, "request body is shorter than its content-length");
}

#[test]
fn requests_are_routed() {
    assert_eq!(route("GET", "/v1/models"), Endpoint::Models);
    assert_eq!(route("GET", "/v1/models?a=b"), Endpoint::Models);
    assert_eq!(route("POST", "/v1/chat/completions"), Endpoint::ChatCompletions);
    assert_eq!(route("POST", "/v1/completions"), Endpoint::Completions);
    assert_eq!(route("POST", "/v1/audio/speech"), Endpoint::AudioSpeech);
    assert_eq!(route("POST", "/v1/audio/transcriptions"), Endpoint::AudioTranscriptions);
    assert_eq!(route("POST", "/v1/models"), Endpoint::Unknown);
    assert_eq!(route("GET", "/v1/completions"), Endpoint::Unknown);
    assert_eq!(route("get", "/v1/models"), Endpoint::Unknown);
}

#[test]
fn response_heads_are_exact() {
    let response = HttpResponse::json(404, reason_phrase(404), b"{}".to_vec());
    assert_eq!(
        response.head(),
        "HTTP/1.1 404 Not Found\r\ncontent-type: application/json\r\ncontent-length: 2\r\nconnection: close\r\n\r\n"
    );
    let (tx, rx) = mpsc::channel();
    let response = HttpResponse::event_stream(rx);
    assert_eq!(
        response.head(),
        "HTTP/1.1 200 OK\r\ncontent-type: text/event-stream\r\ncache-control: no-cache\r\nconnection: close\r\n\r\n"
    );
    tx.send(b"chunk".to_vec()).unwrap();
    drop(tx);
    let ResponseBody::Stream(rx) = response.body else { panic!() };
    assert_eq!(rx.iter().collect::<Vec<_>>(), vec![b"chunk".to_vec()]);
}

#[test]
fn reason_phrases_are_known() {
    let known = [
        (200, "OK"),
        (400, "Bad Request"),
        (401, "Unauthorized"),
        (404, "Not Found"),
        (413, "Payload Too Large"),
        (431, "Request Header Fields Too Large"),
        (500, "Internal Server Error"),
        (501, "Not Implemented"),
        (503, "Service Unavailable"),
        (418, "Error"),
    ];
    for (status, phrase) in known {
        assert_eq!(reason_phrase(status), phrase);
    }
}

#[test]
fn errors_carry_their_parameter() {
    let plain = error(500, "internal_error", "gone".to_owned());
    assert_eq!(plain.status, 500);
    assert_eq!(plain.body.error.error_type, "internal_error");
    assert_eq!(plain.body.error.param, None);
    assert_eq!(plain.body.error.code, None);
    let blamed = error_param(400, "invalid_request_error", "bad".to_owned(), "n");
    assert_eq!(blamed.body.error.param, Some("n"));
}

#[test]
fn connections_are_limited() {
    assert!(admits(0));
    assert!(admits(255));
    assert!(!admits(256));
}

fn with_authorization(value: Option<&str>) -> HttpRequest {
    HttpRequest {
        method: "GET".to_owned(),
        path: "/".to_owned(),
        headers: value.into_iter().map(|v| ("Authorization".to_owned(), v.to_owned())).collect(),
        body: Vec::new(),
    }
}

#[test]
fn keys_are_asked_for() {
    let key = Some("sesame".to_owned());
    let refused = |value: Option<&str>| check_auth(&with_authorization(value), &key).is_some();
    assert!(!refused(Some("Bearer sesame")));
    assert!(!refused(Some("bEaReR   sesame  ")));
    assert!(refused(Some("Bearer sesam")));
    assert!(refused(Some("Basic sesame")));
    assert!(refused(Some("sesame")));
    assert!(refused(None));
    let refusal = check_auth(&with_authorization(None), &key).unwrap();
    assert_eq!(refusal.status, 401);
    assert_eq!(refusal.body.error.message, "invalid or missing API key");
    assert!(check_auth(&with_authorization(None), &None).is_none());
}

#[test]
fn keys_are_compared_byte_by_byte() {
    assert!(constant_time_eq(b"", b""));
    assert!(constant_time_eq(b"abc", b"abc"));
    assert!(!constant_time_eq(b"abc", b"abd"));
    assert!(!constant_time_eq(b"abc", b"ab"));
    assert!(!constant_time_eq(b"", b"a"));
}

#[test]
fn lengths_are_compared_in_their_lowest_byte() {
    assert!(constant_time_eq(&[], &[7; 256]));
    assert!(constant_time_eq(&[0; 256], &[]));
    assert!(!constant_time_eq(&[1; 256], &[]));
}

#[test]
fn only_admitted_requests_go_anywhere() {
    let key = Some("sesame".to_owned());
    let mut request = with_authorization(Some("Bearer sesame"));
    request.path = "/v1/models".to_owned();
    assert_eq!(let_in(&request, &key).ok().unwrap(), Endpoint::Models);
    let mut request = with_authorization(None);
    request.path = "/v1/models".to_owned();
    assert_eq!(let_in(&request, &key).err().unwrap().status, 401);
    assert_eq!(let_in(&request, &None).ok().unwrap(), Endpoint::Models);
}
