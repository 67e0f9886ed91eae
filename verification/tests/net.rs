use gm_core::net::{join_lines, parse_commit_list, HttpRemote, HttpResponse};

#[test]
fn urls_are_parsed_into_their_parts() {
    let remote = HttpRemote::parse("http://office.local:8766", None).ok().expect("parse");
    assert_eq!(remote.host, "office.local");
    assert_eq!(remote.port, 8766);
    assert_eq!(remote.prefix, "");
    assert_eq!(remote.url, "http://office.local:8766");
}

#[test]
fn the_default_port_is_80_and_a_path_prefix_is_kept() {
    let remote = HttpRemote::parse("http://example.com/jobs/a13/", None).ok().expect("parse");
    assert_eq!(remote.port, 80);
    assert_eq!(remote.prefix, "/jobs/a13");
}

#[test]
fn https_is_refused_rather_than_quietly_downgraded() {
    let err = match HttpRemote::parse("https://example.com", None) {
        Ok(_) => panic!("should refuse"),
        Err(e) => e,
    };
    assert!(
        err.message().contains("https is not supported"),
        "got: {}",
        err.message()
    );
}

#[test]
fn a_file_path_is_not_mistaken_for_a_url() {
    assert!(!HttpRemote::looks_like_url("../office/a13.gm"));
    assert!(!HttpRemote::looks_like_url("/srv/jobs/a13.gm"));
    assert!(HttpRemote::looks_like_url("http://office.local:8766"));
}

#[test]
fn a_response_is_split_into_status_and_body() {
    let raw = b"HTTP/1.1 200 OK\r\nContent-Type: text/plain\r\n\r\nhello";
    let response = HttpResponse::parse(raw, "http://x").expect("parse");
    assert_eq!(response.status, 200);
    assert_eq!(response.body, b"hello");
}

#[test]
fn an_error_reply_carries_the_remotes_own_message() {
    let raw = b"HTTP/1.1 403 Forbidden\r\n\r\nthis remote is read-only";
    let err = HttpResponse::parse(raw, "http://x")
        .expect("parse")
        .expect_ok("/sync/push")
        .expect_err("should be an error");
    assert!(
        err.message().contains("this remote is read-only"),
        "got: {}",
        err.message()
    );
    assert!(err.message().contains("--allow-push"), "got: {}", err.message());
}

#[test]
fn malformed_urls_say_what_is_wrong() {
    let cases = [
        ("ftp://example.com", "not an http:// URL: ftp://example.com"),
        ("http://example.com:port", "bad port in http://example.com:port"),
        ("http://example.com:70000", "bad port in http://example.com:70000"),
        ("http://:8766", "no host in http://:8766"),
    ];
    for (url, expected) in cases {
        match HttpRemote::parse(url, None) {
            Ok(_) => panic!("{url} should be refused"),
            Err(e) => assert_eq!(e.message(), expected),
        }
    }
}

#[test]
fn a_request_head_carries_token_head_and_length() {
    let remote = HttpRemote::parse("http://h:81/p/", Some("SECRET-REDACTED".to_string()))
        .ok()
        .expect("parse");
    let head = remote.request_head("POST", "/sync/push", Some("text/plain"), 12, Some("sha256-aa"));
    assert_eq!(
        head,
        "POST /p/sync/push HTTP/1.1\r\nHost: h:81\r\nConnection: close\r\n\
         Authorization: Bearer SECRET-REDACTED\r\nX-GM-Head: sha256-aa\r\n\
         Content-Type: text/plain\r\nContent-Length: 12\r\n\r\n"
    );
    let plain = HttpRemote::parse("http://h", None).ok().expect("parse");
    assert_eq!(
        plain.request_head("GET", "/sync/info", None, 0, None),
        "GET /sync/info HTTP/1.1\r\nHost: h:80\r\nConnection: close\r\n\r\n"
    );
}

#[test]
fn replies_without_a_blank_line_or_status_are_refused() {
    let err = HttpResponse::parse(b"HTTP/1.1 200 OK\r\n", "http://x").expect_err("malformed");
    assert_eq!(err.message(), "http://x sent a malformed reply");
    let err = HttpResponse::parse(b"garbage\r\n\r\nbody", "http://x").expect_err("no status");
    assert_eq!(err.message(), "http://x sent a reply with no status line");
}

#[test]
fn an_empty_error_body_reports_the_status_and_a_hint() {
    let raw = b"HTTP/1.1 404 Not Found\r\n\r\n  ";
    let err = HttpResponse::parse(raw, "http://x")
        .expect("parse")
        .expect_ok("/sync/info")
        .expect_err("should be an error");
    assert_eq!(
        err.message(),
        "http://x/sync/info returned 404  (is it running `gm serve` rather than `gm ui`?)"
    );
}

#[test]
fn commit_lists_keep_their_order_and_skip_blanks() {
    let parsed = parse_commit_list(b"sha256-bb\n\n  sha256-aa \r\nsha256-bb\n");
    assert_eq!(parsed, vec!["sha256-bb", "sha256-aa", "sha256-bb"]);
    let joined = join_lines(&vec!["a".to_string(), "b".to_string()]);
    assert_eq!(joined, "a\nb");
}
