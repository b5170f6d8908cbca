use dwd::jsonline::{check_uri, JsonLineRecord, RecordError, RequestError, RequestHead, UriParts};
use http::header;

fn pairs(v: &[(&str, &str)]) -> Vec<(String, String)> {
    v.iter().map(|(n, v)| (n.to_string(), v.to_string())).collect()
}

fn parse(line: &str) -> JsonLineRecord {
    let v: serde_json::Value = serde_json::from_str(line).expect("valid record");
    let text = |key: &str| v[key].as_str().expect("text").to_string();
    let headers: Vec<(String, String)> = v["headers"]
        .as_object()
        .expect("headers")
        .iter()
        .map(|(n, v)| (n.clone(), v.as_str().expect("text").to_string()))
        .collect();
    JsonLineRecord::from_fields(&text("uri"), &text("method"), &text("host"), &headers).expect("valid record")
}

fn listed(head: &RequestHead) -> Vec<(&str, &[u8])> {
    head.headers.iter().map(|(n, v)| (n.as_str(), v.as_bytes())).collect()
}

#[test]
fn http3_request_maps_head_and_host() {
    let record = parse(r#"{"uri":"/ping?x=1","method":"POST","host":"example.com","headers":{"X-Test":"1"}}"#);

    let req = record.into_http3().expect("convertible");

    assert_eq!(req.method, "POST");
    // The host is now in the URI authority, not in a Host header.
    assert_eq!(req.authority.as_deref(), Some("example.com"));
    assert_eq!(req.scheme, Some("https"));
    assert_eq!(req.path, "/ping");
    assert_eq!(req.query.as_deref(), Some("x=1"));
    // No Host header — authority is carried by :authority pseudo-header.
    assert!(req.headers.get(header::HOST).is_none());
    assert_eq!(req.headers.get("x-test").unwrap(), "1");
}

#[test]
fn http3_request_prefers_top_level_host_over_header() {
    // A "Host" inside headers must not shadow the dedicated `host` field.
    // The top-level host becomes the URI authority; the Host header entry
    // is dropped entirely.
    let record = parse(r#"{"uri":"/","method":"GET","host":"real.host","headers":{"Host":"ignored.host"}}"#);

    let req = record.into_http3().expect("convertible");

    assert_eq!(req.authority.as_deref(), Some("real.host"));
    assert!(req.headers.get(header::HOST).is_none());
}

#[test]
fn http1_request_ignores_host_among_headers() {
    let headers = pairs(&[("HOST", "ignored"), ("Accept", "*/*")]);
    let record = JsonLineRecord::from_fields("/a", "GET", "real.host", &headers).unwrap();
    let req = record.into_http1().expect("convertible");
    assert_eq!(listed(&req), vec![("host", &b"real.host"[..]), ("accept", &b"*/*"[..])]);
    assert_eq!((req.scheme, req.authority, req.path.as_str()), (None, None, "/a"));
}

#[test]
fn raw_requests() {
    let headers = pairs(&[("X-Test", "1"), ("Host", "ignored"), ("Accept", "text/html")]);
    let record = JsonLineRecord::from_fields("/ping?x=1", "POST", "example.com", &headers).unwrap();
    assert_eq!(
        record.to_vec(),
        b"POST /ping?x=1 HTTP/1.1\r\nHost: example.com\r\nx-test: 1\r\naccept: text/html\r\n\r\n".to_vec()
    );
    let bare = JsonLineRecord::from_fields("/", "GET", "", &vec![]).unwrap();
    assert_eq!(bare.to_vec(), b"GET / HTTP/1.1\r\nHost: \r\n\r\n".to_vec());
}

#[test]
fn later_headers_replace_earlier_ones() {
    let headers = pairs(&[("X-A", "1"), ("X-B", "2"), ("x-a", "3")]);
    let record = JsonLineRecord::from_fields("/", "GET", "h", &headers).unwrap();
    assert_eq!(
        record.to_vec(),
        b"GET / HTTP/1.1\r\nHost: h\r\nx-a: 3\r\nx-b: 2\r\n\r\n".to_vec()
    );
}

#[test]
fn records_are_checked() {
    let fail = |uri: &str, method: &str, headers: &[(&str, &str)]| {
        JsonLineRecord::from_fields(uri, method, "h", &pairs(headers)).unwrap_err()
    };
    assert_eq!(fail("/a b", "GET", &[]), RecordError::InvalidUri);
    assert_eq!(fail("", "GET", &[]), RecordError::InvalidUri);
    assert_eq!(fail("http://example.com/", "GET", &[]), RecordError::UriNotRelative);
    assert_eq!(fail("example.com", "GET", &[]), RecordError::UriNotRelative);
    assert_eq!(fail("/", "G T", &[]), RecordError::InvalidMethod);
    assert_eq!(fail("/", "", &[]), RecordError::InvalidMethod);
    assert_eq!(fail("/", "GET", &[("ok", "1"), ("no name", "1")]), RecordError::InvalidHeaderName(1));
    assert_eq!(fail("/", "GET", &[("a", "line\nbreak")]), RecordError::InvalidHeaderValue(0));
    assert!(JsonLineRecord::from_fields("/", "GET", "h", &pairs(&[("a", "tab\there é")])).is_ok());
}

#[test]
fn uris_need_a_path_and_nothing_before_it() {
    let parts = |scheme: Option<&str>, authority: Option<&str>, path: &str| UriParts {
        scheme: scheme.map(str::to_string),
        authority: authority.map(str::to_string),
        path: path.to_string(),
        query: None,
    };
    assert_eq!(check_uri(&parts(None, None, "/")), Ok(()));
    assert_eq!(check_uri(&parts(None, None, "")), Err(RecordError::UriWithoutPath));
    assert_eq!(check_uri(&parts(Some("http"), None, "/")), Err(RecordError::UriNotRelative));
    assert_eq!(check_uri(&parts(None, Some("h"), "")), Err(RecordError::UriNotRelative));
}

#[test]
fn hosts_are_checked() {
    let record = |host: &str| JsonLineRecord::from_fields("/", "GET", host, &vec![]).unwrap();
    assert_eq!(record("bad\nhost").into_http1().unwrap_err(), RequestError::InvalidHost);
    assert_eq!(record("bad host").into_http3().unwrap_err(), RequestError::InvalidHost);
    assert!(record("bad host").into_http1().is_ok());
    assert!(record("[::1]:8080").into_http3().is_ok());
}

fn numbered(n: usize) -> Vec<(String, String)> {
    (0..n).map(|i| (format!("x-{i}"), "v".to_string())).collect()
}

#[test]
fn too_many_headers() {
    let record = |headers: &Vec<(String, String)>| JsonLineRecord::from_fields("/", "GET", "h", headers);
    assert_eq!(record(&numbered(40_000)).unwrap_err(), RecordError::TooManyHeaders);
    assert!(record(&numbered(6554)).is_ok());
    assert!(record(&numbered(24_576)).is_ok());
    assert_eq!(record(&numbered(24_577)).unwrap_err(), RecordError::TooManyHeaders);
    // A full collection does not even replace a value.
    let mut again = numbered(24_576);
    again.push(("x-0".to_string(), "w".to_string()));
    assert_eq!(record(&again).unwrap_err(), RecordError::TooManyHeaders);
    // Faults are reported as usual, up to the header without room.
    let mut faulty = numbered(24_576);
    faulty[20_000].0 = "no name".to_string();
    assert_eq!(record(&faulty).unwrap_err(), RecordError::InvalidHeaderName(20_000));
    let refused = JsonLineRecord::from_fields("/", "G T", "h", &numbered(40_000));
    assert_eq!(refused.unwrap_err(), RecordError::InvalidMethod);
}

/// The host takes the place of a header in an HTTP/1 request, and none in an HTTP/3 request.
#[test]
fn too_many_headers_beside_the_host() {
    let record = |n: usize, host: &str| JsonLineRecord::from_fields("/", "GET", host, &numbered(n)).unwrap();
    assert_eq!(record(24_575, "h").into_http1().unwrap().headers.len(), 24_576);
    assert_eq!(record(24_576, "h").into_http1().unwrap_err(), RequestError::TooManyHeaders);
    assert_eq!(record(24_576, "a\nb").into_http1().unwrap_err(), RequestError::InvalidHost);
    assert_eq!(record(24_576, "h").into_http3().unwrap().headers.len(), 24_576);
}

/// Methods and header names are tokens, and names are kept in lower case.
#[test]
fn tokens() {
    const PUNCTUATION: &str = "!#$%&'*+-.^_`|~";
    for code in 0..=300u32 {
        let c = char::from_u32(code).unwrap();
        let token = c.is_ascii_alphanumeric() || PUNCTUATION.contains(c);
        let method = format!("A{c}");
        let record = JsonLineRecord::from_fields("/", &method, "h", &vec![]);
        assert_eq!(record.is_ok(), token, "{code}");
        let headers = vec![(format!("X{c}"), "v".to_string())];
        let record = JsonLineRecord::from_fields("/", "GET", "h", &headers);
        assert_eq!(record.is_ok(), token, "{code}");
        if let Ok(record) = record {
            let line = format!("x{}: v\r\n", c.to_ascii_lowercase());
            let bytes = String::from_utf8(record.to_vec()).unwrap();
            assert!(bytes.contains(&line), "{bytes}");
        }
    }
    let named = |n: usize| vec![("x".repeat(n), "v".to_string())];
    assert!(JsonLineRecord::from_fields("/", "GET", "h", &named(65535)).is_ok());
    assert!(JsonLineRecord::from_fields("/", "GET", "h", &named(65536)).is_err());
    assert!(JsonLineRecord::from_fields("/", "GET", "h", &named(0)).is_err());
    assert!(JsonLineRecord::from_fields("/", "", "h", &vec![]).is_err());
}
