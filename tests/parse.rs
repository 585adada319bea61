use http_fetch::error::FetchError;
use http_fetch::headers::Headers;
use http_fetch::response::{parse_response, ParsedResponse};

fn parse_ok(raw: &[u8]) -> ParsedResponse {
    match parse_response(raw) {
        Ok(p) => p,
        Err(e) => panic!("unexpected error {:?}", e),
    }
}

#[test]
fn status_headers_and_body() {
    let p = parse_ok(b"HTTP/1.0 200 OK\r\nContent-Type: text/plain\r\n\r\nhello");
    assert_eq!(p.status, b"HTTP/1.0 200 OK".to_vec());
    assert_eq!(p.headers.len(), 1);
    assert_eq!(p.headers.get(b"Content-Type"), Some(&b"text/plain".to_vec()));
    assert_eq!(p.body, b"hello".to_vec());
}

#[test]
fn no_headers_empty_body() {
    let p = parse_ok(b"HTTP/1.0 404 Not Found\r\n\r\n");
    assert_eq!(p.status, b"HTTP/1.0 404 Not Found".to_vec());
    assert_eq!(p.headers.len(), 0);
    assert_eq!(p.body, Vec::<u8>::new());
}

#[test]
fn repeated_name_keeps_last_value() {
    let p = parse_ok(b"HTTP/1.0 200 OK\r\nA: 1\r\nA: 2\r\n\r\n");
    assert_eq!(p.headers.len(), 1);
    assert_eq!(p.headers.get(b"A"), Some(&b"2".to_vec()));
}

#[test]
fn missing_blank_line_is_malformed() {
    let r = parse_response(b"HTTP/1.0 200 OK\r\nContent-Type: text/plain\r\nhello");
    assert!(matches!(r, Err(FetchError::MalformedResponse)));
}

#[test]
fn empty_input_is_malformed() {
    assert!(matches!(parse_response(b""), Err(FetchError::MalformedResponse)));
}

#[test]
fn header_without_colon_space_is_malformed() {
    let r = parse_response(b"HTTP/1.0 200 OK\r\nBroken\r\n\r\nbody");
    assert!(matches!(r, Err(FetchError::MalformedResponse)));
    let r = parse_response(b"HTTP/1.0 200 OK\r\nA:1\r\n\r\n");
    assert!(matches!(r, Err(FetchError::MalformedResponse)));
}

#[test]
fn body_keeps_later_blank_lines() {
    let p = parse_ok(b"HTTP/1.0 200 OK\r\nX: y\r\n\r\none\r\n\r\ntwo");
    assert_eq!(p.body, b"one\r\n\r\ntwo".to_vec());
}

#[test]
fn value_split_at_first_colon_space_only() {
    let p = parse_ok(b"S\r\nLink: a: b\r\n\r\n");
    assert_eq!(p.headers.get(b"Link"), Some(&b"a: b".to_vec()));
}

#[test]
fn several_headers_all_entered() {
    let p = parse_ok(b"HTTP/1.0 200 OK\r\nA: 1\r\nB: 2\r\nA: 3\r\nC: \r\n\r\nx");
    assert_eq!(p.headers.len(), 3);
    assert_eq!(p.headers.get(b"A"), Some(&b"3".to_vec()));
    assert_eq!(p.headers.get(b"B"), Some(&b"2".to_vec()));
    assert_eq!(p.headers.get(b"C"), Some(&Vec::new()));
    assert_eq!(p.headers.get(b"D"), None);
    let mut names: Vec<Vec<u8>> = Vec::new();
    for i in 0..p.headers.len() {
        names.push(p.headers.name_at(i).clone());
        assert_eq!(p.headers.get(p.headers.name_at(i)), Some(p.headers.value_at(i)));
    }
    names.sort();
    assert_eq!(names, vec![b"A".to_vec(), b"B".to_vec(), b"C".to_vec()]);
}

#[test]
fn rejoined_parts_give_back_the_message() {
    let raw: &[u8] = b"HTTP/1.1 301 Moved\r\nLocation: /x\r\nServer: s\r\n\r\nbye";
    let p = parse_ok(raw);
    let mut out = p.status.clone();
    for i in 0..p.headers.len() {
        out.extend_from_slice(b"\r\n");
        out.extend_from_slice(p.headers.name_at(i));
        out.extend_from_slice(b": ");
        out.extend_from_slice(p.headers.value_at(i));
    }
    out.extend_from_slice(b"\r\n\r\n");
    out.extend_from_slice(&p.body);
    let q = parse_ok(&out);
    assert_eq!(q.status, p.status);
    assert_eq!(q.body, p.body);
    assert_eq!(q.headers.len(), p.headers.len());
    assert_eq!(q.headers.get(b"Location"), Some(&b"/x".to_vec()));
    assert_eq!(q.headers.get(b"Server"), Some(&b"s".to_vec()));
}

#[test]
fn header_map_insert_and_get() {
    let mut h = Headers::new();
    assert_eq!(h.len(), 0);
    h.insert(b"K".to_vec(), b"v1".to_vec());
    h.insert(b"L".to_vec(), b"w".to_vec());
    h.insert(b"K".to_vec(), b"v2".to_vec());
    assert_eq!(h.len(), 2);
    assert_eq!(h.get(b"K"), Some(&b"v2".to_vec()));
    assert_eq!(h.get(b"L"), Some(&b"w".to_vec()));
    assert_eq!(h.get(b"k"), None);
}
