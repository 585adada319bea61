use http_fetch::error::FetchError;
use http_fetch::request::{build_request, domain_port, plan_exchange, url_argument, use_tls, Scheme, Uri};

fn uri(scheme: Scheme, domain: &str, port: Option<u16>, path: &str) -> Uri {
    Uri { scheme, domain: domain.as_bytes().to_vec(), port, path: path.as_bytes().to_vec() }
}

#[test]
fn request_head_is_get_with_host() {
    let r = build_request(b"/index.html", b"example.com");
    assert_eq!(r, b"GET /index.html HTTP/1.0\r\nHost: example.com\r\n\r\n".to_vec());
}

#[test]
fn empty_path_requests_root() {
    let r = build_request(b"", b"example.com");
    assert_eq!(r, b"GET / HTTP/1.0\r\nHost: example.com\r\n\r\n".to_vec());
}

#[test]
fn port_defaults_by_scheme() {
    assert_eq!(domain_port(&uri(Scheme::Http, "a.org", None, "/")), b"a.org:80".to_vec());
    assert_eq!(domain_port(&uri(Scheme::Https, "a.org", None, "/")), b"a.org:443".to_vec());
}

#[test]
fn explicit_port_is_kept() {
    assert_eq!(domain_port(&uri(Scheme::Http, "h", Some(8080), "/")), b"h:8080".to_vec());
    assert_eq!(domain_port(&uri(Scheme::Https, "h", Some(0), "/")), b"h:0".to_vec());
    assert_eq!(domain_port(&uri(Scheme::Http, "h", Some(65535), "/")), b"h:65535".to_vec());
}

#[test]
fn https_plans_tls_with_host_name() {
    let u = uri(Scheme::Https, "secure.example", None, "/a?b=c");
    assert!(use_tls(&u));
    let e = plan_exchange(&u);
    assert_eq!(e.tls_server_name, Some(b"secure.example".to_vec()));
    assert_eq!(e.address, b"secure.example:443".to_vec());
    assert_eq!(e.request, b"GET /a?b=c HTTP/1.0\r\nHost: secure.example\r\n\r\n".to_vec());
}

#[test]
fn http_plans_no_tls() {
    let u = uri(Scheme::Http, "plain.example", Some(8000), "/");
    assert!(!use_tls(&u));
    let e = plan_exchange(&u);
    assert_eq!(e.tls_server_name, None);
    assert_eq!(e.address, b"plain.example:8000".to_vec());
    assert_eq!(e.request, b"GET / HTTP/1.0\r\nHost: plain.example\r\n\r\n".to_vec());
}

#[test]
fn missing_url_argument() {
    let args: Vec<String> = vec!["fetch".to_string()];
    assert_eq!(url_argument(&args), Err(FetchError::MissingArgument));
    let none: Vec<String> = Vec::new();
    assert_eq!(url_argument(&none), Err(FetchError::MissingArgument));
}

#[test]
fn url_argument_is_the_first_after_program() {
    let args: Vec<String> = vec!["fetch".to_string(), "http://x/".to_string(), "extra".to_string()];
    assert_eq!(url_argument(&args), Ok(&"http://x/".to_string()));
}
