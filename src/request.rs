//! The target of a fetch and the plan for the one exchange with its server:
//! where to connect, whether to layer TLS on top, and the request to send.

use vstd::prelude::*;
use vstd::slice::slice_to_vec;
use crate::error::FetchError;
use crate::response::blank_line;

verus! {

/// How the server is reached.
#[derive(Debug, Clone, Copy, PartialEq, Eq, Structural)]
pub enum Scheme {
    /// Plain TCP, port 80 unless the URI says otherwise.
    Http,
    /// TLS over TCP, port 443 unless the URI says otherwise.
    Https,
}

/// A parsed URI, as far as a fetch reads it.
pub struct Uri {
    pub scheme: Scheme,
    /// The host name, used for the `Host` header and as the TLS server name.
    pub domain: Vec<u8>,
    /// The port written in the URI, if any.
    pub port: Option<u16>,
    /// The path to request; an empty one stands for `/`.
    pub path: Vec<u8>,
}

/// What to do for one request: connect to `address`, wrap the connection in
/// TLS for `tls_server_name` if there is one, send `request`, read to the end.
pub struct Exchange {
    /// `host:port`.
    pub address: Vec<u8>,
    /// The name that the server's certificate is checked against, for TLS only.
    pub tls_server_name: Option<Vec<u8>>,
    /// The request head, sent as it stands.
    pub request: Vec<u8>,
}

/// The port that a URI of this scheme connects to.
pub open spec fn effective_port(scheme: Scheme, port: Option<u16>) -> nat {
    match port {
        Some(p) => p as nat,
        None => if scheme == Scheme::Https { 443 } else { 80 },
    }
}

/// The decimal digits of `n`, most significant first, without leading zeros.
pub open spec fn decimal(n: nat) -> Seq<u8>
    decreases n,
{
    if n < 10 {
        seq![(48 + n) as u8]
    } else {
        decimal(n / 10).push((48 + n % 10) as u8)
    }
}

/// `host:port`.
pub open spec fn address_of(domain: Seq<u8>, port: nat) -> Seq<u8> {
    domain.push(58u8) + decimal(port)
}

/// The path that is requested: `/` where the URI has none.
pub open spec fn request_path(path: Seq<u8>) -> Seq<u8> {
    if path.len() == 0 { seq![47u8] } else { path }
}

/// `"GET "`.
pub open spec fn get_prefix() -> Seq<u8> {
    seq![71u8, 69u8, 84u8, 32u8]
}

/// `" HTTP/1.0\r\n"`.
pub open spec fn version_line_end() -> Seq<u8> {
    seq![32u8, 72u8, 84u8, 84u8, 80u8, 47u8, 49u8, 46u8, 48u8, 13u8, 10u8]
}

/// `"Host: "`.
pub open spec fn host_prefix() -> Seq<u8> {
    seq![72u8, 111u8, 115u8, 116u8, 58u8, 32u8]
}

/// `"GET {path} HTTP/1.0\r\nHost: {domain}\r\n\r\n"`.
pub open spec fn request_head(path: Seq<u8>, domain: Seq<u8>) -> Seq<u8> {
    get_prefix() + path + version_line_end() + host_prefix() + domain + blank_line()
}

/// Appends `s` to `out`.
fn append_bytes(out: &mut Vec<u8>, s: &[u8])
    ensures
        final(out)@ == old(out)@ + s@,
{
    let ghost start = out@;
    let mut k: usize = 0;
    while k < s.len()
        invariant
            k <= s@.len(),
            out@ == start + s@.subrange(0, k as int),
        decreases s@.len() - k,
    {
        out.push(s[k]);
        k = k + 1;
        assert(out@ =~= start + s@.subrange(0, k as int));
    }
    assert(s@.subrange(0, s@.len() as int) =~= s@);
}

/// Appends the decimal digits of `n` to `out`.
fn push_decimal(out: &mut Vec<u8>, n: u16)
    ensures
        final(out)@ == old(out)@ + decimal(n as nat),
    decreases n,
{
    let ghost start = out@;
    if n >= 10 {
        push_decimal(out, n / 10);
    }
    out.push(48u8 + (n % 10) as u8);
    assert(out@ =~= start + decimal(n as nat));
}

/// The request head for `path` on `domain`, in HTTP/1.0 with a `Host` header
/// and nothing else.
pub fn build_request(path: &[u8], domain: &[u8]) -> (r: Vec<u8>)
    ensures
        r@ == request_head(request_path(path@), domain@),
{
    let mut out: Vec<u8> = vec![71u8, 69u8, 84u8, 32u8];
    if path.len() == 0 {
        out.push(47u8);
    } else {
        append_bytes(&mut out, path);
    }
    let tail: Vec<u8> = vec![32u8, 72u8, 84u8, 84u8, 80u8, 47u8, 49u8, 46u8, 48u8, 13u8, 10u8];
    append_bytes(&mut out, tail.as_slice());
    let host: Vec<u8> = vec![72u8, 111u8, 115u8, 116u8, 58u8, 32u8];
    append_bytes(&mut out, host.as_slice());
    append_bytes(&mut out, domain);
    let end: Vec<u8> = vec![13u8, 10u8, 13u8, 10u8];
    append_bytes(&mut out, end.as_slice());
    assert(out@ =~= request_head(request_path(path@), domain@));
    out
}

/// `host:port`, the port defaulting by scheme.
pub fn domain_port(uri: &Uri) -> (r: Vec<u8>)
    ensures
        r@ == address_of(uri.domain@, effective_port(uri.scheme, uri.port)),
{
    let port: u16 = match uri.port {
        Some(p) => p,
        None => match uri.scheme {
            Scheme::Https => 443,
            Scheme::Http => 80,
        },
    };
    let mut out = slice_to_vec(uri.domain.as_slice());
    out.push(58u8);
    push_decimal(&mut out, port);
    assert(out@ =~= address_of(uri.domain@, effective_port(uri.scheme, uri.port)));
    out
}

/// Whether the connection is wrapped in TLS.
pub fn use_tls(uri: &Uri) -> (r: bool)
    ensures
        r == (uri.scheme == Scheme::Https),
{
    match uri.scheme {
        Scheme::Https => true,
        Scheme::Http => false,
    }
}

/// The exchange that fetching `uri` performs: TLS, checked against the host
/// name, exactly for `https`, and a plain connection for `http`.
pub fn plan_exchange(uri: &Uri) -> (r: Exchange)
    ensures
        r.address@ == address_of(uri.domain@, effective_port(uri.scheme, uri.port)),
        r.request@ == request_head(request_path(uri.path@), uri.domain@),
        uri.scheme == Scheme::Https ==> r.tls_server_name is Some
            && r.tls_server_name->Some_0@ == uri.domain@,
        uri.scheme == Scheme::Http ==> r.tls_server_name is None,
{
    let address = domain_port(uri);
    let request = build_request(uri.path.as_slice(), uri.domain.as_slice());
    let tls_server_name = if use_tls(uri) {
        Some(slice_to_vec(uri.domain.as_slice()))
    } else {
        None
    };
    Exchange { address, tls_server_name, request }
}

/// The URL among the command-line arguments, which follow the program name:
/// missing exactly when there is nothing after the program name.
pub fn url_argument(args: &Vec<String>) -> (r: Result<&String, FetchError>)
    ensures
        args@.len() <= 1 <==> r is Err,
        match r {
            Ok(u) => *u == args@[1],
            Err(e) => e == FetchError::MissingArgument,
        },
{
    if args.len() <= 1 {
        Err(FetchError::MissingArgument)
    } else {
        Ok(&args[1])
    }
}

} // verus!
