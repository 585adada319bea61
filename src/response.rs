//! Splitting a raw HTTP response into status line, header map and body.

use vstd::prelude::*;
use vstd::slice::{slice_subrange, slice_to_vec};
use crate::bytes::{find, find_from_exec, lemma_find_from};
use crate::error::FetchError;
use crate::headers::{lemma_last_write_wins, pairs_map, Headers};

verus! {

/// The line break `"\r\n"`.
pub open spec fn crlf() -> Seq<u8> {
    seq![13u8, 10u8]
}

/// The blank line `"\r\n\r\n"` that ends the head of a response.
pub open spec fn blank_line() -> Seq<u8> {
    seq![13u8, 10u8, 13u8, 10u8]
}

/// The separator `": "` between a header's name and its value.
pub open spec fn colon_space() -> Seq<u8> {
    seq![58u8, 32u8]
}

/// The pieces of `s` between the occurrences of `sep`, taken from the left.
pub open spec fn split_on(s: Seq<u8>, sep: Seq<u8>) -> Seq<Seq<u8>>
    decreases s.len(),
    via split_on_decreases
{
    let i = find(s, sep);
    if i < 0 || sep.len() == 0 {
        seq![s]
    } else {
        seq![s.subrange(0, i)] + split_on(s.subrange(i + sep.len(), s.len() as int), sep)
    }
}

#[via_fn]
proof fn split_on_decreases(s: Seq<u8>, sep: Seq<u8>) {
    lemma_find_from(s, sep, 0);
}

/// Everything before the first blank line.
pub open spec fn head_of(r: Seq<u8>) -> Seq<u8> {
    r.subrange(0, find(r, blank_line()))
}

/// Everything after the first blank line.
pub open spec fn body_of(r: Seq<u8>) -> Seq<u8> {
    r.subrange(find(r, blank_line()) + 4, r.len() as int)
}

/// The first line of the head.
pub open spec fn status_of(r: Seq<u8>) -> Seq<u8> {
    split_on(head_of(r), crlf())[0]
}

/// The lines of the head after the first.
pub open spec fn header_lines(r: Seq<u8>) -> Seq<Seq<u8>> {
    split_on(head_of(r), crlf()).drop_first()
}

/// A header line cut at its first `": "` into name and value.
pub open spec fn header_pair(l: Seq<u8>) -> (Seq<u8>, Seq<u8>) {
    let k = find(l, colon_space());
    (l.subrange(0, k), l.subrange(k + 2, l.len() as int))
}

/// The name and value of each line, in order.
pub open spec fn header_pairs(lines: Seq<Seq<u8>>) -> Seq<(Seq<u8>, Seq<u8>)> {
    lines.map_values(|l: Seq<u8>| header_pair(l))
}

/// Every line holds a `": "`.
pub open spec fn all_have_colon(lines: Seq<Seq<u8>>) -> bool {
    forall|j: int| 0 <= j < lines.len() ==> find(#[trigger] lines[j], colon_space()) >= 0
}

/// The response has a blank line, and every header line a `": "`.
pub open spec fn well_formed(r: Seq<u8>) -> bool {
    find(r, blank_line()) >= 0 && all_have_colon(header_lines(r))
}

/// The header map that a well-formed response carries.
pub open spec fn headers_of(r: Seq<u8>) -> Map<Seq<u8>, Seq<u8>> {
    pairs_map(header_pairs(header_lines(r)))
}

/// A response cut into its three parts.
pub struct ParsedResponse {
    /// The first line, e.g. `HTTP/1.0 200 OK`.
    pub status: Vec<u8>,
    /// The header lines as a map.
    pub headers: Headers,
    /// Everything after the blank line, unchanged.
    pub body: Vec<u8>,
}

/// One step of `split_on`: where `sep` stands, the first piece ends there.
pub(crate) proof fn lemma_split_step(s: Seq<u8>, sep: Seq<u8>)
    requires
        sep.len() > 0,
    ensures
        find(s, sep) < 0 ==> split_on(s, sep) == seq![s],
        find(s, sep) >= 0 ==> find(s, sep) + sep.len() <= s.len() && split_on(s, sep)[0] == s.subrange(0, find(s, sep))
            && split_on(s, sep).drop_first() == split_on(s.subrange(find(s, sep) + sep.len(), s.len() as int), sep),
{
    lemma_find_from(s, sep, 0);
    if find(s, sep) >= 0 {
        let i = find(s, sep);
        assert(split_on(s, sep).drop_first() =~= split_on(s.subrange(i + sep.len(), s.len() as int), sep));
    }
}

/// Splits `resp` at its first blank line into head and body, takes the head's
/// first line as the status, and enters every further line, cut at its first
/// `": "`, into the header map, a later value for a name replacing an earlier one.
pub fn parse_response(resp: &[u8]) -> (r: Result<ParsedResponse, FetchError>)
    ensures
        match r {
            Ok(p) => {
                &&& well_formed(resp@)
                &&& p.status@ == status_of(resp@)
                &&& p.headers.wf()
                &&& p.headers@ == headers_of(resp@)
                &&& p.body@ == body_of(resp@)
            },
            Err(e) => !well_formed(resp@) && e == FetchError::MalformedResponse,
        },
{
    let blank: Vec<u8> = vec![13u8, 10u8, 13u8, 10u8];
    let nl: Vec<u8> = vec![13u8, 10u8];
    let cs: Vec<u8> = vec![58u8, 32u8];
    assert(blank@ =~= blank_line());
    assert(nl@ =~= crlf());
    assert(cs@ =~= colon_space());
    let at = match find_from_exec(resp, blank.as_slice(), 0) {
        Some(i) => i,
        None => {
            return Err(FetchError::MalformedResponse);
        },
    };
    proof {
        lemma_find_from(resp@, blank_line(), 0);
    }
    assert(at + 4 <= resp.len());
    let head = slice_subrange(resp, 0, at);
    let body = slice_to_vec(slice_subrange(resp, at + 4, resp.len()));
    assert(head@ == head_of(resp@));
    proof {
        lemma_split_step(head@, crlf());
    }
    let mut headers = Headers::new();
    let status: Vec<u8>;
    let mut rest: &[u8];
    match find_from_exec(head, nl.as_slice(), 0) {
        None => {
            status = slice_to_vec(head);
            assert(header_lines(resp@) =~= Seq::<Seq<u8>>::empty());
            assert(header_pairs(header_lines(resp@)) =~= Seq::<(Seq<u8>, Seq<u8>)>::empty());
            return Ok(ParsedResponse { status, headers, body });
        },
        Some(i) => {
            status = slice_to_vec(slice_subrange(head, 0, i));
            rest = slice_subrange(head, i + 2, head.len());
        },
    }
    let ghost lines = header_lines(resp@);
    let ghost mut done: Seq<Seq<u8>> = Seq::empty();
    loop
        invariant
            nl@ == crlf(),
            cs@ == colon_space(),
            lines == header_lines(resp@),
            lines == done + split_on(rest@, crlf()),
            all_have_colon(done),
            headers.wf(),
            headers@ == pairs_map(header_pairs(done)),
            find(resp@, blank_line()) >= 0,
            status@ == status_of(resp@),
            body@ == body_of(resp@),
        decreases rest@.len(),
    {
        proof {
            lemma_split_step(rest@, crlf());
        }
        let found = find_from_exec(rest, nl.as_slice(), 0);
        let line: &[u8] = match found {
            Some(i) => slice_subrange(rest, 0, i),
            None => rest,
        };
        assert(line@ == split_on(rest@, crlf())[0]);
        assert(lines[done.len() as int] == line@);
        let k = match find_from_exec(line, cs.as_slice(), 0) {
            Some(k) => k,
            None => {
                assert(!all_have_colon(lines));
                return Err(FetchError::MalformedResponse);
            },
        };
        proof {
            lemma_find_from(line@, colon_space(), 0);
        }
        assert(k + 2 <= line.len());
        let name = slice_to_vec(slice_subrange(line, 0, k));
        let value = slice_to_vec(slice_subrange(line, k + 2, line.len()));
        assert((name@, value@) == header_pair(line@));
        headers.insert(name, value);
        proof {
            let old_done = done;
            done = done.push(line@);
            assert(header_pairs(done) =~= header_pairs(old_done).push(header_pair(line@)));
            assert(header_pairs(done).drop_last() =~= header_pairs(old_done));
            assert forall|j: int| 0 <= j < done.len() implies find(#[trigger] done[j], colon_space()) >= 0 by {
                if j < old_done.len() {
                    assert(done[j] == old_done[j]);
                }
            }
        }
        match found {
            Some(i) => {
                assert(i + 2 <= rest.len());
                rest = slice_subrange(rest, i + 2, rest.len());
                assert(lines =~= done + split_on(rest@, crlf()));
            },
            None => {
                assert(lines =~= done);
                return Ok(ParsedResponse { status, headers, body });
            },
        }
    }
}

/// Every header line of a well-formed response yields an entry of its map
/// under the line's name; where names repeat, the value is that of the last
/// line with the name.
pub proof fn lemma_each_line_an_entry(r: Seq<u8>)
    requires
        well_formed(r),
    ensures
        forall|j: int|
            0 <= j < header_lines(r).len() ==> headers_of(r).contains_key(
                #[trigger] header_pair(header_lines(r)[j]).0,
            ),
        forall|j: int|
            0 <= j < header_lines(r).len() && (forall|m: int|
                j < m < header_lines(r).len() ==> header_pair(header_lines(r)[m]).0 != header_pair(
                    header_lines(r)[j],
                ).0) ==> headers_of(r)[#[trigger] header_pair(header_lines(r)[j]).0] == header_pair(
                header_lines(r)[j],
            ).1,
        forall|k: Seq<u8>|
            headers_of(r).contains_key(k) ==> exists|j: int|
                0 <= j < header_lines(r).len() && #[trigger] header_pair(header_lines(r)[j]).0 == k,
{
    let hl = header_lines(r);
    let pairs = header_pairs(hl);
    lemma_last_write_wins(pairs);
    assert forall|j: int| 0 <= j < hl.len() implies headers_of(r).contains_key(
        #[trigger] header_pair(hl[j]).0,
    ) by {
        assert(pairs[j] == header_pair(hl[j]));
    }
    assert forall|j: int|
        0 <= j < hl.len() && (forall|m: int|
            j < m < hl.len() ==> header_pair(hl[m]).0 != header_pair(hl[j]).0)
            implies headers_of(r)[#[trigger] header_pair(hl[j]).0] == header_pair(hl[j]).1 by {
        assert(pairs[j] == header_pair(hl[j]));
        assert forall|m: int| j < m < pairs.len() implies pairs[m].0 != pairs[j].0 by {
            assert(pairs[m] == header_pair(hl[m]));
        }
    }
    assert forall|k: Seq<u8>| headers_of(r).contains_key(k) implies exists|j: int|
        0 <= j < hl.len() && #[trigger] header_pair(hl[j]).0 == k by {
        let j = choose|j: int| 0 <= j < pairs.len() && (#[trigger] pairs[j]).0 == k;
        assert(pairs[j] == header_pair(hl[j]));
    }
}

} // verus!
