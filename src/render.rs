//! Writing a parsed response back out, and the proof that parsing what is
//! written gives back the same status line, header map and body.

use vstd::prelude::*;
use crate::bytes::{find, find_from, lemma_find_from, matches_at};
use crate::headers::{lemma_last_write_wins, names_unique, pairs_map};
use crate::response::{
    blank_line, body_of, colon_space, crlf, head_of, header_lines, header_pair, header_pairs,
    headers_of, lemma_split_step, split_on, status_of, well_formed,
};

verus! {

/// The pieces of `xs` with `sep` between each two.
pub open spec fn join(xs: Seq<Seq<u8>>, sep: Seq<u8>) -> Seq<u8>
    decreases xs.len(),
{
    if xs.len() == 0 {
        Seq::empty()
    } else if xs.len() == 1 {
        xs[0]
    } else {
        xs[0] + sep + join(xs.drop_first(), sep)
    }
}

/// A header line written back from its name and value.
pub open spec fn header_line(p: (Seq<u8>, Seq<u8>)) -> Seq<u8> {
    p.0 + colon_space() + p.1
}

/// The message that status line, header pairs and body make, the pairs
/// written one per line in the order given.
pub open spec fn render(status: Seq<u8>, pairs: Seq<(Seq<u8>, Seq<u8>)>, body: Seq<u8>) -> Seq<u8> {
    join(seq![status] + pairs.map_values(|p: (Seq<u8>, Seq<u8>)| header_line(p)), crlf()) + blank_line() + body
}

/// Joining the pieces of a split with the separator gives back the whole.
pub proof fn lemma_split_join(s: Seq<u8>, sep: Seq<u8>)
    requires
        sep.len() > 0,
    ensures
        split_on(s, sep).len() >= 1,
        join(split_on(s, sep), sep) == s,
    decreases s.len(),
{
    lemma_split_step(s, sep);
    let i = find(s, sep);
    if i >= 0 {
        lemma_find_from(s, sep, 0);
        let rest = s.subrange(i + sep.len(), s.len() as int);
        lemma_split_join(rest, sep);
        let xs = split_on(s, sep);
        assert(xs.drop_first() == split_on(rest, sep));
        assert(s.subrange(i, i + sep.len()) == sep);
        assert(s =~= s.subrange(0, i) + sep + rest);
    }
}

/// A well-formed response is exactly its parts put back together: the status
/// line, each header line rebuilt from its name and value, the blank line and
/// the body; and its header map is what those names and values give, a later
/// value for a name replacing an earlier one.
pub proof fn lemma_parts_rejoin(r: Seq<u8>)
    requires
        well_formed(r),
    ensures
        r == render(status_of(r), header_pairs(header_lines(r)), body_of(r)),
        headers_of(r) == pairs_map(header_pairs(header_lines(r))),
{
    let at = find(r, blank_line());
    lemma_find_from(r, blank_line(), 0);
    let head = head_of(r);
    let lines = split_on(head, crlf());
    lemma_split_join(head, crlf());
    let hl = header_lines(r);
    let pairs = header_pairs(hl);
    let rebuilt = pairs.map_values(|p: (Seq<u8>, Seq<u8>)| header_line(p));
    assert forall|j: int| 0 <= j < hl.len() implies rebuilt[j] == hl[j] by {
        let l = hl[j];
        assert(find(l, colon_space()) >= 0);
        lemma_find_from(l, colon_space(), 0);
        let k = find(l, colon_space());
        assert(l.subrange(k, k + 2) == colon_space());
        assert(l =~= l.subrange(0, k) + colon_space() + l.subrange(k + 2, l.len() as int));
    }
    assert(seq![status_of(r)] + rebuilt =~= lines);
    assert(r.subrange(at, at + 4) == blank_line());
    assert(r =~= head + blank_line() + body_of(r));
}

/// `pat` stands nowhere in `s`.
pub open spec fn free_of(s: Seq<u8>, pat: Seq<u8>) -> bool {
    forall|j: int| !#[trigger] matches_at(s, pat, j)
}

/// A match at `i` with none before it is what `find_from` returns.
proof fn lemma_find_first(s: Seq<u8>, pat: Seq<u8>, start: int, i: int)
    requires
        0 <= start <= i,
        matches_at(s, pat, i),
        forall|j: int| start <= j < i ==> !matches_at(s, pat, j),
    ensures
        find_from(s, pat, start) == i,
    decreases i - start,
{
    if start < i {
        lemma_find_first(s, pat, start + 1, i);
    }
}

/// Where `find` finds nothing, `pat` stands nowhere.
proof fn lemma_not_found(s: Seq<u8>, pat: Seq<u8>)
    requires
        find(s, pat) < 0,
    ensures
        free_of(s, pat),
{
    lemma_find_from(s, pat, 0);
    assert forall|j: int| !#[trigger] matches_at(s, pat, j) by {
        if matches_at(s, pat, j) {
            assert(0 <= j < s.len() + 1);
        }
    }
}

/// A match inside a part of `s` is a match in `s`.
proof fn lemma_free_sub(s: Seq<u8>, pat: Seq<u8>, a: int, b: int)
    requires
        free_of(s, pat),
        0 <= a <= b <= s.len(),
    ensures
        free_of(s.subrange(a, b), pat),
{
    let t = s.subrange(a, b);
    assert forall|j: int| !#[trigger] matches_at(t, pat, j) by {
        if matches_at(t, pat, j) {
            assert(t.subrange(j, j + pat.len()) =~= s.subrange(a + j, a + j + pat.len()));
            assert(matches_at(s, pat, a + j));
        }
    }
}

/// A match in `b` is a match in `a + b`, shifted by the length of `a`.
proof fn lemma_match_shift(a: Seq<u8>, b: Seq<u8>, pat: Seq<u8>, j: int)
    requires
        0 <= j,
    ensures
        matches_at(a + b, pat, a.len() + j) == matches_at(b, pat, j),
{
    if j + pat.len() <= b.len() {
        assert((a + b).subrange(a.len() + j, a.len() + j + pat.len()) =~= b.subrange(j, j + pat.len()));
    }
}

/// A match in `a` is a match in `a + b`.
proof fn lemma_match_prefix(a: Seq<u8>, b: Seq<u8>, pat: Seq<u8>, j: int)
    requires
        0 <= j,
        j + pat.len() <= a.len(),
    ensures
        matches_at(a + b, pat, j) == matches_at(a, pat, j),
{
    assert((a + b).subrange(j, j + pat.len()) =~= a.subrange(j, j + pat.len()));
}

/// A line break stands in `a + b` only where it stands in `a` or in `b`,
/// unless `a` ends in `\r` and `b` starts with `\n`.
proof fn lemma_crlf_free_concat(a: Seq<u8>, b: Seq<u8>)
    requires
        free_of(a, crlf()),
        free_of(b, crlf()),
        a.len() == 0 || b.len() == 0 || a.last() != 13u8 || b[0] != 10u8,
    ensures
        free_of(a + b, crlf()),
{
    assert forall|j: int| !#[trigger] matches_at(a + b, crlf(), j) by {
        if matches_at(a + b, crlf(), j) {
            assert((a + b).subrange(j, j + 2)[0] == 13u8);
            assert((a + b).subrange(j, j + 2)[1] == 10u8);
            if j + 2 <= a.len() {
                lemma_match_prefix(a, b, crlf(), j);
            } else if j >= a.len() {
                lemma_match_shift(a, b, crlf(), j - a.len());
            } else {
                assert(a.last() == (a + b)[j]);
                assert(b[0] == (a + b)[j + 1]);
            }
        }
    }
}

/// A piece free of `sep`, then `sep`: the first `sep` is right after the piece.
proof fn lemma_find_after_piece(x: Seq<u8>, y: Seq<u8>)
    requires
        free_of(x, crlf()),
    ensures
        find(x + crlf() + y, crlf()) == x.len(),
{
    let s = x + crlf() + y;
    assert(s.subrange(x.len() as int, x.len() + 2int) =~= crlf());
    assert forall|j: int| 0 <= j < x.len() implies !matches_at(s, crlf(), j) by {
        if j + 2 <= x.len() {
            lemma_match_prefix(x, crlf() + y, crlf(), j);
            assert(s =~= x + (crlf() + y));
        } else {
            assert(s[j + 1] == 13u8);
            assert(s.subrange(j, j + 2)[1] == s[j + 1]);
        }
    }
    lemma_find_first(s, crlf(), 0, x.len() as int);
}

/// Splitting pieces that hold no line break, joined by line breaks, gives
/// back the pieces.
proof fn lemma_join_split(xs: Seq<Seq<u8>>)
    requires
        xs.len() >= 1,
        forall|i: int| 0 <= i < xs.len() ==> free_of(#[trigger] xs[i], crlf()),
    ensures
        split_on(join(xs, crlf()), crlf()) == xs,
    decreases xs.len(),
{
    if xs.len() == 1 {
        lemma_find_from(xs[0], crlf(), 0);
        if find(xs[0], crlf()) >= 0 {
            assert(matches_at(xs[0], crlf(), find(xs[0], crlf())));
        }
        assert(split_on(xs[0], crlf()) =~= xs);
    } else {
        let rest = xs.drop_first();
        assert forall|i: int| 0 <= i < rest.len() implies free_of(#[trigger] rest[i], crlf()) by {
            assert(rest[i] == xs[i + 1]);
        }
        lemma_join_split(rest);
        let y = join(rest, crlf());
        let s = xs[0] + crlf() + y;
        assert(join(xs, crlf()) == s);
        lemma_find_after_piece(xs[0], y);
        assert(s.subrange(0, xs[0].len() as int) =~= xs[0]);
        assert(s.subrange(xs[0].len() + 2int, s.len() as int) =~= y);
        assert(split_on(s, crlf()) =~= seq![xs[0]] + rest);
        assert(seq![xs[0]] + rest =~= xs);
    }
}

/// A blank line is a line break followed by another.
proof fn lemma_blank_has_crlf(s: Seq<u8>, j: int)
    requires
        matches_at(s, blank_line(), j),
    ensures
        matches_at(s, crlf(), j),
        matches_at(s, crlf(), j + 2),
{
    assert(s.subrange(j, j + 2) =~= s.subrange(j, j + 4).subrange(0, 2));
    assert(s.subrange(j + 2, j + 4) =~= s.subrange(j, j + 4).subrange(2, 4));
    assert(blank_line().subrange(0, 2) =~= crlf());
    assert(blank_line().subrange(2, 4) =~= crlf());
}

/// The head made of pieces without line breaks, all but the first non-empty,
/// is followed by the first blank line of the message.
proof fn lemma_blank_after_join(xs: Seq<Seq<u8>>, body: Seq<u8>)
    requires
        xs.len() >= 1,
        forall|i: int| 0 <= i < xs.len() ==> free_of(#[trigger] xs[i], crlf()),
        forall|i: int| 1 <= i < xs.len() ==> (#[trigger] xs[i]).len() > 0,
    ensures
        find(join(xs, crlf()) + blank_line() + body, blank_line()) == join(xs, crlf()).len(),
    decreases xs.len(),
{
    let h = join(xs, crlf());
    let s = h + blank_line() + body;
    let x0 = xs[0];
    assert(s.subrange(h.len() as int, h.len() + 4int) =~= blank_line());
    if xs.len() == 1 {
        assert(s =~= x0 + crlf() + (crlf() + body));
        lemma_find_after_piece(x0, crlf() + body);
        lemma_find_from(s, crlf(), 0);
        assert forall|j: int| 0 <= j < h.len() implies !matches_at(s, blank_line(), j) by {
            if matches_at(s, blank_line(), j) {
                lemma_blank_has_crlf(s, j);
            }
        }
    } else {
        let rest = xs.drop_first();
        assert forall|i: int| 0 <= i < rest.len() implies free_of(#[trigger] rest[i], crlf()) by {
            assert(rest[i] == xs[i + 1]);
        }
        assert forall|i: int| 1 <= i < rest.len() implies (#[trigger] rest[i]).len() > 0 by {
            assert(rest[i] == xs[i + 1]);
        }
        lemma_blank_after_join(rest, body);
        let hr = join(rest, crlf());
        let s2 = hr + blank_line() + body;
        lemma_find_from(s2, blank_line(), 0);
        assert(s =~= x0 + crlf() + s2);
        let pre = x0 + crlf();
        assert(s =~= pre + s2);
        // the rest begins with a non-empty piece followed by a line break
        let r0 = rest[0];
        let z = if rest.len() == 1 { crlf() + body } else { join(rest.drop_first(), crlf()) + blank_line() + body };
        assert(s2 =~= r0 + crlf() + z);
        lemma_find_after_piece(r0, z);
        lemma_find_from(s2, crlf(), 0);
        assert(!matches_at(s2, crlf(), 0));
        lemma_find_after_piece(x0, s2);
        lemma_find_from(s, crlf(), 0);
        assert forall|j: int| 0 <= j < h.len() implies !matches_at(s, blank_line(), j) by {
            if matches_at(s, blank_line(), j) {
                lemma_blank_has_crlf(s, j);
                if j == x0.len() {
                    lemma_match_shift(pre, s2, crlf(), 0);
                } else if j == x0.len() + 1 {
                    assert(s[j] == 10u8);
                    assert(s.subrange(j, j + 4)[0] == s[j]);
                } else if j > x0.len() + 1 {
                    lemma_match_shift(pre, s2, blank_line(), j - pre.len());
                }
            }
        }
        lemma_match_shift(pre, s2, blank_line(), hr.len() as int);
    }
    lemma_find_first(s, blank_line(), 0, h.len() as int);
}

/// A line written from a name without `": "` is cut back into that name and value.
proof fn lemma_header_line_parts(p: (Seq<u8>, Seq<u8>))
    requires
        free_of(p.0, colon_space()),
        free_of(p.0, crlf()),
        free_of(p.1, crlf()),
    ensures
        find(header_line(p), colon_space()) == p.0.len(),
        header_pair(header_line(p)) == p,
        free_of(header_line(p), crlf()),
        header_line(p).len() > 0,
{
    let k = p.0;
    let v = p.1;
    let l = header_line(p);
    assert(l =~= k + (colon_space() + v));
    assert(l.subrange(k.len() as int, k.len() + 2int) =~= colon_space());
    assert forall|j: int| 0 <= j < k.len() implies !matches_at(l, colon_space(), j) by {
        if j + 2 <= k.len() {
            lemma_match_prefix(k, colon_space() + v, colon_space(), j);
        } else {
            assert(l[j + 1] == 58u8);
            assert(l.subrange(j, j + 2)[1] == l[j + 1]);
        }
    }
    lemma_find_first(l, colon_space(), 0, k.len() as int);
    assert(l.subrange(0, k.len() as int) =~= k);
    assert(l.subrange(k.len() + 2int, l.len() as int) =~= v);
    assert forall|j: int| !#[trigger] matches_at(colon_space(), crlf(), j) by {
        if matches_at(colon_space(), crlf(), j) {
            assert(colon_space().subrange(j, j + 2)[0] == colon_space()[j]);
        }
    }
    lemma_crlf_free_concat(k, colon_space());
    lemma_crlf_free_concat(k + colon_space(), v);
}

/// Every piece of a split is free of the separator.
proof fn lemma_split_pieces_free(s: Seq<u8>, sep: Seq<u8>)
    requires
        sep.len() > 0,
    ensures
        forall|i: int| 0 <= i < split_on(s, sep).len() ==> free_of(#[trigger] split_on(s, sep)[i], sep),
    decreases s.len(),
{
    lemma_find_from(s, sep, 0);
    lemma_split_join(s, sep);
    let i = find(s, sep);
    if i < 0 {
        lemma_not_found(s, sep);
        assert(split_on(s, sep) =~= seq![s]);
    } else {
        let rest = s.subrange(i + sep.len(), s.len() as int);
        lemma_split_pieces_free(rest, sep);
        let first = s.subrange(0, i);
        assert forall|j: int| !#[trigger] matches_at(first, sep, j) by {
            if matches_at(first, sep, j) {
                assert(first.subrange(j, j + sep.len()) =~= s.subrange(j, j + sep.len()));
                assert(matches_at(s, sep, j));
            }
        }
        let xs = split_on(s, sep);
        assert(xs =~= seq![first] + split_on(rest, sep));
        assert forall|m: int| 0 <= m < xs.len() implies free_of(#[trigger] xs[m], sep) by {
            if m > 0 {
                assert(xs[m] == split_on(rest, sep)[m - 1]);
            }
        }
    }
}

/// Each entry of the map that a sequence of pairs gives is one of the pairs.
proof fn lemma_entries_from_pairs(s: Seq<(Seq<u8>, Seq<u8>)>)
    ensures
        forall|k: Seq<u8>|
            #[trigger] pairs_map(s).contains_key(k) ==> exists|i: int|
                0 <= i < s.len() && s[i] == (k, pairs_map(s)[k]),
    decreases s.len(),
{
    if s.len() > 0 {
        let t = s.drop_last();
        lemma_entries_from_pairs(t);
        assert forall|k: Seq<u8>| #[trigger] pairs_map(s).contains_key(k) implies exists|i: int|
            0 <= i < s.len() && s[i] == (k, pairs_map(s)[k]) by {
            if k == s.last().0 {
                assert(s[s.len() - 1] == (k, pairs_map(s)[k]));
            } else {
                assert(pairs_map(t).contains_key(k));
                let i = choose|i: int| 0 <= i < t.len() && t[i] == (k, pairs_map(t)[k]);
                assert(s[i] == t[i]);
            }
        }
    }
}

/// The parts of a well-formed response hold no line break, and header names
/// no `": "`.
proof fn lemma_parts_free(r: Seq<u8>)
    requires
        well_formed(r),
    ensures
        free_of(status_of(r), crlf()),
        forall|k: Seq<u8>|
            #[trigger] headers_of(r).contains_key(k) ==> free_of(k, crlf()) && free_of(k, colon_space())
                && free_of(headers_of(r)[k], crlf()),
{
    let head = r.subrange(0, find(r, blank_line()));
    lemma_split_pieces_free(head, crlf());
    lemma_split_join(head, crlf());
    let lines = split_on(head, crlf());
    let hl = header_lines(r);
    let pairs = header_pairs(hl);
    lemma_entries_from_pairs(pairs);
    assert forall|k: Seq<u8>| #[trigger] headers_of(r).contains_key(k) implies free_of(k, crlf())
        && free_of(k, colon_space()) && free_of(headers_of(r)[k], crlf()) by {
        let i = choose|i: int| 0 <= i < pairs.len() && pairs[i] == (k, headers_of(r)[k]);
        let l = hl[i];
        assert(l == lines[i + 1]);
        assert(free_of(l, crlf()));
        assert(find(l, colon_space()) >= 0);
        lemma_find_from(l, colon_space(), 0);
        let c = find(l, colon_space());
        assert(pairs[i] == header_pair(l));
        lemma_free_sub(l, crlf(), 0, c);
        lemma_free_sub(l, crlf(), c + 2, l.len() as int);
        assert forall|j: int| !#[trigger] matches_at(k, colon_space(), j) by {
            if matches_at(k, colon_space(), j) {
                assert(k.subrange(j, j + 2) =~= l.subrange(j, j + 2));
                assert(matches_at(l, colon_space(), j));
            }
        }
    }
}

/// Parsing a message written from a status line, header pairs and a body
/// gives back that status line, the map of those pairs (a later value for a
/// name replacing an earlier one) and that body, provided no part holds a
/// line break and no name holds `": "`.
pub proof fn lemma_render_parses(status: Seq<u8>, pairs: Seq<(Seq<u8>, Seq<u8>)>, body: Seq<u8>)
    requires
        free_of(status, crlf()),
        forall|i: int|
            0 <= i < pairs.len() ==> free_of((#[trigger] pairs[i]).0, crlf()) && free_of(
                pairs[i].0,
                colon_space(),
            ) && free_of(pairs[i].1, crlf()),
    ensures
        well_formed(render(status, pairs, body)),
        status_of(render(status, pairs, body)) == status,
        headers_of(render(status, pairs, body)) == pairs_map(pairs),
        body_of(render(status, pairs, body)) == body,
{
    let lines = pairs.map_values(|p: (Seq<u8>, Seq<u8>)| header_line(p));
    let xs = seq![status] + lines;
    assert forall|i: int| 0 <= i < pairs.len() implies find(#[trigger] lines[i], colon_space()) == pairs[i].0.len()
        && header_pair(lines[i]) == pairs[i] && free_of(lines[i], crlf()) && lines[i].len() > 0 by {
        lemma_header_line_parts(pairs[i]);
    }
    assert forall|i: int| 0 <= i < xs.len() implies free_of(#[trigger] xs[i], crlf()) by {
        if i > 0 {
            assert(xs[i] == lines[i - 1]);
        }
    }
    assert forall|i: int| 1 <= i < xs.len() implies (#[trigger] xs[i]).len() > 0 by {
        assert(xs[i] == lines[i - 1]);
    }
    let h = join(xs, crlf());
    let r = render(status, pairs, body);
    assert(r == h + blank_line() + body);
    lemma_blank_after_join(xs, body);
    assert(r.subrange(0, h.len() as int) =~= h);
    assert(r.subrange(h.len() + 4int, r.len() as int) =~= body);
    lemma_join_split(xs);
    assert(header_lines(r) =~= lines);
    assert(header_pairs(lines) =~= pairs);
}

/// Writing a well-formed response back out with its header map listed in any
/// order, each name once, and parsing the result gives the same status line,
/// the same header map and the same body.
pub proof fn lemma_rewrite_parses_same(r: Seq<u8>, pairs: Seq<(Seq<u8>, Seq<u8>)>)
    requires
        well_formed(r),
        names_unique(pairs),
        pairs_map(pairs) == headers_of(r),
    ensures
        well_formed(render(status_of(r), pairs, body_of(r))),
        status_of(render(status_of(r), pairs, body_of(r))) == status_of(r),
        headers_of(render(status_of(r), pairs, body_of(r))) == headers_of(r),
        body_of(render(status_of(r), pairs, body_of(r))) == body_of(r),
{
    lemma_parts_free(r);
    lemma_last_write_wins(pairs);
    assert forall|i: int| 0 <= i < pairs.len() implies free_of((#[trigger] pairs[i]).0, crlf()) && free_of(
        pairs[i].0,
        colon_space(),
    ) && free_of(pairs[i].1, crlf()) by {
        assert(forall|j: int| i < j < pairs.len() ==> pairs[j].0 != pairs[i].0);
        assert(headers_of(r).contains_key(pairs[i].0));
    }
    lemma_render_parses(status_of(r), pairs, body_of(r));
}

} // verus!
