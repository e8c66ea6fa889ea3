//! Properties of the parser, stated over `spec_parse` and proved.

use vstd::prelude::*;
use crate::message::{span, FirstLine, Header, MessageModel, ParseError};
use crate::parser::{spec_first_line, spec_parse, spec_scan_headers};
use crate::scan::{
    is_ws, lemma_find_colon_bounds, lemma_find_lf_bounds, lemma_skip_token_bounds,
    lemma_skip_ws_bounds, spec_content_end, spec_find_colon, spec_find_lf, spec_skip_token,
    spec_skip_ws, spec_starts_sip, COLON, CR, LF,
};

verus! {

/// A token of a first line: at least one byte, and no whitespace, CR or LF.
pub open spec fn is_plain_token(t: Seq<u8>) -> bool {
    &&& t.len() > 0
    &&& forall|k: int| 0 <= k < t.len() ==> !is_ws(#[trigger] t[k]) && t[k] != LF && t[k] != CR
}

/// Whether `t` begins with `SIP/`.
pub open spec fn begins_sip(t: Seq<u8>) -> bool {
    t.len() >= 4 && t[0] == 83u8 && t[1] == 73u8 && t[2] == 80u8 && t[3] == 47u8
}

pub open spec fn space() -> Seq<u8> {
    seq![32u8]
}

pub open spec fn crlf() -> Seq<u8> {
    seq![CR, LF]
}

/// Three pieces joined by single spaces.
pub open spec fn joined(a: Seq<u8>, b: Seq<u8>, c: Seq<u8>) -> Seq<u8> {
    a + space() + b + space() + c
}

/// The fields of a first line, taken from `s` and joined by single spaces.
pub open spec fn first_line_text(fl: FirstLine, s: Seq<u8>) -> Seq<u8> {
    match fl {
        FirstLine::Request { method, uri, version } => joined(method.of(s), uri.of(s), version.of(s)),
        FirstLine::Reply { version, status, reason } => joined(version.of(s), status.of(s), reason.of(s)),
    }
}

/// Whether `e` reports a header line that starts at or after `at`.
pub open spec fn is_header_error_from(e: ParseError, at: int) -> bool {
    match e {
        ParseError::MalformedHeader { line_offset } => line_offset >= at,
        ParseError::Truncated { offset } => offset >= at,
        _ => false,
    }
}

/// Where the line after a header line whose value ends at `e` starts.
pub open spec fn line_after(s: Seq<u8>, e: int) -> int {
    if 0 <= e < s.len() && s[e] == CR {
        e + 2
    } else {
        e + 1
    }
}

/// A header's ranges are ordered name, colon, value, all inside `s`.
pub open spec fn header_in_place(s: Seq<u8>, h: Header) -> bool {
    &&& h.name.start <= h.name.end < h.value.start <= h.value.end < s.len()
    &&& s[h.name.end as int] == COLON
}

/// Each header is in place, and each one starts on the line right after the one before.
pub open spec fn in_wire_order(s: Seq<u8>, hs: Seq<Header>) -> bool {
    &&& forall|i: int| 0 <= i < hs.len() ==> header_in_place(s, #[trigger] hs[i])
    &&& forall|i: int, j: int|
        #![trigger hs[i], hs[j]]
        0 <= i && j == i + 1 && j < hs.len() ==> hs[j].name.start == line_after(
            s,
            hs[i].value.end as int,
        )
}

proof fn lemma_find_lf_at(s: Seq<u8>, i: int, j: int)
    requires
        0 <= i <= j < s.len(),
        forall|k: int| i <= k < j ==> s[k] != LF,
        s[j] == LF,
    ensures
        spec_find_lf(s, i) == j,
    decreases j - i,
{
    if i < j {
        lemma_find_lf_at(s, i + 1, j);
    }
}

proof fn lemma_skip_ws_at(s: Seq<u8>, i: int, j: int, end: int)
    requires
        0 <= i <= j <= end <= s.len(),
        forall|k: int| i <= k < j ==> is_ws(s[k]),
        j == end || !is_ws(s[j]),
    ensures
        spec_skip_ws(s, i, end) == j,
    decreases j - i,
{
    if i < j {
        lemma_skip_ws_at(s, i + 1, j, end);
    }
}

proof fn lemma_skip_token_at(s: Seq<u8>, i: int, j: int, end: int)
    requires
        0 <= i <= j <= end <= s.len(),
        forall|k: int| i <= k < j ==> !is_ws(s[k]),
        j == end || is_ws(s[j]),
    ensures
        spec_skip_token(s, i, end) == j,
    decreases j - i,
{
    if i < j {
        lemma_skip_token_at(s, i + 1, j, end);
    }
}

proof fn lemma_scan_error_offset(s: Seq<u8>, pos: int, acc: Seq<Header>)
    requires
        0 <= pos,
        s.len() <= usize::MAX,
    ensures
        spec_scan_headers(s, pos, acc) matches Err(e) ==> is_header_error_from(e, pos),
    decreases s.len() - pos,
{
    if pos < s.len() {
        lemma_find_lf_bounds(s, pos);
        let lf = spec_find_lf(s, pos);
        if lf < s.len() {
            let ce = spec_content_end(s, pos, lf);
            let c = spec_find_colon(s, pos, ce);
            if ce != pos && c < ce {
                lemma_find_colon_bounds(s, pos, ce);
                lemma_skip_ws_bounds(s, c + 1, ce);
                let h = Header { name: span(pos, c), value: span(spec_skip_ws(s, c + 1, ce), ce) };
                lemma_scan_error_offset(s, lf + 1, acc.push(h));
            }
        }
    }
}

/// The first line of `s`, when its first line feed ends the line `line + CR LF`.
proof fn lemma_line_end(s: Seq<u8>, n: int)
    requires
        0 < n + 1 < s.len(),
        forall|k: int| 0 <= k < n ==> s[k] != LF,
        s[n] == CR,
        s[n + 1] == LF,
    ensures
        spec_find_lf(s, 0) == n + 1,
        spec_content_end(s, 0, n + 1) == n,
{
    lemma_find_lf_at(s, 0, n + 1);
}

/// A request line `method uri version`, with single spaces and a `SIP/` version,
/// is classified as a request whose ranges are exactly the three tokens; parsing
/// the buffer then gives that first line, or an error in a later header line.
pub proof fn lemma_request_line(m: Seq<u8>, u: Seq<u8>, v: Seq<u8>, rest: Seq<u8>)
    requires
        is_plain_token(m),
        is_plain_token(u),
        is_plain_token(v),
        begins_sip(v),
        joined(m, u, v).len() + 2 + rest.len() <= usize::MAX,
    ensures
        ({
            let s = joined(m, u, v) + crlf() + rest;
            let n = joined(m, u, v).len() as int;
            let fl = FirstLine::Request {
                method: span(0, m.len() as int),
                uri: span(m.len() as int + 1, m.len() + 1 + u.len() as int),
                version: span(m.len() + u.len() as int + 2, n),
            };
            &&& spec_first_line(s, n) == Some(fl)
            &&& match spec_parse(s) {
                Ok(msg) => msg.first_line == fl,
                Err(e) => is_header_error_from(e, n + 2),
            }
        }),
{
    let line = joined(m, u, v);
    let s = line + crlf() + rest;
    let n = line.len() as int;
    let a = m.len() as int;
    let c = a + 1 + u.len();
    let d = c + 1;
    assert(forall|k: int| 0 <= k < a ==> s[k] == m[k]);
    assert(forall|k: int| a < k < c ==> s[k] == u[k - a - 1]);
    assert(forall|k: int| d <= k < n ==> s[k] == v[k - d]);
    assert(s[a] == 32u8 && s[c] == 32u8 && s[n] == CR && s[n + 1] == LF);
    assert forall|k: int| 0 <= k < n implies s[k] != LF && s[k] != CR by {
        if k < a {
            assert(s[k] == m[k]);
        } else if a < k < c {
            assert(s[k] == u[k - a - 1]);
        } else if d <= k {
            assert(s[k] == v[k - d]);
        }
    }
    lemma_line_end(s, n);
    assert(!is_ws(s[0]));
    lemma_skip_ws_at(s, 0, 0, n);
    lemma_skip_token_at(s, 0, a, n);
    lemma_skip_ws_at(s, a, a + 1, n);
    lemma_skip_token_at(s, a + 1, c, n);
    lemma_skip_ws_at(s, c, d, n);
    lemma_skip_token_at(s, d, n, n);
    lemma_skip_ws_at(s, n, n, n);
    assert(spec_starts_sip(s, d, n));
    lemma_scan_error_offset(s, n + 2, Seq::empty());
}

/// A reply line `version status reason`, with single spaces after the `SIP/`
/// version and the status, is classified as a reply whose reason is the whole
/// rest of the line, spaces included; parsing the buffer then gives that first
/// line, or an error in a later header line.
pub proof fn lemma_reply_line(ver: Seq<u8>, st: Seq<u8>, rsn: Seq<u8>, rest: Seq<u8>)
    requires
        is_plain_token(ver),
        is_plain_token(st),
        begins_sip(ver),
        forall|k: int| 0 <= k < rsn.len() ==> #[trigger] rsn[k] != LF && rsn[k] != CR,
        rsn.len() > 0 ==> !is_ws(rsn[0]),
        !begins_sip(rsn),
        joined(ver, st, rsn).len() + 2 + rest.len() <= usize::MAX,
    ensures
        ({
            let s = joined(ver, st, rsn) + crlf() + rest;
            let n = joined(ver, st, rsn).len() as int;
            let fl = FirstLine::Reply {
                version: span(0, ver.len() as int),
                status: span(ver.len() as int + 1, ver.len() + 1 + st.len() as int),
                reason: span(ver.len() + st.len() as int + 2, n),
            };
            &&& spec_first_line(s, n) == Some(fl)
            &&& match spec_parse(s) {
                Ok(msg) => msg.first_line == fl,
                Err(e) => is_header_error_from(e, n + 2),
            }
        }),
{
    let line = joined(ver, st, rsn);
    let s = line + crlf() + rest;
    let n = line.len() as int;
    let a = ver.len() as int;
    let c = a + 1 + st.len();
    let d = c + 1;
    assert(forall|k: int| 0 <= k < a ==> s[k] == ver[k]);
    assert(forall|k: int| a < k < c ==> s[k] == st[k - a - 1]);
    assert(forall|k: int| d <= k < n ==> s[k] == rsn[k - d]);
    assert(s[a] == 32u8 && s[c] == 32u8 && s[n] == CR && s[n + 1] == LF);
    assert forall|k: int| 0 <= k < n implies s[k] != LF by {
        if k < a {
            assert(s[k] == ver[k]);
        } else if a < k < c {
            assert(s[k] == st[k - a - 1]);
        } else if d <= k {
            assert(s[k] == rsn[k - d]);
        }
    }
    lemma_line_end(s, n);
    assert(!is_ws(s[0]));
    lemma_skip_ws_at(s, 0, 0, n);
    lemma_skip_token_at(s, 0, a, n);
    lemma_skip_ws_at(s, a, a + 1, n);
    lemma_skip_token_at(s, a + 1, c, n);
    lemma_skip_ws_at(s, c, d, n);
    if d < n {
        assert(s[d] == rsn[0]);
    }
    lemma_skip_ws_at(s, d, d, n);
    lemma_skip_token_bounds(s, d, n);
    let t2e = spec_skip_token(s, d, n);
    if spec_starts_sip(s, d, t2e) {
        assert(s[d] == rsn[0] && s[d + 1] == rsn[1] && s[d + 2] == rsn[2] && s[d + 3] == rsn[3]);
        assert(begins_sip(rsn));
    }
    assert(spec_starts_sip(s, 0, a));
    lemma_scan_error_offset(s, n + 2, Seq::empty());
}

/// Round trip of a request line: the parsed method, URI and version, joined by
/// single spaces, give back the line byte for byte.
pub proof fn lemma_request_round_trip(m: Seq<u8>, u: Seq<u8>, v: Seq<u8>, rest: Seq<u8>)
    requires
        is_plain_token(m),
        is_plain_token(u),
        is_plain_token(v),
        begins_sip(v),
        joined(m, u, v).len() + 2 + rest.len() <= usize::MAX,
    ensures
        ({
            let s = joined(m, u, v) + crlf() + rest;
            let n = joined(m, u, v).len() as int;
            spec_first_line(s, n) matches Some(fl) && first_line_text(fl, s) == s.subrange(0, n)
        }),
{
    lemma_request_line(m, u, v, rest);
    let line = joined(m, u, v);
    let s = line + crlf() + rest;
    let n = line.len() as int;
    let a = m.len() as int;
    let c = a + 1 + u.len();
    assert(s.subrange(0, a) =~= m);
    assert(s.subrange(a + 1, c) =~= u);
    assert(s.subrange(c + 1, n) =~= v);
    assert(s.subrange(0, n) =~= line);
}

/// Round trip of a reply line: the parsed version, status and reason, joined by
/// single spaces, give back the line byte for byte.
pub proof fn lemma_reply_round_trip(ver: Seq<u8>, st: Seq<u8>, rsn: Seq<u8>, rest: Seq<u8>)
    requires
        is_plain_token(ver),
        is_plain_token(st),
        begins_sip(ver),
        forall|k: int| 0 <= k < rsn.len() ==> #[trigger] rsn[k] != LF && rsn[k] != CR,
        rsn.len() > 0 ==> !is_ws(rsn[0]),
        !begins_sip(rsn),
        joined(ver, st, rsn).len() + 2 + rest.len() <= usize::MAX,
    ensures
        ({
            let s = joined(ver, st, rsn) + crlf() + rest;
            let n = joined(ver, st, rsn).len() as int;
            spec_first_line(s, n) matches Some(fl) && first_line_text(fl, s) == s.subrange(0, n)
        }),
{
    lemma_reply_line(ver, st, rsn, rest);
    let line = joined(ver, st, rsn);
    let s = line + crlf() + rest;
    let n = line.len() as int;
    let a = ver.len() as int;
    let c = a + 1 + st.len();
    assert(s.subrange(0, a) =~= ver);
    assert(s.subrange(a + 1, c) =~= st);
    assert(s.subrange(c + 1, n) =~= rsn);
    assert(s.subrange(0, n) =~= line);
}

proof fn lemma_scan_in_wire_order(s: Seq<u8>, pos: int, acc: Seq<Header>)
    requires
        0 <= pos,
        s.len() <= usize::MAX,
        in_wire_order(s, acc),
        acc.len() > 0 ==> line_after(s, acc.last().value.end as int) == pos,
    ensures
        spec_scan_headers(s, pos, acc) matches Ok((hs, _)) ==> {
            &&& in_wire_order(s, hs)
            &&& acc.len() <= hs.len()
            &&& forall|i: int| 0 <= i < acc.len() ==> hs[i] == acc[i]
            &&& hs.len() > acc.len() ==> hs[acc.len() as int].name.start == pos
        },
    decreases s.len() - pos,
{
    if pos < s.len() {
        lemma_find_lf_bounds(s, pos);
        let lf = spec_find_lf(s, pos);
        if lf < s.len() {
            let ce = spec_content_end(s, pos, lf);
            let c = spec_find_colon(s, pos, ce);
            if ce != pos && c < ce {
                lemma_find_colon_bounds(s, pos, ce);
                lemma_skip_ws_bounds(s, c + 1, ce);
                let h = Header { name: span(pos, c), value: span(spec_skip_ws(s, c + 1, ce), ce) };
                let acc2 = acc.push(h);
                assert(header_in_place(s, h));
                assert(line_after(s, ce) == lf + 1);
                assert forall|i: int, j: int|
                    #![trigger acc2[i], acc2[j]]
                    0 <= i && j == i + 1 && j < acc2.len() implies acc2[j].name.start == line_after(
                        s,
                        acc2[i].value.end as int,
                    ) by {
                    if j < acc.len() {
                        assert(acc2[i] == acc[i] && acc2[j] == acc[j]);
                    } else {
                        assert(acc2[i] == acc.last());
                    }
                }
                assert(in_wire_order(s, acc2));
                lemma_scan_in_wire_order(s, lf + 1, acc2);
                if let Ok((hs, _)) = spec_scan_headers(s, lf + 1, acc2) {
                    assert(hs[acc.len() as int] == acc2[acc.len() as int]);
                    assert forall|i: int| 0 <= i < acc.len() implies hs[i] == acc[i] by {
                        assert(hs[i] == acc2[i]);
                    }
                }
            }
        }
    }
}

/// Header lines are kept one for one in wire order, duplicates included: the
/// first header starts on the line after the first line, each next header on
/// the line right after the one before, and each name ends at a colon.
pub proof fn lemma_headers_in_wire_order(s: Seq<u8>)
    requires
        s.len() <= usize::MAX,
    ensures
        spec_parse(s) matches Ok(msg) ==> {
            &&& in_wire_order(s, msg.headers)
            &&& msg.headers.len() > 0 ==> msg.headers[0].name.start == spec_find_lf(s, 0) + 1
        },
{
    if s.len() > 0 {
        lemma_find_lf_bounds(s, 0);
        lemma_scan_in_wire_order(s, spec_find_lf(s, 0) + 1, Seq::empty());
    }
}

/// Parsing is a function of the buffer's bytes: equal buffers give equal results.
pub proof fn lemma_parse_deterministic(s1: Seq<u8>, s2: Seq<u8>)
    requires
        s1 == s2,
    ensures
        spec_parse(s1) == spec_parse(s2),
{
}

/// An empty buffer is refused as empty.
pub proof fn lemma_empty_buffer()
    ensures
        spec_parse(Seq::empty()) == Err::<MessageModel, ParseError>(ParseError::Empty),
{
}

/// A buffer that holds a valid first line and its CR LF, and nothing else, has
/// no header and no body.
pub proof fn lemma_first_line_only(line: Seq<u8>)
    requires
        forall|k: int| 0 <= k < line.len() ==> #[trigger] line[k] != LF,
        line.len() + 2 <= usize::MAX,
        spec_first_line(line + crlf(), line.len() as int) is Some,
    ensures
        spec_parse(line + crlf()) == Ok::<MessageModel, ParseError>(
            MessageModel {
                first_line: spec_first_line(line + crlf(), line.len() as int)->0,
                headers: Seq::empty(),
                body: None,
            },
        ),
{
    let s = line + crlf();
    let n = line.len() as int;
    assert(forall|k: int| 0 <= k < n ==> s[k] == line[k]);
    lemma_line_end(s, n);
}

/// A buffer that ends right after the empty line that follows a valid first
/// line has no header and an empty body at the end of the buffer.
pub proof fn lemma_ends_at_separator(line: Seq<u8>)
    requires
        forall|k: int| 0 <= k < line.len() ==> #[trigger] line[k] != LF,
        line.len() + 4 <= usize::MAX,
        spec_first_line(line + crlf() + crlf(), line.len() as int) is Some,
    ensures
        ({
            let s = line + crlf() + crlf();
            spec_parse(s) == Ok::<MessageModel, ParseError>(
                MessageModel {
                    first_line: spec_first_line(s, line.len() as int)->0,
                    headers: Seq::empty(),
                    body: Some(span(s.len() as int, s.len() as int)),
                },
            )
        }),
{
    let s = line + crlf() + crlf();
    let n = line.len() as int;
    assert(forall|k: int| 0 <= k < n ==> s[k] == line[k]);
    assert(s[n] == CR && s[n + 1] == LF && s[n + 2] == CR && s[n + 3] == LF);
    lemma_line_end(s, n);
    lemma_find_lf_at(s, n + 2, n + 3);
}

/// Whether the range starting at `b` begins right after an empty line: a line
/// feed ends the previous line, preceded by nothing but an optional CR back to
/// the line feed before it.
pub open spec fn after_empty_line(s: Seq<u8>, b: int) -> bool {
    &&& 2 <= b <= s.len()
    &&& s[b - 1] == LF
    &&& s[b - 2] == LF || (b >= 3 && s[b - 2] == CR && s[b - 3] == LF)
}

proof fn lemma_scan_body_place(s: Seq<u8>, pos: int, acc: Seq<Header>)
    requires
        1 <= pos,
        pos <= s.len() ==> s[pos - 1] == LF,
        s.len() <= usize::MAX,
    ensures
        spec_scan_headers(s, pos, acc) matches Ok((_, Some(b))) ==> b.end == s.len()
            && after_empty_line(s, b.start as int),
    decreases s.len() - pos,
{
    if pos < s.len() {
        lemma_find_lf_bounds(s, pos);
        let lf = spec_find_lf(s, pos);
        if lf < s.len() {
            let ce = spec_content_end(s, pos, lf);
            let c = spec_find_colon(s, pos, ce);
            if ce != pos && c < ce {
                lemma_find_colon_bounds(s, pos, ce);
                lemma_skip_ws_bounds(s, c + 1, ce);
                let h = Header { name: span(pos, c), value: span(spec_skip_ws(s, c + 1, ce), ce) };
                lemma_scan_body_place(s, lf + 1, acc.push(h));
            }
        }
    }
}

/// The body, when there is one, runs from just after the empty line that ends
/// the headers to the end of the buffer.
pub proof fn lemma_body_after_separator(s: Seq<u8>)
    requires
        s.len() <= usize::MAX,
    ensures
        spec_parse(s) matches Ok(msg) ==> (msg.body matches Some(b) ==> b.end == s.len()
            && after_empty_line(s, b.start as int)),
{
    if s.len() > 0 {
        lemma_find_lf_bounds(s, 0);
        lemma_scan_body_place(s, spec_find_lf(s, 0) + 1, Seq::empty());
    }
}

} // verus!
