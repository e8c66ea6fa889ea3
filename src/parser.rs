//! The parser: first-line classification, the header scan and the body boundary.

use vstd::prelude::*;
use crate::message::{span, FirstLine, Header, MessageModel, ParseError, ParsedMessage, Span};
use crate::scan::{
    content_end, find_colon, find_lf, lemma_find_colon_bounds, lemma_find_lf_bounds,
    lemma_skip_token_bounds, lemma_skip_ws_bounds, skip_token, skip_ws, spec_content_end,
    spec_find_colon, spec_find_lf, spec_skip_token, spec_skip_ws, spec_starts_sip, starts_sip,
};

verus! {

/// The first line, read from the content `s[0..b)` of the buffer's first line.
///
/// The line is split on whitespace. Exactly three tokens of which the third
/// begins with `SIP/` make a request; otherwise a first token that begins with
/// `SIP/` followed by a status token makes a reply, whose reason is the rest of
/// the line after the status and the whitespace behind it.
pub open spec fn spec_first_line(s: Seq<u8>, b: int) -> Option<FirstLine> {
    let t0s = spec_skip_ws(s, 0, b);
    let t0e = spec_skip_token(s, t0s, b);
    let t1s = spec_skip_ws(s, t0e, b);
    let t1e = spec_skip_token(s, t1s, b);
    let t2s = spec_skip_ws(s, t1e, b);
    let t2e = spec_skip_token(s, t2s, b);
    let t3s = spec_skip_ws(s, t2e, b);
    if t2s < b && t3s == b && spec_starts_sip(s, t2s, t2e) {
        Some(
            FirstLine::Request {
                method: span(t0s, t0e),
                uri: span(t1s, t1e),
                version: span(t2s, t2e),
            },
        )
    } else if t1s < b && spec_starts_sip(s, t0s, t0e) {
        Some(
            FirstLine::Reply {
                version: span(t0s, t0e),
                status: span(t1s, t1e),
                reason: span(t2s, b),
            },
        )
    } else {
        None
    }
}

/// The header scan from the line starting at `pos`, with `acc` the header lines
/// read before it: the headers in wire order and the body, or the first error.
pub open spec fn spec_scan_headers(s: Seq<u8>, pos: int, acc: Seq<Header>) -> Result<
    (Seq<Header>, Option<Span>),
    ParseError,
>
    decreases s.len() - pos,
    via scan_headers_decreases
{
    if pos < 0 || pos >= s.len() {
        Ok((acc, None))
    } else {
        let lf = spec_find_lf(s, pos);
        if lf >= s.len() {
            Err(ParseError::Truncated { offset: pos as usize })
        } else {
            let ce = spec_content_end(s, pos, lf);
            if ce == pos {
                Ok((acc, Some(span(lf + 1, s.len() as int))))
            } else {
                let c = spec_find_colon(s, pos, ce);
                if c >= ce {
                    Err(ParseError::MalformedHeader { line_offset: pos as usize })
                } else {
                    let h = Header {
                        name: span(pos, c),
                        value: span(spec_skip_ws(s, c + 1, ce), ce),
                    };
                    spec_scan_headers(s, lf + 1, acc.push(h))
                }
            }
        }
    }
}

#[via_fn]
proof fn scan_headers_decreases(s: Seq<u8>, pos: int, acc: Seq<Header>) {
    if 0 <= pos < s.len() {
        lemma_find_lf_bounds(s, pos);
    }
}

/// What parsing the buffer `s` yields.
pub open spec fn spec_parse(s: Seq<u8>) -> Result<MessageModel, ParseError> {
    if s.len() == 0 {
        Err(ParseError::Empty)
    } else {
        let lf = spec_find_lf(s, 0);
        if lf >= s.len() {
            Err(ParseError::Truncated { offset: 0 })
        } else {
            let ce = spec_content_end(s, 0, lf);
            match spec_first_line(s, ce) {
                None => Err(ParseError::InvalidFirstLine { offset: 0, raw_snippet: span(0, ce) }),
                Some(first_line) => match spec_scan_headers(s, lf + 1, Seq::empty()) {
                    Ok((headers, body)) => Ok(MessageModel { first_line, headers, body }),
                    Err(e) => Err(e),
                },
            }
        }
    }
}

/// Classifies the first line, whose content is `buf[0..b)`.
pub fn parse_first_line(buf: &[u8], b: usize) -> (r: Option<FirstLine>)
    requires
        b <= buf@.len(),
    ensures
        r == spec_first_line(buf@, b as int),
        r matches Some(fl) ==> fl.within(b as int),
{
    proof {
        let s = buf@;
        let b = b as int;
        lemma_skip_ws_bounds(s, 0, b);
        let t0s = spec_skip_ws(s, 0, b);
        lemma_skip_token_bounds(s, t0s, b);
        let t0e = spec_skip_token(s, t0s, b);
        lemma_skip_ws_bounds(s, t0e, b);
        let t1s = spec_skip_ws(s, t0e, b);
        lemma_skip_token_bounds(s, t1s, b);
        let t1e = spec_skip_token(s, t1s, b);
        lemma_skip_ws_bounds(s, t1e, b);
        let t2s = spec_skip_ws(s, t1e, b);
        lemma_skip_token_bounds(s, t2s, b);
        let t2e = spec_skip_token(s, t2s, b);
        lemma_skip_ws_bounds(s, t2e, b);
    }
    let t0s = skip_ws(buf, 0, b);
    let t0e = skip_token(buf, t0s, b);
    let t1s = skip_ws(buf, t0e, b);
    let t1e = skip_token(buf, t1s, b);
    let t2s = skip_ws(buf, t1e, b);
    let t2e = skip_token(buf, t2s, b);
    let t3s = skip_ws(buf, t2e, b);
    if t2s < b && t3s == b && starts_sip(buf, t2s, t2e) {
        Some(
            FirstLine::Request {
                method: Span { start: t0s, end: t0e },
                uri: Span { start: t1s, end: t1e },
                version: Span { start: t2s, end: t2e },
            },
        )
    } else if t1s < b && starts_sip(buf, t0s, t0e) {
        Some(
            FirstLine::Reply {
                version: Span { start: t0s, end: t0e },
                status: Span { start: t1s, end: t1e },
                reason: Span { start: t2s, end: b },
            },
        )
    } else {
        None
    }
}

/// Reads the header lines from `pos` on, up to the empty line or the end of the buffer.
pub fn scan_headers(buf: &[u8], pos: usize) -> (r: Result<(Vec<Header>, Option<Span>), ParseError>)
    requires
        pos <= buf@.len(),
    ensures
        match r {
            Ok((hs, body)) => spec_scan_headers(buf@, pos as int, Seq::empty()) == Ok::<
                (Seq<Header>, Option<Span>),
                ParseError,
            >((hs@, body)) && (forall|i: int|
                0 <= i < hs@.len() ==> (#[trigger] hs@[i]).within(buf@.len() as int)) && (
            body matches Some(bd) ==> bd.within(buf@.len() as int)),
            Err(e) => spec_scan_headers(buf@, pos as int, Seq::empty()) == Err::<
                (Seq<Header>, Option<Span>),
                ParseError,
            >(e),
        },
{
    let ghost s = buf@;
    let mut headers: Vec<Header> = Vec::new();
    let mut p: usize = pos;
    while p < buf.len()
        invariant
            s == buf@,
            pos <= p <= s.len(),
            spec_scan_headers(s, pos as int, Seq::empty()) == spec_scan_headers(
                s,
                p as int,
                headers@,
            ),
            forall|i: int| 0 <= i < headers@.len() ==> (#[trigger] headers@[i]).within(s.len() as int),
        decreases s.len() - p,
    {
        let lf = find_lf(buf, p);
        proof {
            lemma_find_lf_bounds(s, p as int);
        }
        if lf >= buf.len() {
            return Err(ParseError::Truncated { offset: p });
        }
        let ce = content_end(buf, p, lf);
        if ce == p {
            return Ok((headers, Some(Span { start: lf + 1, end: buf.len() })));
        }
        let c = find_colon(buf, p, ce);
        proof {
            lemma_find_colon_bounds(s, p as int, ce as int);
        }
        if c >= ce {
            return Err(ParseError::MalformedHeader { line_offset: p });
        }
        let v = skip_ws(buf, c + 1, ce);
        proof {
            lemma_skip_ws_bounds(s, c + 1, ce as int);
        }
        let h = Header { name: Span { start: p, end: c }, value: Span { start: v, end: ce } };
        let ghost old_headers = headers@;
        headers.push(h);
        proof {
            assert(headers@ == old_headers.push(h));
            assert forall|i: int| 0 <= i < headers@.len() implies (#[trigger] headers@[i]).within(
                s.len() as int,
            ) by {
                if i < old_headers.len() {
                    assert(headers@[i] == old_headers[i]);
                }
            }
        }
        p = lf + 1;
    }
    Ok((headers, None))
}

/// Parses the SIP message held in `buf`, without copying it.
///
/// An empty buffer is `Empty`; a buffer whose first line has no line feed is
/// `Truncated` at offset 0; a first line that is neither a request nor a reply
/// is `InvalidFirstLine` at offset 0; then header lines are read up to the
/// empty line, and whatever follows that line is the body. Without an empty
/// line the body is absent.
pub fn parse(buf: &[u8]) -> (r: Result<ParsedMessage<'_>, ParseError>)
    ensures
        match r {
            Ok(m) => m.raw@ == buf@ && m.wf() && spec_parse(buf@) == Ok::<
                MessageModel,
                ParseError,
            >(m.view()),
            Err(e) => spec_parse(buf@) == Err::<MessageModel, ParseError>(e),
        },
{
    if buf.len() == 0 {
        return Err(ParseError::Empty);
    }
    let lf = find_lf(buf, 0);
    proof {
        lemma_find_lf_bounds(buf@, 0);
    }
    if lf >= buf.len() {
        return Err(ParseError::Truncated { offset: 0 });
    }
    let ce = content_end(buf, 0, lf);
    match parse_first_line(buf, ce) {
        None => Err(ParseError::InvalidFirstLine { offset: 0, raw_snippet: Span { start: 0, end: ce } }),
        Some(first_line) => match scan_headers(buf, lf + 1) {
            Ok((headers, body)) => Ok(ParsedMessage { raw: buf, first_line, headers, body }),
            Err(e) => Err(e),
        },
    }
}

} // verus!
