//! Byte-level scanners over a buffer, each with the spec function it computes.

use vstd::prelude::*;

verus! {

/// Line feed.
pub const LF: u8 = 10;

/// Carriage return.
pub const CR: u8 = 13;

/// The byte that ends a header name.
pub const COLON: u8 = 58;

/// Whitespace between tokens of a line: space or horizontal tab.
pub open spec fn is_ws(b: u8) -> bool {
    b == 32u8 || b == 9u8
}

/// Index of the first line feed at or after `i`, or `s.len()` when there is none.
pub open spec fn spec_find_lf(s: Seq<u8>, i: int) -> int
    decreases s.len() - i,
{
    if 0 <= i < s.len() {
        if s[i] == LF {
            i
        } else {
            spec_find_lf(s, i + 1)
        }
    } else {
        s.len() as int
    }
}

/// First index in `[i, end)` that is not whitespace, or the index where the run stops.
pub open spec fn spec_skip_ws(s: Seq<u8>, i: int, end: int) -> int
    decreases end - i,
{
    if 0 <= i < end && end <= s.len() && is_ws(s[i]) {
        spec_skip_ws(s, i + 1, end)
    } else {
        i
    }
}

/// First index in `[i, end)` that is whitespace, or the index where the run stops.
pub open spec fn spec_skip_token(s: Seq<u8>, i: int, end: int) -> int
    decreases end - i,
{
    if 0 <= i < end && end <= s.len() && !is_ws(s[i]) {
        spec_skip_token(s, i + 1, end)
    } else {
        i
    }
}

/// Index of the first colon in `[i, end)`, or `end` when there is none.
pub open spec fn spec_find_colon(s: Seq<u8>, i: int, end: int) -> int
    decreases end - i,
{
    if 0 <= i < end && end <= s.len() {
        if s[i] == COLON {
            i
        } else {
            spec_find_colon(s, i + 1, end)
        }
    } else {
        end
    }
}

/// End of a line's content: the line feed at `lf`, or the carriage return just
/// before it when the line starting at `start` ends in CRLF.
pub open spec fn spec_content_end(s: Seq<u8>, start: int, lf: int) -> int {
    if start < lf && 0 < lf <= s.len() && s[lf - 1] == CR {
        lf - 1
    } else {
        lf
    }
}

/// Whether `s[a..e]` begins with the version prefix `SIP/`.
pub open spec fn spec_starts_sip(s: Seq<u8>, a: int, e: int) -> bool {
    &&& 0 <= a
    &&& a + 4 <= e <= s.len()
    &&& s[a] == 83u8
    &&& s[a + 1] == 73u8
    &&& s[a + 2] == 80u8
    &&& s[a + 3] == 47u8
}

pub proof fn lemma_find_lf_bounds(s: Seq<u8>, i: int)
    requires
        0 <= i <= s.len(),
    ensures
        i <= spec_find_lf(s, i) <= s.len(),
        spec_find_lf(s, i) < s.len() ==> s[spec_find_lf(s, i)] == LF,
    decreases s.len() - i,
{
    if i < s.len() && s[i] != LF {
        lemma_find_lf_bounds(s, i + 1);
    }
}

pub proof fn lemma_skip_ws_bounds(s: Seq<u8>, i: int, end: int)
    requires
        0 <= i <= end <= s.len(),
    ensures
        i <= spec_skip_ws(s, i, end) <= end,
        spec_skip_ws(s, i, end) < end ==> !is_ws(s[spec_skip_ws(s, i, end)]),
    decreases end - i,
{
    if i < end && is_ws(s[i]) {
        lemma_skip_ws_bounds(s, i + 1, end);
    }
}

pub proof fn lemma_skip_token_bounds(s: Seq<u8>, i: int, end: int)
    requires
        0 <= i <= end <= s.len(),
    ensures
        i <= spec_skip_token(s, i, end) <= end,
        spec_skip_token(s, i, end) < end ==> is_ws(s[spec_skip_token(s, i, end)]),
    decreases end - i,
{
    if i < end && !is_ws(s[i]) {
        lemma_skip_token_bounds(s, i + 1, end);
    }
}

pub proof fn lemma_find_colon_bounds(s: Seq<u8>, i: int, end: int)
    requires
        0 <= i <= end <= s.len(),
    ensures
        i <= spec_find_colon(s, i, end) <= end,
        spec_find_colon(s, i, end) < end ==> s[spec_find_colon(s, i, end)] == COLON,
    decreases end - i,
{
    if i < end && s[i] != COLON {
        lemma_find_colon_bounds(s, i + 1, end);
    }
}

/// Index of the first line feed at or after `i`, or `buf.len()`.
pub fn find_lf(buf: &[u8], i: usize) -> (r: usize)
    requires
        i <= buf@.len(),
    ensures
        r as int == spec_find_lf(buf@, i as int),
{
    let mut j: usize = i;
    while j < buf.len() && buf[j] != LF
        invariant
            i <= j <= buf@.len(),
            spec_find_lf(buf@, i as int) == spec_find_lf(buf@, j as int),
        decreases buf@.len() - j,
    {
        j = j + 1;
    }
    j
}

/// First index in `[i, end)` that is not whitespace, or `end`.
pub fn skip_ws(buf: &[u8], i: usize, end: usize) -> (r: usize)
    requires
        i <= end <= buf@.len(),
    ensures
        r as int == spec_skip_ws(buf@, i as int, end as int),
{
    let mut j: usize = i;
    while j < end && (buf[j] == 32u8 || buf[j] == 9u8)
        invariant
            i <= j <= end <= buf@.len(),
            spec_skip_ws(buf@, i as int, end as int) == spec_skip_ws(buf@, j as int, end as int),
        decreases end - j,
    {
        j = j + 1;
    }
    j
}

/// First index in `[i, end)` that is whitespace, or `end`.
pub fn skip_token(buf: &[u8], i: usize, end: usize) -> (r: usize)
    requires
        i <= end <= buf@.len(),
    ensures
        r as int == spec_skip_token(buf@, i as int, end as int),
{
    let mut j: usize = i;
    while j < end && buf[j] != 32u8 && buf[j] != 9u8
        invariant
            i <= j <= end <= buf@.len(),
            spec_skip_token(buf@, i as int, end as int) == spec_skip_token(
                buf@,
                j as int,
                end as int,
            ),
        decreases end - j,
    {
        j = j + 1;
    }
    j
}

/// Index of the first colon in `[i, end)`, or `end`.
pub fn find_colon(buf: &[u8], i: usize, end: usize) -> (r: usize)
    requires
        i <= end <= buf@.len(),
    ensures
        r as int == spec_find_colon(buf@, i as int, end as int),
{
    let mut j: usize = i;
    while j < end && buf[j] != COLON
        invariant
            i <= j <= end <= buf@.len(),
            spec_find_colon(buf@, i as int, end as int) == spec_find_colon(
                buf@,
                j as int,
                end as int,
            ),
        decreases end - j,
    {
        j = j + 1;
    }
    j
}

/// End of the content of the line that starts at `start` and whose line feed is at `lf`.
pub fn content_end(buf: &[u8], start: usize, lf: usize) -> (r: usize)
    requires
        start <= lf < buf@.len(),
    ensures
        r as int == spec_content_end(buf@, start as int, lf as int),
        start <= r <= lf,
{
    if start < lf && buf[lf - 1] == CR {
        lf - 1
    } else {
        lf
    }
}

/// Whether `buf[a..e]` begins with `SIP/`.
pub fn starts_sip(buf: &[u8], a: usize, e: usize) -> (r: bool)
    requires
        a <= e <= buf@.len(),
    ensures
        r == spec_starts_sip(buf@, a as int, e as int),
{
    e - a >= 4 && buf[a] == 83u8 && buf[a + 1] == 73u8 && buf[a + 2] == 80u8 && buf[a + 3] == 47u8
}

} // verus!
