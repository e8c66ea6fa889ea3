//! The parsed view of a SIP message and the errors a parse can end in.

use vstd::prelude::*;

verus! {

/// A half-open range `[start, end)` of the message buffer.
#[derive(Clone, Copy, Debug, PartialEq, Eq, Structural)]
pub struct Span {
    pub start: usize,
    pub end: usize,
}

impl Span {
    /// Whether the range lies within a buffer of `len` bytes.
    pub open spec fn within(self, len: int) -> bool {
        self.start <= self.end && self.end <= len
    }

    /// The bytes of `s` that the range covers.
    pub open spec fn of(self, s: Seq<u8>) -> Seq<u8> {
        s.subrange(self.start as int, self.end as int)
    }

    /// Number of bytes covered.
    pub fn len(&self) -> (r: usize)
        requires
            self.start <= self.end,
        ensures
            r == self.end - self.start,
    {
        self.end - self.start
    }

    /// Whether the range covers no byte.
    pub fn is_empty(&self) -> (r: bool)
        ensures
            r == (self.end <= self.start),
    {
        self.end <= self.start
    }
}

/// The range built from two spec positions.
pub open spec fn span(a: int, e: int) -> Span {
    Span { start: a as usize, end: e as usize }
}

/// The first line of a message: a request or a reply.
#[derive(Clone, Copy, Debug, PartialEq, Eq, Structural)]
pub enum FirstLine {
    Request { method: Span, uri: Span, version: Span },
    Reply { version: Span, status: Span, reason: Span },
}

impl FirstLine {
    /// Whether every range of the line lies within a buffer of `len` bytes.
    pub open spec fn within(self, len: int) -> bool {
        match self {
            FirstLine::Request { method, uri, version } => method.within(len) && uri.within(len)
                && version.within(len),
            FirstLine::Reply { version, status, reason } => version.within(len) && status.within(
                len,
            ) && reason.within(len),
        }
    }

    /// Whether this is a request line.
    pub fn is_request(&self) -> (r: bool)
        ensures
            r == (*self is Request),
    {
        match self {
            FirstLine::Request { .. } => true,
            FirstLine::Reply { .. } => false,
        }
    }
}

/// One header line: the name before the first colon, and the value after it
/// with leading whitespace left out.
#[derive(Clone, Copy, Debug, PartialEq, Eq, Structural)]
pub struct Header {
    pub name: Span,
    pub value: Span,
}

impl Header {
    /// Whether name and value lie within a buffer of `len` bytes.
    pub open spec fn within(self, len: int) -> bool {
        self.name.within(len) && self.value.within(len)
    }
}

/// Why a buffer is not a SIP message; offsets are byte positions in the buffer.
#[derive(Clone, Copy, Debug, PartialEq, Eq, Structural)]
pub enum ParseError {
    /// The buffer holds no byte.
    Empty,
    /// The first line is neither a request line nor a reply line.
    InvalidFirstLine { offset: usize, raw_snippet: Span },
    /// The header line starting at `line_offset` has no colon.
    MalformedHeader { line_offset: usize },
    /// The line starting at `offset` has no line feed before the buffer ends.
    Truncated { offset: usize },
}

/// What a parse yields, without the buffer it refers to.
pub struct MessageModel {
    pub first_line: FirstLine,
    pub headers: Seq<Header>,
    pub body: Option<Span>,
}

/// A parsed message: ranges into `raw`, the caller's buffer, which is never copied.
pub struct ParsedMessage<'a> {
    pub raw: &'a [u8],
    pub first_line: FirstLine,
    pub headers: Vec<Header>,
    pub body: Option<Span>,
}

impl<'a> ParsedMessage<'a> {
    pub open spec fn view(&self) -> MessageModel {
        MessageModel { first_line: self.first_line, headers: self.headers@, body: self.body }
    }

    /// Every range of the message lies within `raw`.
    pub open spec fn wf(&self) -> bool {
        let len = self.raw@.len() as int;
        &&& self.first_line.within(len)
        &&& forall|i: int| 0 <= i < self.headers@.len() ==> (#[trigger] self.headers@[i]).within(len)
        &&& match self.body {
            Some(b) => b.within(len),
            None => true,
        }
    }

    /// The bytes of `raw` that `sp` covers.
    pub fn slice(&self, sp: Span) -> (r: &'a [u8])
        requires
            sp.within(self.raw@.len() as int),
        ensures
            r@ == sp.of(self.raw@),
    {
        vstd::slice::slice_subrange(self.raw, sp.start, sp.end)
    }

    /// The method of a request line.
    pub fn method(&self) -> (r: Option<&'a [u8]>)
        requires
            self.wf(),
        ensures
            match self.first_line {
                FirstLine::Request { method, .. } => r is Some && r->0@ == method.of(self.raw@),
                FirstLine::Reply { .. } => r is None,
            },
    {
        match self.first_line {
            FirstLine::Request { method, .. } => Some(self.slice(method)),
            FirstLine::Reply { .. } => None,
        }
    }

    /// The request URI of a request line.
    pub fn uri(&self) -> (r: Option<&'a [u8]>)
        requires
            self.wf(),
        ensures
            match self.first_line {
                FirstLine::Request { uri, .. } => r is Some && r->0@ == uri.of(self.raw@),
                FirstLine::Reply { .. } => r is None,
            },
    {
        match self.first_line {
            FirstLine::Request { uri, .. } => Some(self.slice(uri)),
            FirstLine::Reply { .. } => None,
        }
    }

    /// The protocol version, of a request or a reply line.
    pub fn version(&self) -> (r: &'a [u8])
        requires
            self.wf(),
        ensures
            match self.first_line {
                FirstLine::Request { version, .. } => r@ == version.of(self.raw@),
                FirstLine::Reply { version, .. } => r@ == version.of(self.raw@),
            },
    {
        match self.first_line {
            FirstLine::Request { version, .. } => self.slice(version),
            FirstLine::Reply { version, .. } => self.slice(version),
        }
    }

    /// The status code of a reply line.
    pub fn status(&self) -> (r: Option<&'a [u8]>)
        requires
            self.wf(),
        ensures
            match self.first_line {
                FirstLine::Reply { status, .. } => r is Some && r->0@ == status.of(self.raw@),
                FirstLine::Request { .. } => r is None,
            },
    {
        match self.first_line {
            FirstLine::Reply { status, .. } => Some(self.slice(status)),
            FirstLine::Request { .. } => None,
        }
    }

    /// The reason phrase of a reply line.
    pub fn reason(&self) -> (r: Option<&'a [u8]>)
        requires
            self.wf(),
        ensures
            match self.first_line {
                FirstLine::Reply { reason, .. } => r is Some && r->0@ == reason.of(self.raw@),
                FirstLine::Request { .. } => r is None,
            },
    {
        match self.first_line {
            FirstLine::Reply { reason, .. } => Some(self.slice(reason)),
            FirstLine::Request { .. } => None,
        }
    }

    /// The body, when the message has a header/body separator.
    pub fn body_bytes(&self) -> (r: Option<&'a [u8]>)
        requires
            self.wf(),
        ensures
            match self.body {
                Some(b) => r is Some && r->0@ == b.of(self.raw@),
                None => r is None,
            },
    {
        match self.body {
            Some(b) => Some(self.slice(b)),
            None => None,
        }
    }

    /// Number of header lines.
    pub fn header_count(&self) -> (r: usize)
        ensures
            r == self.headers@.len(),
    {
        self.headers.len()
    }

    /// Name and value of the `i`-th header line, in wire order.
    pub fn header(&self, i: usize) -> (r: (&'a [u8], &'a [u8]))
        requires
            self.wf(),
            i < self.headers@.len(),
        ensures
            r.0@ == self.headers@[i as int].name.of(self.raw@),
            r.1@ == self.headers@[i as int].value.of(self.raw@),
    {
        let h = self.headers[i];
        assert(self.headers@[i as int].within(self.raw@.len() as int));
        (self.slice(h.name), self.slice(h.value))
    }
}

} // verus!
