//! The data that the scanner and the resolver exchange.

use vstd::prelude::*;

verus! {

/// How directives are resolved. The mode is chosen once for a run and holds
/// for every directive of every file.
#[derive(Clone, Copy, Debug, PartialEq, Eq, Structural)]
pub enum Mode {
    /// Drop each primary body; activate the alternative where there is one.
    Strip,
    /// Keep each primary body; drop markers and alternatives. A run in this
    /// mode checks the files and shows what they resolve to, and rewrites
    /// none.
    Keep,
}

/// One of the three marker tokens.
#[derive(Clone, Copy, Debug, PartialEq, Eq, Structural)]
pub enum Marker {
    /// `{~`
    Open,
    /// `~|~`
    Divider,
    /// `~}`
    Close,
}

/// What a directive asks for.
#[derive(Clone, Copy, Debug, PartialEq, Eq, Structural)]
pub enum DirectiveKind {
    /// No divider: the region is deleted.
    Strip,
    /// A divider followed by an alternative written as comment lines, inert
    /// until it is substituted for the primary body.
    Replace,
    /// A divider followed by a second live body; exactly one of the two stays.
    Choice,
}

/// The tag under which a span is reported.
#[derive(Clone, Copy, Debug, PartialEq, Eq, Structural)]
pub enum SpanTag {
    Literal,
    Strip,
    Alternate,
}

/// The half-open byte range `start..end` of a file.
#[derive(Clone, Copy, Debug, PartialEq, Eq, Structural)]
pub struct ByteRange {
    pub start: usize,
    pub end: usize,
}

/// One directive: everything from its open marker to the end of its close
/// marker.
#[derive(Clone, Copy, Debug, PartialEq, Eq)]
pub struct Directive {
    pub kind: DirectiveKind,
    /// Offset of the open marker.
    pub open_at: usize,
    /// The bytes between the open marker and the divider, or the close
    /// marker where there is no divider.
    pub primary: ByteRange,
    /// The bytes between the divider and the close marker.
    pub alternative: Option<ByteRange>,
    /// Offset just past the close marker.
    pub end: usize,
    /// Whether the alternative is written as comment lines, whose comment
    /// prefix goes when the alternative is activated.
    pub comment_stripped: bool,
}

/// A classified, contiguous byte range of a file.
#[derive(Clone, Copy, Debug, PartialEq, Eq)]
pub enum Span {
    /// Text outside every directive.
    Literal(ByteRange),
    Directive(Directive),
}

/// A byte range of the original file together with its fate.
#[derive(Clone, Copy, Debug, PartialEq, Eq, Structural)]
pub struct Piece {
    pub start: usize,
    pub end: usize,
    /// `true` for bytes that are emitted, `false` for bytes that are deleted.
    pub kept: bool,
}

/// The ways in which the markers of a file can be malformed.
#[derive(Clone, Copy, Debug, PartialEq, Eq, Structural)]
pub enum ErrorKind {
    /// The file ends inside a directive.
    UnterminatedDirective,
    /// A divider outside any directive.
    DividerOutsideDirective,
    /// A close marker outside any directive.
    CloseOutsideDirective,
    /// An open marker inside a directive.
    OpenInsideDirective,
    /// A second divider inside one directive.
    RepeatedDivider,
}

/// A malformed marker sequence, with the place of the offending marker. For an
/// unterminated directive the place is that of its open marker.
#[derive(Clone, Copy, Debug, PartialEq, Eq, Structural)]
pub struct StructuralError {
    pub kind: ErrorKind,
    /// Byte offset of the marker.
    pub offset: usize,
    /// Line of the marker, counted from 1.
    pub line: usize,
}

impl ByteRange {
    pub open spec fn wf(self) -> bool {
        self.start <= self.end
    }

    pub open spec fn spec_len(self) -> int {
        self.end - self.start
    }

    /// Number of bytes in the range.
    pub fn len(&self) -> (n: usize)
        requires
            self.wf(),
        ensures
            n == self.spec_len(),
    {
        self.end - self.start
    }
}

impl Directive {
    /// The ranges of a well-formed directive lie in order between its two
    /// outer markers, and its kind agrees with the presence of a divider.
    pub open spec fn wf(self) -> bool {
        &&& self.open_at + 2 == self.primary.start
        &&& self.primary.start <= self.primary.end
        &&& match self.alternative {
            None => {
                &&& self.primary.end + 2 == self.end
                &&& self.kind == DirectiveKind::Strip
                &&& !self.comment_stripped
            },
            Some(alt) => {
                &&& self.primary.end + 3 == alt.start
                &&& alt.start <= alt.end
                &&& alt.end + 2 == self.end
                &&& self.kind == if self.comment_stripped {
                    DirectiveKind::Replace
                } else {
                    DirectiveKind::Choice
                }
            },
        }
    }

    /// Offset of the close marker.
    pub open spec fn close_at(self) -> int {
        self.end - 2
    }
}

impl Span {
    pub open spec fn start(self) -> int {
        match self {
            Span::Literal(r) => r.start as int,
            Span::Directive(d) => d.open_at as int,
        }
    }

    pub open spec fn end(self) -> int {
        match self {
            Span::Literal(r) => r.end as int,
            Span::Directive(d) => d.end as int,
        }
    }

    pub open spec fn tag(self) -> SpanTag {
        match self {
            Span::Literal(_) => SpanTag::Literal,
            Span::Directive(d) => if d.alternative is Some {
                SpanTag::Alternate
            } else {
                SpanTag::Strip
            },
        }
    }

    /// A well-formed span is not empty, and a directive in it is well formed.
    pub open spec fn wf(self) -> bool {
        &&& self.start() < self.end()
        &&& match self {
            Span::Literal(_) => true,
            Span::Directive(d) => d.wf(),
        }
    }

    /// Offset of the first byte of the span.
    pub fn first(&self) -> (n: usize)
        ensures
            n == self.start(),
    {
        match self {
            Span::Literal(r) => r.start,
            Span::Directive(d) => d.open_at,
        }
    }

    /// Offset just past the last byte of the span.
    pub fn limit(&self) -> (n: usize)
        ensures
            n == self.end(),
    {
        match self {
            Span::Literal(r) => r.end,
            Span::Directive(d) => d.end,
        }
    }

    /// The tag of the span: literal text, a directive without an alternative,
    /// or a directive with one.
    pub fn label(&self) -> (t: SpanTag)
        ensures
            t == self.tag(),
    {
        match self {
            Span::Literal(_) => SpanTag::Literal,
            Span::Directive(d) => if d.alternative.is_some() {
                SpanTag::Alternate
            } else {
                SpanTag::Strip
            },
        }
    }
}

/// The spans follow one another from offset 0 to `len` with no gap and no
/// overlap, and each is well formed.
pub open spec fn spans_tile(spans: Seq<Span>, len: int) -> bool {
    &&& forall|k: int| 0 <= k < spans.len() ==> (#[trigger] spans[k]).wf()
    &&& forall|k: int| 0 <= k < spans.len() - 1 ==> (#[trigger] spans[k]).end() == spans[k + 1].start()
    &&& if spans.len() == 0 {
        len == 0
    } else {
        spans[0].start() == 0 && spans.last().end() == len
    }
}

impl Piece {
    pub open spec fn spec_len(self) -> int {
        self.end - self.start
    }
}

/// The pieces follow one another from offset 0 to `len` with no gap and no
/// overlap, and none is empty.
pub open spec fn pieces_tile(pieces: Seq<Piece>, len: int) -> bool {
    &&& forall|k: int| 0 <= k < pieces.len() ==> (#[trigger] pieces[k]).start < pieces[k].end
    &&& forall|k: int| 0 <= k < pieces.len() - 1 ==> (#[trigger] pieces[k]).end == pieces[k + 1].start
    &&& if pieces.len() == 0 {
        len == 0
    } else {
        pieces[0].start == 0 && pieces.last().end == len
    }
}

} // verus!
