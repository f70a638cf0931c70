//! The directive scanner: one pass over the bytes of a file, left to right,
//! that splits them into literal text and directives.
//!
//! Directives do not nest, so the scanner keeps no stack: it is either outside
//! a directive, inside the primary body of one, or inside its alternative.

use vstd::prelude::*;
use crate::bytes::{
    comment_at, comment_token_at, forward_over_blanks, forward_to_line_end, lemma_line_end_bounds,
    lemma_skip_blanks_bounds, line_end, skip_blanks, BAR, BRACE_CLOSE, BRACE_OPEN, NEWLINE, TILDE,
};
use crate::model::{
    spans_tile, ByteRange, Directive, DirectiveKind, ErrorKind, Marker, Span, StructuralError,
};

verus! {

/// The marker that starts at offset `i`, if one does. No two markers start
/// with the same two bytes, so at most one can.
pub open spec fn marker_at(src: Seq<u8>, i: int) -> Option<Marker> {
    if 0 <= i && i + 2 <= src.len() && src[i] == BRACE_OPEN && src[i + 1] == TILDE {
        Some(Marker::Open)
    } else if 0 <= i && i + 3 <= src.len() && src[i] == TILDE && src[i + 1] == BAR && src[i + 2]
        == TILDE {
        Some(Marker::Divider)
    } else if 0 <= i && i + 2 <= src.len() && src[i] == TILDE && src[i + 1] == BRACE_CLOSE {
        Some(Marker::Close)
    } else {
        None
    }
}

/// No marker starts anywhere in `lo..hi`.
pub open spec fn quiet(src: Seq<u8>, lo: int, hi: int) -> bool {
    forall|i: int| lo <= i < hi ==> (#[trigger] marker_at(src, i)) is None
}

/// The file holds no marker at all.
pub open spec fn marker_free(src: Seq<u8>) -> bool {
    quiet(src, 0, src.len() as int)
}

/// Number of line feeds among the first `n` bytes.
pub open spec fn newlines_before(src: Seq<u8>, n: int) -> int
    decreases n,
{
    if 0 < n <= src.len() {
        newlines_before(src, n - 1) + if src[n - 1] == NEWLINE {
            1int
        } else {
            0int
        }
    } else {
        0
    }
}

/// The line, counted from 1, on which the byte at `offset` stands.
pub open spec fn line_of(src: Seq<u8>, offset: int) -> int {
    1 + newlines_before(src, offset)
}

/// The error of the given kind for the marker at `offset`.
pub open spec fn error_at(src: Seq<u8>, kind: ErrorKind, offset: int) -> StructuralError {
    StructuralError { kind, offset: offset as usize, line: line_of(src, offset) as usize }
}

/// Every line of `p..hi` is blank or starts, after blanks, with a line comment
/// token. `p` is the start of a line.
pub open spec fn lines_inert(src: Seq<u8>, p: int, hi: int) -> bool
    decreases hi - p,
    via lines_inert_decreases
{
    if 0 <= p < hi && hi <= src.len() {
        let q: int = skip_blanks(src, p, hi);
        let e: int = line_end(src, q, hi);
        (q == e || comment_at(src, q, hi)) && (e >= hi || lines_inert(src, e + 1, hi))
    } else {
        true
    }
}

#[via_fn]
proof fn lines_inert_decreases(src: Seq<u8>, p: int, hi: int) {
    if 0 <= p < hi && hi <= src.len() {
        lemma_skip_blanks_bounds(src, p, hi);
        lemma_line_end_bounds(src, skip_blanks(src, p, hi), hi);
    }
}

/// The bytes `lo..hi` are written as comment lines: every line of them that
/// is not blank starts, after blanks, with a line comment token.
pub open spec fn comment_wrapped(src: Seq<u8>, lo: int, hi: int) -> bool {
    lines_inert(src, lo, hi)
}

/// The directive whose markers stand at the given offsets.
pub open spec fn directive_of(src: Seq<u8>, open_at: int, divider_at: Option<int>, close_at: int) -> Directive {
    match divider_at {
        None => Directive {
            kind: DirectiveKind::Strip,
            open_at: open_at as usize,
            primary: ByteRange { start: (open_at + 2) as usize, end: close_at as usize },
            alternative: None,
            end: (close_at + 2) as usize,
            comment_stripped: false,
        },
        Some(divider_at) => {
            let wrapped: bool = comment_wrapped(src, divider_at + 3, close_at);
            Directive {
                kind: if wrapped {
                    DirectiveKind::Replace
                } else {
                    DirectiveKind::Choice
                },
                open_at: open_at as usize,
                primary: ByteRange { start: (open_at + 2) as usize, end: divider_at as usize },
                alternative: Some(
                    ByteRange { start: (divider_at + 3) as usize, end: close_at as usize },
                ),
                end: (close_at + 2) as usize,
                comment_stripped: wrapped,
            }
        },
    }
}

/// Where the scanner stands between two steps.
pub enum ScanState {
    /// Outside any directive; the literal run began at `literal_start`.
    Outside { literal_start: int },
    /// Inside the primary body of the directive opened at `open_at`.
    Primary { open_at: int },
    /// Inside the alternative of the directive opened at `open_at`.
    Alternative { open_at: int, divider_at: int },
}

/// `spans` with the literal run `start..end` appended, unless the run is empty.
pub open spec fn with_literal(spans: Seq<Span>, start: int, end: int) -> Seq<Span> {
    if start < end {
        spans.push(Span::Literal(ByteRange { start: start as usize, end: end as usize }))
    } else {
        spans
    }
}

/// The scan from offset `i` on, in state `st`, with `acc` the spans that were
/// completed before `i`.
///
/// At every offset where a marker starts the marker is taken and the scan goes
/// on behind it; every other byte belongs to the run that is open. The first
/// marker that does not fit the state ends the scan with its error, and so
/// does the end of the file inside a directive.
pub open spec fn scan_run(src: Seq<u8>, i: int, st: ScanState, acc: Seq<Span>) -> Result<
    Seq<Span>,
    StructuralError,
>
    decreases src.len() - i,
{
    if i < 0 || i >= src.len() {
        match st {
            ScanState::Outside { literal_start } => Ok(
                with_literal(acc, literal_start, src.len() as int),
            ),
            ScanState::Primary { open_at } => Err(
                error_at(src, ErrorKind::UnterminatedDirective, open_at),
            ),
            ScanState::Alternative { open_at, divider_at } => Err(
                error_at(src, ErrorKind::UnterminatedDirective, open_at),
            ),
        }
    } else {
        match marker_at(src, i) {
            None => scan_run(src, i + 1, st, acc),
            Some(Marker::Open) => match st {
                ScanState::Outside { literal_start } => scan_run(
                    src,
                    i + 2,
                    ScanState::Primary { open_at: i },
                    with_literal(acc, literal_start, i),
                ),
                _ => Err(error_at(src, ErrorKind::OpenInsideDirective, i)),
            },
            Some(Marker::Divider) => match st {
                ScanState::Outside { literal_start } => Err(
                    error_at(src, ErrorKind::DividerOutsideDirective, i),
                ),
                ScanState::Primary { open_at } => scan_run(
                    src,
                    i + 3,
                    ScanState::Alternative { open_at, divider_at: i },
                    acc,
                ),
                ScanState::Alternative { open_at, divider_at } => Err(
                    error_at(src, ErrorKind::RepeatedDivider, i),
                ),
            },
            Some(Marker::Close) => match st {
                ScanState::Outside { literal_start } => Err(
                    error_at(src, ErrorKind::CloseOutsideDirective, i),
                ),
                ScanState::Primary { open_at } => scan_run(
                    src,
                    i + 2,
                    ScanState::Outside { literal_start: i + 2 },
                    acc.push(Span::Directive(directive_of(src, open_at, None, i))),
                ),
                ScanState::Alternative { open_at, divider_at } => scan_run(
                    src,
                    i + 2,
                    ScanState::Outside { literal_start: i + 2 },
                    acc.push(Span::Directive(directive_of(src, open_at, Some(divider_at), i))),
                ),
            },
        }
    }
}

/// What the scanner makes of a whole file: its spans in order, or the first
/// structural error.
pub open spec fn scan_spec(src: Seq<u8>) -> Result<Seq<Span>, StructuralError> {
    scan_run(src, 0, ScanState::Outside { literal_start: 0 }, Seq::empty())
}

/// The state fits the offset `i` and the spans completed so far.
pub open spec fn state_fits(src: Seq<u8>, i: int, st: ScanState, acc: Seq<Span>) -> bool {
    &&& 0 <= i <= src.len() <= usize::MAX
    &&& match st {
        ScanState::Outside { literal_start } => {
            &&& 0 <= literal_start <= i
            &&& spans_tile(acc, literal_start)
        },
        ScanState::Primary { open_at } => {
            &&& 0 <= open_at
            &&& open_at + 2 <= i
            &&& spans_tile(acc, open_at)
        },
        ScanState::Alternative { open_at, divider_at } => {
            &&& 0 <= open_at
            &&& open_at + 2 <= divider_at
            &&& divider_at + 3 <= i
            &&& spans_tile(acc, open_at)
        },
    }
}

proof fn lemma_cover_push(spans: Seq<Span>, upto: int, s: Span)
    requires
        spans_tile(spans, upto),
        s.wf(),
        s.start() == upto,
    ensures
        spans_tile(spans.push(s), s.end()),
{
    let out: Seq<Span> = spans.push(s);
    assert forall|k: int| 0 <= k < out.len() implies (#[trigger] out[k]).wf() by {
        if k < spans.len() {
            assert(out[k] == spans[k]);
        }
    }
    assert forall|k: int| 0 <= k < out.len() - 1 implies (#[trigger] out[k]).end() == out[k
        + 1].start() by {
        if k < spans.len() - 1 {
            assert(out[k] == spans[k]);
            assert(out[k + 1] == spans[k + 1]);
        } else {
            assert(out[k] == spans.last());
        }
    }
    if spans.len() > 0 {
        assert(out[0] == spans[0]);
    }
}

proof fn lemma_cover_with_literal(spans: Seq<Span>, start: int, end: int)
    requires
        spans_tile(spans, start),
        0 <= start <= end <= usize::MAX,
    ensures
        spans_tile(with_literal(spans, start, end), end),
{
    if start < end {
        lemma_cover_push(
            spans,
            start,
            Span::Literal(ByteRange { start: start as usize, end: end as usize }),
        );
    }
}

/// A scan that succeeds yields spans that cover the whole file.
pub proof fn lemma_scan_run_tiles(src: Seq<u8>, i: int, st: ScanState, acc: Seq<Span>)
    requires
        state_fits(src, i, st, acc),
    ensures
        scan_run(src, i, st, acc) is Ok ==> spans_tile(
            scan_run(src, i, st, acc)->Ok_0,
            src.len() as int,
        ),
    decreases src.len() - i,
{
    let len: int = src.len() as int;
    if i >= len {
        match st {
            ScanState::Outside { literal_start } => {
                lemma_cover_with_literal(acc, literal_start, len);
            },
            _ => {},
        }
    } else {
        match marker_at(src, i) {
            None => {
                lemma_scan_run_tiles(src, i + 1, st, acc);
            },
            Some(Marker::Open) => match st {
                ScanState::Outside { literal_start } => {
                    lemma_cover_with_literal(acc, literal_start, i);
                    lemma_scan_run_tiles(
                        src,
                        i + 2,
                        ScanState::Primary { open_at: i },
                        with_literal(acc, literal_start, i),
                    );
                },
                _ => {},
            },
            Some(Marker::Divider) => match st {
                ScanState::Primary { open_at } => {
                    lemma_scan_run_tiles(
                        src,
                        i + 3,
                        ScanState::Alternative { open_at, divider_at: i },
                        acc,
                    );
                },
                _ => {},
            },
            Some(Marker::Close) => match st {
                ScanState::Outside { literal_start } => {},
                ScanState::Primary { open_at } => {
                    let d: Directive = directive_of(src, open_at, None, i);
                    lemma_cover_push(acc, open_at, Span::Directive(d));
                    lemma_scan_run_tiles(
                        src,
                        i + 2,
                        ScanState::Outside { literal_start: i + 2 },
                        acc.push(Span::Directive(d)),
                    );
                },
                ScanState::Alternative { open_at, divider_at } => {
                    let d: Directive = directive_of(src, open_at, Some(divider_at), i);
                    lemma_cover_push(acc, open_at, Span::Directive(d));
                    lemma_scan_run_tiles(
                        src,
                        i + 2,
                        ScanState::Outside { literal_start: i + 2 },
                        acc.push(Span::Directive(d)),
                    );
                },
            },
        }
    }
}

/// No marker starts inside the text of the span: not in a literal run, and
/// not in either body of a directive.
pub open spec fn span_quiet(src: Seq<u8>, s: Span) -> bool {
    match s {
        Span::Literal(r) => quiet(src, r.start as int, r.end as int),
        Span::Directive(d) => {
            &&& quiet(src, d.primary.start as int, d.primary.end as int)
            &&& match d.alternative {
                Some(alt) => quiet(src, alt.start as int, alt.end as int),
                None => true,
            }
        },
    }
}

/// No marker starts inside the text of any of the spans.
pub open spec fn spans_quiet(src: Seq<u8>, spans: Seq<Span>) -> bool {
    forall|k: int| 0 <= k < spans.len() ==> span_quiet(src, #[trigger] spans[k])
}

/// One of the spans is a directive.
pub open spec fn has_directive(spans: Seq<Span>) -> bool {
    exists|k: int| 0 <= k < spans.len() && (#[trigger] spans[k]) is Directive
}

/// No marker starts in the run that is open at offset `i`.
pub open spec fn state_quiet(src: Seq<u8>, i: int, st: ScanState) -> bool {
    match st {
        ScanState::Outside { literal_start } => quiet(src, literal_start, i),
        ScanState::Primary { open_at } => quiet(src, open_at + 2, i),
        ScanState::Alternative { open_at, divider_at } => {
            &&& quiet(src, open_at + 2, divider_at)
            &&& quiet(src, divider_at + 3, i)
        },
    }
}

proof fn lemma_quiet_push(src: Seq<u8>, spans: Seq<Span>, s: Span)
    requires
        spans_quiet(src, spans),
        span_quiet(src, s),
    ensures
        spans_quiet(src, spans.push(s)),
{
    let out: Seq<Span> = spans.push(s);
    assert forall|k: int| 0 <= k < out.len() implies span_quiet(src, #[trigger] out[k]) by {
        if k < spans.len() {
            assert(out[k] == spans[k]);
        }
    }
}

/// A scan that succeeds yields spans inside whose text no marker starts:
/// every marker of the file is the marker of a directive.
pub proof fn lemma_scan_run_quiet(src: Seq<u8>, i: int, st: ScanState, acc: Seq<Span>)
    requires
        state_fits(src, i, st, acc),
        state_quiet(src, i, st),
        spans_quiet(src, acc),
    ensures
        scan_run(src, i, st, acc) is Ok ==> spans_quiet(src, scan_run(src, i, st, acc)->Ok_0),
    decreases src.len() - i,
{
    let len: int = src.len() as int;
    if i >= len {
        match st {
            ScanState::Outside { literal_start } => {
                if literal_start < len {
                    lemma_quiet_push(
                        src,
                        acc,
                        Span::Literal(
                            ByteRange { start: literal_start as usize, end: len as usize },
                        ),
                    );
                }
            },
            _ => {},
        }
    } else {
        match marker_at(src, i) {
            None => {
                lemma_scan_run_quiet(src, i + 1, st, acc);
            },
            Some(Marker::Open) => match st {
                ScanState::Outside { literal_start } => {
                    if literal_start < i {
                        lemma_quiet_push(
                            src,
                            acc,
                            Span::Literal(
                                ByteRange { start: literal_start as usize, end: i as usize },
                            ),
                        );
                    }
                    lemma_cover_with_literal(acc, literal_start, i);
                    lemma_scan_run_quiet(
                        src,
                        i + 2,
                        ScanState::Primary { open_at: i },
                        with_literal(acc, literal_start, i),
                    );
                },
                _ => {},
            },
            Some(Marker::Divider) => match st {
                ScanState::Primary { open_at } => {
                    lemma_scan_run_quiet(
                        src,
                        i + 3,
                        ScanState::Alternative { open_at, divider_at: i },
                        acc,
                    );
                },
                _ => {},
            },
            Some(Marker::Close) => match st {
                ScanState::Outside { literal_start } => {},
                ScanState::Primary { open_at } => {
                    let d: Directive = directive_of(src, open_at, None, i);
                    lemma_quiet_push(src, acc, Span::Directive(d));
                    lemma_cover_push(acc, open_at, Span::Directive(d));
                    lemma_scan_run_quiet(
                        src,
                        i + 2,
                        ScanState::Outside { literal_start: i + 2 },
                        acc.push(Span::Directive(d)),
                    );
                },
                ScanState::Alternative { open_at, divider_at } => {
                    let d: Directive = directive_of(src, open_at, Some(divider_at), i);
                    lemma_quiet_push(src, acc, Span::Directive(d));
                    lemma_cover_push(acc, open_at, Span::Directive(d));
                    lemma_scan_run_quiet(
                        src,
                        i + 2,
                        ScanState::Outside { literal_start: i + 2 },
                        acc.push(Span::Directive(d)),
                    );
                },
            },
        }
    }
}

proof fn lemma_directive_stays(spans: Seq<Span>, s: Span)
    requires
        has_directive(spans) || s is Directive,
    ensures
        has_directive(spans.push(s)),
{
    let out: Seq<Span> = spans.push(s);
    if has_directive(spans) {
        let k: int = choose|k: int| 0 <= k < spans.len() && (#[trigger] spans[k]) is Directive;
        assert(out[k] is Directive);
    } else {
        assert(out[spans.len() as int] is Directive);
    }
}

/// A scan that succeeds on a file that holds a marker yields a directive.
pub proof fn lemma_scan_run_finds(src: Seq<u8>, i: int, st: ScanState, acc: Seq<Span>, m: int)
    requires
        0 <= i,
        has_directive(acc) || !(st is Outside) || (i <= m && marker_at(src, m) is Some),
    ensures
        scan_run(src, i, st, acc) is Ok ==> has_directive(scan_run(src, i, st, acc)->Ok_0),
    decreases src.len() - i,
{
    let len: int = src.len() as int;
    if i >= len {
        match st {
            ScanState::Outside { literal_start } => {
                if literal_start < len {
                    lemma_directive_stays(
                        acc,
                        Span::Literal(
                            ByteRange { start: literal_start as usize, end: len as usize },
                        ),
                    );
                }
            },
            _ => {},
        }
    } else {
        match marker_at(src, i) {
            None => {
                lemma_scan_run_finds(src, i + 1, st, acc, m);
            },
            Some(Marker::Open) => match st {
                ScanState::Outside { literal_start } => {
                    lemma_scan_run_finds(
                        src,
                        i + 2,
                        ScanState::Primary { open_at: i },
                        with_literal(acc, literal_start, i),
                        m,
                    );
                },
                _ => {},
            },
            Some(Marker::Divider) => match st {
                ScanState::Primary { open_at } => {
                    lemma_scan_run_finds(
                        src,
                        i + 3,
                        ScanState::Alternative { open_at, divider_at: i },
                        acc,
                        m,
                    );
                },
                _ => {},
            },
            Some(Marker::Close) => match st {
                ScanState::Outside { literal_start } => {},
                ScanState::Primary { open_at } => {
                    let d: Directive = directive_of(src, open_at, None, i);
                    lemma_directive_stays(acc, Span::Directive(d));
                    lemma_scan_run_finds(
                        src,
                        i + 2,
                        ScanState::Outside { literal_start: i + 2 },
                        acc.push(Span::Directive(d)),
                        m,
                    );
                },
                ScanState::Alternative { open_at, divider_at } => {
                    let d: Directive = directive_of(src, open_at, Some(divider_at), i);
                    lemma_directive_stays(acc, Span::Directive(d));
                    lemma_scan_run_finds(
                        src,
                        i + 2,
                        ScanState::Outside { literal_start: i + 2 },
                        acc.push(Span::Directive(d)),
                        m,
                    );
                },
            },
        }
    }
}

/// The marker that starts at offset `i`, if one does.
pub fn marker_here(src: &[u8], i: usize) -> (m: Option<Marker>)
    requires
        i < src.len(),
    ensures
        m == marker_at(src@, i as int),
{
    let room: usize = src.len() - i;
    let b: u8 = src[i];
    if b == BRACE_OPEN {
        if room >= 2 && src[i + 1] == TILDE {
            Some(Marker::Open)
        } else {
            None
        }
    } else if b == TILDE {
        if room >= 3 && src[i + 1] == BAR && src[i + 2] == TILDE {
            Some(Marker::Divider)
        } else if room >= 2 && src[i + 1] == BRACE_CLOSE {
            Some(Marker::Close)
        } else {
            None
        }
    } else {
        None
    }
}

/// The line, counted from 1, on which the byte at `offset` stands.
pub fn line_number(src: &[u8], offset: usize) -> (line: usize)
    requires
        offset < src.len(),
    ensures
        line == line_of(src@, offset as int),
{
    let mut count: usize = 0;
    let mut k: usize = 0;
    while k < offset
        invariant
            k <= offset < src.len(),
            count == newlines_before(src@, k as int),
            count <= k,
        decreases offset - k,
    {
        if src[k] == NEWLINE {
            count = count + 1;
        }
        k = k + 1;
    }
    count + 1
}

/// Tells whether the bytes `lo..hi` are written as comment lines.
pub fn is_comment_wrapped(src: &[u8], lo: usize, hi: usize) -> (r: bool)
    requires
        lo <= hi <= src.len(),
    ensures
        r == comment_wrapped(src@, lo as int, hi as int),
{
    let mut p: usize = lo;
    while p < hi
        invariant
            lo <= p <= hi <= src.len(),
            lines_inert(src@, lo as int, hi as int) == lines_inert(src@, p as int, hi as int),
        decreases hi - p,
    {
        let q: usize = forward_over_blanks(src, p, hi);
        let e: usize = forward_to_line_end(src, q, hi);
        if q != e && !comment_token_at(src, q, hi) {
            return false;
        }
        if e >= hi {
            p = hi;
        } else {
            p = e + 1;
        }
    }
    true
}

/// Scans the bytes of one file.
///
/// On success the spans cover the file from its first byte to its last, in
/// order, with no gap and no overlap: literal runs between the directives,
/// and one span for each directive, from its open marker to the end of its
/// close marker. No marker starts inside a literal run or inside a body. A marker out of place ends the scan with the first such
/// error; so does a directive that is still open where the file ends, which
/// is reported at its open marker.
pub fn scan(src: &[u8]) -> (r: Result<Vec<Span>, StructuralError>)
    ensures
        match r {
            Ok(spans) => scan_spec(src@) == Ok::<Seq<Span>, StructuralError>(spans@),
            Err(e) => scan_spec(src@) == Err::<Seq<Span>, StructuralError>(e),
        },
        r is Ok ==> spans_tile(r->Ok_0@, src.len() as int),
        r is Ok ==> spans_quiet(src@, r->Ok_0@),
{
    let len: usize = src.len();
    let mut spans: Vec<Span> = Vec::new();
    let mut i: usize = 0;
    let mut literal_start: usize = 0;
    let mut inside: bool = false;
    let mut open_at: usize = 0;
    let mut divided: bool = false;
    let mut divider_at: usize = 0;
    let ghost mut st: ScanState = ScanState::Outside { literal_start: 0 };
    proof {
        lemma_scan_run_tiles(src@, 0, st, Seq::empty());
        lemma_scan_run_quiet(src@, 0, st, Seq::empty());
    }
    while i < len
        invariant
            len == src.len(),
            i <= len,
            scan_spec(src@) == scan_run(src@, i as int, st, spans@),
            st == (if !inside {
                ScanState::Outside { literal_start: literal_start as int }
            } else if !divided {
                ScanState::Primary { open_at: open_at as int }
            } else {
                ScanState::Alternative { open_at: open_at as int, divider_at: divider_at as int }
            }),
            !inside ==> literal_start <= i,
            inside ==> open_at + 2 <= i,
            inside && divided ==> open_at + 2 <= divider_at && divider_at + 3 <= i,
        decreases len - i,
    {
        match marker_here(src, i) {
            None => {
                i = i + 1;
            },
            Some(Marker::Open) => {
                if inside {
                    let line: usize = line_number(src, i);
                    return Err(
                        StructuralError { kind: ErrorKind::OpenInsideDirective, offset: i, line },
                    );
                }
                if literal_start < i {
                    spans.push(Span::Literal(ByteRange { start: literal_start, end: i }));
                }
                inside = true;
                divided = false;
                open_at = i;
                proof {
                    st = ScanState::Primary { open_at: i as int };
                }
                i = i + 2;
            },
            Some(Marker::Divider) => {
                if !inside {
                    let line: usize = line_number(src, i);
                    return Err(
                        StructuralError {
                            kind: ErrorKind::DividerOutsideDirective,
                            offset: i,
                            line,
                        },
                    );
                }
                if divided {
                    let line: usize = line_number(src, i);
                    return Err(
                        StructuralError { kind: ErrorKind::RepeatedDivider, offset: i, line },
                    );
                }
                divided = true;
                divider_at = i;
                proof {
                    st = ScanState::Alternative { open_at: open_at as int, divider_at: i as int };
                }
                i = i + 3;
            },
            Some(Marker::Close) => {
                if !inside {
                    let line: usize = line_number(src, i);
                    return Err(
                        StructuralError { kind: ErrorKind::CloseOutsideDirective, offset: i, line },
                    );
                }
                if divided {
                    let wrapped: bool = is_comment_wrapped(src, divider_at + 3, i);
                    spans.push(
                        Span::Directive(
                            Directive {
                                kind: if wrapped {
                                    DirectiveKind::Replace
                                } else {
                                    DirectiveKind::Choice
                                },
                                open_at,
                                primary: ByteRange { start: open_at + 2, end: divider_at },
                                alternative: Some(ByteRange { start: divider_at + 3, end: i }),
                                end: i + 2,
                                comment_stripped: wrapped,
                            },
                        ),
                    );
                } else {
                    spans.push(
                        Span::Directive(
                            Directive {
                                kind: DirectiveKind::Strip,
                                open_at,
                                primary: ByteRange { start: open_at + 2, end: i },
                                alternative: None,
                                end: i + 2,
                                comment_stripped: false,
                            },
                        ),
                    );
                }
                inside = false;
                literal_start = i + 2;
                proof {
                    st = ScanState::Outside { literal_start: i + 2 };
                }
                i = i + 2;
            },
        }
    }
    if inside {
        let line: usize = line_number(src, open_at);
        return Err(
            StructuralError { kind: ErrorKind::UnterminatedDirective, offset: open_at, line },
        );
    }
    if literal_start < len {
        spans.push(Span::Literal(ByteRange { start: literal_start, end: len }));
    }
    Ok(spans)
}

} // verus!
