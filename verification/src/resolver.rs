//! The span resolver: from the scanner's spans and a mode to the bytes of the
//! rewritten file.
//!
//! Resolving never invents a byte. Every byte of the original file ends up in
//! exactly one [`Piece`], kept or deleted, and the output is the kept pieces
//! in their original order.
//!
//! Of a directive one body at most is kept: the primary body in `Keep` mode,
//! the alternative in `Strip` mode. The markers go, each with the line
//! comment token that carries it, and so do the blanks between a marker and
//! the kept body. A line that held nothing but a marker, or that is left
//! blank once the directive is gone, goes whole, with its line feed.

use vstd::prelude::*;
use crate::bytes::{
    backward_over_blanks, comment_at, comment_token_at, forward_over_blanks, forward_to_line_end,
    is_blank, lemma_line_end_bounds, lemma_skip_back_bounds, lemma_skip_back_passes,
    lemma_skip_blanks_bounds, lemma_skip_blanks_passes, line_end, skip_back, skip_blanks, NEWLINE,
    SLASH, SPACE,
};
use crate::model::{
    pieces_tile, spans_tile, ByteRange, Directive, Mode, Piece, Span, StructuralError,
};
use crate::scanner::{scan, scan_spec};

verus! {

/// The body of `d` that `mode` keeps, if there is one.
pub open spec fn chosen(d: Directive, mode: Mode) -> Option<ByteRange> {
    match mode {
        Mode::Keep => Some(d.primary),
        Mode::Strip => d.alternative,
    }
}

/// Where the marker at `m` begins once its line comment token is counted in:
/// at the token, if the token stands before the marker with nothing but blanks
/// between them and does not reach below `lo`; at `m` otherwise.
pub open spec fn lead(src: Seq<u8>, lo: int, m: int) -> int {
    let t: int = skip_back(src, lo, m);
    if comment_at(src, t - 2, t) && lo <= t - 2 {
        t - 2
    } else {
        m
    }
}

/// Where the body `c0..c1` ends once the blanks at its end are dropped, and
/// with them the line comment token of the marker that follows.
pub open spec fn body_end(src: Seq<u8>, c0: int, c1: int) -> int {
    let t: int = skip_back(src, c0, c1);
    if comment_at(src, t - 2, t) && c0 <= t - 2 {
        skip_back(src, c0, t - 2)
    } else {
        t
    }
}

/// Only blanks stand between `a` and the start of its line, as far as the
/// line lies in `lo..a`.
pub open spec fn blank_before(src: Seq<u8>, lo: int, a: int) -> bool {
    let s: int = skip_back(src, lo, a);
    s == 0 || (0 < s <= src.len() && src[s - 1] == NEWLINE)
}

/// Only blanks stand between `y` and the end of its line, as far as the line
/// lies in `y..hi`.
pub open spec fn blank_after(src: Seq<u8>, y: int, hi: int) -> bool {
    let q: int = skip_blanks(src, y, hi);
    q == src.len() || (0 <= q < hi && src[q] == NEWLINE)
}

/// The offset behind the line feed that ends the line of `y`, or `hi` where
/// the line is the last.
pub open spec fn after_line(src: Seq<u8>, y: int, hi: int) -> int {
    let q: int = skip_blanks(src, y, hi);
    if q < hi {
        q + 1
    } else {
        hi
    }
}

/// How one directive is cut out of the file.
///
/// The four offsets `(x, y, k, z)` say that `x..y` is deleted, `y..k` is the
/// kept body and `k..z` is deleted. `lo` is the offset up to which the file
/// has been decided, `hi` the end of the literal text that follows the
/// directive; outside `lo..hi` nothing is touched.
pub open spec fn cut_of(src: Seq<u8>, d: Directive, mode: Mode, lo: int, hi: int) -> (
    int,
    int,
    int,
    int,
) {
    let a: int = lead(src, lo, d.open_at as int);
    let d1: int = d.end as int;
    let k1: int = match chosen(d, mode) {
        Some(c) => body_end(src, c.start as int, c.end as int),
        None => d1,
    };
    let k0: int = match chosen(d, mode) {
        Some(c) => skip_blanks(src, c.start as int, k1),
        None => d1,
    };
    if k0 < k1 {
        let left: bool = blank_before(src, lo, a) && src[k0] == NEWLINE;
        let right: bool = src[k1 - 1] == NEWLINE && blank_after(src, d1, hi);
        (
            if left {
                skip_back(src, lo, a)
            } else {
                a
            },
            if left {
                k0 + 1
            } else {
                k0
            },
            k1,
            if right {
                after_line(src, d1, hi)
            } else {
                d1
            },
        )
    } else {
        let whole: bool = blank_before(src, lo, a) && blank_after(src, d1, hi);
        let z: int = if whole {
            after_line(src, d1, hi)
        } else {
            d1
        };
        (
            if whole {
                skip_back(src, lo, a)
            } else {
                a
            },
            z,
            z,
            z,
        )
    }
}

/// The offsets of a cut lie in order between `lo` and `hi`, the deleted part
/// holds the directive's markers, and the kept part lies inside the chosen
/// body.
pub proof fn lemma_cut_ordered(src: Seq<u8>, d: Directive, mode: Mode, lo: int, hi: int)
    requires
        d.wf(),
        0 <= lo <= d.open_at,
        d.end <= hi <= src.len(),
    ensures
        ({
            let (x, y, k, z) = cut_of(src, d, mode, lo, hi);
            &&& lo <= x <= d.open_at
            &&& x < y <= k <= z
            &&& d.open_at + 2 <= y
            &&& d.end <= z <= hi
            &&& y < k ==> chosen(d, mode) is Some && chosen(d, mode)->0.start <= y && k <= chosen(
                d,
                mode,
            )->0.end
        }),
{
    let open_at: int = d.open_at as int;
    let d1: int = d.end as int;
    lemma_skip_back_bounds(src, lo, open_at);
    let a: int = lead(src, lo, open_at);
    lemma_skip_back_bounds(src, lo, a);
    lemma_skip_blanks_bounds(src, d1, hi);
    match chosen(d, mode) {
        Some(c) => {
            let c0: int = c.start as int;
            let c1: int = c.end as int;
            lemma_skip_back_bounds(src, c0, c1);
            let t: int = skip_back(src, c0, c1);
            if c0 <= t - 2 {
                lemma_skip_back_bounds(src, c0, t - 2);
            }
            let k1: int = body_end(src, c0, c1);
            lemma_skip_blanks_bounds(src, c0, k1);
        },
        None => {},
    }
}

/// What a cut deletes outside the directive lies on the lines of its outer
/// markers: before the open marker only blanks and the line comment token,
/// behind the close marker only blanks and, last, the line feed of that line.
pub proof fn lemma_cut_trims(src: Seq<u8>, d: Directive, mode: Mode, lo: int, hi: int)
    requires
        d.wf(),
        0 <= lo <= d.open_at,
        d.end <= hi <= src.len(),
    ensures
        ({
            let (x, y, k, z) = cut_of(src, d, mode, lo, hi);
            &&& forall|i: int| x <= i < d.open_at ==> is_blank(#[trigger] src[i]) || src[i] == SLASH
            &&& forall|i: int|
                d.end <= i < z ==> is_blank(#[trigger] src[i]) || (src[i] == NEWLINE && i == z - 1)
        }),
{
    let open_at: int = d.open_at as int;
    let d1: int = d.end as int;
    lemma_cut_ordered(src, d, mode, lo, hi);
    let (x, y, k, z) = cut_of(src, d, mode, lo, hi);
    lemma_skip_back_bounds(src, lo, open_at);
    let t: int = skip_back(src, lo, open_at);
    let a: int = lead(src, lo, open_at);
    lemma_skip_back_bounds(src, lo, a);
    assert forall|i: int| x <= i < open_at implies is_blank(#[trigger] src[i]) || src[i]
        == SLASH by {
        if i >= t {
            lemma_skip_back_passes(src, lo, open_at, i);
        } else if i >= a {
        } else {
            lemma_skip_back_passes(src, lo, a, i);
        }
    }
    lemma_skip_blanks_bounds(src, d1, hi);
    let q: int = skip_blanks(src, d1, hi);
    assert forall|i: int| d1 <= i < z implies is_blank(#[trigger] src[i]) || (src[i] == NEWLINE
        && i == z - 1) by {
        if i < q {
            lemma_skip_blanks_passes(src, d1, hi, i);
        }
    }
}

/// `pieces` with the piece `start..end` appended, unless the piece is empty.
pub open spec fn with_piece(pieces: Seq<Piece>, start: int, end: int, kept: bool) -> Seq<Piece> {
    if start < end {
        pieces.push(Piece { start: start as usize, end: end as usize, kept })
    } else {
        pieces
    }
}

/// Where the line comment prefix of the line that starts at `p` ends: behind
/// the blanks, the token and one space, if the line has such a prefix.
pub open spec fn prefix_end(src: Seq<u8>, p: int, hi: int) -> int {
    let q: int = skip_blanks(src, p, hi);
    if comment_at(src, q, hi) {
        if q + 2 < hi && src[q + 2] == SPACE {
            q + 3
        } else {
            q + 2
        }
    } else {
        p
    }
}

/// The start of the line that follows the line of `c` in `c..hi`, or `hi`.
pub open spec fn next_line(src: Seq<u8>, c: int, hi: int) -> int {
    let e: int = line_end(src, c, hi);
    if e < hi {
        e + 1
    } else {
        hi
    }
}

pub proof fn lemma_line_steps(src: Seq<u8>, p: int, hi: int)
    requires
        0 <= p < hi <= src.len(),
    ensures
        p <= prefix_end(src, p, hi) <= hi,
        prefix_end(src, p, hi) <= next_line(src, prefix_end(src, p, hi), hi) <= hi,
        p < next_line(src, prefix_end(src, p, hi), hi),
{
    lemma_skip_blanks_bounds(src, p, hi);
    let c: int = prefix_end(src, p, hi);
    lemma_line_end_bounds(src, c, hi);
}

/// The pieces of the comment lines `p..hi`, activated line by line: of each
/// line that starts, after blanks, with a line comment token, the blanks, the
/// token and one space behind it are deleted and the rest is kept; any other
/// line is kept as it is. `p` is the start of a line.
pub open spec fn strip_run(src: Seq<u8>, p: int, hi: int, acc: Seq<Piece>) -> Seq<Piece>
    decreases hi - p,
    via strip_run_decreases
{
    if 0 <= p < hi && hi <= src.len() {
        let c: int = prefix_end(src, p, hi);
        let next: int = next_line(src, c, hi);
        strip_run(src, next, hi, with_piece(with_piece(acc, p, c, false), c, next, true))
    } else {
        acc
    }
}

#[via_fn]
proof fn strip_run_decreases(src: Seq<u8>, p: int, hi: int, acc: Seq<Piece>) {
    if 0 <= p < hi && hi <= src.len() {
        lemma_line_steps(src, p, hi);
    }
}

/// The end of the literal text that follows the directive `spans[k]`.
pub open spec fn reach(spans: Seq<Span>, k: int) -> int {
    if k + 1 < spans.len() && spans[k + 1] is Literal {
        spans[k + 1].end()
    } else {
        spans[k].end()
    }
}

/// The pieces of the file from the span `spans[k]` on, with `pos` the offset
/// up to which the file has been decided and `acc` the pieces of `0..pos`.
pub open spec fn resolve_run(
    src: Seq<u8>,
    spans: Seq<Span>,
    mode: Mode,
    k: int,
    pos: int,
    acc: Seq<Piece>,
) -> Seq<Piece>
    decreases spans.len() - k,
{
    if k < 0 || k >= spans.len() {
        with_piece(acc, pos, src.len() as int, true)
    } else {
        match spans[k] {
            Span::Literal(_) => resolve_run(src, spans, mode, k + 1, pos, acc),
            Span::Directive(d) => {
                let (x, y, k1, z) = cut_of(src, d, mode, pos, reach(spans, k));
                let before: Seq<Piece> = with_piece(with_piece(acc, pos, x, true), x, y, false);
                let body: Seq<Piece> = if mode == Mode::Strip && d.comment_stripped {
                    strip_run(src, y, k1, before)
                } else {
                    with_piece(before, y, k1, true)
                };
                resolve_run(src, spans, mode, k + 1, z, with_piece(body, k1, z, false))
            },
        }
    }
}

/// The pieces into which resolving divides a file.
pub open spec fn resolve_spec(src: Seq<u8>, spans: Seq<Span>, mode: Mode) -> Seq<Piece> {
    resolve_run(src, spans, mode, 0, 0, Seq::empty())
}

/// The bytes of the kept pieces, in order.
pub open spec fn render_spec(src: Seq<u8>, pieces: Seq<Piece>) -> Seq<u8>
    decreases pieces.len(),
{
    if pieces.len() == 0 {
        Seq::empty()
    } else {
        let last: Piece = pieces.last();
        render_spec(src, pieces.drop_last()) + if last.kept {
            src.subrange(last.start as int, last.end as int)
        } else {
            Seq::empty()
        }
    }
}

/// What rewriting makes of a file: the resolved bytes, or the first structural
/// error, in which case nothing is emitted.
pub open spec fn rewrite_spec(src: Seq<u8>, mode: Mode) -> Result<Seq<u8>, StructuralError> {
    match scan_spec(src) {
        Ok(spans) => Ok(render_spec(src, resolve_spec(src, spans, mode))),
        Err(e) => Err(e),
    }
}

/// A piece that starts where the pieces end extends them.
pub proof fn lemma_cover_with_piece(pieces: Seq<Piece>, start: int, end: int, kept: bool)
    requires
        pieces_tile(pieces, start),
        0 <= start <= end <= usize::MAX,
    ensures
        pieces_tile(with_piece(pieces, start, end, kept), end),
{
    if start < end {
        let p: Piece = Piece { start: start as usize, end: end as usize, kept };
        let out: Seq<Piece> = pieces.push(p);
        assert forall|k: int| 0 <= k < out.len() implies (#[trigger] out[k]).start
            < out[k].end by {
            if k < pieces.len() {
                assert(out[k] == pieces[k]);
            }
        }
        assert forall|k: int| 0 <= k < out.len() - 1 implies (#[trigger] out[k]).end == out[k
            + 1].start by {
            if k < pieces.len() - 1 {
                assert(out[k] == pieces[k]);
                assert(out[k + 1] == pieces[k + 1]);
            } else {
                assert(out[k] == pieces.last());
            }
        }
        if pieces.len() > 0 {
            assert(out[0] == pieces[0]);
        }
    }
}

pub proof fn lemma_strip_run_covers(src: Seq<u8>, p: int, hi: int, acc: Seq<Piece>)
    requires
        0 <= p <= hi <= src.len() <= usize::MAX,
        pieces_tile(acc, p),
    ensures
        pieces_tile(strip_run(src, p, hi, acc), hi),
    decreases hi - p,
{
    if p < hi {
        lemma_line_steps(src, p, hi);
        let c: int = prefix_end(src, p, hi);
        let next: int = next_line(src, c, hi);
        lemma_cover_with_piece(acc, p, c, false);
        lemma_cover_with_piece(with_piece(acc, p, c, false), c, next, true);
        lemma_strip_run_covers(
            src,
            next,
            hi,
            with_piece(with_piece(acc, p, c, false), c, next, true),
        );
    }
}

/// The end of the literal text behind a directive lies at or behind the
/// directive's end and within the file.
pub proof fn lemma_reach_bounds(spans: Seq<Span>, len: int, k: int)
    requires
        spans_tile(spans, len),
        0 <= k < spans.len(),
    ensures
        spans[k].end() <= reach(spans, k) <= len,
        0 <= spans[k].start(),
        k + 1 < spans.len() ==> reach(spans, k) <= spans[k + 1].end(),
        k + 1 < spans.len() && spans[k + 1] is Directive ==> reach(spans, k) == spans[k
            + 1].start(),
    decreases spans.len() - k,
{
    lemma_spans_ascend(spans, len, k);
    if k + 1 < spans.len() {
        lemma_spans_ascend(spans, len, k + 1);
        assert(spans[k].end() == spans[k + 1].start());
        assert(spans[k + 1].wf());
    }
}

/// Every span of a tiling lies within the file.
pub proof fn lemma_spans_ascend(spans: Seq<Span>, len: int, k: int)
    requires
        spans_tile(spans, len),
        0 <= k < spans.len(),
    ensures
        0 <= spans[k].start() < spans[k].end() <= len,
    decreases spans.len() - k,
{
    assert(spans[k].wf());
    if k + 1 < spans.len() {
        lemma_spans_ascend(spans, len, k + 1);
        assert(spans[k].end() == spans[k + 1].start());
    } else {
        assert(spans[k] == spans.last());
    }
}

/// Resolving divides the whole file into pieces.
pub proof fn lemma_resolve_run_tiles(
    src: Seq<u8>,
    spans: Seq<Span>,
    mode: Mode,
    k: int,
    pos: int,
    acc: Seq<Piece>,
)
    requires
        src.len() <= usize::MAX,
        spans_tile(spans, src.len() as int),
        0 <= k <= spans.len(),
        0 <= pos <= src.len(),
        k < spans.len() ==> pos <= spans[k].end(),
        k < spans.len() && spans[k] is Directive ==> pos <= spans[k].start(),
        pieces_tile(acc, pos),
    ensures
        pieces_tile(resolve_run(src, spans, mode, k, pos, acc), src.len() as int),
    decreases spans.len() - k,
{
    let len: int = src.len() as int;
    if k >= spans.len() {
        lemma_cover_with_piece(acc, pos, len, true);
    } else {
        lemma_reach_bounds(spans, len, k);
        match spans[k] {
            Span::Literal(_) => {
                lemma_resolve_run_tiles(src, spans, mode, k + 1, pos, acc);
            },
            Span::Directive(d) => {
                assert(spans[k].wf());
                let hi: int = reach(spans, k);
                lemma_cut_ordered(src, d, mode, pos, hi);
                let (x, y, k1, z) = cut_of(src, d, mode, pos, hi);
                lemma_cover_with_piece(acc, pos, x, true);
                lemma_cover_with_piece(with_piece(acc, pos, x, true), x, y, false);
                let before: Seq<Piece> = with_piece(with_piece(acc, pos, x, true), x, y, false);
                let body: Seq<Piece> = if mode == Mode::Strip && d.comment_stripped {
                    lemma_strip_run_covers(src, y, k1, before);
                    strip_run(src, y, k1, before)
                } else {
                    lemma_cover_with_piece(before, y, k1, true);
                    with_piece(before, y, k1, true)
                };
                lemma_cover_with_piece(body, k1, z, false);
                lemma_resolve_run_tiles(
                    src,
                    spans,
                    mode,
                    k + 1,
                    z,
                    with_piece(body, k1, z, false),
                );
            },
        }
    }
}

/// Where the marker at `m` begins once its line comment token is counted in.
fn lead_of(src: &[u8], lo: usize, m: usize) -> (a: usize)
    requires
        lo <= m <= src.len(),
    ensures
        a == lead(src@, lo as int, m as int),
        lo <= a <= m,
{
    let t: usize = backward_over_blanks(src, lo, m);
    if t >= 2 && t - 2 >= lo && comment_token_at(src, t - 2, t) {
        t - 2
    } else {
        m
    }
}

/// Where the body `c0..c1` ends once its trailing blanks are dropped, and with
/// them the line comment token of the marker that follows.
fn body_end_of(src: &[u8], c0: usize, c1: usize) -> (k: usize)
    requires
        c0 <= c1 <= src.len(),
    ensures
        k == body_end(src@, c0 as int, c1 as int),
        c0 <= k <= c1,
{
    let t: usize = backward_over_blanks(src, c0, c1);
    if t >= 2 && t - 2 >= c0 && comment_token_at(src, t - 2, t) {
        backward_over_blanks(src, c0, t - 2)
    } else {
        t
    }
}

/// Tells whether only blanks stand between `a` and the start of its line.
fn is_blank_before(src: &[u8], lo: usize, a: usize) -> (r: bool)
    requires
        lo <= a <= src.len(),
    ensures
        r == blank_before(src@, lo as int, a as int),
{
    let s: usize = backward_over_blanks(src, lo, a);
    s == 0 || src[s - 1] == NEWLINE
}

/// Tells whether only blanks stand between `y` and the end of its line.
fn is_blank_after(src: &[u8], y: usize, hi: usize) -> (r: bool)
    requires
        y <= hi <= src.len(),
    ensures
        r == blank_after(src@, y as int, hi as int),
{
    let q: usize = forward_over_blanks(src, y, hi);
    q == src.len() || (q < hi && src[q] == NEWLINE)
}

/// The offset behind the line feed that ends the line of `y`.
fn after_line_of(src: &[u8], y: usize, hi: usize) -> (r: usize)
    requires
        y <= hi <= src.len(),
    ensures
        r == after_line(src@, y as int, hi as int),
        y <= r <= hi,
{
    let q: usize = forward_over_blanks(src, y, hi);
    if q < hi {
        q + 1
    } else {
        hi
    }
}

/// Computes how the directive `d` is cut out of the file.
fn cut(src: &[u8], d: &Directive, mode: Mode, lo: usize, hi: usize) -> (r: (
    usize,
    usize,
    usize,
    usize,
))
    requires
        d.wf(),
        lo <= d.open_at,
        d.end <= hi <= src.len(),
    ensures
        (r.0 as int, r.1 as int, r.2 as int, r.3 as int) == cut_of(
            src@,
            *d,
            mode,
            lo as int,
            hi as int,
        ),
        lo <= r.0 <= r.1 <= r.2 <= r.3 <= hi,
{
    proof {
        lemma_cut_ordered(src@, *d, mode, lo as int, hi as int);
    }
    let a: usize = lead_of(src, lo, d.open_at);
    let d1: usize = d.end;
    let body: Option<ByteRange> = match mode {
        Mode::Keep => Some(d.primary),
        Mode::Strip => d.alternative,
    };
    let k1: usize = match body {
        Some(c) => body_end_of(src, c.start, c.end),
        None => d1,
    };
    let k0: usize = match body {
        Some(c) => forward_over_blanks(src, c.start, k1),
        None => d1,
    };
    if k0 < k1 {
        let left: bool = is_blank_before(src, lo, a) && src[k0] == NEWLINE;
        let right: bool = src[k1 - 1] == NEWLINE && is_blank_after(src, d1, hi);
        let x: usize = if left {
            backward_over_blanks(src, lo, a)
        } else {
            a
        };
        let y: usize = if left {
            k0 + 1
        } else {
            k0
        };
        let z: usize = if right {
            after_line_of(src, d1, hi)
        } else {
            d1
        };
        (x, y, k1, z)
    } else {
        let whole: bool = is_blank_before(src, lo, a) && is_blank_after(src, d1, hi);
        let z: usize = if whole {
            after_line_of(src, d1, hi)
        } else {
            d1
        };
        let x: usize = if whole {
            backward_over_blanks(src, lo, a)
        } else {
            a
        };
        (x, z, z, z)
    }
}

/// Appends the piece `start..end`, unless it is empty.
fn put_piece(pieces: &mut Vec<Piece>, start: usize, end: usize, kept: bool)
    ensures
        final(pieces)@ == with_piece(old(pieces)@, start as int, end as int, kept),
{
    if start < end {
        pieces.push(Piece { start, end, kept });
    }
}

/// Appends the pieces of the comment lines `p..hi`, activated line by line.
fn strip_lines(src: &[u8], p: usize, hi: usize, pieces: &mut Vec<Piece>)
    requires
        p <= hi <= src.len(),
    ensures
        final(pieces)@ == strip_run(src@, p as int, hi as int, old(pieces)@),
{
    let mut at: usize = p;
    while at < hi
        invariant
            p <= at <= hi <= src.len(),
            strip_run(src@, p as int, hi as int, old(pieces)@) == strip_run(
                src@,
                at as int,
                hi as int,
                pieces@,
            ),
        decreases hi - at,
    {
        proof {
            lemma_line_steps(src@, at as int, hi as int);
        }
        let q: usize = forward_over_blanks(src, at, hi);
        let c: usize = if comment_token_at(src, q, hi) {
            if q + 2 < hi && src[q + 2] == SPACE {
                q + 3
            } else {
                q + 2
            }
        } else {
            at
        };
        let e: usize = forward_to_line_end(src, c, hi);
        let next: usize = if e < hi {
            e + 1
        } else {
            hi
        };
        put_piece(pieces, at, c, false);
        put_piece(pieces, c, next, true);
        at = next;
    }
}

/// Resolves the spans of a file under `mode`.
///
/// The pieces that come back divide the file from its first byte to its last,
/// in order, each marked as kept or deleted. Literal text is kept, but for
/// the line comment token that carries an open marker and for the blanks and
/// the line feed of a line that the directive leaves blank. Of each directive
/// the body that `mode` chooses is kept, without the blanks that part it from
/// its markers; where the directive's alternative is written as comment lines
/// and `mode` is `Strip`, each line of it loses its comment prefix. An
/// alternative that is empty or blank resolves like no alternative at all.
pub fn resolve(src: &[u8], spans: &Vec<Span>, mode: Mode) -> (pieces: Vec<Piece>)
    requires
        spans_tile(spans@, src.len() as int),
    ensures
        pieces@ == resolve_spec(src@, spans@, mode),
        pieces_tile(pieces@, src.len() as int),
{
    let len: usize = src.len();
    let mut pieces: Vec<Piece> = Vec::new();
    let mut pos: usize = 0;
    let mut k: usize = 0;
    proof {
        lemma_resolve_run_tiles(src@, spans@, mode, 0, 0, Seq::empty());
    }
    while k < spans.len()
        invariant
            len == src.len(),
            spans_tile(spans@, len as int),
            k <= spans.len(),
            pos <= len,
            k < spans.len() ==> pos <= spans@[k as int].end(),
            k < spans.len() && spans@[k as int] is Directive ==> pos <= spans@[k as int].start(),
            resolve_spec(src@, spans@, mode) == resolve_run(
                src@,
                spans@,
                mode,
                k as int,
                pos as int,
                pieces@,
            ),
        decreases spans.len() - k,
    {
        proof {
            lemma_reach_bounds(spans@, len as int, k as int);
            assert(spans@[k as int].wf());
        }
        match spans[k] {
            Span::Literal(_) => {},
            Span::Directive(d) => {
                let hi: usize = if k + 1 < spans.len() {
                    match spans[k + 1] {
                        Span::Literal(r) => r.end,
                        Span::Directive(_) => d.end,
                    }
                } else {
                    d.end
                };
                let (x, y, k1, z) = cut(src, &d, mode, pos, hi);
                put_piece(&mut pieces, pos, x, true);
                put_piece(&mut pieces, x, y, false);
                let stripping: bool = match mode {
                    Mode::Strip => d.comment_stripped,
                    Mode::Keep => false,
                };
                if stripping {
                    strip_lines(src, y, k1, &mut pieces);
                } else {
                    put_piece(&mut pieces, y, k1, true);
                }
                put_piece(&mut pieces, k1, z, false);
                pos = z;
            },
        }
        k = k + 1;
    }
    put_piece(&mut pieces, pos, len, true);
    pieces
}

/// Every piece lies within a file of `len` bytes.
pub open spec fn pieces_within(pieces: Seq<Piece>, len: int) -> bool {
    forall|k: int| 0 <= k < pieces.len() ==> (#[trigger] pieces[k]).start <= pieces[k].end <= len
}

pub proof fn lemma_tile_within(pieces: Seq<Piece>, len: int, k: int)
    requires
        pieces_tile(pieces, len),
        0 <= k < pieces.len(),
    ensures
        0 <= pieces[k].start < pieces[k].end <= len,
    decreases pieces.len() - k,
{
    if k + 1 < pieces.len() {
        lemma_tile_within(pieces, len, k + 1);
        assert(pieces[k].end == pieces[k + 1].start);
    } else {
        assert(pieces[k] == pieces.last());
    }
}

/// Appends the bytes `start..end` of `src` to `out`.
fn append_range(out: &mut Vec<u8>, src: &[u8], start: usize, end: usize)
    requires
        start <= end <= src.len(),
    ensures
        final(out)@ == old(out)@ + src@.subrange(start as int, end as int),
{
    let mut i: usize = start;
    while i < end
        invariant
            start <= i <= end <= src.len(),
            out@ == old(out)@ + src@.subrange(start as int, i as int),
        decreases end - i,
    {
        out.push(src[i]);
        i = i + 1;
        assert(src@.subrange(start as int, i as int) =~= src@.subrange(start as int, i - 1).push(
            src@[i - 1],
        ));
    }
    assert(src@.subrange(start as int, start as int) =~= Seq::<u8>::empty());
}

/// Writes out the kept pieces, in order.
pub fn render(src: &[u8], pieces: &Vec<Piece>) -> (out: Vec<u8>)
    requires
        pieces_within(pieces@, src.len() as int),
    ensures
        out@ == render_spec(src@, pieces@),
{
    let mut out: Vec<u8> = Vec::new();
    let mut k: usize = 0;
    while k < pieces.len()
        invariant
            k <= pieces.len(),
            pieces_within(pieces@, src.len() as int),
            out@ == render_spec(src@, pieces@.take(k as int)),
        decreases pieces.len() - k,
    {
        let piece: Piece = pieces[k];
        assert(pieces@.take(k + 1).drop_last() =~= pieces@.take(k as int));
        assert(pieces@.take(k + 1).last() == piece);
        if piece.kept {
            append_range(&mut out, src, piece.start, piece.end);
        }
        k = k + 1;
    }
    assert(pieces@.take(k as int) =~= pieces@);
    out
}

/// Rewrites the bytes of one file under `mode`.
///
/// The file is scanned and, if its markers are well formed, resolved. A
/// structural error aborts the whole file: nothing is emitted for it, not
/// even the part before the error.
pub fn rewrite(src: &[u8], mode: Mode) -> (r: Result<Vec<u8>, StructuralError>)
    ensures
        match r {
            Ok(out) => rewrite_spec(src@, mode) == Ok::<Seq<u8>, StructuralError>(out@),
            Err(e) => rewrite_spec(src@, mode) == Err::<Seq<u8>, StructuralError>(e),
        },
{
    match scan(src) {
        Ok(spans) => {
            let pieces: Vec<Piece> = resolve(src, &spans, mode);
            proof {
                assert forall|k: int| 0 <= k < pieces@.len() implies (#[trigger] pieces@[k]).start
                    <= pieces@[k].end <= src.len() by {
                    lemma_tile_within(pieces@, src.len() as int, k);
                }
            }
            Ok(render(src, &pieces))
        },
        Err(e) => Err(e),
    }
}

} // verus!
