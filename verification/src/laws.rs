//! What holds of the scanner and the resolver together.

use vstd::prelude::*;
use crate::batch::{after_run, verdict_of, verdicts_of, Verdict};
use crate::bytes::{is_blank, NEWLINE, SLASH};
use crate::model::{pieces_tile, spans_tile, Mode, Piece, Span, StructuralError};
use crate::resolver::{
    chosen, cut_of, lemma_cut_ordered, lemma_cut_trims, lemma_line_steps, lemma_reach_bounds,
    lemma_resolve_run_tiles, lemma_spans_ascend, lemma_tile_within, next_line, prefix_end, reach,
    render_spec, resolve_run, resolve_spec, rewrite_spec, strip_run, with_piece,
};
use crate::scanner::{
    has_directive, lemma_scan_run_finds, lemma_scan_run_quiet, lemma_scan_run_tiles, marker_at,
    marker_free, quiet, scan_run, scan_spec, span_quiet, spans_quiet, with_literal, ScanState,
};

verus! {

/// Number of bytes in the kept pieces.
pub open spec fn kept_len(pieces: Seq<Piece>) -> int
    decreases pieces.len(),
{
    if pieces.len() == 0 {
        0
    } else {
        kept_len(pieces.drop_last()) + if pieces.last().kept {
            pieces.last().spec_len()
        } else {
            0
        }
    }
}

/// Number of bytes in the deleted pieces.
pub open spec fn deleted_len(pieces: Seq<Piece>) -> int
    decreases pieces.len(),
{
    if pieces.len() == 0 {
        0
    } else {
        deleted_len(pieces.drop_last()) + if pieces.last().kept {
            0
        } else {
            pieces.last().spec_len()
        }
    }
}

proof fn lemma_scan_of_quiet(src: Seq<u8>, i: int)
    requires
        marker_free(src),
        0 <= i <= src.len(),
    ensures
        scan_run(src, i, ScanState::Outside { literal_start: 0 }, Seq::empty()) == Ok::<
            Seq<Span>,
            StructuralError,
        >(with_literal(Seq::empty(), 0, src.len() as int)),
    decreases src.len() - i,
{
    if i < src.len() {
        assert(marker_at(src, i) is None);
        lemma_scan_of_quiet(src, i + 1);
    }
}

proof fn lemma_prefix_tiles(pieces: Seq<Piece>, len: int)
    requires
        pieces_tile(pieces, len),
        pieces.len() > 0,
    ensures
        pieces_tile(pieces.drop_last(), pieces.last().start as int),
{
    let front: Seq<Piece> = pieces.drop_last();
    assert forall|k: int| 0 <= k < front.len() implies (#[trigger] front[k]).start
        < front[k].end by {
        assert(front[k] == pieces[k]);
    }
    assert forall|k: int| 0 <= k < front.len() - 1 implies (#[trigger] front[k]).end == front[k
        + 1].start by {
        assert(front[k] == pieces[k]);
        assert(front[k + 1] == pieces[k + 1]);
    }
    if front.len() > 0 {
        assert(front[0] == pieces[0]);
        assert(front.last() == pieces[pieces.len() - 2]);
        assert(pieces[pieces.len() - 2].end == pieces[pieces.len() - 2 + 1].start);
    } else {
        assert(pieces.last() == pieces[0]);
    }
}

proof fn lemma_lengths(src: Seq<u8>, pieces: Seq<Piece>, upto: int)
    requires
        pieces_tile(pieces, upto),
        upto <= src.len(),
    ensures
        kept_len(pieces) + deleted_len(pieces) == upto,
        render_spec(src, pieces).len() == kept_len(pieces),
        0 <= kept_len(pieces),
        0 <= deleted_len(pieces),
    decreases pieces.len(),
{
    if pieces.len() > 0 {
        lemma_prefix_tiles(pieces, upto);
        lemma_tile_within(pieces, upto, pieces.len() - 1);
        lemma_lengths(src, pieces.drop_last(), pieces.last().start as int);
    }
}

/// A file without directives comes back as it is, in either mode.
pub proof fn law_round_trip(src: Seq<u8>, mode: Mode)
    requires
        src.len() <= usize::MAX,
        marker_free(src),
    ensures
        rewrite_spec(src, mode) == Ok::<Seq<u8>, StructuralError>(src),
{
    lemma_scan_of_quiet(src, 0);
    let len: int = src.len() as int;
    let spans: Seq<Span> = with_literal(Seq::empty(), 0, len);
    assert(scan_spec(src) == Ok::<Seq<Span>, StructuralError>(spans));
    let pieces: Seq<Piece> = resolve_spec(src, spans, mode);
    if len > 0 {
        let only: Piece = Piece { start: 0, end: len as usize, kept: true };
        assert(spans[0] is Literal);
        assert(pieces =~= seq![only]) by {
            reveal_with_fuel(resolve_run, 3);
        }
        assert(pieces.drop_last() =~= Seq::<Piece>::empty());
        assert(render_spec(src, pieces) =~= src) by {
            reveal_with_fuel(render_spec, 3);
        }
    } else {
        assert(pieces =~= Seq::<Piece>::empty());
        assert(render_spec(src, pieces) =~= src);
    }
}

/// Resolving loses no byte out of sight: the pieces divide the whole file,
/// the kept and the deleted bytes add up to its length, and the output is as
/// long as the kept pieces together.
pub proof fn law_complete(src: Seq<u8>, mode: Mode)
    requires
        src.len() <= usize::MAX,
        scan_spec(src) is Ok,
    ensures
        ({
            let pieces: Seq<Piece> = resolve_spec(src, scan_spec(src)->Ok_0, mode);
            &&& pieces_tile(pieces, src.len() as int)
            &&& kept_len(pieces) + deleted_len(pieces) == src.len()
            &&& 0 <= kept_len(pieces)
            &&& 0 <= deleted_len(pieces)
            &&& rewrite_spec(src, mode) is Ok
            &&& rewrite_spec(src, mode)->Ok_0.len() == kept_len(pieces)
        }),
{
    let spans: Seq<Span> = scan_spec(src)->Ok_0;
    lemma_scan_run_tiles(src, 0, ScanState::Outside { literal_start: 0 }, Seq::empty());
    lemma_resolve_run_tiles(src, spans, mode, 0, 0, Seq::empty());
    lemma_lengths(src, resolve_spec(src, spans, mode), src.len() as int);
}

/// Resolving a file that has been resolved changes nothing more, whatever the
/// two modes, as long as the bytes that the first pass left hold no marker.
///
/// A first pass keeps no marker of the file, yet the bytes on the two sides
/// of a directive that goes may join into one. A second pass refuses such
/// bytes or resolves them once more; `law_unchanged_iff_no_marker` shows that
/// it leaves no other bytes unchanged than those without a marker.
pub proof fn law_idempotent(src: Seq<u8>, first: Mode, second: Mode)
    requires
        src.len() <= usize::MAX,
        rewrite_spec(src, first) is Ok,
        marker_free(rewrite_spec(src, first)->Ok_0),
    ensures
        rewrite_spec(rewrite_spec(src, first)->Ok_0, second) == rewrite_spec(src, first),
{
    law_complete(src, first);
    let out: Seq<u8> = rewrite_spec(src, first)->Ok_0;
    assert(out.len() <= src.len());
    law_round_trip(out, second);
}

/// What becomes of a file in a run depends on that file and the mode alone:
/// two runs that agree on the file at one place agree on its outcome, whatever
/// the other files hold and whether or not they are malformed.
pub proof fn law_isolation(a: Seq<Seq<u8>>, b: Seq<Seq<u8>>, mode: Mode, i: int)
    requires
        0 <= i < a.len(),
        i < b.len(),
        a[i] == b[i],
    ensures
        verdicts_of(a, mode)[i] == verdicts_of(b, mode)[i],
        verdicts_of(a, mode)[i] == verdict_of(a[i], mode),
{
}

/// The byte at offset `i` belongs to a directive.
pub open spec fn in_directive(spans: Seq<Span>, i: int) -> bool {
    exists|k: int|
        0 <= k < spans.len() && (#[trigger] spans[k]) is Directive && spans[k].start() <= i
            < spans[k].end()
}

/// The piece is sound: no marker starts in a kept piece, and a deleted piece
/// holds nothing but bytes of directives and, on the line of a marker, blanks,
/// the line comment token and, last, the line feed.
pub open spec fn piece_sound(src: Seq<u8>, spans: Seq<Span>, p: Piece) -> bool {
    if p.kept {
        quiet(src, p.start as int, p.end as int)
    } else {
        forall|i: int|
            p.start <= i < p.end ==> in_directive(spans, i) || is_blank(#[trigger] src[i]) || src[i]
                == SLASH || (src[i] == NEWLINE && i == p.end - 1)
    }
}

/// Every piece is sound.
pub open spec fn pieces_sound(src: Seq<u8>, spans: Seq<Span>, pieces: Seq<Piece>) -> bool {
    forall|j: int| 0 <= j < pieces.len() ==> piece_sound(src, spans, #[trigger] pieces[j])
}

proof fn lemma_sound_with_piece(
    src: Seq<u8>,
    spans: Seq<Span>,
    acc: Seq<Piece>,
    start: int,
    end: int,
    kept: bool,
)
    requires
        pieces_sound(src, spans, acc),
        0 <= start <= end <= usize::MAX,
        start < end ==> piece_sound(
            src,
            spans,
            Piece { start: start as usize, end: end as usize, kept },
        ),
    ensures
        pieces_sound(src, spans, with_piece(acc, start, end, kept)),
{
    let out: Seq<Piece> = with_piece(acc, start, end, kept);
    assert forall|j: int| 0 <= j < out.len() implies piece_sound(src, spans, #[trigger] out[j]) by {
        if j < acc.len() {
            assert(out[j] == acc[j]);
        }
    }
}

proof fn lemma_strip_run_sound(
    src: Seq<u8>,
    spans: Seq<Span>,
    at: int,
    p: int,
    hi: int,
    acc: Seq<Piece>,
)
    requires
        0 <= p <= hi <= src.len() <= usize::MAX,
        quiet(src, p, hi),
        0 <= at < spans.len(),
        spans[at] is Directive,
        spans[at].start() <= p,
        hi <= spans[at].end(),
        pieces_sound(src, spans, acc),
    ensures
        pieces_sound(src, spans, strip_run(src, p, hi, acc)),
    decreases hi - p,
{
    if p < hi {
        lemma_line_steps(src, p, hi);
        let c: int = prefix_end(src, p, hi);
        let next: int = next_line(src, c, hi);
        if p < c {
            let gone: Piece = Piece { start: p as usize, end: c as usize, kept: false };
            assert forall|i: int| gone.start <= i < gone.end implies in_directive(spans, i)
                || is_blank(#[trigger] src[i]) || src[i] == SLASH || (src[i] == NEWLINE && i
                == gone.end - 1) by {
                assert(spans[at] is Directive && spans[at].start() <= i < spans[at].end());
            }
        }
        lemma_sound_with_piece(src, spans, acc, p, c, false);
        lemma_sound_with_piece(src, spans, with_piece(acc, p, c, false), c, next, true);
        lemma_strip_run_sound(
            src,
            spans,
            at,
            next,
            hi,
            with_piece(with_piece(acc, p, c, false), c, next, true),
        );
    }
}

/// Where the text before the span `spans[k]` ends: at the start of the span,
/// or at the end of the file behind the last span.
pub open spec fn bound(spans: Seq<Span>, len: int, k: int) -> int {
    if 0 <= k < spans.len() {
        spans[k].start()
    } else {
        len
    }
}

proof fn lemma_resolve_run_sound(
    src: Seq<u8>,
    spans: Seq<Span>,
    mode: Mode,
    k: int,
    pos: int,
    acc: Seq<Piece>,
)
    requires
        src.len() <= usize::MAX,
        spans_tile(spans, src.len() as int),
        spans_quiet(src, spans),
        0 <= k <= spans.len(),
        0 <= pos <= src.len(),
        k < spans.len() ==> pos <= spans[k].end(),
        k < spans.len() && spans[k] is Directive ==> pos <= spans[k].start(),
        quiet(src, pos, bound(spans, src.len() as int, k)),
        pieces_sound(src, spans, acc),
    ensures
        pieces_sound(src, spans, resolve_run(src, spans, mode, k, pos, acc)),
    decreases spans.len() - k,
{
    let len: int = src.len() as int;
    if k >= spans.len() {
        lemma_sound_with_piece(src, spans, acc, pos, len, true);
    } else {
        lemma_reach_bounds(spans, len, k);
        lemma_spans_ascend(spans, len, k);
        assert(span_quiet(src, spans[k]));
        if k + 1 < spans.len() {
            assert(spans[k].end() == spans[k + 1].start());
        } else {
            assert(spans[k] == spans.last());
        }
        match spans[k] {
            Span::Literal(r) => {
                assert forall|i: int| pos <= i < bound(spans, len, k + 1) implies (
                #[trigger] marker_at(src, i)) is None by {
                    if i < spans[k].start() {
                    } else {
                        assert(r.start <= i < r.end);
                    }
                }
                lemma_resolve_run_sound(src, spans, mode, k + 1, pos, acc);
            },
            Span::Directive(d) => {
                assert(spans[k].wf());
                let hi: int = reach(spans, k);
                lemma_cut_ordered(src, d, mode, pos, hi);
                lemma_cut_trims(src, d, mode, pos, hi);
                let (x, y, k1, z) = cut_of(src, d, mode, pos, hi);
                lemma_sound_with_piece(src, spans, acc, pos, x, true);
                let first: Seq<Piece> = with_piece(acc, pos, x, true);
                let gone: Piece = Piece { start: x as usize, end: y as usize, kept: false };
                assert forall|i: int| gone.start <= i < gone.end implies in_directive(spans, i)
                    || is_blank(#[trigger] src[i]) || src[i] == SLASH || (src[i] == NEWLINE && i
                    == gone.end - 1) by {
                    if d.open_at <= i < d.end {
                        assert(spans[k] is Directive && spans[k].start() <= i < spans[k].end());
                    }
                }
                lemma_sound_with_piece(src, spans, first, x, y, false);
                let before: Seq<Piece> = with_piece(first, x, y, false);
                if y < k1 {
                    let c = chosen(d, mode)->0;
                    assert(quiet(src, c.start as int, c.end as int));
                    assert(quiet(src, y, k1));
                }
                let body: Seq<Piece> = if mode == Mode::Strip && d.comment_stripped {
                    if y < k1 {
                        lemma_strip_run_sound(src, spans, k, y, k1, before);
                    }
                    strip_run(src, y, k1, before)
                } else {
                    lemma_sound_with_piece(src, spans, before, y, k1, true);
                    with_piece(before, y, k1, true)
                };
                let rest: Piece = Piece { start: k1 as usize, end: z as usize, kept: false };
                assert forall|i: int| rest.start <= i < rest.end implies in_directive(spans, i)
                    || is_blank(#[trigger] src[i]) || src[i] == SLASH || (src[i] == NEWLINE && i
                    == rest.end - 1) by {
                    if d.open_at <= i < d.end {
                        assert(spans[k] is Directive && spans[k].start() <= i < spans[k].end());
                    }
                }
                lemma_sound_with_piece(src, spans, body, k1, z, false);
                lemma_resolve_run_sound(
                    src,
                    spans,
                    mode,
                    k + 1,
                    z,
                    with_piece(body, k1, z, false),
                );
            },
        }
    }
}

/// Resolving keeps no marker and deletes nothing else but directives and the
/// rests of their marker lines.
///
/// No marker starts inside a kept piece, so a marker in the output can only
/// form where two kept pieces meet. A deleted byte belongs to a directive, or
/// it stands on the line of an outer marker of one and is a blank, a byte of
/// the line comment token before the open marker, or the line feed that ends
/// the line of the close marker.
pub proof fn law_pieces_sound(src: Seq<u8>, mode: Mode)
    requires
        src.len() <= usize::MAX,
        scan_spec(src) is Ok,
    ensures
        pieces_sound(src, scan_spec(src)->Ok_0, resolve_spec(src, scan_spec(src)->Ok_0, mode)),
{
    let spans: Seq<Span> = scan_spec(src)->Ok_0;
    let start: ScanState = ScanState::Outside { literal_start: 0 };
    lemma_scan_run_tiles(src, 0, start, Seq::empty());
    lemma_scan_run_quiet(src, 0, start, Seq::empty());
    if spans.len() > 0 {
        lemma_spans_ascend(spans, src.len() as int, 0);
    }
    lemma_resolve_run_sound(src, spans, mode, 0, 0, Seq::empty());
}

proof fn lemma_deleted_with_piece(acc: Seq<Piece>, start: int, end: int, kept: bool)
    requires
        0 <= start <= end <= usize::MAX,
    ensures
        deleted_len(with_piece(acc, start, end, kept)) == deleted_len(acc) + if !kept {
            end - start
        } else {
            0
        },
{
    if start < end {
        let p: Piece = Piece { start: start as usize, end: end as usize, kept };
        assert(acc.push(p).drop_last() =~= acc);
        assert(acc.push(p).last() == p);
    }
}

proof fn lemma_strip_run_deletes(src: Seq<u8>, p: int, hi: int, acc: Seq<Piece>)
    requires
        0 <= p <= hi <= src.len() <= usize::MAX,
    ensures
        deleted_len(strip_run(src, p, hi, acc)) >= deleted_len(acc),
    decreases hi - p,
{
    if p < hi {
        lemma_line_steps(src, p, hi);
        let c: int = prefix_end(src, p, hi);
        let next: int = next_line(src, c, hi);
        lemma_deleted_with_piece(acc, p, c, false);
        lemma_deleted_with_piece(with_piece(acc, p, c, false), c, next, true);
        lemma_strip_run_deletes(
            src,
            next,
            hi,
            with_piece(with_piece(acc, p, c, false), c, next, true),
        );
    }
}

proof fn lemma_resolve_run_deletes(
    src: Seq<u8>,
    spans: Seq<Span>,
    mode: Mode,
    k: int,
    pos: int,
    acc: Seq<Piece>,
    m: int,
)
    requires
        src.len() <= usize::MAX,
        spans_tile(spans, src.len() as int),
        0 <= k <= spans.len(),
        0 <= pos <= src.len(),
        k < spans.len() ==> pos <= spans[k].end(),
        k < spans.len() && spans[k] is Directive ==> pos <= spans[k].start(),
    ensures
        deleted_len(resolve_run(src, spans, mode, k, pos, acc)) >= deleted_len(acc),
        k <= m < spans.len() && spans[m] is Directive ==> deleted_len(
            resolve_run(src, spans, mode, k, pos, acc),
        ) > deleted_len(acc),
    decreases spans.len() - k,
{
    let len: int = src.len() as int;
    if k >= spans.len() {
        lemma_deleted_with_piece(acc, pos, len, true);
    } else {
        lemma_reach_bounds(spans, len, k);
        match spans[k] {
            Span::Literal(_) => {
                lemma_resolve_run_deletes(src, spans, mode, k + 1, pos, acc, m);
            },
            Span::Directive(d) => {
                assert(spans[k].wf());
                let hi: int = reach(spans, k);
                lemma_cut_ordered(src, d, mode, pos, hi);
                let (x, y, k1, z) = cut_of(src, d, mode, pos, hi);
                lemma_deleted_with_piece(acc, pos, x, true);
                let first: Seq<Piece> = with_piece(acc, pos, x, true);
                lemma_deleted_with_piece(first, x, y, false);
                let before: Seq<Piece> = with_piece(first, x, y, false);
                let body: Seq<Piece> = if mode == Mode::Strip && d.comment_stripped {
                    lemma_strip_run_deletes(src, y, k1, before);
                    strip_run(src, y, k1, before)
                } else {
                    lemma_deleted_with_piece(before, y, k1, true);
                    with_piece(before, y, k1, true)
                };
                lemma_deleted_with_piece(body, k1, z, false);
                lemma_resolve_run_deletes(
                    src,
                    spans,
                    mode,
                    k + 1,
                    z,
                    with_piece(body, k1, z, false),
                    m,
                );
            },
        }
    }
}

/// A file comes back as it is exactly if it holds no marker: in either mode
/// a file with a marker is refused or comes back shorter.
pub proof fn law_unchanged_iff_no_marker(src: Seq<u8>, mode: Mode)
    requires
        src.len() <= usize::MAX,
    ensures
        rewrite_spec(src, mode) == Ok::<Seq<u8>, StructuralError>(src) <==> marker_free(src),
{
    if marker_free(src) {
        law_round_trip(src, mode);
    } else if scan_spec(src) is Ok {
        let m: int = choose|m: int| 0 <= m < src.len() && (#[trigger] marker_at(src, m)) is Some;
        let spans: Seq<Span> = scan_spec(src)->Ok_0;
        lemma_scan_run_finds(src, 0, ScanState::Outside { literal_start: 0 }, Seq::empty(), m);
        assert(has_directive(spans));
        let at: int = choose|at: int| 0 <= at < spans.len() && (#[trigger] spans[at]) is Directive;
        lemma_scan_run_tiles(src, 0, ScanState::Outside { literal_start: 0 }, Seq::empty());
        lemma_spans_ascend(spans, src.len() as int, 0);
        lemma_resolve_run_deletes(src, spans, mode, 0, 0, Seq::empty(), at);
        law_complete(src, mode);
        assert(deleted_len(Seq::<Piece>::empty()) == 0);
    }
}

/// In `Keep` mode a file resolves to its own bytes exactly if it holds no
/// marker. Where it holds directives, their markers and alternatives go.
pub proof fn law_keep_identity(src: Seq<u8>)
    requires
        src.len() <= usize::MAX,
    ensures
        rewrite_spec(src, Mode::Keep) == Ok::<Seq<u8>, StructuralError>(src) <==> marker_free(src),
{
    law_unchanged_iff_no_marker(src, Mode::Keep);
}

/// A run in `Keep` mode leaves every file byte for byte as it is, and so does
/// a run in either mode with a file whose markers are malformed. A file is
/// rewritten only in `Strip` mode, and then with the bytes it resolves to.
pub proof fn law_files_left_alone(src: Seq<u8>, mode: Mode)
    ensures
        after_run(src, Mode::Keep) == src,
        rewrite_spec(src, mode) is Err ==> after_run(src, mode) == src,
        verdict_of(src, mode) is Unchanged ==> after_run(src, mode) == src,
        mode == Mode::Strip ==> (verdict_of(src, mode) matches Verdict::Changed(out)
            ==> after_run(src, mode) == out),
{
}

} // verus!
