use source_strip::batch::{rewrite_batch, rewrite_file, to_write, Outcome};
use source_strip::model::{
    ByteRange, Directive, DirectiveKind, ErrorKind, Mode, Piece, Span, SpanTag, StructuralError,
};
use source_strip::resolver::{render, resolve, rewrite};
use source_strip::scanner::scan;

fn strip(text: &str) -> String {
    String::from_utf8(rewrite(text.as_bytes(), Mode::Strip).unwrap()).unwrap()
}

fn keep(text: &str) -> String {
    String::from_utf8(rewrite(text.as_bytes(), Mode::Keep).unwrap()).unwrap()
}

fn failure(text: &str, mode: Mode) -> StructuralError {
    rewrite(text.as_bytes(), mode).unwrap_err()
}

#[test]
fn inline_alternative_is_activated() {
    assert_eq!(strip("const X = // {~5 // ~|~ 6 ~};"), "const X = 6;");
}

#[test]
fn inline_primary_is_kept() {
    assert_eq!(keep("const X = // {~5 // ~|~ 6 ~};"), "const X = 5;");
}

#[test]
fn alternative_over_two_lines() {
    let text = "pub const FOO : usize = // {~\n                       5 // ~|~ 6 ~}\n                        ;\n";
    assert_eq!(strip(text), "pub const FOO : usize = 6\n                        ;\n");
    assert_eq!(
        keep(text),
        "pub const FOO : usize = \n                       5\n                        ;\n"
    );
}

#[test]
fn commented_alternative_loses_its_prefixes() {
    let text = "before\n// {~\n    if true {\n        pr(\"alternative with comments\");\n    } else // ~|~\n    //    {\n    //    pr(\"this is the alternative\");\n    //    // here are some comments\n    //    }\n    // ~}\nnext\n";
    assert_eq!(
        strip(text),
        "before\n   {\n   pr(\"this is the alternative\");\n   // here are some comments\n   }\nnext\n"
    );
    assert_eq!(
        keep(text),
        "before\n    if true {\n        pr(\"alternative with comments\");\n    } else\nnext\n"
    );
    let spans = scan(text.as_bytes()).unwrap();
    assert_eq!(spans.len(), 3);
    match spans[1] {
        Span::Directive(d) => {
            assert_eq!(d.kind, DirectiveKind::Replace);
            assert!(d.comment_stripped);
        }
        Span::Literal(_) => panic!("the second span is the directive"),
    }
}

#[test]
fn prefix_without_space_is_removed_too() {
    assert_eq!(strip("{~a~|~\n//x\n  //  y\n\n~}"), "x\n y\n\n");
}

#[test]
fn live_alternative_is_taken_as_it_is() {
    let text = "// {~\n    if true {\n        pr(\"do a\");\n    } else // ~|~\n    {\n        pr(\"do b\");\n        }  // ~}\n// next\n";
    assert_eq!(strip(text), "    {\n        pr(\"do b\");\n        }\n// next\n");
    assert_eq!(keep(text), "    if true {\n        pr(\"do a\");\n    } else\n// next\n");
    let spans = scan(text.as_bytes()).unwrap();
    assert_eq!(spans[0], Span::Literal(ByteRange { start: 0, end: 3 }));
    match spans[1] {
        Span::Directive(d) => {
            assert_eq!(d.open_at, 3);
            assert_eq!(d.kind, DirectiveKind::Choice);
            assert!(!d.comment_stripped);
        }
        Span::Literal(_) => panic!("the second span is the directive"),
    }
}

#[test]
fn empty_alternative_is_pure_deletion() {
    assert_eq!(strip("A\n// {~ x ~|~ ~}\nB\n"), "A\nB\n");
    assert_eq!(strip("A\n// {~ x ~|~~}\nB\n"), "A\nB\n");
    assert_eq!(strip("A\n// {~ x ~}\nB\n"), "A\nB\n");
}

#[test]
fn directive_on_one_line_disappears_with_the_line() {
    let text = "//   removed --->\n// {~  this should disappear   ~}\n//   <--- removed\n";
    assert_eq!(strip(text), "//   removed --->\n//   <--- removed\n");
    assert_eq!(keep(text), "//   removed --->\nthis should disappear\n//   <--- removed\n");
}

#[test]
fn marker_lines_leave_no_blank_line() {
    let text = "use a;\n\n// {~\nuse crate::util::tools::*;\n// ~}\n\n\nlet x";
    assert_eq!(strip(text), "use a;\n\n\n\nlet x");
    assert_eq!(keep(text), "use a;\n\nuse crate::util::tools::*;\n\n\nlet x");
}

#[test]
fn indented_marker_lines() {
    let text = "    let matches =\n        // {~\n         if a {\n        b } else\n         // ~|~\n         {\n             c\n         };\n    // ~}";
    assert_eq!(strip(text), "    let matches =\n         {\n             c\n         };\n");
    assert_eq!(keep(text), "    let matches =\n         if a {\n        b } else\n");
}

#[test]
fn text_after_the_close_marker_stays() {
    assert_eq!(strip("a\n  // {~ x ~} tail\nb"), "a\n   tail\nb");
    assert_eq!(strip("head // {~ x ~}\nb"), "head \nb");
}

#[test]
fn trimming_stays_on_the_marker_line() {
    assert_eq!(strip("a\n\n  // {~ x ~}  \n\n  b"), "a\n\n\n  b");
    assert_eq!(keep("a \n{~\n\n p \n\n~}\n b"), "a \n\n p \n\n b");
}

#[test]
fn unterminated_directive_is_reported_at_its_open_marker() {
    let e = failure("line one\nabc {~ def", Mode::Strip);
    assert_eq!(
        e,
        StructuralError { kind: ErrorKind::UnterminatedDirective, offset: 13, line: 2 }
    );
    assert_eq!(failure("line one\nabc {~ def ~|~ x", Mode::Keep), e);
    assert_eq!(
        rewrite_file(b"line one\nabc {~ def", Mode::Strip),
        Outcome::Skipped(e)
    );
}

#[test]
fn markers_out_of_place_are_errors() {
    assert_eq!(
        failure("a ~|~ b", Mode::Strip),
        StructuralError { kind: ErrorKind::DividerOutsideDirective, offset: 2, line: 1 }
    );
    assert_eq!(
        failure("a\n\n ~} b", Mode::Strip),
        StructuralError { kind: ErrorKind::CloseOutsideDirective, offset: 4, line: 3 }
    );
    assert_eq!(
        failure("{~ {~ ~}", Mode::Keep),
        StructuralError { kind: ErrorKind::OpenInsideDirective, offset: 3, line: 1 }
    );
    assert_eq!(
        failure("{~ a ~|~\nb ~|~ c ~}", Mode::Keep),
        StructuralError { kind: ErrorKind::RepeatedDivider, offset: 11, line: 2 }
    );
    assert_eq!(
        failure("{~ a ~} ~}", Mode::Keep),
        StructuralError { kind: ErrorKind::CloseOutsideDirective, offset: 8, line: 1 }
    );
}

#[test]
fn first_error_wins() {
    assert_eq!(
        failure("x ~} {~ never closed", Mode::Strip),
        StructuralError { kind: ErrorKind::CloseOutsideDirective, offset: 2, line: 1 }
    );
}

#[test]
fn file_without_directives_comes_back_unchanged() {
    for text in ["", "a", "fn main() {}\n", "~ { | } ~~ {{ }~ |~\r\n", "// plain comment\n"] {
        assert_eq!(strip(text), text);
        assert_eq!(keep(text), text);
        assert_eq!(rewrite_file(text.as_bytes(), Mode::Strip), Outcome::Unchanged);
        assert_eq!(rewrite_file(text.as_bytes(), Mode::Keep), Outcome::Unchanged);
    }
}

#[test]
fn arbitrary_bytes_pass_through() {
    let bytes: Vec<u8> = vec![0xFF, 0x00, 0x7B, 0x80, 0x7E, 0x0A, 0xC3];
    assert_eq!(rewrite(&bytes, Mode::Strip).unwrap(), bytes);
    assert_eq!(rewrite(&bytes, Mode::Keep).unwrap(), bytes);
}

#[test]
fn spans_cover_the_file() {
    let text = b"ab{~cd~|~ef~}gh{~i~}";
    let spans = scan(text).unwrap();
    assert_eq!(
        spans,
        vec![
            Span::Literal(ByteRange { start: 0, end: 2 }),
            Span::Directive(Directive {
                kind: DirectiveKind::Choice,
                open_at: 2,
                primary: ByteRange { start: 4, end: 6 },
                alternative: Some(ByteRange { start: 9, end: 11 }),
                end: 13,
                comment_stripped: false,
            }),
            Span::Literal(ByteRange { start: 13, end: 15 }),
            Span::Directive(Directive {
                kind: DirectiveKind::Strip,
                open_at: 15,
                primary: ByteRange { start: 17, end: 18 },
                alternative: None,
                end: 20,
                comment_stripped: false,
            }),
        ]
    );
    assert_eq!(spans[0].label(), SpanTag::Literal);
    assert_eq!(spans[1].label(), SpanTag::Alternate);
    assert_eq!(spans[3].label(), SpanTag::Strip);
    let mut at = 0;
    for span in &spans {
        assert_eq!(span.first(), at);
        assert!(span.first() < span.limit());
        at = span.limit();
    }
    assert_eq!(at, text.len());
    assert_eq!(ByteRange { start: 4, end: 6 }.len(), 2);
}

#[test]
fn markers_are_taken_left_to_right() {
    // The divider that starts inside the open marker is not a marker.
    assert_eq!(keep("{~|~ x ~}"), "|~ x");
    // The close marker that starts inside the divider is not a marker.
    assert_eq!(
        failure("{~ a ~|~} b", Mode::Keep),
        StructuralError { kind: ErrorKind::UnterminatedDirective, offset: 0, line: 1 }
    );
    assert_eq!(strip("{~ a ~|~~}"), "");
}

#[test]
fn pieces_account_for_every_byte() {
    let text = "before\n// {~\n  old();\n// ~|~\n  // new();\n// ~}\nafter {~x~} end\n";
    for mode in [Mode::Strip, Mode::Keep] {
        let spans = scan(text.as_bytes()).unwrap();
        let pieces: Vec<Piece> = resolve(text.as_bytes(), &spans, mode);
        let mut at = 0;
        let mut kept = 0;
        let mut deleted = 0;
        for piece in &pieces {
            assert_eq!(piece.start, at);
            assert!(piece.start < piece.end);
            if piece.kept {
                kept += piece.end - piece.start;
            } else {
                deleted += piece.end - piece.start;
            }
            at = piece.end;
        }
        assert_eq!(at, text.len());
        assert_eq!(kept + deleted, text.len());
        let out = render(text.as_bytes(), &pieces);
        assert_eq!(out.len(), kept);
        assert_eq!(out, rewrite(text.as_bytes(), mode).unwrap());
    }
    assert_eq!(strip(text), "before\nnew();\nafter  end\n");
    assert_eq!(keep(text), "before\n  old();\nafter x end\n");
}

#[test]
fn resolving_twice_changes_nothing_more() {
    let text = "before\n// {~\n  old();\n// ~|~\n  // new();\n// ~}\nafter {~x~} end\n";
    let once = strip(text);
    assert_eq!(strip(&once), once);
    let kept = keep(text);
    assert_eq!(strip(&kept), kept);
    assert_eq!(keep(&kept), kept);
}

#[test]
fn markers_can_form_where_a_directive_goes() {
    // The bytes around a directive may join into a marker of their own.
    let once = strip("{{~p~|~~ x ~~}}");
    assert_eq!(once, "{~ x ~}");
    assert_eq!(strip(&once), "");
}

#[test]
fn an_error_in_one_file_leaves_the_others_alone() {
    let good: Vec<u8> = b"a // {~ 1 // ~|~ 2 ~}\n".to_vec();
    let bad: Vec<u8> = b"a {~ b".to_vec();
    let plain: Vec<u8> = b"nothing here\n".to_vec();
    let alone = rewrite_batch(&vec![good.clone(), plain.clone()], Mode::Strip);
    let mixed = rewrite_batch(&vec![bad.clone(), good.clone(), bad.clone(), plain.clone()], Mode::Strip);
    assert_eq!(mixed.len(), 4);
    assert_eq!(mixed[1], alone[0]);
    assert_eq!(mixed[3], alone[1]);
    assert_eq!(mixed[1], Outcome::Changed(b"a 2\n".to_vec()));
    assert_eq!(mixed[3], Outcome::Unchanged);
    assert_eq!(
        mixed[0],
        Outcome::Skipped(StructuralError {
            kind: ErrorKind::UnterminatedDirective,
            offset: 2,
            line: 1
        })
    );
    assert_eq!(mixed[0], mixed[2]);
    assert!(rewrite_batch(&Vec::new(), Mode::Keep).is_empty());
}

#[test]
fn carriage_returns_count_as_blanks() {
    assert_eq!(strip("a\r\n// {~\r\nold\r\n// ~}\r\nb\r\n"), "a\r\nb\r\n");
    assert_eq!(keep("a\r\n// {~\r\nold\r\n// ~}\r\nb\r\n"), "a\r\nold\r\nb\r\n");
}

fn holds_marker(bytes: &[u8]) -> bool {
    bytes.windows(2).any(|w| w == b"{~" || w == b"~}") || bytes.windows(3).any(|w| w == b"~|~")
}

fn check_laws(text: &[u8]) {
    let scanned = scan(text);
    for mode in [Mode::Strip, Mode::Keep] {
        let spans = match &scanned {
            Ok(spans) => spans,
            Err(e) => {
                assert_eq!(rewrite(text, mode), Err(*e));
                assert!(holds_marker(text));
                continue;
            }
        };
        let pieces = resolve(text, spans, mode);
        let out = render(text, &pieces);
        assert_eq!(rewrite(text, mode), Ok(out.clone()));
        let mut at = 0;
        let mut kept = 0;
        for piece in &pieces {
            assert_eq!(piece.start, at);
            assert!(piece.start < piece.end);
            at = piece.end;
            let bytes = &text[piece.start..piece.end];
            if piece.kept {
                kept += bytes.len();
                assert!(!holds_marker(bytes));
            } else {
                for (k, b) in bytes.iter().enumerate() {
                    let i = piece.start + k;
                    let inside = spans.iter().any(|s| {
                        s.label() != SpanTag::Literal && s.first() <= i && i < s.limit()
                    });
                    let last = i + 1 == piece.end;
                    assert!(
                        inside || b" \t\r/".contains(b) || (*b == b'\n' && last),
                        "{:?} loses byte {}",
                        String::from_utf8_lossy(text),
                        i
                    );
                }
            }
        }
        assert_eq!(at, text.len());
        assert_eq!(out.len(), kept);
        assert_eq!(out == text, !holds_marker(text));
        if !holds_marker(&out) {
            assert_eq!(rewrite(&out, Mode::Strip), Ok(out.clone()));
            assert_eq!(rewrite(&out, Mode::Keep), Ok(out.clone()));
        }
    }
}

#[test]
fn deleted_bytes_belong_to_directives_or_marker_lines() {
    for text in [
        "before\n  // {~\n  old();\n  // ~|~\n  // new();\n  // ~}  \nafter {~x~} end\n",
        "a // {~ b ~} \n\n  {~\n~|~\n~}\n\nz",
        "//// {~ x ~}",
        "a\t//\t{~\tb\t//\t~|~\tc\t//\t~}\td",
    ] {
        check_laws(text.as_bytes());
    }
}

#[test]
fn generated_files_obey_the_laws() {
    let alphabet: &[u8] = b"{~|}/ \n\tax";
    let mut state: u64 = 0x2545F4914F6CDD1D;
    for _ in 0..30000 {
        let mut text: Vec<u8> = Vec::new();
        state = state.wrapping_mul(6364136223846793005).wrapping_add(1442695040888963407);
        let len = (state >> 33) % 28;
        for _ in 0..len {
            state = state.wrapping_mul(6364136223846793005).wrapping_add(1442695040888963407);
            let pick = (state >> 33) % 16;
            match pick {
                10 => text.extend_from_slice(b"{~"),
                11 => text.extend_from_slice(b"~|~"),
                12 => text.extend_from_slice(b"~}"),
                13 => text.extend_from_slice(b"// "),
                14 => text.push(b'\n'),
                15 => text.push(b' '),
                k => text.push(alphabet[k as usize]),
            }
        }
        check_laws(&text);
    }
}

#[test]
fn keep_mode_writes_nothing() {
    let text = b"a // {~ 1 // ~|~ 2 ~}\n";
    let kept = rewrite_file(text, Mode::Keep);
    assert_eq!(kept, Outcome::Changed(b"a 1\n".to_vec()));
    assert_eq!(to_write(&kept, Mode::Keep), None);
    let stripped = rewrite_file(text, Mode::Strip);
    assert_eq!(to_write(&stripped, Mode::Strip), Some(&b"a 2\n".to_vec()));
    let plain = rewrite_file(b"plain\n", Mode::Strip);
    assert_eq!(to_write(&plain, Mode::Strip), None);
    let broken = rewrite_file(b"a {~ b", Mode::Strip);
    assert_eq!(to_write(&broken, Mode::Strip), None);
    assert_eq!(to_write(&broken, Mode::Keep), None);
}

#[test]
fn keep_mode_drops_markers_and_alternatives() {
    assert_eq!(keep("a{~b~}c"), "abc");
    assert_eq!(keep("a{~b~|~x~}c"), "abc");
    assert_eq!(strip("a{~b~|~x~}c"), "axc");
    assert_eq!(strip("a{~b~}c"), "ac");
}
