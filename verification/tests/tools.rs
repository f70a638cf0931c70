use source_strip::app_error::{
    build_error, AppError, ERROR_FILENAME_FORMAT, ERROR_NO_SUCH_SOURCE_LINE, ERROR_SOURCE_INFO,
};
use source_strip::bytes::{find_bytes, last_occurrence, last_subsequence};
use source_strip::scanr::Scanr;
use source_strip::source_file::{backup_name, FlushPlan, SourceFile};
use source_strip::source_location::{
    caller, caller_n_str, locate_caller, parse_positive_int, try_parse_positive_int,
    validate_source_info, SourceLocationInfo,
};
use source_strip::text::{chars_of, decimal, join_lines, split_lines};

#[test]
fn find_bytes_gives_the_leftmost_place() {
    assert_eq!(find_bytes(b"abcabc", b"bc"), (true, 1, 3));
    assert_eq!(find_bytes(b"abcabc", b"abcabc"), (true, 0, 6));
    assert_eq!(find_bytes(b"abcabc", b"cb"), (false, 0, 0));
    assert_eq!(find_bytes(b"ab", b"abc"), (false, 0, 0));
    assert_eq!(find_bytes(b"abc", b""), (true, 0, 0));
    assert_eq!(find_bytes(b"", b""), (true, 0, 0));
    assert_eq!(find_bytes(b"   at ./src/main.rs:27:17", b" at "), (true, 2, 6));
}

#[test]
fn last_subsequence_gives_the_rightmost_place() {
    assert_eq!(last_subsequence(b"a::b::c", b"::"), 4);
    assert_eq!(last_subsequence(b"abcabc", b"abc"), 3);
    assert_eq!(last_subsequence(b"abcabc", b"x"), -1);
    assert_eq!(last_subsequence(b"ab", b"abc"), -1);
    assert_eq!(last_subsequence(b"abc", b""), 3);
    assert_eq!(last_subsequence(b"", b""), 0);
    assert_eq!(last_occurrence(b"a::b::c", b"::"), Some(4));
    assert_eq!(last_occurrence(b"abc", b"d"), None);
}

#[test]
fn positive_numbers_are_read() {
    assert_eq!(try_parse_positive_int("42"), 42);
    assert_eq!(try_parse_positive_int("+7"), 7);
    assert_eq!(try_parse_positive_int("007"), 7);
    assert_eq!(try_parse_positive_int("2147483647"), 2147483647);
    assert_eq!(try_parse_positive_int("000000000000000000000000012"), 12);
    assert_eq!(parse_positive_int(b"27"), 27);
}

#[test]
fn anything_else_counts_as_zero() {
    for text in [
        "", "0", "-3", "+", "-", "12a", " 12", "12 ", "1_000", "2147483648",
        "99999999999999999999999", "++1", "+-1", "١٢",
    ] {
        assert_eq!(try_parse_positive_int(text), 0, "{:?}", text);
        let std_value = match text.parse::<i32>() {
            Ok(n) if n > 0 => n,
            _ => 0,
        };
        assert_eq!(try_parse_positive_int(text), std_value, "{:?}", text);
    }
}

#[test]
fn decimal_numerals() {
    assert_eq!(decimal(0), "0");
    assert_eq!(decimal(7), "7");
    assert_eq!(decimal(10), "10");
    assert_eq!(decimal(20_000), "20000");
    assert_eq!(decimal(usize::MAX), format!("{}", usize::MAX));
}

#[test]
fn characters_of_a_string() {
    assert_eq!(chars_of("aé€"), vec!['a', 'é', '€']);
    assert!(chars_of("").is_empty());
}

#[test]
fn lines_are_split_as_the_standard_library_splits_them() {
    for text in ["", "a", "a\n", "a\nb", "a\r\nb\r\n", "\n", "\n\n", "a\rb\n", "a\r", "\r\n", "x\n\ny\n\n", "é\n€"] {
        let expected: Vec<String> = text.lines().map(|l| l.to_string()).collect();
        assert_eq!(split_lines(text), expected, "{:?}", text);
    }
    assert_eq!(split_lines("a\r\nb\r"), vec!["a".to_string(), "b\r".to_string()]);
}

#[test]
fn lines_are_joined_with_a_line_feed_at_the_end() {
    assert_eq!(join_lines(&vec!["a".to_string(), "b".to_string()]), "a\nb\n");
    assert_eq!(join_lines(&vec!["".to_string()]), "\n");
    assert_eq!(join_lines(&Vec::new()), "\n");
}

#[test]
fn scanr_starts_at_the_first_byte() {
    let s = Scanr::new("héllo");
    assert_eq!(s.unexpected_text(), "Unexpected text: ...héllo".as_bytes().to_vec());
    assert_eq!(Scanr::new("").unexpected_text(), b"Unexpected text: ...".to_vec());
}

fn sample() -> SourceFile {
    SourceFile::new("/work/src/main.rs", "one\ntwo\r\nthree\n".to_string())
}

#[test]
fn source_file_holds_the_lines() {
    let f = sample();
    assert!(!f.modified());
    assert_eq!(f.line(1).unwrap(), "one");
    assert_eq!(f.line(2).unwrap(), "two");
    assert_eq!(f.line(3).unwrap(), "three");
    assert_eq!(f.assert_line_exists(1), Ok(1));
    assert_eq!(f.assert_line_exists(3), Ok(3));
}

#[test]
fn missing_lines_are_errors() {
    let f = sample();
    let e = f.assert_line_exists(0).unwrap_err();
    assert_eq!(e.code, ERROR_NO_SUCH_SOURCE_LINE);
    assert_eq!(e.code, 20_000);
    assert_eq!(e.message, "no such line number 0 in 1...3");
    assert_eq!(
        f.assert_line_exists(4),
        Err(AppError {
            code: ERROR_NO_SUCH_SOURCE_LINE,
            message: "no such line number 4 in 1...3".to_string()
        })
    );
    assert_eq!(f.line(4).unwrap_err().message, "no such line number 4 in 1...3");
    assert_eq!(f.line(0).unwrap_err().code, ERROR_NO_SUCH_SOURCE_LINE);
    let empty = SourceFile::new("/x", String::new());
    assert_eq!(empty.line(1).unwrap_err().message, "no such line number 1 in 1...0");
}

#[test]
fn neighbors_are_clipped_to_the_file() {
    let f = sample();
    assert_eq!(f.neighbor_line_numbers(2, -1, 1), vec![1, 2, 3]);
    assert_eq!(f.neighbor_line_numbers(2, -5, 5), vec![1, 2, 3]);
    assert_eq!(f.neighbor_line_numbers(1, 0, 0), vec![1]);
    assert_eq!(f.neighbor_line_numbers(3, 1, 2), Vec::<usize>::new());
    assert_eq!(f.neighbor_line_numbers(1, -3, -1), Vec::<usize>::new());
    assert_eq!(f.neighbor_line_numbers(2, 1, -1), Vec::<usize>::new());
    assert_eq!(f.neighbor_line_numbers(5, isize::MIN, isize::MAX), vec![1, 2, 3]);
    assert_eq!(f.neighbor_line_numbers(usize::MAX, isize::MIN, isize::MAX), Vec::<usize>::new());
    assert_eq!(f.neighbor_line_numbers(0, isize::MIN, 2), vec![1, 2]);
    let empty = SourceFile::new("/x", String::new());
    assert_eq!(empty.neighbor_line_numbers(1, -1, 1), Vec::<usize>::new());
}

#[test]
fn set_line_replaces_or_appends() {
    let mut f = sample();
    assert_eq!(f.set_line(2, "TWO"), Ok(()));
    assert!(f.modified());
    assert_eq!(f.line(2).unwrap(), "TWO");
    assert_eq!(f.set_line(4, "four"), Ok(()));
    assert_eq!(f.line(4).unwrap(), "four");
    assert_eq!(f.line(1).unwrap(), "one");
    assert_eq!(f.line(3).unwrap(), "three");
    assert_eq!(f.assert_line_exists(5).unwrap_err().message, "no such line number 5 in 1...4");
}

#[test]
fn set_line_beyond_the_end_is_an_error() {
    let mut f = sample();
    let e = f.set_line(5, "x").unwrap_err();
    assert_eq!(e.code, ERROR_NO_SUCH_SOURCE_LINE);
    assert_eq!(e.message, "no such line number 5 in 1...3");
    assert!(!f.modified());
    assert_eq!(f.set_line(0, "x").unwrap_err().message, "no such line number 0 in 1...3");
    assert!(!f.modified());
    assert_eq!(f.line(3).unwrap(), "three");
    assert!(f.line(4).is_err());
}

#[test]
fn flush_of_an_unmodified_file_needs_nothing() {
    let mut f = sample();
    let plan: FlushPlan = f.flush("not absolute", None, 0).unwrap();
    assert!(!plan.was_modified);
    assert_eq!(plan.backup, None);
    assert_eq!(plan.content, None);
}

#[test]
fn flush_writes_the_lines_and_a_first_backup() {
    let mut f = sample();
    f.set_line(1, "ONE").unwrap();
    let plan = f.flush("/work/src/main.rs", None, 1_000).unwrap();
    assert!(plan.was_modified);
    assert_eq!(plan.content, Some("ONE\ntwo\nthree\n".to_string()));
    assert_eq!(plan.backup, Some("one\ntwo\r\nthree\n".to_string()));
    assert!(!f.modified());
    let again = f.flush("/work/src/main.rs", Some(1_000), 2_000).unwrap();
    assert!(!again.was_modified);
    assert_eq!(again.content, None);
}

#[test]
fn a_recent_backup_is_not_replaced() {
    let cases: [(Option<u64>, u64, bool); 7] = [
        (None, 0, true),
        (Some(0), 60_000, false),
        (Some(0), 60_001, true),
        (Some(100_000), 160_000, false),
        (Some(100_000), 160_001, true),
        (Some(500), 100, false),
        (Some(u64::MAX), u64::MAX, false),
    ];
    for (backup_time, now, due) in cases {
        let mut f = sample();
        f.set_line(4, "four").unwrap();
        let plan = f.flush("/a", backup_time, now).unwrap();
        assert_eq!(plan.backup.is_some(), due, "{:?} {}", backup_time, now);
        assert_eq!(plan.content, Some("one\ntwo\nthree\nfour\n".to_string()));
    }
}

#[test]
fn flush_wants_an_absolute_path() {
    let mut f = sample();
    f.set_line(1, "x").unwrap();
    let e = f.flush("src/main.rs", None, 0).unwrap_err();
    assert_eq!(e.code, ERROR_FILENAME_FORMAT);
    assert_eq!(e.message, "unexpected source file name: src/main.rs");
    assert!(f.modified());
    assert_eq!(f.flush("", None, 0).unwrap_err().message, "unexpected source file name: ");
}

#[test]
fn backup_name_drops_the_first_slash() {
    assert_eq!(backup_name("/work/src/main.rs"), Ok("work/src/main.rs".to_string()));
    assert_eq!(backup_name("/"), Ok(String::new()));
    assert_eq!(backup_name("/é/ü"), Ok("é/ü".to_string()));
    assert_eq!(
        backup_name("work"),
        Err(build_error(ERROR_FILENAME_FORMAT, "unexpected source file name: work".to_string()))
    );
}

fn complete() -> SourceLocationInfo {
    SourceLocationInfo {
        origin: "./src/main.rs:27:17".to_string(),
        source_file: "./src/main.rs".to_string(),
        line_number: 27,
        column_number: 17,
        function_name: "show_caller".to_string(),
    }
}

#[test]
fn complete_location_passes() {
    assert_eq!(validate_source_info(&complete(), true), Ok(()));
    assert_eq!(complete().describe(), "show_caller (./src/main.rs:27:17)");
}

#[test]
fn incomplete_locations_are_named() {
    let check = |info: &SourceLocationInfo, exists: bool, msg: &str| {
        let e = validate_source_info(info, exists).unwrap_err();
        assert_eq!(e.code, ERROR_SOURCE_INFO);
        assert_eq!(e.message, format!("{}; {}", msg, info.describe()));
    };
    let mut info = complete();
    info.origin = String::new();
    check(&info, true, "No origin string");
    check(&SourceLocationInfo::unknown(), true, "No origin string");
    let mut info = complete();
    info.source_file = "?UNKNOWN?".to_string();
    check(&info, true, "Source file is undefined or doesn't exist");
    check(&complete(), false, "Source file is undefined or doesn't exist");
    let mut info = complete();
    info.line_number = 0;
    check(&info, true, "Line or column number missing");
    let mut info = complete();
    info.column_number = -1;
    check(&info, true, "Line or column number missing");
    for name in ["", "?", "?x", "main::{{closure}}", "a{"] {
        let mut info = complete();
        info.function_name = name.to_string();
        check(&info, true, "Function name missing");
    }
    let mut info = complete();
    info.origin = String::new();
    info.line_number = 0;
    info.function_name = String::new();
    check(&info, false, "No origin string");
}

fn trace_with(frames: &[(&str, &str)], ending: &str) -> Vec<u8> {
    let mut text = String::new();
    for (k, (function, origin)) in frames.iter().enumerate() {
        text.push_str(&format!("{:>4}: {}{}", k, function, ending));
        text.push_str(&format!("             at {}{}", origin, ending));
    }
    text.into_bytes()
}

fn frames() -> Vec<(&'static str, &'static str)> {
    vec![
        ("std::backtrace_rs::backtrace::libunwind::trace", "/rustc/x/library/std/src/a.rs:1:5"),
        ("std::backtrace::Backtrace::create", "/rustc/x/library/std/src/backtrace.rs:331:13"),
        ("std::backtrace::Backtrace::force_capture", "/rustc/x/library/std/src/backtrace.rs:312:9"),
        ("rust_core::caller_n_str", "./src/tools.rs:52:17"),
        ("rust_core::show_caller", "./src/main.rs:27:17"),
        ("rust_core::main", "./src/main.rs:9:5"),
        ("no colons here", "C:\\src\\main.rs:3:4"),
    ]
}

#[test]
fn caller_is_read_from_the_trace() {
    for ending in ["\n", "\r\n"] {
        let trace = trace_with(&frames(), ending);
        let info = locate_caller(&trace, 0);
        assert_eq!(info, complete());
        let info = locate_caller(&trace, 1);
        assert_eq!(info.function_name, "main");
        assert_eq!(info.origin, "./src/main.rs:9:5");
        assert_eq!(info.source_file, "./src/main.rs");
        assert_eq!(info.line_number, 9);
        assert_eq!(info.column_number, 5);
    }
}

#[test]
fn lines_that_do_not_fit_leave_their_fields_unknown() {
    let trace = trace_with(&frames(), "\n");
    let info = locate_caller(&trace, 2);
    let unknown = SourceLocationInfo::unknown();
    assert_eq!(info.function_name, unknown.function_name);
    assert_eq!(info.origin, "C:\\src\\main.rs:3:4");
    assert_eq!(info.source_file, unknown.source_file);
    assert_eq!(info.line_number, 0);
    assert_eq!(info.column_number, 0);
    assert_eq!(unknown.source_file, "?UNKNOWN?");
    assert_eq!(unknown.origin, "");
}

#[test]
fn short_trace_gives_the_unknown_location() {
    let trace = trace_with(&frames(), "\n");
    assert_eq!(locate_caller(&trace, 3), SourceLocationInfo::unknown());
    assert_eq!(locate_caller(&trace, usize::MAX), SourceLocationInfo::unknown());
    assert_eq!(locate_caller(b"", 0), SourceLocationInfo::unknown());
    // Without a line feed at its end the trace is one line shorter.
    let mut cut = trace_with(&frames()[..5], "\n");
    assert_eq!(locate_caller(&cut, 0), complete());
    cut.pop();
    assert_eq!(locate_caller(&cut, 0), complete());
    let short = trace_with(&frames()[..4], "\n");
    assert_eq!(locate_caller(&short, 0), SourceLocationInfo::unknown());
}

#[test]
fn numbers_that_are_no_numbers_count_as_zero() {
    let mut list = frames();
    list[4] = ("a::b", "file.rs:x:0");
    let info = locate_caller(&trace_with(&list, "\n"), 0);
    assert_eq!(info.function_name, "b");
    assert_eq!(info.source_file, "file.rs");
    assert_eq!(info.line_number, 0);
    assert_eq!(info.column_number, 0);
    list[4] = ("a::b::", "file.rs:12");
    let info = locate_caller(&trace_with(&list, "\n"), 0);
    assert_eq!(info.function_name, "");
    assert_eq!(info.origin, "file.rs:12");
    assert_eq!(info.source_file, "?UNKNOWN?");
}

#[test]
fn text_that_is_not_utf8_is_left_out() {
    let mut trace = trace_with(&frames()[..4], "\n");
    trace.extend_from_slice(b"   4: a::b\xFF\n      at f\xFF.rs:1:2\n");
    assert_eq!(locate_caller(&trace, 0), SourceLocationInfo::unknown());
    let mut trace = trace_with(&frames()[..4], "\n");
    trace.extend_from_slice(b"   4: a\xFF::b\n      at x.rs:1:2\n");
    let info = locate_caller(&trace, 0);
    assert_eq!(info.function_name, "b");
    assert_eq!(info.line_number, 1);
}

#[test]
fn caller_of_the_running_test_does_not_fail() {
    let info = caller_n_str(0);
    assert!(info.line_number >= 0);
    assert!(info.column_number >= 0);
    let text = caller();
    assert!(text.ends_with(')'));
    assert!(text.contains(" ("));
}
