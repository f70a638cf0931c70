//! The place in the source from which a function was called, read out of the
//! text of a stack trace.

use vstd::prelude::*;
use vstd::slice::slice_subrange;
use vstd::string::{StrSliceExecFns, StringExecFns, StringSliceAdditionalSpecFns};
use vstd::utf8::{decode_utf8, valid_utf8};
use crate::app_error::{build_error, AppError, ERROR_SOURCE_INFO};
use crate::bytes::{
    find_bytes, first_place, forward_to_line_end, last_occurrence, last_place,
    lemma_line_end_bounds, line_end, CARRIAGE_RETURN, COLON, SPACE,
};
use crate::model::ByteRange;
use crate::text::chars_of;

verus! {

/// Where a function was called from.
#[derive(Clone, Debug, PartialEq, Eq)]
pub struct SourceLocationInfo {
    /// File, line and column as the trace gives them, joined by colons.
    pub origin: String,
    pub source_file: String,
    /// Line, counted from 1; 0 where it is not known.
    pub line_number: i32,
    /// Column, counted from 1; 0 where it is not known.
    pub column_number: i32,
    pub function_name: String,
}

/// The mathematical value of a [`SourceLocationInfo`].
pub struct Location {
    pub origin: Seq<char>,
    pub source_file: Seq<char>,
    pub line_number: int,
    pub column_number: int,
    pub function_name: Seq<char>,
}

impl View for SourceLocationInfo {
    type V = Location;

    open spec fn view(&self) -> Location {
        Location {
            origin: self.origin@,
            source_file: self.source_file@,
            line_number: self.line_number as int,
            column_number: self.column_number as int,
            function_name: self.function_name@,
        }
    }
}

/// The location of which nothing is known.
pub open spec fn unknown_location() -> Location {
    Location {
        origin: Seq::empty(),
        source_file: "?UNKNOWN?"@,
        line_number: 0,
        column_number: 0,
        function_name: Seq::empty(),
    }
}

/// How a location reads: the function, and the origin in brackets.
pub open spec fn description(l: Location) -> Seq<char> {
    l.function_name + " ("@ + l.origin + ")"@
}

/// What a location lacks, if it lacks anything: the first of its faults, in
/// the order origin, source file, line and column, function name.
pub open spec fn fault(l: Location, source_exists: bool) -> Option<Seq<char>> {
    if l.origin.len() == 0 {
        Some("No origin string"@)
    } else if (l.source_file.len() > 0 && l.source_file[0] == '?') || !source_exists {
        Some("Source file is undefined or doesn't exist"@)
    } else if l.line_number <= 0 || l.column_number <= 0 {
        Some("Line or column number missing"@)
    } else if l.function_name.len() == 0 || l.function_name[0] == '?' || l.function_name.contains(
        '{',
    ) {
        Some("Function name missing"@)
    } else {
        None
    }
}

impl SourceLocationInfo {
    /// The location of which nothing is known.
    pub fn unknown() -> (info: SourceLocationInfo)
        ensures
            info@ == unknown_location(),
    {
        SourceLocationInfo {
            origin: String::new(),
            source_file: "?UNKNOWN?".to_owned(),
            line_number: 0,
            column_number: 0,
            function_name: String::new(),
        }
    }

    /// Writes the location out for a reader.
    pub fn describe(&self) -> (s: String)
        ensures
            s@ == description(self@),
    {
        let mut s: String = self.function_name.clone();
        s.append(" (");
        s.append(self.origin.as_str());
        s.append(")");
        s
    }
}

fn starts_with_question(s: &str) -> (r: bool)
    ensures
        r == (s@.len() > 0 && s@[0] == '?'),
{
    !s.is_empty() && s.get_char(0) == '?'
}

fn holds_brace(s: &str) -> (r: bool)
    ensures
        r == s@.contains('{'),
{
    let chars: Vec<char> = chars_of(s);
    let mut k: usize = 0;
    while k < chars.len()
        invariant
            k <= chars.len(),
            chars@ == s@,
            forall|i: int| 0 <= i < k ==> s@[i] != '{',
        decreases chars.len() - k,
    {
        if chars[k] == '{' {
            return true;
        }
        k = k + 1;
    }
    false
}

/// Checks that a location is complete.
///
/// `source_exists` tells whether the source file of the location exists. A
/// location passes if it has an origin, a source file that exists and whose
/// name does not start with a question mark, a line and a column above zero,
/// and a function name that is not empty, does not start with a question mark
/// and holds no brace. The error names the first of these that fails.
pub fn validate_source_info(info: &SourceLocationInfo, source_exists: bool) -> (r: Result<
    (),
    AppError,
>)
    ensures
        match fault(info@, source_exists) {
            None => r is Ok,
            Some(msg) => r is Err && r->Err_0.says(
                ERROR_SOURCE_INFO,
                msg + "; "@ + description(info@),
            ),
        },
{
    let msg: &str;
    if info.origin.as_str().is_empty() {
        msg = "No origin string";
    } else if starts_with_question(info.source_file.as_str()) || !source_exists {
        msg = "Source file is undefined or doesn't exist";
    } else if info.line_number <= 0 || info.column_number <= 0 {
        msg = "Line or column number missing";
    } else if info.function_name.as_str().is_empty() || starts_with_question(
        info.function_name.as_str(),
    ) || holds_brace(info.function_name.as_str()) {
        msg = "Function name missing";
    } else {
        return Ok(());
    }
    let mut message: String = String::from_str(msg);
    message.append("; ");
    message.append(info.describe().as_str());
    Err(build_error(ERROR_SOURCE_INFO, message))
}

/// `b` is a decimal digit.
pub open spec fn is_digit(b: u8) -> bool {
    0x30 <= b <= 0x39
}

/// The number that the decimal digits `s` write.
pub open spec fn digits_value(s: Seq<u8>) -> int
    decreases s.len(),
{
    if s.len() == 0 {
        0
    } else {
        digits_value(s.drop_last()) * 10 + (s.last() - 0x30)
    }
}

/// Every byte of `s` is a decimal digit.
pub open spec fn all_digits(s: Seq<u8>) -> bool {
    forall|i: int| 0 <= i < s.len() ==> is_digit(#[trigger] s[i])
}

/// `s` without the plus sign at its start, if it has one.
pub open spec fn without_plus(s: Seq<u8>) -> Seq<u8> {
    if s.len() > 0 && s[0] == 0x2B {
        s.skip(1)
    } else {
        s
    }
}

/// The positive number that `s` writes: decimal digits, a plus sign before
/// them or none, of a value from 1 up to the greatest `i32`. Anything else
/// counts as 0.
pub open spec fn positive_int_value(s: Seq<u8>) -> int {
    let digits: Seq<u8> = without_plus(s);
    if digits.len() > 0 && all_digits(digits) && 0 < digits_value(digits) <= i32::MAX {
        digits_value(digits)
    } else {
        0
    }
}

proof fn lemma_digits_value_grows(s: Seq<u8>, k: int)
    requires
        0 <= k <= s.len(),
        all_digits(s),
    ensures
        0 <= digits_value(s.take(k)) <= digits_value(s),
    decreases s.len() - k,
{
    if k == s.len() {
        assert(s.take(k) =~= s);
        lemma_digits_value_nonneg(s);
    } else {
        lemma_digits_value_grows(s, k + 1);
        assert(s.take(k + 1).drop_last() =~= s.take(k));
        lemma_digits_value_nonneg(s.take(k));
    }
}

proof fn lemma_digits_value_nonneg(s: Seq<u8>)
    requires
        all_digits(s),
    ensures
        0 <= digits_value(s),
    decreases s.len(),
{
    if s.len() > 0 {
        lemma_digits_value_nonneg(s.drop_last());
    }
}

/// Reads a positive number from `bytes`; 0 where they write none.
pub fn parse_positive_int(bytes: &[u8]) -> (n: i32)
    ensures
        n == positive_int_value(bytes@),
{
    let len: usize = bytes.len();
    let first: usize = if len > 0 && bytes[0] == 0x2B {
        1
    } else {
        0
    };
    let ghost digits: Seq<u8> = without_plus(bytes@);
    assert(bytes@.skip(0) =~= bytes@);
    if first == len {
        return 0;
    }
    let mut value: u64 = 0;
    let mut k: usize = first;
    while k < len
        invariant
            first <= k <= len,
            len == bytes.len(),
            digits == bytes@.skip(first as int),
            digits == without_plus(bytes@),
            forall|i: int| 0 <= i < k - first ==> is_digit(#[trigger] digits[i]),
            value == digits_value(digits.take(k - first)),
            value <= i32::MAX,
        decreases len - k,
    {
        let b: u8 = bytes[k];
        if b < 0x30 || b > 0x39 {
            assert(!is_digit(digits[k - first]));
            return 0;
        }
        assert(digits.take(k - first + 1).drop_last() =~= digits.take(k - first));
        value = value * 10 + (b - 0x30) as u64;
        k = k + 1;
        if value > i32::MAX as u64 {
            proof {
                if all_digits(digits) {
                    lemma_digits_value_grows(digits, k - first);
                }
            }
            return 0;
        }
    }
    assert(digits.take(k - first) =~= digits);
    value as i32
}

/// Reads a positive number from `arg`; 0 where it writes none.
pub fn try_parse_positive_int(arg: &str) -> (n: i32)
    ensures
        n == positive_int_value(arg.spec_bytes()),
{
    parse_positive_int(arg.as_bytes())
}

/// The lines of `trace` from offset `p` on. A line ends at a line feed, which
/// is not part of it, or at the end of the trace; a carriage return at the
/// end of a line is dropped. A trace that ends with a line feed has an empty
/// last line.
pub open spec fn trace_lines(trace: Seq<u8>, p: int) -> Seq<Seq<u8>>
    decreases trace.len() - p + 1,
    via trace_lines_decreases
{
    if 0 <= p <= trace.len() {
        let e: int = line_end(trace, p, trace.len() as int);
        let line: Seq<u8> = trace.subrange(p, line_stop(trace, p, e));
        if e < trace.len() {
            seq![line] + trace_lines(trace, e + 1)
        } else {
            seq![line]
        }
    } else {
        Seq::empty()
    }
}

#[via_fn]
proof fn trace_lines_decreases(trace: Seq<u8>, p: int) {
    if 0 <= p <= trace.len() {
        lemma_line_end_bounds(trace, p, trace.len() as int);
    }
}

/// Where the line `p..e` ends once a carriage return at its end is dropped.
pub open spec fn line_stop(trace: Seq<u8>, p: int, e: int) -> int {
    if p < e <= trace.len() && trace[e - 1] == CARRIAGE_RETURN {
        e - 1
    } else {
        e
    }
}

/// The bytes of `trace` in each of `ranges`.
pub open spec fn contents(trace: Seq<u8>, ranges: Seq<ByteRange>) -> Seq<Seq<u8>> {
    Seq::new(ranges.len(), |i: int| trace.subrange(ranges[i].start as int, ranges[i].end as int))
}

/// The two colons that part a path from the name of a function.
pub open spec fn double_colon() -> Seq<u8> {
    seq![COLON, COLON]
}

/// The word that stands before the origin in a line of a trace.
pub open spec fn at_word() -> Seq<u8> {
    seq![SPACE, 0x61u8, 0x74u8, SPACE]
}

/// One colon.
pub open spec fn colon() -> Seq<u8> {
    seq![COLON]
}

/// `l` with the function that the line `stmnt` of a trace names: the text
/// behind the last two colons of the line.
pub open spec fn with_function(l: Location, stmnt: Seq<u8>) -> Location {
    match last_place(stmnt, double_colon(), stmnt.len() - 2) {
        Some(c) => {
            let name: Seq<u8> = stmnt.skip(c + 2);
            if valid_utf8(name) {
                Location {
                    origin: l.origin,
                    source_file: l.source_file,
                    line_number: l.line_number,
                    column_number: l.column_number,
                    function_name: decode_utf8(name),
                }
            } else {
                l
            }
        },
        None => l,
    }
}

/// `l` with the file, line and column of `origin`, where `origin` is made of
/// exactly three parts with a colon between them.
pub open spec fn with_parts(l: Location, origin: Seq<u8>) -> Location {
    match first_place(origin, colon(), 0) {
        Some(a) => {
            let rest: Seq<u8> = origin.skip(a + 1);
            match first_place(rest, colon(), 0) {
                Some(b) => {
                    let last: Seq<u8> = rest.skip(b + 1);
                    if first_place(last, colon(), 0) is None && valid_utf8(origin.take(a)) {
                        Location {
                            origin: l.origin,
                            source_file: decode_utf8(origin.take(a)),
                            line_number: positive_int_value(rest.take(b)),
                            column_number: positive_int_value(last),
                            function_name: l.function_name,
                        }
                    } else {
                        l
                    }
                },
                None => l,
            }
        },
        None => l,
    }
}

/// `l` with the origin that the line `place` of a trace gives: the text
/// behind the first ` at `, and its parts.
pub open spec fn with_origin(l: Location, place: Seq<u8>) -> Location {
    match first_place(place, at_word(), 0) {
        Some(s) => {
            let origin: Seq<u8> = place.skip(s + 4);
            if valid_utf8(origin) {
                with_parts(
                    Location {
                        origin: decode_utf8(origin),
                        source_file: l.source_file,
                        line_number: l.line_number,
                        column_number: l.column_number,
                        function_name: l.function_name,
                    },
                    origin,
                )
            } else {
                l
            }
        },
        None => l,
    }
}

/// The location that `trace` gives for the caller `skip` frames up.
///
/// A trace holds two lines for each frame: one that names the function and
/// one that gives the origin. The four frames at the top belong to the
/// capture itself. A trace that is too short gives the unknown location.
pub open spec fn located(trace: Seq<u8>, skip: int) -> Location {
    let lines: Seq<Seq<u8>> = trace_lines(trace, 0);
    let j: int = (skip + 4) * 2;
    if j + 2 <= lines.len() {
        with_origin(with_function(unknown_location(), lines[j]), lines[j + 1])
    } else {
        unknown_location()
    }
}

/// Decodes `bytes` as UTF-8.
///
/// Trusted: the body calls `std::str::from_utf8`, which accepts exactly the
/// well-formed byte strings and yields the text that they encode.
#[verifier::external_body]
fn utf8_to_str(bytes: &[u8]) -> (r: Option<String>)
    ensures
        r is Some <==> valid_utf8(bytes@),
        r is Some ==> r->0@ == decode_utf8(bytes@),
{
    match std::str::from_utf8(bytes) {
        Ok(s) => Some(s.to_string()),
        Err(_) => None,
    }
}

/// The stack trace of the running thread, as text.
///
/// Trusted: the body calls `std::backtrace::Backtrace::force_capture`.
/// Nothing is claimed of what comes back.
#[verifier::external_body]
#[inline(always)]
fn capture_trace() -> Vec<u8> {
    std::backtrace::Backtrace::force_capture().to_string().into_bytes()
}

/// The lines of `trace`, as byte ranges.
fn line_ranges(trace: &[u8]) -> (ranges: Vec<ByteRange>)
    ensures
        contents(trace@, ranges@) == trace_lines(trace@, 0),
        forall|i: int|
            0 <= i < ranges@.len() ==> (#[trigger] ranges@[i]).start <= ranges@[i].end
                <= trace.len(),
{
    let len: usize = trace.len();
    let mut ranges: Vec<ByteRange> = Vec::new();
    let mut p: usize = 0;
    assert(contents(trace@, ranges@) =~= Seq::<Seq<u8>>::empty());
    assert(Seq::<Seq<u8>>::empty() + trace_lines(trace@, 0) =~= trace_lines(trace@, 0));
    loop
        invariant_except_break
            len == trace.len(),
            p <= len,
            trace_lines(trace@, 0) == contents(trace@, ranges@) + trace_lines(trace@, p as int),
            forall|i: int|
                0 <= i < ranges@.len() ==> (#[trigger] ranges@[i]).start <= ranges@[i].end
                    <= trace.len(),
        ensures
            trace_lines(trace@, 0) == contents(trace@, ranges@),
            forall|i: int|
                0 <= i < ranges@.len() ==> (#[trigger] ranges@[i]).start <= ranges@[i].end
                    <= trace.len(),
        decreases len - p,
    {
        let e: usize = forward_to_line_end(trace, p, len);
        let stop: usize = if p < e && trace[e - 1] == CARRIAGE_RETURN {
            e - 1
        } else {
            e
        };
        let ghost before: Seq<ByteRange> = ranges@;
        ranges.push(ByteRange { start: p, end: stop });
        assert(contents(trace@, ranges@) =~= contents(trace@, before) + seq![
            trace@.subrange(p as int, stop as int),
        ]);
        if e < len {
            assert(contents(trace@, before) + trace_lines(trace@, p as int) =~= contents(
                trace@,
                ranges@,
            ) + trace_lines(trace@, e + 1));
            p = e + 1;
        } else {
            assert(contents(trace@, before) + trace_lines(trace@, p as int) =~= contents(
                trace@,
                ranges@,
            ));
            break;
        }
    }
    ranges
}

/// Fills in the function that the line `stmnt` names.
fn set_function(info: &mut SourceLocationInfo, stmnt: &[u8])
    ensures
        final(info)@ == with_function(old(info)@, stmnt@),
{
    let mut pattern: Vec<u8> = Vec::new();
    pattern.push(COLON);
    pattern.push(COLON);
    assert(pattern@ =~= double_colon());
    match last_occurrence(stmnt, pattern.as_slice()) {
        Some(c) => {
            let name: &[u8] = slice_subrange(stmnt, c + 2, stmnt.len());
            assert(name@ =~= stmnt@.skip(c + 2));
            match utf8_to_str(name) {
                Some(text) => {
                    info.function_name = text;
                },
                None => {},
            }
        },
        None => {},
    }
}

/// Fills in the file, line and column of `origin`.
fn set_parts(info: &mut SourceLocationInfo, origin: &[u8])
    ensures
        final(info)@ == with_parts(old(info)@, origin@),
{
    let mut pattern: Vec<u8> = Vec::new();
    pattern.push(COLON);
    assert(pattern@ =~= colon());
    let (found_a, a, a_end) = find_bytes(origin, pattern.as_slice());
    if !found_a {
        return ;
    }
    let rest: &[u8] = slice_subrange(origin, a + 1, origin.len());
    assert(rest@ =~= origin@.skip(a + 1));
    let (found_b, b, b_end) = find_bytes(rest, pattern.as_slice());
    if !found_b {
        return ;
    }
    let last: &[u8] = slice_subrange(rest, b + 1, rest.len());
    assert(last@ =~= rest@.skip(b + 1));
    let (found_c, c, c_end) = find_bytes(last, pattern.as_slice());
    if found_c {
        return ;
    }
    let file: &[u8] = slice_subrange(origin, 0, a);
    assert(file@ =~= origin@.take(a as int));
    let middle: &[u8] = slice_subrange(rest, 0, b);
    assert(middle@ =~= rest@.take(b as int));
    match utf8_to_str(file) {
        Some(text) => {
            info.source_file = text;
            info.line_number = parse_positive_int(middle);
            info.column_number = parse_positive_int(last);
        },
        None => {},
    }
}

/// Fills in the origin that the line `place` gives.
fn set_origin(info: &mut SourceLocationInfo, place: &[u8])
    ensures
        final(info)@ == with_origin(old(info)@, place@),
{
    let mut pattern: Vec<u8> = Vec::new();
    pattern.push(SPACE);
    pattern.push(0x61);
    pattern.push(0x74);
    pattern.push(SPACE);
    assert(pattern@ =~= at_word());
    let (found, start, end) = find_bytes(place, pattern.as_slice());
    if found {
        let origin: &[u8] = slice_subrange(place, end, place.len());
        assert(origin@ =~= place@.skip(start + 4));
        match utf8_to_str(origin) {
            Some(text) => {
                info.origin = text;
                set_parts(info, origin);
            },
            None => {},
        }
    }
}

/// Reads the location of the caller `skip_count` frames up out of the text
/// of a stack trace.
pub fn locate_caller(trace: &[u8], skip_count: usize) -> (info: SourceLocationInfo)
    ensures
        info@ == located(trace@, skip_count as int),
{
    let mut info: SourceLocationInfo = SourceLocationInfo::unknown();
    let ranges: Vec<ByteRange> = line_ranges(trace);
    let j: u128 = (skip_count as u128 + 4) * 2;
    if j + 2 <= ranges.len() as u128 {
        let j: usize = j as usize;
        let first: ByteRange = ranges[j];
        let second: ByteRange = ranges[j + 1];
        let stmnt: &[u8] = slice_subrange(trace, first.start, first.end);
        let place: &[u8] = slice_subrange(trace, second.start, second.end);
        assert(stmnt@ == contents(trace@, ranges@)[j as int]);
        assert(place@ == contents(trace@, ranges@)[j + 1]);
        set_function(&mut info, stmnt);
        set_origin(&mut info, place);
    }
    info
}

/// The location of the caller `skip_count` frames up from the function that
/// calls this one. What it is depends on the running program; it is whatever
/// the stack trace of the moment gives.
pub fn caller_n_str(skip_count: usize) -> (info: SourceLocationInfo)
    ensures
        exists|trace: Seq<u8>| info@ == located(trace, skip_count as int),
{
    let trace: Vec<u8> = capture_trace();
    locate_caller(trace.as_slice(), skip_count)
}

/// The caller of the function that calls this one, written out for a reader.
pub fn caller() -> (s: String)
    ensures
        exists|trace: Seq<u8>| s@ == description(located(trace, 1)),
{
    caller_n_str(1).describe()
}

} // verus!
