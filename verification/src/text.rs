//! Text helpers: the characters of a string, strings from characters, decimal
//! numerals, and the lines of a text.

use vstd::prelude::*;
use vstd::slice::slice_subrange;
use vstd::string::StringExecFns;

verus! {

/// The characters of `s`, in order.
pub fn chars_of(s: &str) -> (v: Vec<char>)
    ensures
        v@ == s@,
{
    let mut v: Vec<char> = Vec::new();
    for c in it: s.chars()
        invariant
            v@ == it.seq().take(it.index() as int),
            it.seq() == s@,
    {
        v.push(c);
    }
    v
}

/// The string made of `chars`, in order.
///
/// Trusted: the body collects the characters with `String::from_iter` of the
/// standard library, which yields the string that holds exactly them.
#[verifier::external_body]
pub(crate) fn string_of(chars: &[char]) -> (s: String)
    ensures
        s@ == chars@,
{
    String::from_iter(chars.iter())
}

/// The character of the decimal digit `d`.
pub open spec fn digit_char(d: int) -> char {
    if d == 0 {
        '0'
    } else if d == 1 {
        '1'
    } else if d == 2 {
        '2'
    } else if d == 3 {
        '3'
    } else if d == 4 {
        '4'
    } else if d == 5 {
        '5'
    } else if d == 6 {
        '6'
    } else if d == 7 {
        '7'
    } else if d == 8 {
        '8'
    } else {
        '9'
    }
}

/// The decimal numeral of `n`, without sign or leading zeros.
pub open spec fn decimal_digits(n: nat) -> Seq<char>
    decreases n,
{
    if n < 10 {
        seq![digit_char(n as int)]
    } else {
        decimal_digits(n / 10).push(digit_char((n % 10) as int))
    }
}

fn digit(d: usize) -> (c: char)
    requires
        d < 10,
    ensures
        c == digit_char(d as int),
{
    if d == 0 {
        '0'
    } else if d == 1 {
        '1'
    } else if d == 2 {
        '2'
    } else if d == 3 {
        '3'
    } else if d == 4 {
        '4'
    } else if d == 5 {
        '5'
    } else if d == 6 {
        '6'
    } else if d == 7 {
        '7'
    } else if d == 8 {
        '8'
    } else {
        '9'
    }
}

/// Writes `n` as a decimal numeral.
pub fn decimal(n: usize) -> (s: String)
    ensures
        s@ == decimal_digits(n as nat),
{
    let mut digits: Vec<char> = Vec::new();
    let mut m: usize = n;
    while m >= 10
        invariant
            decimal_digits(n as nat) == decimal_digits(m as nat) + digits@,
        decreases m,
    {
        let ghost before: Seq<char> = digits@;
        digits.insert(0, digit(m % 10));
        assert(decimal_digits(m as nat) + before =~= decimal_digits((m / 10) as nat) + digits@);
        m = m / 10;
    }
    let ghost before: Seq<char> = digits@;
    digits.insert(0, digit(m));
    assert(decimal_digits(m as nat) + before =~= digits@);
    string_of(digits.as_slice())
}

pub const LINE_FEED: char = '\n';

pub const RETURN: char = '\r';

/// The offset of the first line feed in `p..`, or the length of the text.
pub open spec fn text_line_end(text: Seq<char>, p: int) -> int
    decreases text.len() - p,
{
    if 0 <= p < text.len() && text[p] != LINE_FEED {
        text_line_end(text, p + 1)
    } else {
        p
    }
}

pub proof fn lemma_text_line_end_bounds(text: Seq<char>, p: int)
    requires
        0 <= p <= text.len(),
    ensures
        p <= text_line_end(text, p) <= text.len(),
    decreases text.len() - p,
{
    if p < text.len() && text[p] != LINE_FEED {
        lemma_text_line_end_bounds(text, p + 1);
    }
}

/// `line` without the carriage return at its end, if it has one.
pub open spec fn without_return(line: Seq<char>) -> Seq<char> {
    if line.len() > 0 && line.last() == RETURN {
        line.drop_last()
    } else {
        line
    }
}

/// The lines of `text` from offset `p` on.
///
/// A line ends with a line feed or with a carriage return and a line feed;
/// neither belongs to the line. The last line need not be ended, and is then
/// taken as it is. An ended last line is not followed by an empty one.
pub open spec fn lines_from(text: Seq<char>, p: int) -> Seq<Seq<char>>
    decreases text.len() - p,
    via lines_from_decreases
{
    if 0 <= p < text.len() {
        let e: int = text_line_end(text, p);
        if e >= text.len() {
            seq![text.subrange(p, text.len() as int)]
        } else {
            seq![without_return(text.subrange(p, e))] + lines_from(text, e + 1)
        }
    } else {
        Seq::empty()
    }
}

#[via_fn]
proof fn lines_from_decreases(text: Seq<char>, p: int) {
    if 0 <= p < text.len() {
        lemma_text_line_end_bounds(text, p);
    }
}

/// The lines of `text`.
pub open spec fn lines_of(text: Seq<char>) -> Seq<Seq<char>> {
    lines_from(text, 0)
}

/// The texts of `lines`.
pub open spec fn texts(lines: Seq<String>) -> Seq<Seq<char>> {
    Seq::new(lines.len(), |i: int| lines[i]@)
}

/// Splits `text` into its lines.
pub fn split_lines(text: &str) -> (lines: Vec<String>)
    ensures
        texts(lines@) == lines_of(text@),
{
    let chars: Vec<char> = chars_of(text);
    let len: usize = chars.len();
    let mut lines: Vec<String> = Vec::new();
    let mut p: usize = 0;
    assert(texts(lines@) =~= Seq::<Seq<char>>::empty());
    while p < len
        invariant
            chars@ == text@,
            len == chars.len(),
            p <= len,
            lines_of(text@) == texts(lines@) + lines_from(text@, p as int),
        decreases len - p,
    {
        let mut e: usize = p;
        while e < len && chars[e] != LINE_FEED
            invariant
                chars@ == text@,
                len == chars.len(),
                p <= e <= len,
                text_line_end(text@, p as int) == text_line_end(text@, e as int),
            decreases len - e,
        {
            e = e + 1;
        }
        let ghost before: Seq<String> = lines@;
        if e >= len {
            let line: String = string_of(slice_subrange(chars.as_slice(), p, len));
            lines.push(line);
            assert(texts(lines@) =~= texts(before) + seq![text@.subrange(p as int, len as int)]);
            assert(texts(before) + lines_from(text@, p as int) =~= texts(lines@) + lines_from(
                text@,
                len as int,
            ));
            p = len;
        } else {
            let stop: usize = if e > p && chars[e - 1] == RETURN {
                e - 1
            } else {
                e
            };
            let line: String = string_of(slice_subrange(chars.as_slice(), p, stop));
            assert(line@ =~= without_return(text@.subrange(p as int, e as int)));
            lines.push(line);
            assert(texts(lines@) =~= texts(before) + seq![
                without_return(text@.subrange(p as int, e as int)),
            ]);
            assert(texts(before) + lines_from(text@, p as int) =~= texts(lines@) + lines_from(
                text@,
                e + 1,
            ));
            p = e + 1;
        }
    }
    assert(texts(lines@) + lines_from(text@, p as int) =~= texts(lines@));
    lines
}

/// The first `n` of `lines`, each followed by a line feed.
pub open spec fn terminated(lines: Seq<Seq<char>>, n: int) -> Seq<char>
    decreases n,
{
    if 0 < n <= lines.len() {
        terminated(lines, n - 1) + lines[n - 1].push(LINE_FEED)
    } else {
        Seq::empty()
    }
}

/// The text of a file that holds `lines`: the lines joined by line feeds,
/// and one line feed at the end.
pub open spec fn joined(lines: Seq<Seq<char>>) -> Seq<char> {
    if lines.len() == 0 {
        seq![LINE_FEED]
    } else {
        terminated(lines, lines.len() as int)
    }
}

/// Joins `lines` into the text of a file.
pub fn join_lines(lines: &Vec<String>) -> (text: String)
    ensures
        text@ == joined(texts(lines@)),
{
    let mut text: String = String::new();
    if lines.len() == 0 {
        text.append("\n");
        proof {
            reveal_strlit("\n");
        }
        assert(text@ =~= seq![LINE_FEED]);
        return text;
    }
    let mut k: usize = 0;
    while k < lines.len()
        invariant
            k <= lines.len(),
            text@ == terminated(texts(lines@), k as int),
        decreases lines.len() - k,
    {
        let ghost before: Seq<char> = text@;
        text.append(lines[k].as_str());
        text.append("\n");
        proof {
            reveal_strlit("\n");
        }
        assert(text@ =~= before + texts(lines@)[k as int].push(LINE_FEED));
        k = k + 1;
    }
    text
}

} // verus!
