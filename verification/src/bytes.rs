//! Byte-level helpers: character classes, runs of blanks, ends of lines, and
//! the search for one byte string inside another.

use vstd::prelude::*;

verus! {

pub const NEWLINE: u8 = 0x0A;

pub const CARRIAGE_RETURN: u8 = 0x0D;

pub const TAB: u8 = 0x09;

pub const SPACE: u8 = 0x20;

pub const SLASH: u8 = 0x2F;

pub const COLON: u8 = 0x3A;

pub const BRACE_OPEN: u8 = 0x7B;

pub const BAR: u8 = 0x7C;

pub const BRACE_CLOSE: u8 = 0x7D;

pub const TILDE: u8 = 0x7E;

/// A blank is a byte of white space that does not end a line.
pub open spec fn is_blank(b: u8) -> bool {
    b == SPACE || b == TAB || b == CARRIAGE_RETURN
}

/// Tells whether `b` is a blank.
pub fn blank(b: u8) -> (r: bool)
    ensures
        r == is_blank(b),
{
    b == SPACE || b == TAB || b == CARRIAGE_RETURN
}

/// The first offset in `p..hi` whose byte is not a blank, or `hi`.
pub open spec fn skip_blanks(src: Seq<u8>, p: int, hi: int) -> int
    decreases hi - p,
{
    if 0 <= p < hi && hi <= src.len() && is_blank(src[p]) {
        skip_blanks(src, p + 1, hi)
    } else {
        p
    }
}

/// The offset that ends the run of blanks which stands just before `p` and
/// does not reach below `lo`.
pub open spec fn skip_back(src: Seq<u8>, lo: int, p: int) -> int
    decreases p - lo,
{
    if 0 <= lo < p && p <= src.len() && is_blank(src[p - 1]) {
        skip_back(src, lo, p - 1)
    } else {
        p
    }
}

/// The offset of the first line feed in `p..hi`, or `hi`.
pub open spec fn line_end(src: Seq<u8>, p: int, hi: int) -> int
    decreases hi - p,
{
    if 0 <= p < hi && hi <= src.len() && src[p] != NEWLINE {
        line_end(src, p + 1, hi)
    } else {
        p
    }
}

/// Whether a line comment token stands at `q` and ends at or before `hi`.
pub open spec fn comment_at(src: Seq<u8>, q: int, hi: int) -> bool {
    0 <= q && q + 2 <= hi && hi <= src.len() && src[q] == SLASH && src[q + 1] == SLASH
}

pub proof fn lemma_skip_blanks_bounds(src: Seq<u8>, p: int, hi: int)
    requires
        0 <= p <= hi <= src.len(),
    ensures
        p <= skip_blanks(src, p, hi) <= hi,
    decreases hi - p,
{
    if p < hi && is_blank(src[p]) {
        lemma_skip_blanks_bounds(src, p + 1, hi);
    }
}

pub proof fn lemma_skip_back_bounds(src: Seq<u8>, lo: int, p: int)
    requires
        0 <= lo <= p <= src.len(),
    ensures
        lo <= skip_back(src, lo, p) <= p,
    decreases p - lo,
{
    if lo < p && is_blank(src[p - 1]) {
        lemma_skip_back_bounds(src, lo, p - 1);
    }
}

pub proof fn lemma_line_end_bounds(src: Seq<u8>, p: int, hi: int)
    requires
        0 <= p <= hi <= src.len(),
    ensures
        p <= line_end(src, p, hi) <= hi,
    decreases hi - p,
{
    if p < hi && src[p] != NEWLINE {
        lemma_line_end_bounds(src, p + 1, hi);
    }
}

/// Every byte that `skip_blanks` passes is a blank.
pub proof fn lemma_skip_blanks_passes(src: Seq<u8>, p: int, hi: int, i: int)
    requires
        0 <= p <= hi <= src.len(),
        p <= i < skip_blanks(src, p, hi),
    ensures
        is_blank(src[i]),
    decreases hi - p,
{
    if p < hi && is_blank(src[p]) {
        if p < i {
            lemma_skip_blanks_passes(src, p + 1, hi, i);
        }
    }
}

/// Every byte that `skip_back` passes is a blank.
pub proof fn lemma_skip_back_passes(src: Seq<u8>, lo: int, p: int, i: int)
    requires
        0 <= lo <= p <= src.len(),
        skip_back(src, lo, p) <= i < p,
    ensures
        is_blank(src[i]),
    decreases p - lo,
{
    if lo < p && is_blank(src[p - 1]) {
        if i < p - 1 {
            lemma_skip_back_passes(src, lo, p - 1, i);
        }
    }
}

/// Moves forward from `p` over blanks, stopping at `hi`.
pub fn forward_over_blanks(src: &[u8], p: usize, hi: usize) -> (q: usize)
    requires
        p <= hi <= src.len(),
    ensures
        q == skip_blanks(src@, p as int, hi as int),
        p <= q <= hi,
{
    let mut q: usize = p;
    while q < hi && blank(src[q])
        invariant
            p <= q <= hi <= src.len(),
            skip_blanks(src@, p as int, hi as int) == skip_blanks(src@, q as int, hi as int),
        decreases hi - q,
    {
        q = q + 1;
    }
    proof {
        lemma_skip_blanks_bounds(src@, p as int, hi as int);
    }
    q
}

/// Moves backward from `p` over blanks, stopping at `lo`.
pub fn backward_over_blanks(src: &[u8], lo: usize, p: usize) -> (q: usize)
    requires
        lo <= p <= src.len(),
    ensures
        q == skip_back(src@, lo as int, p as int),
        lo <= q <= p,
{
    let mut q: usize = p;
    while q > lo && blank(src[q - 1])
        invariant
            lo <= q <= p <= src.len(),
            skip_back(src@, lo as int, p as int) == skip_back(src@, lo as int, q as int),
        decreases q - lo,
    {
        q = q - 1;
    }
    q
}

/// Moves forward from `p` to the next line feed, stopping at `hi`.
pub fn forward_to_line_end(src: &[u8], p: usize, hi: usize) -> (q: usize)
    requires
        p <= hi <= src.len(),
    ensures
        q == line_end(src@, p as int, hi as int),
        p <= q <= hi,
{
    let mut q: usize = p;
    while q < hi && src[q] != NEWLINE
        invariant
            p <= q <= hi <= src.len(),
            line_end(src@, p as int, hi as int) == line_end(src@, q as int, hi as int),
        decreases hi - q,
    {
        q = q + 1;
    }
    q
}

/// Tells whether a line comment token stands at `q` and ends at or before `hi`.
pub fn comment_token_at(src: &[u8], q: usize, hi: usize) -> (r: bool)
    requires
        hi <= src.len(),
    ensures
        r == comment_at(src@, q as int, hi as int),
{
    q < hi && hi - q >= 2 && src[q] == SLASH && src[q + 1] == SLASH
}

/// `seq` stands in `source` at offset `at`.
pub open spec fn occurs_at(source: Seq<u8>, seq: Seq<u8>, at: int) -> bool {
    &&& 0 <= at
    &&& at + seq.len() <= source.len()
    &&& source.subrange(at, at + seq.len()) == seq
}

/// Tells whether `seq` stands in `source` at offset `at`.
pub fn stands_at(source: &[u8], seq: &[u8], at: usize) -> (r: bool)
    requires
        at + seq.len() <= source.len(),
    ensures
        r == occurs_at(source@, seq@, at as int),
{
    let n: usize = seq.len();
    let mut k: usize = 0;
    while k < n
        invariant
            k <= n,
            n == seq.len(),
            at + n <= source.len(),
            forall|j: int| 0 <= j < k ==> source@[at + j] == seq@[j],
        decreases n - k,
    {
        if source[at + k] != seq[k] {
            proof {
                let whole: Seq<u8> = source@.subrange(at as int, at + n);
                assert(whole[k as int] == source@[at + k]);
            }
            return false;
        }
        k = k + 1;
    }
    assert(source@.subrange(at as int, at + n) =~= seq@);
    true
}

/// The leftmost offset at or behind `from` at which `seq` stands in `source`.
pub open spec fn first_place(source: Seq<u8>, seq: Seq<u8>, from: int) -> Option<int>
    decreases source.len() - from + 1,
{
    if from < 0 || from + seq.len() > source.len() {
        None
    } else if occurs_at(source, seq, from) {
        Some(from)
    } else {
        first_place(source, seq, from + 1)
    }
}

/// The rightmost offset at or before `upto` at which `seq` stands in `source`.
pub open spec fn last_place(source: Seq<u8>, seq: Seq<u8>, upto: int) -> Option<int>
    decreases upto + 1,
{
    if upto < 0 {
        None
    } else if occurs_at(source, seq, upto) {
        Some(upto)
    } else {
        last_place(source, seq, upto - 1)
    }
}

/// Looks for the first place where `seq` stands in `source`.
///
/// Returns `(true, start, end)` for the leftmost occurrence, which fills
/// `start..end`, and `(false, 0, 0)` where there is none. The empty string
/// stands at offset 0 of every source.
pub fn find_bytes(source: &[u8], seq: &[u8]) -> (r: (bool, usize, usize))
    ensures
        r.0 <==> exists|at: int| occurs_at(source@, seq@, at),
        r.0 <==> first_place(source@, seq@, 0) is Some,
        r.0 ==> first_place(source@, seq@, 0) == Some(r.1 as int),
        r.0 ==> occurs_at(source@, seq@, r.1 as int) && r.2 == r.1 + seq.len(),
        r.0 ==> forall|at: int| 0 <= at < r.1 ==> !occurs_at(source@, seq@, at),
        !r.0 ==> r.1 == 0 && r.2 == 0,
{
    let seq_len: usize = seq.len();
    if seq_len > source.len() {
        return (false, 0, 0);
    }
    let last: usize = source.len() - seq_len;
    let mut start: usize = 0;
    loop
        invariant
            seq_len == seq.len(),
            last + seq_len == source.len(),
            start <= last,
            forall|at: int| 0 <= at < start ==> !occurs_at(source@, seq@, at),
            first_place(source@, seq@, 0) == first_place(source@, seq@, start as int),
        decreases last - start,
    {
        if stands_at(source, seq, start) {
            return (true, start, start + seq_len);
        }
        if start == last {
            assert(first_place(source@, seq@, start + 1) is None);
            return (false, 0, 0);
        }
        start = start + 1;
    }
}

/// Looks for the last place where `seq` stands in `source`.
///
/// Returns the offset of the rightmost occurrence. The empty string stands
/// last at the end of the source.
pub fn last_occurrence(source: &[u8], seq: &[u8]) -> (r: Option<usize>)
    ensures
        r is Some <==> exists|at: int| occurs_at(source@, seq@, at),
        r is Some <==> last_place(source@, seq@, source.len() - seq.len()) is Some,
        r is Some ==> last_place(source@, seq@, source.len() - seq.len()) == Some(r->0 as int),
        r is Some ==> occurs_at(source@, seq@, r->0 as int),
        r is Some ==> forall|at: int| r->0 < at ==> !occurs_at(source@, seq@, at),
{
    let seq_len: usize = seq.len();
    if seq_len > source.len() {
        return None;
    }
    let mut c: usize = source.len() - seq_len;
    loop
        invariant
            seq_len == seq.len(),
            c + seq_len <= source.len(),
            forall|at: int| c < at ==> !occurs_at(source@, seq@, at),
            last_place(source@, seq@, source.len() - seq.len()) == last_place(
                source@,
                seq@,
                c as int,
            ),
        decreases c,
    {
        if stands_at(source, seq, c) {
            return Some(c);
        }
        if c == 0 {
            assert(last_place(source@, seq@, -1) is None);
            return None;
        }
        c = c - 1;
    }
}

/// The offset of the rightmost occurrence of `seq` in `source`, or -1 where
/// there is none.
pub fn last_subsequence(source: &[u8], seq: &[u8]) -> (r: i32)
    requires
        source.len() <= i32::MAX,
    ensures
        r >= 0 <==> exists|at: int| occurs_at(source@, seq@, at),
        r >= 0 ==> last_place(source@, seq@, source.len() - seq.len()) == Some(r as int),
        r >= 0 ==> occurs_at(source@, seq@, r as int),
        r >= 0 ==> forall|at: int| r < at ==> !occurs_at(source@, seq@, at),
        r < 0 ==> r == -1,
{
    match last_occurrence(source, seq) {
        Some(c) => c as i32,
        None => -1,
    }
}

} // verus!
