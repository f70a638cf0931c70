//! A source file held as lines, and the policy by which it is written back.
//!
//! The file itself is read and written by the caller. The caller hands the
//! text in, edits lines, and asks [`SourceFile::flush`] what to write.

use vstd::prelude::*;
use vstd::string::{StrSliceExecFns, StringExecFns};
use crate::app_error::{build_error, AppError, ERROR_FILENAME_FORMAT, ERROR_NO_SUCH_SOURCE_LINE};
use crate::text::{decimal, decimal_digits, join_lines, joined, lines_of, split_lines, texts};

verus! {

/// A backup younger than this many milliseconds is not replaced.
pub const BACKUP_COOLDOWN_MS: u64 = 60_000;

/// The directory, below the user's desktop, under which backups are kept.
pub const BACKUP_DIRECTORY: &'static str = "_rust_source_backups_";

/// The text of a source file, line by line.
#[derive(Clone, Debug, PartialEq, Eq)]
pub struct SourceFile {
    file: String,
    lines: Vec<String>,
    modified: bool,
    original: String,
}

/// What is to be written when a source file is flushed.
#[derive(Clone, Debug, PartialEq, Eq)]
pub struct FlushPlan {
    /// Whether the lines had been changed since the file was read or flushed.
    pub was_modified: bool,
    /// The text that the file had when it was read, where a backup of it is
    /// due.
    pub backup: Option<String>,
    /// The new text of the file, where the lines had been changed.
    pub content: Option<String>,
}

/// The message for a line number that the file does not have.
pub open spec fn no_such_line(line_number: usize, count: usize) -> Seq<char> {
    "no such line number "@ + decimal_digits(line_number as nat) + " in 1..."@ + decimal_digits(
        count as nat,
    )
}

/// The message for a file name that is not an absolute path.
pub open spec fn unexpected_name(name: Seq<char>) -> Seq<char> {
    "unexpected source file name: "@ + name
}

/// `name` is an absolute path: it starts with a slash.
pub open spec fn is_absolute(name: Seq<char>) -> bool {
    name.len() > 0 && name[0] == '/'
}

/// A backup is due where there is none yet, or where the one there is older
/// than the cooldown.
pub open spec fn backup_due(backup_time_ms: Option<u64>, now_ms: u64) -> bool {
    match backup_time_ms {
        None => true,
        Some(t) => t + BACKUP_COOLDOWN_MS < now_ms,
    }
}

/// The line numbers from `line_number + delta_min` to `line_number +
/// delta_max` that a file of `count` lines has, in ascending order.
pub open spec fn neighbors(line_number: int, delta_min: int, delta_max: int, count: int) -> Seq<
    usize,
> {
    let first: int = if line_number + delta_min < 1 {
        1
    } else {
        line_number + delta_min
    };
    let last: int = if line_number + delta_max > count {
        count
    } else {
        line_number + delta_max
    };
    if first <= last {
        Seq::new((last - first + 1) as nat, |i: int| (first + i) as usize)
    } else {
        Seq::empty()
    }
}

/// The part of the absolute path `absolute` behind its first slash, under
/// which the backup of the file is kept in the backup directory.
pub fn backup_name(absolute: &str) -> (r: Result<String, AppError>)
    ensures
        is_absolute(absolute@) ==> r is Ok && r->Ok_0@ == absolute@.skip(1),
        !is_absolute(absolute@) ==> r is Err && r->Err_0.says(
            ERROR_FILENAME_FORMAT,
            unexpected_name(absolute@),
        ),
{
    let n: usize = absolute.unicode_len();
    if n > 0 && absolute.get_char(0) == '/' {
        let rest: &str = absolute.substring_char(1, n);
        assert(rest@ =~= absolute@.skip(1));
        Ok(rest.to_owned())
    } else {
        let mut message: String = String::from_str("unexpected source file name: ");
        message.append(absolute);
        Err(build_error(ERROR_FILENAME_FORMAT, message))
    }
}

impl SourceFile {
    /// The name of the file.
    pub closed spec fn file_view(self) -> Seq<char> {
        self.file@
    }

    /// The lines as they stand now.
    pub closed spec fn lines_view(self) -> Seq<Seq<char>> {
        texts(self.lines@)
    }

    /// Whether the lines have been changed since the file was read or
    /// flushed.
    pub closed spec fn is_modified(self) -> bool {
        self.modified
    }

    /// The text that the file had when it was read.
    pub closed spec fn original_view(self) -> Seq<char> {
        self.original@
    }

    /// The source file named `file` whose text is `content`.
    pub fn new(file: &str, content: String) -> (f: SourceFile)
        ensures
            f.file_view() == file@,
            f.lines_view() == lines_of(content@),
            !f.is_modified(),
            f.original_view() == content@,
    {
        let lines: Vec<String> = split_lines(content.as_str());
        SourceFile { file: file.to_owned(), lines, modified: false, original: content }
    }

    /// Checks that the file has a line `line_number`, counted from 1, and
    /// hands the number back.
    pub fn assert_line_exists(&self, line_number: usize) -> (r: Result<usize, AppError>)
        ensures
            1 <= line_number <= self.lines_view().len() ==> r == Ok::<usize, AppError>(
                line_number,
            ),
            !(1 <= line_number <= self.lines_view().len()) ==> r is Err && r->Err_0.says(
                ERROR_NO_SUCH_SOURCE_LINE,
                no_such_line(line_number, self.lines_view().len() as usize),
            ),
    {
        if line_number == 0 || line_number > self.lines.len() {
            let mut message: String = String::from_str("no such line number ");
            message.append(decimal(line_number).as_str());
            message.append(" in 1...");
            message.append(decimal(self.lines.len()).as_str());
            Err(build_error(ERROR_NO_SUCH_SOURCE_LINE, message))
        } else {
            Ok(line_number)
        }
    }

    /// The numbers of the lines around `line_number`: those from
    /// `line_number + delta_min` to `line_number + delta_max` that the file
    /// has.
    pub fn neighbor_line_numbers(&self, line_number: usize, delta_min: isize, delta_max: isize) -> (out:
        Vec<usize>)
        ensures
            out@ == neighbors(
                line_number as int,
                delta_min as int,
                delta_max as int,
                self.lines_view().len() as int,
            ),
    {
        let count: usize = self.lines.len();
        let low: i128 = line_number as i128 + delta_min as i128;
        let high: i128 = line_number as i128 + delta_max as i128;
        let mut out: Vec<usize> = Vec::new();
        if high < 1 || low > count as i128 {
            assert(out@ =~= neighbors(
                line_number as int,
                delta_min as int,
                delta_max as int,
                count as int,
            ));
            return out;
        }
        let first: usize = if low < 1 {
            1
        } else {
            low as usize
        };
        let last: usize = if high > count as i128 {
            count
        } else {
            high as usize
        };
        if first > last {
            assert(out@ =~= neighbors(
                line_number as int,
                delta_min as int,
                delta_max as int,
                count as int,
            ));
            return out;
        }
        let mut k: usize = first;
        loop
            invariant_except_break
                first <= k <= last,
                out@.len() == k - first,
                forall|i: int| 0 <= i < out@.len() ==> out@[i] == first + i,
            ensures
                out@.len() == last - first + 1,
                forall|i: int| 0 <= i < out@.len() ==> out@[i] == first + i,
            decreases last - k,
        {
            out.push(k);
            if k == last {
                break;
            }
            k = k + 1;
        }
        assert(out@ =~= neighbors(
            line_number as int,
            delta_min as int,
            delta_max as int,
            count as int,
        ));
        out
    }

    /// The text of line `number`, counted from 1.
    pub fn line(&self, number: usize) -> (r: Result<&str, AppError>)
        ensures
            1 <= number <= self.lines_view().len() ==> r is Ok && r->Ok_0@ == self.lines_view()[
                number - 1
            ],
            !(1 <= number <= self.lines_view().len()) ==> r is Err && r->Err_0.says(
                ERROR_NO_SUCH_SOURCE_LINE,
                no_such_line(number, self.lines_view().len() as usize),
            ),
    {
        match self.assert_line_exists(number) {
            Ok(_) => Ok(self.lines[number - 1].as_str()),
            Err(e) => Err(e),
        }
    }

    /// Replaces line `number`, counted from 1, or appends a line where
    /// `number` is the first number behind the last line. Any other number is
    /// an error and leaves the file as it was.
    pub fn set_line(&mut self, number: usize, line: &str) -> (r: Result<(), AppError>)
        ensures
            final(self).file_view() == old(self).file_view(),
            final(self).original_view() == old(self).original_view(),
            number == old(self).lines_view().len() + 1 ==> r is Ok && final(self).lines_view()
                == old(self).lines_view().push(line@) && final(self).is_modified(),
            1 <= number <= old(self).lines_view().len() ==> r is Ok && final(self).lines_view()
                == old(self).lines_view().update(number - 1, line@) && final(self).is_modified(),
            !(1 <= number <= old(self).lines_view().len() + 1) ==> r is Err && r->Err_0.says(
                ERROR_NO_SUCH_SOURCE_LINE,
                no_such_line(number, old(self).lines_view().len() as usize),
            ) && final(self).lines_view() == old(self).lines_view() && final(self).is_modified()
                == old(self).is_modified(),
    {
        let ln: String = line.to_owned();
        if number > 0 && number - 1 == self.lines.len() {
            self.lines.push(ln);
            assert(texts(self.lines@) =~= texts(old(self).lines@).push(line@));
        } else {
            match self.assert_line_exists(number) {
                Ok(_) => {},
                Err(e) => {
                    return Err(e);
                },
            }
            self.lines[number - 1] = ln;
            assert(texts(self.lines@) =~= texts(old(self).lines@).update(number - 1, line@));
        }
        self.modified = true;
        Ok(())
    }

    /// Tells whether the lines have been changed since the file was read or
    /// flushed.
    pub fn modified(&self) -> (m: bool)
        ensures
            m == self.is_modified(),
    {
        self.modified
    }

    /// Decides what is to be written for this file.
    ///
    /// `absolute` is the absolute path of the file, `backup_time_ms` the time
    /// at which the backup of the file was last written, if there is one, and
    /// `now_ms` the current time, both in milliseconds.
    ///
    /// A file whose lines have not been changed needs nothing. Otherwise the
    /// path must be absolute; the plan then holds the new text of the file,
    /// and the original text where a backup is due, and the file counts as
    /// unmodified from then on.
    pub fn flush(&mut self, absolute: &str, backup_time_ms: Option<u64>, now_ms: u64) -> (r: Result<
        FlushPlan,
        AppError,
    >)
        ensures
            final(self).file_view() == old(self).file_view(),
            final(self).original_view() == old(self).original_view(),
            final(self).lines_view() == old(self).lines_view(),
            !old(self).is_modified() ==> r is Ok && !r->Ok_0.was_modified && r->Ok_0.backup is None
                && r->Ok_0.content is None && !final(self).is_modified(),
            old(self).is_modified() && !is_absolute(absolute@) ==> r is Err && r->Err_0.says(
                ERROR_FILENAME_FORMAT,
                unexpected_name(absolute@),
            ) && final(self).is_modified(),
            old(self).is_modified() && is_absolute(absolute@) ==> {
                &&& r is Ok
                &&& r->Ok_0.was_modified
                &&& r->Ok_0.content is Some
                &&& r->Ok_0.content->0@ == joined(old(self).lines_view())
                &&& r->Ok_0.backup is Some <==> backup_due(backup_time_ms, now_ms)
                &&& r->Ok_0.backup is Some ==> r->Ok_0.backup->0@ == old(self).original_view()
                &&& !final(self).is_modified()
            },
    {
        if !self.modified {
            return Ok(FlushPlan { was_modified: false, backup: None, content: None });
        }
        match backup_name(absolute) {
            Ok(_) => {},
            Err(e) => {
                return Err(e);
            },
        }
        let due: bool = match backup_time_ms {
            None => true,
            Some(t) => t < now_ms && now_ms - t > BACKUP_COOLDOWN_MS,
        };
        let backup: Option<String> = if due {
            Some(self.original.clone())
        } else {
            None
        };
        let content: String = join_lines(&self.lines);
        self.modified = false;
        Ok(FlushPlan { was_modified: true, backup, content: Some(content) })
    }
}

} // verus!
