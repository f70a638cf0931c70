//! Rewriting the files of a run, each on its own.
//!
//! A run in `Strip` mode rewrites the files that change. A run in `Keep` mode
//! resolves every file, which shows that its markers are well formed and what
//! its primary bodies come to, and writes nothing: it leaves each file as it
//! is. So does any run with a file whose markers are malformed.

use vstd::prelude::*;
use crate::model::{Mode, StructuralError};
use crate::resolver::{rewrite, rewrite_spec};

verus! {

/// What became of one file of a run.
#[derive(Clone, Debug, PartialEq, Eq)]
pub enum Outcome {
    /// The file resolves to these bytes, which differ from the ones it has.
    Changed(Vec<u8>),
    /// The file resolves to the bytes it has; nothing is to be written.
    Unchanged,
    /// The markers of the file are malformed; the file is left as it is.
    Skipped(StructuralError),
}

/// The mathematical value of an [`Outcome`].
pub enum Verdict {
    Changed(Seq<u8>),
    Unchanged,
    Skipped(StructuralError),
}

impl View for Outcome {
    type V = Verdict;

    open spec fn view(&self) -> Verdict {
        match self {
            Outcome::Changed(bytes) => Verdict::Changed(bytes@),
            Outcome::Unchanged => Verdict::Unchanged,
            Outcome::Skipped(e) => Verdict::Skipped(*e),
        }
    }
}

/// What becomes of a file with the bytes `src` under `mode`.
pub open spec fn verdict_of(src: Seq<u8>, mode: Mode) -> Verdict {
    match rewrite_spec(src, mode) {
        Ok(out) => if out == src {
            Verdict::Unchanged
        } else {
            Verdict::Changed(out)
        },
        Err(e) => Verdict::Skipped(e),
    }
}

/// The bytes that a file with the bytes `src` holds after a run under
/// `mode`: the resolved bytes where the run is in `Strip` mode and the file
/// resolves, the bytes it had otherwise.
pub open spec fn after_run(src: Seq<u8>, mode: Mode) -> Seq<u8> {
    match (mode, rewrite_spec(src, mode)) {
        (Mode::Strip, Ok(out)) => out,
        _ => src,
    }
}

/// What becomes of each file of a run: of every file what becomes of it
/// alone.
pub open spec fn verdicts_of(files: Seq<Seq<u8>>, mode: Mode) -> Seq<Verdict> {
    Seq::new(files.len(), |i: int| verdict_of(files[i], mode))
}

/// The bytes of each of `files`.
pub open spec fn bytes_of(files: Seq<Vec<u8>>) -> Seq<Seq<u8>> {
    Seq::new(files.len(), |i: int| files[i]@)
}

/// The values of `outcomes`.
pub open spec fn views_of(outcomes: Seq<Outcome>) -> Seq<Verdict> {
    Seq::new(outcomes.len(), |i: int| outcomes[i]@)
}

/// Tells whether `a` and `b` hold the same bytes.
pub fn same_bytes(a: &[u8], b: &[u8]) -> (r: bool)
    ensures
        r == (a@ == b@),
{
    if a.len() != b.len() {
        return false;
    }
    let mut k: usize = 0;
    while k < a.len()
        invariant
            k <= a.len(),
            a.len() == b.len(),
            forall|i: int| 0 <= i < k ==> a@[i] == b@[i],
        decreases a.len() - k,
    {
        if a[k] != b[k] {
            return false;
        }
        k = k + 1;
    }
    assert(a@ =~= b@);
    true
}

/// Rewrites one file and tells whether anything is to be written.
pub fn rewrite_file(src: &[u8], mode: Mode) -> (outcome: Outcome)
    ensures
        outcome@ == verdict_of(src@, mode),
{
    match rewrite(src, mode) {
        Ok(out) => if same_bytes(out.as_slice(), src) {
            Outcome::Unchanged
        } else {
            Outcome::Changed(out)
        },
        Err(e) => Outcome::Skipped(e),
    }
}

/// The bytes that are to be written back for a file with the given outcome,
/// if any are: those of a file that changed in `Strip` mode.
pub fn to_write(outcome: &Outcome, mode: Mode) -> (r: Option<&Vec<u8>>)
    ensures
        match r {
            Some(bytes) => mode == Mode::Strip && outcome@ == Verdict::Changed(bytes@),
            None => mode == Mode::Keep || !(outcome@ is Changed),
        },
{
    match mode {
        Mode::Keep => None,
        Mode::Strip => match outcome {
            Outcome::Changed(bytes) => Some(bytes),
            _ => None,
        },
    }
}

/// Rewrites every file of a run under one mode.
///
/// The outcomes come in the order of the files. What becomes of a file
/// depends on its own bytes and the mode alone: an error in one file leaves
/// the outcome of every other file as it would be without it.
pub fn rewrite_batch(files: &Vec<Vec<u8>>, mode: Mode) -> (outcomes: Vec<Outcome>)
    ensures
        views_of(outcomes@) == verdicts_of(bytes_of(files@), mode),
{
    let mut outcomes: Vec<Outcome> = Vec::new();
    let mut k: usize = 0;
    while k < files.len()
        invariant
            k <= files.len(),
            outcomes@.len() == k,
            forall|i: int| 0 <= i < k ==> (#[trigger] outcomes@[i])@ == verdict_of(files@[i]@, mode),
        decreases files.len() - k,
    {
        let outcome: Outcome = rewrite_file(files[k].as_slice(), mode);
        outcomes.push(outcome);
        k = k + 1;
    }
    assert(views_of(outcomes@) =~= verdicts_of(bytes_of(files@), mode));
    outcomes
}

} // verus!
