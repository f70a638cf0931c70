//! Which files a run looks at.
//!
//! A [`Selection`] holds the settings of a walk over a directory tree and
//! decides, name by name, what the walk lists and where it descends. The walk
//! itself is the caller's; it hands each path it lists to
//! [`insert_ordered`], so that the files come out in one order whatever the
//! order in which the directories were read.

use vstd::prelude::*;
use crate::text::{chars_of, texts};

verus! {

/// A pattern for the name of a file or directory.
#[derive(Clone, Debug, PartialEq, Eq)]
pub enum Pattern {
    /// The whole name.
    Name(String),
    /// The start of the name.
    Prefix(String),
    /// The extension: the name ends with a dot and these characters.
    Extension(String),
}

/// The mathematical value of a [`Pattern`].
pub enum PatternModel {
    Name(Seq<char>),
    Prefix(Seq<char>),
    Extension(Seq<char>),
}

impl View for Pattern {
    type V = PatternModel;

    open spec fn view(&self) -> PatternModel {
        match self {
            Pattern::Name(s) => PatternModel::Name(s@),
            Pattern::Prefix(s) => PatternModel::Prefix(s@),
            Pattern::Extension(s) => PatternModel::Extension(s@),
        }
    }
}

/// What is wrong with the settings of a selection.
#[derive(Clone, Copy, Debug, PartialEq, Eq, Structural)]
pub enum ConfigurationError {
    /// Patterns to accept and patterns to omit were both supplied.
    AcceptAndOmit,
    /// The selection has been prepared and takes no more changes.
    AlreadyPrepared,
}

/// `pat` stands in `name` at offset `at`.
pub open spec fn stands_in(name: Seq<char>, pat: Seq<char>, at: int) -> bool {
    0 <= at && at + pat.len() <= name.len() && name.subrange(at, at + pat.len()) == pat
}

/// The pattern fits the name.
pub open spec fn pattern_matches(p: PatternModel, name: Seq<char>) -> bool {
    match p {
        PatternModel::Name(s) => name == s,
        PatternModel::Prefix(s) => stands_in(name, s, 0),
        PatternModel::Extension(s) => stands_in(name, seq!['.'] + s, name.len() - s.len() - 1),
    }
}

/// The values of `patterns`.
pub open spec fn models(patterns: Seq<Pattern>) -> Seq<PatternModel> {
    Seq::new(patterns.len(), |i: int| patterns[i]@)
}

/// One of the patterns fits the name.
pub open spec fn any_matches(patterns: Seq<PatternModel>, name: Seq<char>) -> bool {
    exists|i: int| 0 <= i < patterns.len() && pattern_matches(#[trigger] patterns[i], name)
}

/// The settings of a walk.
#[derive(Clone, Debug, PartialEq, Eq)]
pub struct Selection {
    recurse: bool,
    include_directories: bool,
    accept: Vec<Pattern>,
    omit: Vec<Pattern>,
    prepared: bool,
}

/// The mathematical value of a [`Selection`].
pub struct Settings {
    /// Whether the walk descends into the directories below the root.
    pub recurse: bool,
    /// Whether the walk lists directories beside files.
    pub include_directories: bool,
    /// Where there are any, only names that one of these fits are listed.
    pub accept: Seq<PatternModel>,
    /// Names that one of these fits are passed over.
    pub omit: Seq<PatternModel>,
    /// Whether the settings are final.
    pub prepared: bool,
}

/// The names that the settings let through: with patterns to accept, the
/// names that one of them fits; without, the names that no pattern to omit
/// fits.
pub open spec fn passes(s: Settings, name: Seq<char>) -> bool {
    if s.accept.len() > 0 {
        any_matches(s.accept, name)
    } else {
        !any_matches(s.omit, name)
    }
}

/// Tells whether `pat` stands in `name` at offset `at`.
fn chars_stand_at(name: &Vec<char>, pat: &Vec<char>, at: usize) -> (r: bool)
    requires
        at + pat.len() <= name.len(),
    ensures
        r == stands_in(name@, pat@, at as int),
{
    let n: usize = pat.len();
    let mut k: usize = 0;
    while k < n
        invariant
            k <= n,
            n == pat.len(),
            at + n <= name.len(),
            forall|j: int| 0 <= j < k ==> name@[at + j] == pat@[j],
        decreases n - k,
    {
        if name[at + k] != pat[k] {
            proof {
                let whole: Seq<char> = name@.subrange(at as int, at + n);
                assert(whole[k as int] == name@[at + k]);
            }
            return false;
        }
        k = k + 1;
    }
    assert(name@.subrange(at as int, at + n) =~= pat@);
    true
}

/// Tells whether the pattern fits the name.
pub fn fits(pattern: &Pattern, name: &str) -> (r: bool)
    ensures
        r == pattern_matches(pattern@, name@),
{
    let chars: Vec<char> = chars_of(name);
    match pattern {
        Pattern::Name(s) => {
            let pat: Vec<char> = chars_of(s.as_str());
            if pat.len() != chars.len() {
                return false;
            }
            let r: bool = chars_stand_at(&chars, &pat, 0);
            assert(chars@.subrange(0, chars@.len() as int) =~= chars@);
            r
        },
        Pattern::Prefix(s) => {
            let pat: Vec<char> = chars_of(s.as_str());
            if pat.len() > chars.len() {
                return false;
            }
            chars_stand_at(&chars, &pat, 0)
        },
        Pattern::Extension(s) => {
            let ext: Vec<char> = chars_of(s.as_str());
            if ext.len() >= chars.len() {
                return false;
            }
            let dot: usize = chars.len() - ext.len() - 1;
            let tail: bool = chars_stand_at(&chars, &ext, dot + 1);
            proof {
                let pat: Seq<char> = seq!['.'] + ext@;
                let part: Seq<char> = chars@.subrange(dot as int, dot + pat.len());
                if chars@[dot as int] == '.' && tail {
                    assert(part =~= pat) by {
                        assert forall|j: int| 0 <= j < pat.len() implies part[j] == pat[j] by {
                            if j > 0 {
                                assert(chars@.subrange(dot + 1, dot + 1 + ext@.len())[j - 1]
                                    == ext@[j - 1]);
                            }
                        }
                    }
                } else if part == pat {
                    assert(part[0] == pat[0]);
                    assert(chars@.subrange(dot + 1, dot + 1 + ext@.len()) =~= ext@) by {
                        assert forall|j: int| 0 <= j < ext@.len() implies chars@[dot + 1 + j]
                            == ext@[j] by {
                            assert(part[j + 1] == pat[j + 1]);
                        }
                    }
                }
            }
            chars[dot] == '.' && tail
        },
    }
}

/// Tells whether one of the patterns fits the name.
pub fn fits_any(patterns: &Vec<Pattern>, name: &str) -> (r: bool)
    ensures
        r == any_matches(models(patterns@), name@),
{
    let mut k: usize = 0;
    while k < patterns.len()
        invariant
            k <= patterns.len(),
            forall|i: int| 0 <= i < k ==> !pattern_matches(#[trigger] models(patterns@)[i], name@),
        decreases patterns.len() - k,
    {
        if fits(&patterns[k], name) {
            assert(pattern_matches(models(patterns@)[k as int], name@));
            return true;
        }
        k = k + 1;
    }
    false
}

/// The patterns that a walk omits where nothing else is asked for: names
/// that start with `_SKIP_` or `_OLD_`.
pub fn default_omit_patterns() -> (patterns: Vec<Pattern>)
    ensures
        models(patterns@) == seq![
            PatternModel::Prefix("_SKIP_"@),
            PatternModel::Prefix("_OLD_"@),
        ],
{
    let mut patterns: Vec<Pattern> = Vec::new();
    patterns.push(Pattern::Prefix("_SKIP_".to_owned()));
    patterns.push(Pattern::Prefix("_OLD_".to_owned()));
    assert(models(patterns@) =~= seq![
        PatternModel::Prefix("_SKIP_"@),
        PatternModel::Prefix("_OLD_"@),
    ]);
    patterns
}

impl View for Selection {
    type V = Settings;

    closed spec fn view(&self) -> Settings {
        Settings {
            recurse: self.recurse,
            include_directories: self.include_directories,
            accept: models(self.accept@),
            omit: models(self.omit@),
            prepared: self.prepared,
        }
    }
}

impl Selection {
    /// Settings that list the files of the root directory alone, all of them.
    pub fn new() -> (s: Selection)
        ensures
            s@ == (Settings {
                recurse: false,
                include_directories: false,
                accept: Seq::empty(),
                omit: Seq::empty(),
                prepared: false,
            }),
    {
        let s: Selection = Selection {
            recurse: false,
            include_directories: false,
            accept: Vec::new(),
            omit: Vec::new(),
            prepared: false,
        };
        assert(models(s.accept@) =~= Seq::empty());
        assert(models(s.omit@) =~= Seq::empty());
        s
    }

    /// Sets whether the walk descends into directories.
    pub fn with_recurse(&mut self, recurse: bool) -> (r: Result<(), ConfigurationError>)
        ensures
            old(self)@.prepared ==> r == Err::<(), ConfigurationError>(
                ConfigurationError::AlreadyPrepared,
            ) && final(self)@ == old(self)@,
            !old(self)@.prepared ==> r is Ok && final(self)@ == (Settings {
                recurse,
                ..old(self)@
            }),
    {
        if self.prepared {
            return Err(ConfigurationError::AlreadyPrepared);
        }
        self.recurse = recurse;
        Ok(())
    }

    /// Sets whether the walk lists directories beside files.
    pub fn with_directories(&mut self, include_directories: bool) -> (r: Result<
        (),
        ConfigurationError,
    >)
        ensures
            old(self)@.prepared ==> r == Err::<(), ConfigurationError>(
                ConfigurationError::AlreadyPrepared,
            ) && final(self)@ == old(self)@,
            !old(self)@.prepared ==> r is Ok && final(self)@ == (Settings {
                include_directories,
                ..old(self)@
            }),
    {
        if self.prepared {
            return Err(ConfigurationError::AlreadyPrepared);
        }
        self.include_directories = include_directories;
        Ok(())
    }

    /// Adds a pattern for the names to list.
    pub fn accept(&mut self, pattern: Pattern) -> (r: Result<(), ConfigurationError>)
        ensures
            old(self)@.prepared ==> r == Err::<(), ConfigurationError>(
                ConfigurationError::AlreadyPrepared,
            ) && final(self)@ == old(self)@,
            !old(self)@.prepared ==> r is Ok && final(self)@ == (Settings {
                accept: old(self)@.accept.push(pattern@),
                ..old(self)@
            }),
    {
        if self.prepared {
            return Err(ConfigurationError::AlreadyPrepared);
        }
        self.accept.push(pattern);
        assert(models(self.accept@) =~= models(old(self).accept@).push(pattern@));
        Ok(())
    }

    /// Adds a pattern for the names to pass over.
    pub fn omit(&mut self, pattern: Pattern) -> (r: Result<(), ConfigurationError>)
        ensures
            old(self)@.prepared ==> r == Err::<(), ConfigurationError>(
                ConfigurationError::AlreadyPrepared,
            ) && final(self)@ == old(self)@,
            !old(self)@.prepared ==> r is Ok && final(self)@ == (Settings {
                omit: old(self)@.omit.push(pattern@),
                ..old(self)@
            }),
    {
        if self.prepared {
            return Err(ConfigurationError::AlreadyPrepared);
        }
        self.omit.push(pattern);
        assert(models(self.omit@) =~= models(old(self).omit@).push(pattern@));
        Ok(())
    }

    /// Makes the settings final, before the walk starts.
    ///
    /// Patterns to accept and patterns to omit exclude each other: with both
    /// the settings are refused and stay as they are. Otherwise the default
    /// patterns join the patterns to omit, unless there are patterns to
    /// accept, and the settings take no more changes.
    pub fn prepare(&mut self, default_omit: Vec<Pattern>) -> (r: Result<(), ConfigurationError>)
        ensures
            old(self)@.prepared ==> r == Err::<(), ConfigurationError>(
                ConfigurationError::AlreadyPrepared,
            ) && final(self)@ == old(self)@,
            !old(self)@.prepared && old(self)@.accept.len() > 0 && old(self)@.omit.len() > 0 ==> {
                &&& r == Err::<(), ConfigurationError>(ConfigurationError::AcceptAndOmit)
                &&& final(self)@ == old(self)@
            },
            !old(self)@.prepared && !(old(self)@.accept.len() > 0 && old(self)@.omit.len() > 0)
                ==> r is Ok && final(self)@ == (Settings {
                omit: if old(self)@.accept.len() > 0 {
                    old(self)@.omit
                } else {
                    old(self)@.omit + models(default_omit@)
                },
                prepared: true,
                ..old(self)@
            }),
    {
        if self.prepared {
            return Err(ConfigurationError::AlreadyPrepared);
        }
        if self.accept.len() > 0 && self.omit.len() > 0 {
            return Err(ConfigurationError::AcceptAndOmit);
        }
        if self.accept.len() == 0 {
            let mut defaults: Vec<Pattern> = default_omit;
            self.omit.append(&mut defaults);
            assert(models(self.omit@) =~= models(old(self).omit@) + models(default_omit@));
        }
        self.prepared = true;
        Ok(())
    }

    /// Tells whether the settings are final.
    pub fn is_prepared(&self) -> (r: bool)
        ensures
            r == self@.prepared,
    {
        self.prepared
    }

    /// Tells whether the walk lists the entry `name` of a directory. A file
    /// is listed if its name passes the patterns; a directory, if directories
    /// are listed at all and its name passes.
    pub fn lists(&self, name: &str, is_directory: bool) -> (r: bool)
        ensures
            r == ((!is_directory || self@.include_directories) && passes(self@, name@)),
    {
        if is_directory && !self.include_directories {
            return false;
        }
        if self.accept.len() > 0 {
            fits_any(&self.accept, name)
        } else {
            !fits_any(&self.omit, name)
        }
    }

    /// Tells whether the walk descends into the directory `name`. Patterns to
    /// accept never keep the walk out of a directory; patterns to omit do.
    pub fn descends(&self, name: &str) -> (r: bool)
        ensures
            r == (self@.recurse && (self@.accept.len() > 0 || !any_matches(self@.omit, name@))),
    {
        if !self.recurse {
            return false;
        }
        if self.accept.len() > 0 {
            true
        } else {
            !fits_any(&self.omit, name)
        }
    }
}

/// `a` comes before `b` in the order of the paths, given that the two agree
/// before offset `i`: at the first offset where they differ `a` has the
/// lesser character, or `a` ends there and `b` does not.
pub open spec fn precedes_from(a: Seq<char>, b: Seq<char>, i: int) -> bool
    decreases a.len() - i,
{
    if i < 0 || i >= b.len() {
        false
    } else if i >= a.len() {
        true
    } else if a[i] != b[i] {
        (a[i] as u32) < (b[i] as u32)
    } else {
        precedes_from(a, b, i + 1)
    }
}

/// `a` comes before `b` in the order of the paths: the lexicographic order of
/// their characters.
pub open spec fn precedes(a: Seq<char>, b: Seq<char>) -> bool {
    precedes_from(a, b, 0)
}

/// The paths stand in order: none comes before one that stands before it.
pub open spec fn ordered(paths: Seq<Seq<char>>) -> bool {
    forall|i: int, j: int| 0 <= i < j < paths.len() ==> !precedes(paths[j], paths[i])
}

/// The place of `path` among `paths` from offset `i` on: the offset of the
/// first path that comes after it, or the length where there is none.
pub open spec fn rank(paths: Seq<Seq<char>>, path: Seq<char>, i: int) -> int
    decreases paths.len() - i,
{
    if 0 <= i < paths.len() && !precedes(path, paths[i]) {
        rank(paths, path, i + 1)
    } else {
        i
    }
}

proof fn lemma_not_before_itself(a: Seq<char>, i: int)
    ensures
        !precedes_from(a, a, i),
    decreases a.len() - i,
{
    if 0 <= i < a.len() {
        lemma_not_before_itself(a, i + 1);
    }
}

proof fn lemma_before_chains(a: Seq<char>, b: Seq<char>, c: Seq<char>, i: int)
    requires
        precedes_from(a, b, i),
        precedes_from(b, c, i),
    ensures
        precedes_from(a, c, i),
    decreases a.len() - i,
{
    if 0 <= i < a.len() && i < b.len() && i < c.len() {
        if a[i] == b[i] && b[i] == c[i] {
            lemma_before_chains(a, b, c, i + 1);
        }
    }
}

proof fn lemma_one_is_before(a: Seq<char>, b: Seq<char>, i: int)
    requires
        0 <= i <= a.len(),
        i <= b.len(),
        forall|j: int| 0 <= j < i ==> a[j] == b[j],
        a != b,
    ensures
        precedes_from(a, b, i) || precedes_from(b, a, i),
    decreases a.len() - i,
{
    if i < a.len() && i < b.len() {
        if a[i] == b[i] {
            lemma_one_is_before(a, b, i + 1);
        } else {
            vstd::utf8::char_u32_cast(a[i], a[i] as u32);
            vstd::utf8::char_u32_cast(b[i], b[i] as u32);
        }
    } else if i >= a.len() && i >= b.len() {
        assert(a =~= b);
    }
}

/// No path comes before itself.
pub proof fn law_order_irreflexive(a: Seq<char>)
    ensures
        !precedes(a, a),
{
    lemma_not_before_itself(a, 0);
}

/// If `a` comes before `b` and `b` before `c`, then `a` comes before `c`.
pub proof fn law_order_transitive(a: Seq<char>, b: Seq<char>, c: Seq<char>)
    requires
        precedes(a, b),
        precedes(b, c),
    ensures
        precedes(a, c),
{
    lemma_before_chains(a, b, c, 0);
}

/// Of two different paths exactly one comes before the other: the order is
/// total, so that the files of a run come out in one order only.
pub proof fn law_order_total(a: Seq<char>, b: Seq<char>)
    ensures
        a != b ==> (precedes(a, b) <==> !precedes(b, a)),
        a == b ==> !precedes(a, b),
{
    if a != b {
        lemma_one_is_before(a, b, 0);
        if precedes(a, b) && precedes(b, a) {
            lemma_before_chains(a, b, a, 0);
            lemma_not_before_itself(a, 0);
        }
    } else {
        lemma_not_before_itself(a, 0);
    }
}

proof fn lemma_rank(paths: Seq<Seq<char>>, path: Seq<char>, i: int)
    requires
        0 <= i <= paths.len(),
    ensures
        i <= rank(paths, path, i) <= paths.len(),
        forall|j: int| i <= j < rank(paths, path, i) ==> !precedes(path, #[trigger] paths[j]),
        rank(paths, path, i) < paths.len() ==> precedes(path, paths[rank(paths, path, i)]),
    decreases paths.len() - i,
{
    if i < paths.len() && !precedes(path, paths[i]) {
        lemma_rank(paths, path, i + 1);
    }
}

/// A path that is put at its place among ordered paths leaves them ordered.
pub proof fn law_insert_keeps_order(paths: Seq<Seq<char>>, path: Seq<char>)
    requires
        ordered(paths),
    ensures
        ordered(paths.insert(rank(paths, path, 0), path)),
{
    lemma_rank(paths, path, 0);
    let at: int = rank(paths, path, 0);
    let out: Seq<Seq<char>> = paths.insert(at, path);
    assert forall|i: int, j: int| 0 <= i < j < out.len() implies !precedes(out[j], out[i]) by {
        if j < at {
            assert(out[i] == paths[i] && out[j] == paths[j]);
            assert(!precedes(paths[j], paths[i]));
        } else if j == at {
            assert(out[i] == paths[i] && out[j] == path);
            assert(!precedes(path, paths[i]));
        } else if i < at {
            assert(out[i] == paths[i] && out[j] == paths[j - 1]);
            assert(!precedes(paths[j - 1], paths[i]));
        } else if i == at {
            assert(out[i] == path && out[j] == paths[j - 1]);
            assert(precedes(path, paths[at]));
            if precedes(paths[j - 1], path) {
                lemma_before_chains(paths[j - 1], path, paths[at], 0);
                if j - 1 == at {
                    lemma_not_before_itself(paths[at], 0);
                } else {
                    assert(!precedes(paths[j - 1], paths[at]));
                }
            }
        } else {
            assert(out[i] == paths[i - 1] && out[j] == paths[j - 1]);
            assert(!precedes(paths[j - 1], paths[i - 1]));
        }
    }
}

/// Tells whether `a` comes before `b` in the order of the paths.
pub fn comes_before(a: &str, b: &str) -> (r: bool)
    ensures
        r == precedes(a@, b@),
{
    let x: Vec<char> = chars_of(a);
    let y: Vec<char> = chars_of(b);
    let mut i: usize = 0;
    loop
        invariant
            x@ == a@,
            y@ == b@,
            i <= x.len(),
            precedes(a@, b@) == precedes_from(a@, b@, i as int),
        decreases x.len() - i,
    {
        if i >= y.len() {
            return false;
        }
        if i >= x.len() {
            return true;
        }
        if x[i] != y[i] {
            return (x[i] as u32) < (y[i] as u32);
        }
        i = i + 1;
    }
}

/// Puts `path` at its place among `files`: behind the paths that do not come
/// after it and before the first that does. Files that stood in order stand
/// in order afterwards.
pub fn insert_ordered(files: &mut Vec<String>, path: String)
    ensures
        texts(final(files)@) == texts(old(files)@).insert(
            rank(texts(old(files)@), path@, 0),
            path@,
        ),
        ordered(texts(old(files)@)) ==> ordered(texts(final(files)@)),
{
    let mut k: usize = 0;
    while k < files.len() && !comes_before(path.as_str(), files[k].as_str())
        invariant
            k <= files.len(),
            files@ == old(files)@,
            rank(texts(files@), path@, 0) == rank(texts(files@), path@, k as int),
        decreases files.len() - k,
    {
        k = k + 1;
    }
    proof {
        if ordered(texts(files@)) {
            law_insert_keeps_order(texts(files@), path@);
        }
    }
    let ghost before: Seq<String> = files@;
    let ghost value: Seq<char> = path@;
    files.insert(k, path);
    assert(texts(files@) =~= texts(before).insert(k as int, value));
}

} // verus!
