//! Path ignoring from configured glob patterns (`"vendor/**"`,
//! `"third_party/**"`, ...): one compiled matcher, queried per path.
//!
//! Glob parsing and matching are globset's; this module records which
//! patterns went into the matcher, so that its contracts speak of them.

use vstd::prelude::*;

verus! {

#[verifier::external_type_specification]
#[verifier::external_body]
pub struct ExGlob(globset::Glob);

#[verifier::external_type_specification]
#[verifier::external_body]
pub struct ExGlobSet(globset::GlobSet);

#[verifier::external_type_specification]
#[verifier::external_body]
pub struct ExGlobSetBuilder(globset::GlobSetBuilder);

#[verifier::external_type_specification]
#[verifier::external_body]
pub struct ExGlobError(globset::Error);

/// Whether `globset::Glob::new` accepts `pattern` (default options).
pub uninterp spec fn glob_parses(pattern: Seq<char>) -> bool;

/// The original pattern a `globset::Glob` was built from.
pub uninterp spec fn glob_source(g: globset::Glob) -> Seq<char>;

/// The patterns of the globs a `globset::GlobSetBuilder` holds, in the
/// order they were added.
pub uninterp spec fn builder_globs(b: globset::GlobSetBuilder) -> Seq<Seq<char>>;

/// The patterns of the globs a `globset::GlobSet` was built from.
pub uninterp spec fn set_globs(s: globset::GlobSet) -> Seq<Seq<char>>;

/// Whether `globset::GlobSetBuilder::build` succeeds on these patterns.
pub uninterp spec fn globs_build(globs: Seq<Seq<char>>) -> bool;

/// Whether a glob set built from these patterns matches `path`
/// (`globset::GlobSet::is_match`).
pub uninterp spec fn glob_set_matches(globs: Seq<Seq<char>>, path: Seq<char>) -> bool;

/// `globset::Glob::new`: parses `pattern` with default options. The glob
/// it returns keeps its original pattern (`Glob::glob`).
#[verifier::external_body]
fn glob_new(pattern: &str) -> (r: Result<globset::Glob, globset::Error>)
    ensures
        r is Ok <==> glob_parses(pattern@),
        r matches Ok(g) ==> glob_source(g) == pattern@,
{
    globset::Glob::new(pattern)
}

/// `globset::GlobSetBuilder::new`: a builder holding no globs.
#[verifier::external_body]
fn builder_new() -> (r: globset::GlobSetBuilder)
    ensures
        builder_globs(r) == Seq::<Seq<char>>::empty(),
{
    globset::GlobSetBuilder::new()
}

/// `globset::GlobSetBuilder::add`: appends `g` to the builder's globs.
#[verifier::external_body]
fn builder_add(b: &mut globset::GlobSetBuilder, g: globset::Glob)
    ensures
        builder_globs(*final(b)) == builder_globs(*old(b)).push(glob_source(g)),
{
    b.add(g);
}

/// `globset::GlobSetBuilder::build`: compiles the builder's globs into a
/// set. It always succeeds on no globs (an empty set); otherwise success
/// depends on the patterns alone.
#[verifier::external_body]
fn builder_build(b: &globset::GlobSetBuilder) -> (r: Result<globset::GlobSet, globset::Error>)
    ensures
        r is Ok <==> globs_build(builder_globs(*b)),
        builder_globs(*b).len() == 0 ==> r is Ok,
        r matches Ok(s) ==> set_globs(s) == builder_globs(*b),
{
    b.build()
}

/// `globset::GlobSet::empty`: a set built from no globs.
#[verifier::external_body]
fn glob_set_empty() -> (r: globset::GlobSet)
    ensures
        set_globs(r) == Seq::<Seq<char>>::empty(),
{
    globset::GlobSet::empty()
}

/// `globset::GlobSet::is_match` on `path`. A set of no globs matches
/// nothing.
#[verifier::external_body]
fn glob_set_is_match(s: &globset::GlobSet, path: &str) -> (r: bool)
    ensures
        r == glob_set_matches(set_globs(*s), path@),
        set_globs(*s).len() == 0 ==> !r,
{
    s.is_match(path)
}

/// The text of a `globset::Error` (its `Display`). Nothing is claimed of
/// the wording.
#[verifier::external_body]
fn glob_error_message(e: &globset::Error) -> String {
    format!("{}", e)
}

/// Why a set of ignore patterns could not be compiled.
#[derive(Debug, Clone, PartialEq, Eq)]
pub enum PathIgnoreError {
    /// Pattern `index` (in input order) is not a valid glob.
    InvalidPattern {
        index: usize,
        pattern: String,
        message: String,
    },
    /// Every pattern is valid, but the combined matcher could not be built.
    Build { message: String },
}

/// The views of a list of patterns.
pub open spec fn patterns_view(ps: Seq<&str>) -> Seq<Seq<char>> {
    ps.map_values(|p: &str| p@)
}

/// The first position from `k` on holding a pattern that does not parse,
/// if any.
pub open spec fn first_invalid_from(ps: Seq<Seq<char>>, k: int) -> Option<int>
    decreases ps.len() - k,
{
    if k < 0 || k >= ps.len() {
        None
    } else if !glob_parses(ps[k]) {
        Some(k)
    } else {
        first_invalid_from(ps, k + 1)
    }
}

/// A compiled set of glob ignore patterns, ready for repeated
/// [`PathIgnore::is_ignored`] lookups.
pub struct PathIgnore {
    set: globset::GlobSet,
}

impl View for PathIgnore {
    type V = Seq<Seq<char>>;

    /// The patterns the matcher was compiled from.
    closed spec fn view(&self) -> Seq<Seq<char>> {
        set_globs(self.set)
    }
}

impl PathIgnore {
    /// Compiles `patterns` (e.g. `"vendor/**"`) into a matcher. Fails with
    /// [`PathIgnoreError::InvalidPattern`] at the first pattern that is
    /// not a valid glob, and with [`PathIgnoreError::Build`] when all are
    /// valid but the set does not compile.
    pub fn new(patterns: &[&str]) -> (r: Result<PathIgnore, PathIgnoreError>)
        ensures
            first_invalid_from(patterns_view(patterns@), 0) is None && globs_build(patterns_view(patterns@))
                <==> r is Ok,
            r matches Ok(pi) ==> pi@ == patterns_view(patterns@),
            r matches Err(PathIgnoreError::InvalidPattern { index, pattern, .. }) ==> first_invalid_from(
                patterns_view(patterns@),
                0,
            ) == Some(index as int) && pattern@ == patterns@[index as int]@,
            r matches Err(PathIgnoreError::Build { .. }) ==> first_invalid_from(patterns_view(patterns@), 0) is None
                && !globs_build(patterns_view(patterns@)),
    {
        let ghost ps = patterns_view(patterns@);
        let mut builder = builder_new();
        let mut i: usize = 0;
        while i < patterns.len()
            invariant
                ps == patterns_view(patterns@),
                i <= patterns.len(),
                builder_globs(builder) == ps.take(i as int),
                first_invalid_from(ps, 0) == first_invalid_from(ps, i as int),
            decreases patterns.len() - i,
        {
            let pattern = patterns[i];
            match glob_new(pattern) {
                Ok(g) => {
                    builder_add(&mut builder, g);
                    assert(ps.take(i as int).push(ps[i as int]) =~= ps.take(i + 1));
                },
                Err(e) => {
                    let message = glob_error_message(&e);
                    return Err(PathIgnoreError::InvalidPattern { index: i, pattern: pattern.to_owned(), message });
                },
            }
            i = i + 1;
        }
        assert(ps.take(i as int) =~= ps);
        match builder_build(&builder) {
            Ok(set) => Ok(PathIgnore { set }),
            Err(e) => Err(PathIgnoreError::Build { message: glob_error_message(&e) }),
        }
    }

    /// An ignore set that matches nothing: the default when no ignore
    /// patterns are configured.
    pub fn empty() -> (r: PathIgnore)
        ensures
            r@ == Seq::<Seq<char>>::empty(),
    {
        PathIgnore { set: glob_set_empty() }
    }

    /// Whether `path` matches any of the compiled patterns. A matcher of no
    /// patterns ignores nothing.
    pub fn is_ignored(&self, path: &str) -> (r: bool)
        ensures
            r == glob_set_matches(self@, path@),
            self@.len() == 0 ==> !r,
    {
        glob_set_is_match(&self.set, path)
    }
}

} // verus!
