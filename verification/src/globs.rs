//! Selecting files by the configured scan globs, through `globset`.
use vstd::prelude::*;
use crate::text::str_views;
use globset::{Glob, GlobSet, GlobSetBuilder};

verus! {

#[verifier::external_type_specification]
#[verifier::external_body]
pub struct ExGlob(globset::Glob);

#[verifier::external_type_specification]
#[verifier::external_body]
pub struct ExGlobSet(globset::GlobSet);

#[verifier::external_type_specification]
#[verifier::external_body]
pub struct ExGlobSetBuilder(globset::GlobSetBuilder);

#[verifier::external_type_specification]
#[verifier::external_body]
pub struct ExGlobError(globset::Error);

/// Whether `Glob::new` accepts `pattern` (default options).
pub uninterp spec fn glob_parses(pattern: Seq<char>) -> bool;

/// What `Glob::glob` returns: the pattern the glob was built from.
pub uninterp spec fn glob_text(glob: Glob) -> Seq<char>;

/// The patterns added to a builder, in order (its contents).
pub uninterp spec fn builder_globs(builder: GlobSetBuilder) -> Seq<Seq<char>>;

/// Whether `GlobSetBuilder::build` succeeds on globs built from `patterns`.
pub uninterp spec fn set_builds(patterns: Seq<Seq<char>>) -> bool;

/// The patterns of the globs a set was built from (its contents).
pub uninterp spec fn set_globs(set: GlobSet) -> Seq<Seq<char>>;

/// Whether the glob built from `pattern` matches `path`.
pub uninterp spec fn glob_matches(pattern: Seq<char>, path: Seq<char>) -> bool;

/// `Glob::new`: succeeds exactly when the pattern parses, and the glob
/// keeps the pattern it was built from (`Glob::glob` gives it back).
#[verifier::external_body]
fn new_glob(pattern: &str) -> (r: Result<Glob, globset::Error>)
    ensures
        r is Ok == glob_parses(pattern@),
        r matches Ok(g) ==> glob_text(g) == pattern@,
{
    Glob::new(pattern)
}

/// `GlobSetBuilder::new`: a builder with no globs.
#[verifier::external_body]
fn new_builder() -> (b: GlobSetBuilder)
    ensures
        builder_globs(b) == Seq::<Seq<char>>::empty(),
{
    GlobSetBuilder::new()
}

/// `GlobSetBuilder::add`: appends the glob to the builder's list.
#[verifier::external_body]
fn add_glob(builder: &mut GlobSetBuilder, glob: Glob)
    ensures
        builder_globs(*final(builder)) == builder_globs(*old(builder)).push(glob_text(glob)),
{
    builder.add(glob);
}

/// `GlobSetBuilder::build`: a set of exactly the builder's globs, or an
/// error, decided by those globs alone.
#[verifier::external_body]
fn build_set(builder: &GlobSetBuilder) -> (r: Result<GlobSet, globset::Error>)
    ensures
        r is Ok == set_builds(builder_globs(*builder)),
        r matches Ok(s) ==> set_globs(s) == builder_globs(*builder),
{
    builder.build()
}

/// `GlobSet::is_match`: whether any glob of the set matches the path.
#[verifier::external_body]
fn set_is_match(set: &GlobSet, path: &str) -> (r: bool)
    ensures
        r == (exists|i: int| 0 <= i && i < set_globs(*set).len() && #[trigger] glob_matches(set_globs(*set)[i], path@)),
{
    set.is_match(path)
}

/// The `Display` text of a `globset::Error`; nothing is stated of it.
#[verifier::external_body]
fn glob_error_text(e: &globset::Error) -> (r: String) {
    format!("{}", e)
}

/// Whether any of `patterns` matches `path`.
pub open spec fn any_matches(patterns: Seq<Seq<char>>, path: Seq<char>) -> bool {
    exists|i: int| 0 <= i < patterns.len() && glob_matches(#[trigger] patterns[i], path)
}

/// Why the scan globs could not be compiled.
#[derive(Debug, Clone, PartialEq, Eq)]
pub enum GlobError {
    /// A pattern failed to parse; `detail` is globset's explanation.
    Invalid { glob: String, detail: String },
    /// The set as a whole could not be built.
    Build { detail: String },
}

/// The index of the first pattern that does not parse.
pub open spec fn first_bad_glob(patterns: Seq<Seq<char>>) -> Option<int>
    decreases patterns.len(),
{
    if patterns.len() == 0 {
        None
    } else {
        match first_bad_glob(patterns.drop_last()) {
            Some(i) => Some(i),
            None => if glob_parses(patterns.last()) {
                None
            } else {
                Some(patterns.len() - 1)
            },
        }
    }
}

proof fn lemma_first_bad_glob(patterns: Seq<Seq<char>>)
    ensures
        match first_bad_glob(patterns) {
            Some(i) => 0 <= i < patterns.len() && !glob_parses(patterns[i])
                && forall|j: int| 0 <= j < i ==> glob_parses(#[trigger] patterns[j]),
            None => forall|j: int| 0 <= j < patterns.len() ==> glob_parses(#[trigger] patterns[j]),
        },
    decreases patterns.len(),
{
    if patterns.len() > 0 {
        lemma_first_bad_glob(patterns.drop_last());
        assert forall|j: int| 0 <= j < patterns.len() - 1 implies #[trigger] patterns[j] == patterns.drop_last()[j] by {}
    }
}

/// A compiled list of scan globs: a relative path is selected when any of
/// them matches it.
pub struct GlobFilter {
    set: GlobSet,
}

impl GlobFilter {
    /// The patterns the filter was compiled from, in order.
    pub closed spec fn patterns(&self) -> Seq<Seq<char>> {
        set_globs(self.set)
    }

    /// Compiles `globs`, in order. The first pattern that does not parse is
    /// reported; when all parse but the set cannot be built, that is
    /// reported.
    pub fn compile(globs: &Vec<String>) -> (r: Result<GlobFilter, GlobError>)
        ensures
            match first_bad_glob(str_views(globs@)) {
                Some(i) => r matches Err(GlobError::Invalid { glob, .. }) && glob@ == globs@[i]@,
                None => if set_builds(str_views(globs@)) {
                    r matches Ok(f) && f.patterns() == str_views(globs@)
                } else {
                    r matches Err(GlobError::Build { .. })
                },
            },
    {
        let ghost pats = str_views(globs@);
        let mut builder = new_builder();
        let mut i: usize = 0;
        while i < globs.len()
            invariant
                i <= globs@.len(),
                pats == str_views(globs@),
                builder_globs(builder) == pats.take(i as int),
                first_bad_glob(pats.take(i as int)) is None,
            decreases globs.len() - i,
        {
            assert(pats.take(i + 1).drop_last() =~= pats.take(i as int));
            assert(pats.take(i + 1).last() == globs@[i as int]@);
            match new_glob(globs[i].as_str()) {
                Ok(g) => {
                    add_glob(&mut builder, g);
                    assert(builder_globs(builder) =~= pats.take(i + 1));
                },
                Err(e) => {
                    proof {
                        lemma_first_bad_glob(pats.take(i + 1));
                        let t = pats.take(i + 1);
                        assert(first_bad_glob(t) == Some(i as int));
                        lemma_first_bad_prefix(pats, i + 1);
                    }
                    return Err(GlobError::Invalid { glob: globs[i].clone(), detail: glob_error_text(&e) });
                },
            }
            i = i + 1;
        }
        assert(pats.take(globs@.len() as int) =~= pats);
        match build_set(&builder) {
            Ok(set) => Ok(GlobFilter { set }),
            Err(e) => Err(GlobError::Build { detail: glob_error_text(&e) }),
        }
    }

    /// Whether any of the patterns matches the relative path `path`.
    pub fn is_match(&self, path: &str) -> (r: bool)
        ensures
            r == any_matches(self.patterns(), path@),
    {
        set_is_match(&self.set, path)
    }
}

/// A first bad pattern in a prefix is the first bad pattern of the whole.
proof fn lemma_first_bad_prefix(patterns: Seq<Seq<char>>, n: int)
    requires
        0 <= n <= patterns.len(),
        first_bad_glob(patterns.take(n)) is Some,
    ensures
        first_bad_glob(patterns) == first_bad_glob(patterns.take(n)),
    decreases patterns.len() - n,
{
    if n < patterns.len() {
        assert(patterns.take(n + 1).drop_last() =~= patterns.take(n));
        lemma_first_bad_prefix(patterns, n + 1);
    } else {
        assert(patterns.take(n) =~= patterns);
    }
}

} // verus!
