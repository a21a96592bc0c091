//! The glob matching that path patterns rely on, provided by `globset`.
//!
//! Every pattern is compiled the one way this tool compiles patterns:
//! `GlobBuilder::new(pattern).literal_separator(true)`, so `*` and `?` never
//! match `/`. The names below speak of globs compiled that way. What a glob
//! matches is deterministic for a given target platform (globset escapes
//! with `\` on Unix and treats it as a separator on Windows).
use vstd::prelude::*;

use globset::{Glob, GlobBuilder, GlobSet, GlobSetBuilder};

verus! {

/// `globset::Glob`, a compiled glob, carried opaquely.
#[verifier::external_type_specification]
#[verifier::external_body]
pub struct ExGlob(Glob);

/// `globset::GlobSet`, a compiled set of globs, carried opaquely.
#[verifier::external_type_specification]
#[verifier::external_body]
pub struct ExGlobSet(GlobSet);

/// `globset::GlobSetBuilder`, carried opaquely.
#[verifier::external_type_specification]
#[verifier::external_body]
pub struct ExGlobSetBuilder(GlobSetBuilder);

/// `globset::Error`, carried opaquely.
#[verifier::external_type_specification]
#[verifier::external_body]
pub struct ExGlobError(globset::Error);

/// Whether `pattern` parses as a glob (compiled with a literal separator).
pub uninterp spec fn glob_compiles(pattern: Seq<char>) -> bool;

/// Whether the glob compiled from `pattern` by `build_glob` matches `path`.
pub uninterp spec fn glob_matches(pattern: Seq<char>, path: Seq<char>) -> bool;

/// The pattern text that a compiled glob holds (`Glob::glob`).
pub uninterp spec fn glob_source(glob: Glob) -> Seq<char>;

/// The patterns of the globs that a set builder holds, in the order added.
pub uninterp spec fn builder_sources(builder: GlobSetBuilder) -> Seq<Seq<char>>;

/// The patterns of the globs that a built set holds, in the order added.
pub uninterp spec fn set_sources(set: GlobSet) -> Seq<Seq<char>>;

/// Whether a set of the globs that `build_glob` compiles from the given
/// patterns builds (`GlobSetBuilder::build`).
pub uninterp spec fn glob_set_builds(patterns: Seq<Seq<char>>) -> bool;

/// Whether some pattern of `patterns` matches `path`.
pub open spec fn any_glob_matches(patterns: Seq<Seq<char>>, path: Seq<char>) -> bool {
    exists|i: int| 0 <= i < patterns.len() && glob_matches(#[trigger] patterns[i], path)
}

/// A glob compiled by `build_glob`, the only function that makes one: from
/// the pattern it keeps, with `literal_separator` set and every other option
/// left as `GlobBuilder::new` sets it.
pub struct PathGlob {
    pub(crate) glob: Glob,
}

/// A set builder that `new_glob_set_builder` made and only `add_glob` added
/// to, so that it holds globs of `build_glob` alone.
pub struct PathGlobSetBuilder {
    pub(crate) builder: GlobSetBuilder,
}

/// A glob set that `build_glob_set` built from a `PathGlobSetBuilder`, the
/// only way one is made.
pub struct PathGlobSet {
    pub(crate) set: GlobSet,
}

/// `GlobBuilder::new(pattern).literal_separator(true).build()`: succeeds
/// exactly when the pattern parses, and the glob keeps the pattern text.
#[verifier::external_body]
pub(crate) fn build_glob(pattern: &str) -> (res: Result<PathGlob, globset::Error>)
    ensures
        res is Ok <==> glob_compiles(pattern@),
        res matches Ok(g) ==> glob_source(g.glob) == pattern@,
{
    GlobBuilder::new(pattern).literal_separator(true).build().map(|glob| PathGlob { glob })
}

/// `GlobSetBuilder::new`: a builder holding no glob.
#[verifier::external_body]
pub(crate) fn new_glob_set_builder() -> (res: PathGlobSetBuilder)
    ensures
        builder_sources(res.builder) == Seq::<Seq<char>>::empty(),
{
    PathGlobSetBuilder { builder: GlobSetBuilder::new() }
}

/// `GlobSetBuilder::add`: appends the glob to the builder's list.
#[verifier::external_body]
pub(crate) fn add_glob(builder: &mut PathGlobSetBuilder, glob: PathGlob)
    ensures
        builder_sources(final(builder).builder) == builder_sources(old(builder).builder).push(glob_source(glob.glob)),
{
    builder.builder.add(glob.glob);
}

/// `GlobSetBuilder::build`: the set holds the builder's globs; as they all
/// come from `build_glob`, whether it builds depends on their patterns alone.
#[verifier::external_body]
pub(crate) fn build_glob_set(builder: &PathGlobSetBuilder) -> (res: Result<PathGlobSet, globset::Error>)
    ensures
        res is Ok <==> glob_set_builds(builder_sources(builder.builder)),
        res matches Ok(s) ==> set_sources(s.set) == builder_sources(builder.builder),
{
    builder.builder.build().map(|set| PathGlobSet { set })
}

/// `GlobSet::is_match`: true when any glob of the set matches the path; as
/// the globs all come from `build_glob`, each matches as its pattern,
/// compiled that way, does.
#[verifier::external_body]
pub(crate) fn glob_set_is_match(set: &PathGlobSet, path: &str) -> (res: bool)
    ensures
        res == (exists|i: int|
            0 <= i < set_sources(set.set).len() && glob_matches(#[trigger] set_sources(set.set)[i], path@)),
{
    set.set.is_match(path)
}

} // verus!
