//! Glob patterns and sets of them, matched by the `globset` crate as the
//! platform the crate is built for has it.

use vstd::prelude::*;
use crate::rows::text_views;

verus! {

/// `globset::GlobSet`, of which only its patterns are told.
#[verifier::external_type_specification]
#[verifier::external_body]
pub struct ExGlobSet(globset::GlobSet);

/// `globset::GlobSetBuilder`, of which only its patterns are told.
#[verifier::external_type_specification]
#[verifier::external_body]
pub struct ExGlobSetBuilder(globset::GlobSetBuilder);

/// `globset::Error`, of which nothing is told.
#[verifier::external_type_specification]
#[verifier::external_body]
pub struct ExGlobError(globset::Error);

/// The patterns that a glob set was built from, in the order they were
/// added, each a glob with the options that `globset::Glob::new` gives it.
pub uninterp spec fn glob_set_patterns(set: globset::GlobSet) -> Seq<Seq<char>>;

/// The patterns added to a builder so far, in the order they were added.
pub uninterp spec fn builder_patterns(builder: globset::GlobSetBuilder) -> Seq<Seq<char>>;

/// Whether `globset::Glob::new` accepts the pattern.
pub uninterp spec fn glob_parses(pattern: Seq<char>) -> bool;

/// Whether `globset::GlobSetBuilder::build` makes a set of the patterns.
pub uninterp spec fn glob_set_builds(patterns: Seq<Seq<char>>) -> bool;

/// Whether a set built from the patterns matches the path: what
/// `globset::GlobSet::is_match` returns.
pub uninterp spec fn glob_set_matches(patterns: Seq<Seq<char>>, path: Seq<char>) -> bool;

/// Why a list of patterns made no glob set.
#[derive(Debug, Clone, Copy, PartialEq, Eq, Structural)]
pub enum GlobError {
    /// The pattern at this position is no glob.
    Pattern(usize),
    /// Each pattern is a glob, but no set could be built of them.
    Build,
}

/// `globset::GlobSetBuilder::new`: a builder without patterns.
#[verifier::external_body]
fn builder_new() -> (builder: globset::GlobSetBuilder)
    ensures
        builder_patterns(builder) == Seq::<Seq<char>>::empty(),
{
    globset::GlobSetBuilder::new()
}

/// `globset::Glob::new` and, where it accepts the pattern,
/// `globset::GlobSetBuilder::add`: the pattern joins the builder's patterns
/// at the end. A pattern that is no glob leaves the builder as it was.
#[verifier::external_body]
fn builder_add(builder: &mut globset::GlobSetBuilder, pattern: &str) -> (result: Result<
    (),
    globset::Error,
>)
    ensures
        result is Ok == glob_parses(pattern@),
        result is Ok ==> builder_patterns(*final(builder)) == builder_patterns(*old(builder)).push(
            pattern@,
        ),
        result is Err ==> builder_patterns(*final(builder)) == builder_patterns(*old(builder)),
{
    builder.add(globset::Glob::new(pattern)?);
    Ok(())
}

/// `globset::GlobSetBuilder::build`: a set of the builder's patterns, which
/// can fail only where there is a pattern.
#[verifier::external_body]
fn builder_build(builder: &globset::GlobSetBuilder) -> (result: Result<
    globset::GlobSet,
    globset::Error,
>)
    ensures
        result is Ok == glob_set_builds(builder_patterns(*builder)),
        builder_patterns(*builder).len() == 0 ==> result is Ok,
        result is Ok ==> glob_set_patterns(result->Ok_0) == builder_patterns(*builder),
{
    builder.build()
}

/// `globset::GlobSet::is_empty`: whether the set was built from no pattern.
#[verifier::external_body]
pub(crate) fn set_is_empty(set: &globset::GlobSet) -> (empty: bool)
    ensures
        empty == (glob_set_patterns(*set).len() == 0),
{
    set.is_empty()
}

/// `globset::GlobSet::is_match`: whether any glob of the set matches the
/// path. A set without patterns matches nothing.
#[verifier::external_body]
pub(crate) fn set_is_match(set: &globset::GlobSet, path: &str) -> (hit: bool)
    ensures
        hit == glob_set_matches(glob_set_patterns(*set), path@),
        glob_set_patterns(*set).len() == 0 ==> !hit,
{
    set.is_match(path)
}

/// Every pattern before position `n` is a glob.
pub open spec fn all_parse(patterns: Seq<Seq<char>>, n: int) -> bool {
    forall|k: int| 0 <= k < n ==> glob_parses(#[trigger] patterns[k])
}

/// The glob set of the patterns. An empty list always gives a set, which
/// matches nothing.
pub fn build_globset(patterns: &Vec<String>) -> (result: Result<globset::GlobSet, GlobError>)
    ensures
        match result {
            Ok(set) => glob_set_patterns(set) == text_views(patterns@) && all_parse(
                text_views(patterns@),
                patterns@.len() as int,
            ) && glob_set_builds(text_views(patterns@)),
            Err(GlobError::Pattern(i)) => i < patterns@.len() && !glob_parses(patterns@[i as int]@)
                && all_parse(text_views(patterns@), i as int),
            Err(GlobError::Build) => patterns@.len() > 0 && all_parse(
                text_views(patterns@),
                patterns@.len() as int,
            ) && !glob_set_builds(text_views(patterns@)),
        },
        patterns@.len() == 0 ==> result is Ok,
{
    let ghost texts = text_views(patterns@);
    let mut builder = builder_new();
    let mut i: usize = 0;
    while i < patterns.len()
        invariant
            i <= patterns.len(),
            texts == text_views(patterns@),
            builder_patterns(builder) =~= texts.take(i as int),
            all_parse(texts, i as int),
        decreases patterns.len() - i,
    {
        match builder_add(&mut builder, patterns[i].as_str()) {
            Ok(()) => {},
            Err(_) => {
                return Err(GlobError::Pattern(i));
            },
        }
        proof {
            texts.lemma_take_succ_push(i as int);
        }
        i += 1;
    }
    proof {
        assert(texts.take(i as int) =~= texts);
    }
    match builder_build(&builder) {
        Ok(set) => Ok(set),
        Err(_) => Err(GlobError::Build),
    }
}

} // verus!
