//! The searches that a collection is made of. This module builds the glob
//! walkers; whoever runs them reads the disk.

use vstd::prelude::*;
use crate::error::RefolderError;

verus! {

/// The walker of the `globwalk` crate: an iterator over the entries under a
/// root that match a pattern. Opaque here.
#[verifier::external_type_specification]
#[verifier::external_body]
pub struct ExGlobWalker(globwalk::GlobWalker);

/// An entry that a walker yields. Opaque here, and named in no signature of
/// this library: it is declared because `GlobWalker` is an `Iterator` over
/// such entries, and Verus reads that impl with the type.
#[verifier::external_type_specification]
#[verifier::external_body]
pub struct ExDirEntry(globwalk::DirEntry);

/// The error that a walker yields where it cannot read an entry. Opaque
/// here, and declared for the same reason as the entry.
#[verifier::external_type_specification]
#[verifier::external_body]
pub struct ExWalkError(globwalk::WalkError);

/// How `globwalk` answers these settings when a walker is built from them:
/// `None` where it builds one, else the text with which it refuses. The
/// pattern grammar is the crate's own (that of gitignore), so the answer is
/// named here and not restated.
pub uninterp spec fn glob_refusal(
    root: Seq<char>,
    pattern: Seq<char>,
    case_insensitive: bool,
    max_depth: usize,
) -> Option<Seq<char>>;

/// Builds a walker with `globwalk::GlobWalkerBuilder`: `from_patterns` with
/// the one pattern under `root`, then `case_insensitive`, `max_depth` and
/// `build`; a `GlobError` is handed back as its text, which `to_string`
/// gives. Trusted: Verus does not read the body. Building parses the pattern
/// and reads no directory, so whether it succeeds, and the text of a
/// refusal, depend on the arguments alone; the contract claims that and no
/// more.
#[verifier::external_body]
fn build_walker(root: &str, pattern: &str, case_insensitive: bool, max_depth: usize) -> (built:
    Result<globwalk::GlobWalker, String>)
    ensures
        match built {
            Ok(_) => glob_refusal(root@, pattern@, case_insensitive, max_depth) is None,
            Err(refusal) => glob_refusal(root@, pattern@, case_insensitive, max_depth) == Some(
                refusal@,
            ),
        },
{
    let builder = globwalk::GlobWalkerBuilder::from_patterns(root, &[pattern]);
    match builder.case_insensitive(case_insensitive).max_depth(max_depth).build() {
        Ok(walker) => Ok(walker),
        Err(refusal) => Err(refusal.to_string()),
    }
}

/// How deep the search of the base folder goes: through every level when
/// `recursive`, else only over what lies directly in it.
pub open spec fn walk_depth(recursive: bool) -> usize {
    if recursive {
        usize::MAX
    } else {
        1
    }
}

/// Turns the outcome of building a walker into the library's own terms: the
/// walker itself, or a glob error that names the root and carries the text
/// of the refusal.
pub fn walker_or_error(root: &str, built: Result<globwalk::GlobWalker, String>) -> (res: Result<
    globwalk::GlobWalker,
    RefolderError,
>)
    ensures
        match built {
            Ok(walker) => res == Ok::<globwalk::GlobWalker, RefolderError>(walker),
            Err(refusal) => res matches Err(RefolderError::Glob { root: named, cause })
                && named@ == root@ && cause@ == refusal@,
        },
{
    match built {
        Ok(walker) => Ok(walker),
        Err(refusal) => Err(RefolderError::Glob { root: String::from_str(root), cause: refusal }),
    }
}

/// The walker for the search of the base folder: it is set to match
/// `pattern` without regard to case, at any depth when `recursive` and
/// directly under `base` otherwise. Fails exactly when the pattern is
/// refused, with a glob error that names `base` and carries the refusal.
/// `base` is meant to be the canonical path of the folder: a walker relates
/// what it finds to its root as the root is written.
pub fn primary_walker(base: &str, pattern: &str, recursive: bool) -> (res: Result<
    globwalk::GlobWalker,
    RefolderError,
>)
    ensures
        match glob_refusal(base@, pattern@, true, walk_depth(recursive)) {
            None => res is Ok,
            Some(refusal) => res matches Err(RefolderError::Glob { root, cause }) && root@ == base@
                && cause@ == refusal,
        },
{
    let depth: usize = if recursive {
        usize::MAX
    } else {
        1
    };
    walker_or_error(base, build_walker(base, pattern, true, depth))
}

/// The walker for the search of one earlier destination folder: it is set
/// to match `pattern` without regard to case, as the search of the base
/// does, and directly under `folder` only. `folder` is meant to be a
/// canonical path too. Fails exactly when the pattern is refused, with a
/// glob error that names `folder` and carries the refusal.
pub fn redo_walker(folder: &str, pattern: &str) -> (res: Result<globwalk::GlobWalker, RefolderError>)
    ensures
        match glob_refusal(folder@, pattern@, true, 1) {
            None => res is Ok,
            Some(refusal) => res matches Err(RefolderError::Glob { root, cause }) && root@ == folder@
                && cause@ == refusal,
        },
{
    walker_or_error(folder, build_walker(folder, pattern, true, 1))
}

} // verus!
