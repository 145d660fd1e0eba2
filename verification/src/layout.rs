use vstd::prelude::*;
use vstd::string::*;
use crate::text::{child_path, join_path};

verus! {

/// What to do about the working directory before the walk.
#[derive(Clone, Copy, Debug, PartialEq, Eq)]
pub enum DirDecision {
    /// Nothing is at the path: create the directory.
    Create,
    /// The directory is there: use it.
    Use,
    /// Something else is at the path: give up.
    Reject,
}

/// What is to be done about a working directory whose path exists or
/// not, and is a directory or not.
pub open spec fn decided(exists: bool, is_dir: bool) -> DirDecision {
    if !exists {
        DirDecision::Create
    } else if is_dir {
        DirDecision::Use
    } else {
        DirDecision::Reject
    }
}

/// Decides what to do about the working directory, from whether its path
/// exists and whether it is a directory.
pub fn working_dir_decision(exists: bool, is_dir: bool) -> (decision: DirDecision)
    ensures
        decision == decided(exists, is_dir),
{
    if !exists {
        DirDecision::Create
    } else if is_dir {
        DirDecision::Use
    } else {
        DirDecision::Reject
    }
}

/// The path of the working directory: `cargo-patch` directly under the
/// current directory.
pub fn working_dir(current_dir: &str) -> (path: String)
    ensures
        path@ == child_path(current_dir@, "cargo-patch"@),
{
    join_path(current_dir, "cargo-patch")
}

/// The path of the manifest of the package whose source root is
/// `directory`.
pub fn manifest_in(directory: &str) -> (path: String)
    ensures
        path@ == child_path(directory@, "Cargo.toml"@),
{
    join_path(directory, "Cargo.toml")
}

/// The line that tells the user what happens to a package that is to be
/// materialized: it is copied, or skipped where its copy is there already.
pub fn copy_notice(name: &str, present: bool) -> (line: String)
    ensures
        line@ == if present {
            "Skipping "@ + name@
        } else {
            "Copying "@ + name@ + "..."@
        },
{
    if present {
        String::from_str("Skipping ").concat(name)
    } else {
        String::from_str("Copying ").concat(name).concat("...")
    }
}

} // verus!
