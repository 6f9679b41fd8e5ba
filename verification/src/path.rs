//! Paths of the file system, and the clock.

use std::path::PathBuf;
use std::time::Instant;

use vstd::prelude::*;

verus! {

#[verifier::external_type_specification]
#[verifier::external_body]
pub struct ExPathBuf(std::path::PathBuf);

#[verifier::external_type_specification]
#[verifier::external_body]
pub struct ExInstant(std::time::Instant);

/// `PathBuf::eq` compares paths by their components. Paths that compare equal
/// are taken for the same path throughout.
#[verifier::external_body]
pub(crate) fn same_path(one: &PathBuf, other: &PathBuf) -> (res: bool)
    ensures
        res == (*one == *other),
{
    one == other
}

/// `PathBuf::clone` makes another copy of the same path.
#[verifier::external_body]
pub(crate) fn copy_path(path: &PathBuf) -> (res: PathBuf)
    ensures
        res == *path,
{
    path.clone()
}

/// `Instant::now` reads the clock. Nothing is said of what it shows.
#[verifier::external_body]
pub(crate) fn now() -> (res: Instant) {
    Instant::now()
}

/// `Instant::elapsed` measures the time that has passed since `start`, handed
/// out in nanoseconds. Nothing is said of how long that is.
#[verifier::external_body]
pub(crate) fn nanos_since(start: &Instant) -> (res: u128) {
    start.elapsed().as_nanos()
}

} // verus!
