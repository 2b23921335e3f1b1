//! Paths, which the library carries and never looks into.

use std::path::PathBuf;
use vstd::prelude::*;

verus! {

/// A path of the file system.
#[verifier::external_type_specification]
#[verifier::external_body]
pub struct ExPathBuf(std::path::PathBuf);

/// `PathBuf::clone` of std: the copy is the same path.
pub assume_specification[ <PathBuf as Clone>::clone ](path: &PathBuf) -> (r: PathBuf)
    ensures
        r == *path,
;

/// The text of a path.
pub uninterp spec fn path_text(path: PathBuf) -> Seq<char>;

/// `Path::to_string_lossy` of std: a function of the path, which is its text
/// where that is valid Unicode.
#[verifier::external_body]
pub(crate) fn lossy_text(path: &PathBuf) -> (r: String)
    ensures
        r@ == path_text(*path),
{
    path.to_string_lossy().into_owned()
}

/// `PathBuf::from` of std, on a string: the path has that text.
#[verifier::external_body]
pub(crate) fn path_of(text: &str) -> (r: PathBuf)
    ensures
        path_text(r) == text@,
{
    PathBuf::from(text)
}

} // verus!
