//! Questions about what is on the disk right now. Their answers depend on the
//! filesystem at the moment of the call, so no contract promises anything of
//! them; the verified callers hold for every answer.

use vstd::prelude::*;

verus! {

/// `std::path::Path::exists` on the path with text `path`. Answers whether
/// something (following symlinks) is there now; nothing is promised of it.
#[verifier::external_body]
pub(crate) fn path_exists(path: &str) -> bool {
    std::path::Path::new(path).exists()
}

/// `std::path::Path::is_dir` on the path with text `path`. Answers whether a
/// directory (following symlinks) is there now; nothing is promised of it.
#[verifier::external_body]
pub(crate) fn path_is_dir(path: &str) -> bool {
    std::path::Path::new(path).is_dir()
}

} // verus!
