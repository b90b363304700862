use vstd::prelude::*;

use std::path::PathBuf;

verus! {

/// File system paths are carried through the library, never inspected.
#[verifier::external_type_specification]
#[verifier::external_body]
pub struct ExPathBuf(PathBuf);

/// `PathBuf::clone`: a path equal to the given one.
#[verifier::external_body]
pub(crate) fn copy_path(p: &PathBuf) -> (r: PathBuf)
    ensures
        r == *p,
{
    p.clone()
}

} // verus!
