//! Directory junctions.

use crate::error::AppError;
use vstd::prelude::*;

verus! {

/// A link is whole: it is a junction and its target, as far as it can be
/// resolved, is a directory.
pub fn verify(is_junction: bool, target_is_dir: &Result<bool, AppError>) -> (r: bool)
    ensures
        r == (is_junction && *target_is_dir == Ok::<bool, AppError>(true)),
{
    if !is_junction {
        return false;
    }
    match target_is_dir {
        Ok(is_dir) => *is_dir,
        Err(_) => false,
    }
}

} // verus!
