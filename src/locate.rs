use vstd::prelude::*;

use crate::error::ObjError;

verus! {

/// What the upward search for a repository does after looking at one directory.
#[derive(Debug, Clone, Copy, PartialEq, Eq, Structural)]
pub enum LocateStep {
    /// This directory holds the marker: it is the repository root.
    Found,
    /// Go on with the parent directory.
    Ascend,
    /// The filesystem root was reached without a marker.
    NotFound,
}

/// One step of the upward search. `has_marker`: the current directory holds the marker
/// directory; `at_root`: its parent is itself. When the search is exhausted it fails
/// with `NotARepository` if a repository is `required`.
pub fn locate_step(has_marker: bool, at_root: bool, required: bool) -> (r: Result<
    LocateStep,
    ObjError,
>)
    ensures
        has_marker ==> r == Ok::<LocateStep, ObjError>(LocateStep::Found),
        !has_marker && !at_root ==> r == Ok::<LocateStep, ObjError>(LocateStep::Ascend),
        !has_marker && at_root && !required ==> r == Ok::<LocateStep, ObjError>(
            LocateStep::NotFound,
        ),
        !has_marker && at_root && required ==> r == Err::<LocateStep, ObjError>(
            ObjError::NotARepository,
        ),
{
    if has_marker {
        Ok(LocateStep::Found)
    } else if !at_root {
        Ok(LocateStep::Ascend)
    } else if required {
        Err(ObjError::NotARepository)
    } else {
        Ok(LocateStep::NotFound)
    }
}

} // verus!
