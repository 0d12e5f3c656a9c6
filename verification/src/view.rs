//! The decision that a view takes when it is asked for a resolution.
use vstd::prelude::*;

verus! {

/// The resolution that is pending after a view of the `current` resolution, with or without
/// a resolution `pending` already, was asked for a resolution: the one asked for, if it is
/// not the current one; else what was pending before. A later request takes the place of
/// an earlier one that is pending still.
pub fn request_resolution(
    current: (u32, u32),
    pending: Option<(u32, u32)>,
    asked: (u32, u32),
) -> (r: Option<(u32, u32)>)
    ensures
        r == (if asked != current {
            Some(asked)
        } else {
            pending
        }),
{
    if asked.0 != current.0 || asked.1 != current.1 {
        Some(asked)
    } else {
        pending
    }
}

} // verus!
