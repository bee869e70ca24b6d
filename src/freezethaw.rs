//! What to do after the freeze request of a freeze/thaw cycle.
use vstd::prelude::*;

verus! {

/// `EPERM` on Linux.
pub const EPERM: i32 = 1;

/// `EOPNOTSUPP` (also `ENOTSUP`) on Linux.
pub const EOPNOTSUPP: i32 = 95;

/// The next step once `FIFREEZE` has been issued (after `syncfs`).
#[derive(Debug, Clone, Copy, PartialEq, Eq, Structural)]
pub enum FreezeStep {
    /// The filesystem is frozen: thaw it.
    Thaw,
    /// Freezing is unsupported or not permitted: `syncfs` is all there is,
    /// and the cycle succeeds.
    Done,
    /// Any other error fails the cycle.
    Fail(i32),
}

/// Decides from the freeze request's error number, if any.
pub fn fsfreeze_outcome(freeze_error: Option<i32>) -> (r: FreezeStep)
    ensures
        match freeze_error {
            None => r == FreezeStep::Thaw,
            Some(e) => if e == EPERM || e == EOPNOTSUPP {
                r == FreezeStep::Done
            } else {
                r == FreezeStep::Fail(e)
            },
        },
{
    match freeze_error {
        None => FreezeStep::Thaw,
        Some(e) => {
            if e == EPERM || e == EOPNOTSUPP {
                FreezeStep::Done
            } else {
                FreezeStep::Fail(e)
            }
        },
    }
}

} // verus!
