//! Errors and outcomes of executing a message.

use vstd::prelude::*;

verus! {

/// An amount of execution cost.
pub type Weight = u64;

/// Why an instruction could not be carried out.
#[derive(Clone, Copy, Debug, PartialEq, Eq, Structural)]
pub enum XcmError {
    /// The admission policy refused the message.
    Barrier,
    /// The message nests programs more deeply than the executor allows.
    RecursionLimitReached,
    /// The assets asked for are not there to be taken.
    NotWithdrawable,
    /// The assets could not be credited to the beneficiary.
    NotDepositable,
    /// The fee offered does not pay for the weight asked for.
    Underpaid,
    /// The exchange did not return at least what was demanded.
    ExchangeFailed,
    /// An onward message could not be handed to the router.
    SendFailed,
    /// The instruction is not one that this executor carries out.
    UnhandledXcmMessage,
    /// The cost of the message could not be estimated.
    WeightNotComputable,
    /// The estimated cost, given here, exceeds the limit set by the caller.
    WeightLimitReached(Weight),
    /// An amount of weight does not fit its integer type.
    Overflow,
    /// A location cannot be expressed relative to another context.
    MultiLocationFull,
    /// The origin may not dispatch calls in the requested capacity.
    BadOrigin,
    /// The origin is not trusted as a reserve for the asset.
    UntrustedReserveLocation,
    /// The origin is not trusted to teleport the asset.
    UntrustedTeleportLocation,
    /// The call needs more weight than the message allows it.
    TooMuchWeightRequired,
}

/// How the execution of a message ended.
#[derive(Clone, Copy, Debug, PartialEq, Eq, Structural)]
pub enum Outcome {
    /// Every instruction was carried out; the weight used is given.
    Complete(Weight),
    /// Execution stopped at an error after some instructions had taken
    /// effect; the weight accounted for and the error are given.
    Incomplete(Weight, XcmError),
    /// The message was refused before any instruction took effect.
    Error(XcmError),
}

impl Outcome {
    /// `Ok` if execution completed, the error otherwise.
    pub fn ensure_complete(self) -> (r: Result<(), XcmError>)
        ensures
            r == match self {
                Outcome::Complete(_) => Ok::<(), XcmError>(()),
                Outcome::Incomplete(_, e) => Err(e),
                Outcome::Error(e) => Err(e),
            },
    {
        match self {
            Outcome::Complete(_) => Ok(()),
            Outcome::Incomplete(_, e) => Err(e),
            Outcome::Error(e) => Err(e),
        }
    }

    /// Whether anything of the message took effect.
    pub fn ensure_execution(self) -> (r: Result<Weight, XcmError>)
        ensures
            r == match self {
                Outcome::Complete(w) => Ok::<Weight, XcmError>(w),
                Outcome::Incomplete(w, _) => Ok(w),
                Outcome::Error(e) => Err(e),
            },
    {
        match self {
            Outcome::Complete(w) => Ok(w),
            Outcome::Incomplete(w, _) => Ok(w),
            Outcome::Error(e) => Err(e),
        }
    }

    /// The weight accounted for; zero if the message was refused.
    pub fn weight_used(self) -> (r: Weight)
        ensures
            r == match self {
                Outcome::Complete(w) => w,
                Outcome::Incomplete(w, _) => w,
                Outcome::Error(_) => 0,
            },
    {
        match self {
            Outcome::Complete(w) => w,
            Outcome::Incomplete(w, _) => w,
            Outcome::Error(_) => 0,
        }
    }
}

} // verus!
