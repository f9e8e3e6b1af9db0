//! Errors and status codes shared by every engine interaction.

use vstd::prelude::*;

verus! {

/// Completion status codes reported by the engine.  The first group marks
/// outcomes of an individual operation; the second marks drain-level
/// conditions.
pub const HYPERDEX_CLIENT_SUCCESS: u32 = 8448;
pub const HYPERDEX_CLIENT_NOTFOUND: u32 = 8449;
pub const HYPERDEX_CLIENT_SEARCHDONE: u32 = 8450;
pub const HYPERDEX_CLIENT_SERVERERROR: u32 = 8514;
pub const HYPERDEX_CLIENT_TIMEOUT: u32 = 8519;
pub const HYPERDEX_CLIENT_NONEPENDING: u32 = 8523;
pub const HYPERDEX_CLIENT_INTERRUPTED: u32 = 8530;

/// Status codes of the administrative interface, which has an enum of
/// its own in a separate value block.
pub const HYPERDEX_ADMIN_SUCCESS: u32 = 8704;
pub const HYPERDEX_ADMIN_NONEPENDING: u32 = 8769;
pub const HYPERDEX_ADMIN_TIMEOUT: u32 = 8771;

/// Maps one administrative status word onto the client-side word the
/// correlation core routes by: success, timeout and the idle report
/// map to their client counterparts; every other word — the error
/// codes — keeps its own value, so a failure still carries the
/// administrative code it was reported under.
pub fn admin_to_client_status(status: u32) -> (s: u32)
    ensures
        status == HYPERDEX_ADMIN_SUCCESS ==> s == HYPERDEX_CLIENT_SUCCESS,
        status == HYPERDEX_ADMIN_TIMEOUT ==> s == HYPERDEX_CLIENT_TIMEOUT,
        status == HYPERDEX_ADMIN_NONEPENDING ==> s == HYPERDEX_CLIENT_NONEPENDING,
        status != HYPERDEX_ADMIN_SUCCESS && status != HYPERDEX_ADMIN_TIMEOUT && status
            != HYPERDEX_ADMIN_NONEPENDING ==> s == status,
{
    if status == HYPERDEX_ADMIN_SUCCESS {
        HYPERDEX_CLIENT_SUCCESS
    } else if status == HYPERDEX_ADMIN_TIMEOUT {
        HYPERDEX_CLIENT_TIMEOUT
    } else if status == HYPERDEX_ADMIN_NONEPENDING {
        HYPERDEX_CLIENT_NONEPENDING
    } else {
        status
    }
}

/// An error related to the engine: the status code together with the
/// message and location read from the handle's error accessors at the
/// moment of failure.
#[derive(Debug, Clone)]
pub struct HyperError {
    pub status: u32,
    pub message: String,
    pub location: String,
}

/// The mathematical shape of a [`HyperError`].
pub struct ErrorModel {
    pub status: u32,
    pub message: Seq<char>,
    pub location: Seq<char>,
}

impl DeepView for HyperError {
    type V = ErrorModel;

    open spec fn deep_view(&self) -> ErrorModel {
        ErrorModel { status: self.status, message: self.message@, location: self.location@ }
    }
}

impl HyperError {
    /// Builds an error from a status code and the accessor strings.
    pub fn new(status: u32, message: String, location: String) -> (e: HyperError)
        ensures
            e.status == status,
            e.message@ == message@,
            e.location@ == location@,
    {
        HyperError { status, message, location }
    }

    /// The error delivered to a continuation that is still pending when
    /// its session shuts down.
    pub fn cancelled() -> (e: HyperError)
        ensures
            e.status == HYPERDEX_CLIENT_INTERRUPTED,
            e.message@ == "operation cancelled at shutdown"@,
            e.location@ == Seq::<char>::empty(),
    {
        HyperError {
            status: HYPERDEX_CLIENT_INTERRUPTED,
            message: "operation cancelled at shutdown".to_string(),
            location: String::new(),
        }
    }
}

} // verus!
