//! The pipeline's error taxonomy. No failure here is process-fatal: every
//! variant is logged by the caller and the scheduler proceeds to the next
//! tick.

use vstd::prelude::*;

verus! {

/// What can go wrong inside one consolidate-and-sweep tick.
#[derive(Clone, Copy, PartialEq, Eq, Structural, Debug)]
pub enum SweepError {
    /// The intake keyspace could not be enumerated; the tick is aborted and
    /// retried on the next tick with no data lost.
    IntakeScanFailure,
    /// An atomic relocation or a claim-queue write could not be performed
    /// (in the durable store: an I/O fault; in this library's keyed model:
    /// a key that is already present). Fatal for this tick only.
    RelocationFailure,
    /// The wallet could not resolve a destination key or sign; the affected
    /// batch is abandoned for this tick.
    WalletUnavailable,
    /// The token layer rejected a transaction in a dry run; only that
    /// transaction is skipped.
    TokenValidationRejected,
    /// A transaction could not be broadcast; not independently retried.
    BroadcastFailure,
    /// A claim batch did not decode as a concatenation of self-framed
    /// descriptors.
    MalformedDescriptor,
    /// A freshly drawn random key collided with an existing intake entry;
    /// the deposit is refused and may simply be retried.
    DuplicateKey,
}

impl SweepError {
    /// A short name for logs.
    pub fn describe(&self) -> (r: &'static str)
        ensures
            r@.len() > 0,
    {
        proof {
            reveal_strlit("intake scan failure");
            reveal_strlit("relocation failure");
            reveal_strlit("wallet unavailable");
            reveal_strlit("token validation rejected");
            reveal_strlit("broadcast failure");
            reveal_strlit("malformed descriptor");
            reveal_strlit("duplicate key");
        }
        match self {
            SweepError::IntakeScanFailure => "intake scan failure",
            SweepError::RelocationFailure => "relocation failure",
            SweepError::WalletUnavailable => "wallet unavailable",
            SweepError::TokenValidationRejected => "token validation rejected",
            SweepError::BroadcastFailure => "broadcast failure",
            SweepError::MalformedDescriptor => "malformed descriptor",
            SweepError::DuplicateKey => "duplicate key",
        }
    }
}

} // verus!
