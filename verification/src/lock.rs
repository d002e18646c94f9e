//! The decision core of the cross-process exclusion lock.
//!
//! A zero-byte sentinel file at `<db_path>.lock` denotes "held". The caller
//! performs the file operations; the single gate is one atomic
//! create-if-absent attempt of the sentinel — never a separate existence
//! check, which would leave a race window between two processes. This
//! module fixes the sentinel's path and what each attempt outcome means
//! for the acquisition loop: there is no acquisition timeout, so an
//! existing sentinel is always answered by a short sleep and a retry.

use vstd::prelude::*;

use vstd::string::StringExecFns;

verus! {

/// The outcome of one atomic attempt to create the sentinel exclusively.
pub enum LockAttempt {
    /// The sentinel was created: this invocation now holds the lock.
    Created,
    /// The sentinel already exists: another invocation holds the lock.
    AlreadyExists,
    /// The attempt failed for any other reason.
    Failed,
}

/// What the acquisition loop does after one attempt.
#[derive(Clone, Copy, Debug, PartialEq, Eq, Structural)]
pub enum LockStep {
    /// The lock is held; proceed to load the store.
    Acquired,
    /// Sleep a fixed short interval, then attempt again.
    RetryAfterSleep,
    /// A lock error: abort the invocation.
    Abort,
}

/// One step of the acquisition protocol: creation acquires, an existing
/// sentinel means waiting on the holder, anything else is fatal.
pub fn lock_protocol_step(attempt: &LockAttempt) -> (r: LockStep)
    ensures
        r == (match attempt {
            LockAttempt::Created => LockStep::Acquired,
            LockAttempt::AlreadyExists => LockStep::RetryAfterSleep,
            LockAttempt::Failed => LockStep::Abort,
        }),
{
    match attempt {
        LockAttempt::Created => LockStep::Acquired,
        LockAttempt::AlreadyExists => LockStep::RetryAfterSleep,
        LockAttempt::Failed => LockStep::Abort,
    }
}

/// The sentinel path guarding a store: the store path with `.lock` after.
pub fn lock_path_of(db_path: &str) -> (r: String)
    ensures
        r@ == db_path@ + ".lock"@,
{
    let mut s = db_path.to_owned();
    s.append(".lock");
    s
}

/// The sibling temporary path a save writes before the atomic rename: the
/// store path with `.tmp` after.
pub fn tmp_path_of(db_path: &str) -> (r: String)
    ensures
        r@ == db_path@ + ".tmp"@,
{
    let mut s = db_path.to_owned();
    s.append(".tmp");
    s
}

} // verus!
