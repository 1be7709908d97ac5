//! The lock that keeps writers of this library apart while they change index files.
//!
//! The lock file holds a unique text of its holder, who renews its time of change. A lock
//! whose time is too old and whose text does not change has a dead holder.

use crate::error::{NbError, NbErrorView};
use crate::paths;
use crate::paths::Folder;
use crate::text;
use vstd::prelude::*;

verus! {

/// The path of the lock file of a notebook.
pub fn index_lock_path(root: &Folder) -> (r: String)
    ensures
        r@ == paths::path_below(root@, ".nb-api-index.lock"@),
{
    root.join(".nb-api-index.lock")
}

/// How often a holder renews its lock, in nanoseconds: every third of the timeout, but not
/// more often than every 5 ms and not less often than every 30 s.
pub open spec fn heartbeat(timeout_ms: u64) -> nat {
    let third = timeout_ms as nat * 1_000_000 / 3;
    if third < 5_000_000 {
        5_000_000
    } else if third > 30_000_000_000 {
        30_000_000_000
    } else {
        third
    }
}

/// How often a holder renews its lock, in nanoseconds.
pub fn heartbeat_nanos(timeout_ms: u64) -> (r: u64)
    ensures
        r == heartbeat(timeout_ms),
{
    if timeout_ms > 90_000 {
        return 30_000_000_000;
    }
    let third: u64 = timeout_ms * 1_000_000 / 3;
    if third < 5_000_000 {
        5_000_000
    } else {
        third
    }
}

/// Whether a lock file is that of the holder of a text.
pub open spec fn owned_by(content: Option<Seq<char>>, nonce: Seq<char>) -> bool {
    content matches Some(c) && text::trim_end(c) == nonce
}

/// Whether a lock file is that of the holder of a text. A holder renews or removes only its
/// own lock.
pub fn owns_lock(content: Option<&str>, nonce: &str) -> (r: bool)
    ensures
        r == owned_by(
            match content {
                Some(c) => Some(c@),
                None => None,
            },
            nonce@,
        ),
{
    match content {
        Some(c) => text::equal(text::trimmed_end(c), nonce),
        None => false,
    }
}

/// What a look at a lock file says.
#[derive(Debug, Clone, Copy, PartialEq, Eq, Structural)]
pub enum LockLook {
    /// There is no lock.
    Gone,
    /// The lock has, or may have, a living holder.
    Held,
    /// The lock is old: it has to be looked at again.
    Old,
}

/// What the first look at a lock file says, given its text and whether it is older than the
/// timeout, as far as they could be read.
pub fn first_look(content: &Option<String>, older: Option<bool>) -> (r: LockLook)
    ensures
        r == (if older == Some(true) {
            LockLook::Old
        } else if content is None {
            LockLook::Gone
        } else {
            LockLook::Held
        }),
{
    match older {
        Some(true) => LockLook::Old,
        _ => {
            if content.is_none() {
                LockLook::Gone
            } else {
                LockLook::Held
            }
        },
    }
}

/// What the second look says of an old lock: `Old` is one that may be removed.
pub open spec fn second_look_of(
    before: Option<Seq<char>>,
    after: Option<Seq<char>>,
    older: Option<bool>,
) -> LockLook {
    if after != before {
        LockLook::Held
    } else if before is None {
        LockLook::Gone
    } else if older == Some(false) {
        LockLook::Held
    } else {
        LockLook::Old
    }
}

/// What the second look says of an old lock: `Old` is one that may be removed.
pub fn second_look(before: &Option<String>, after: &Option<String>, older: Option<bool>) -> (r:
    LockLook)
    ensures
        r == second_look_of(
            crate::error::opt_text(*before),
            crate::error::opt_text(*after),
            older,
        ),
{
    match before {
        None => {
            if after.is_none() {
                LockLook::Gone
            } else {
                LockLook::Held
            }
        },
        Some(b) => {
            match after {
                None => LockLook::Held,
                Some(a) => {
                    if !text::equal(a.as_str(), b.as_str()) {
                        LockLook::Held
                    } else {
                        match older {
                            Some(false) => LockLook::Held,
                            _ => LockLook::Old,
                        }
                    }
                },
            }
        },
    }
}

/// A lock whose text changed between the looks, or that was renewed, is never removed.
pub proof fn law_living_lock_stays(
    before: Option<Seq<char>>,
    after: Option<Seq<char>>,
    older: Option<bool>,
)
    requires
        before != after || older == Some(false),
    ensures
        second_look_of(before, after, older) != LockLook::Old,
{
}

/// How the wait for a lock that is taken goes on.
#[derive(Debug, Clone, Copy, PartialEq, Eq, Structural)]
pub enum LockWait {
    TryNow,
    Sleep,
}

/// How the wait for a lock that is taken goes on: at once after a dead lock was removed, and
/// with an error once the timeout has passed.
pub fn wait_for_lock(removed: bool, timed_out: bool, path: &str, timeout_ms: u64) -> (r: Result<
    LockWait,
    NbError,
>)
    ensures
        match r {
            Ok(w) => w == (if removed {
                LockWait::TryNow
            } else {
                LockWait::Sleep
            }) && (removed || !timed_out),
            Err(e) => !removed && timed_out && e@ == (NbErrorView::IndexLockTimeout {
                path: path@,
                timeout_ms,
            }),
        },
{
    if removed {
        return Ok(LockWait::TryNow);
    }
    if timed_out {
        return Err(NbError::IndexLockTimeout { path: path.to_string(), timeout_ms });
    }
    Ok(LockWait::Sleep)
}

} // verus!
