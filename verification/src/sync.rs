//! `sync_file` fences for explicit synchronization.
//!
//! A fence is named by its descriptor. The library carries the number through
//! its bookkeeping and decides what becomes of it; opening, polling, merging and
//! closing descriptors is its holder's work.

use core::time::Duration;
use vstd::prelude::*;
use crate::errno::Errno;
use crate::time::duration_nanos;

verus! {

/// Errors from fence operations.
#[derive(Debug, Clone, Copy, PartialEq, Eq, Structural)]
#[non_exhaustive]
pub enum SyncError {
    /// The fence holds no descriptor.
    Empty,
    /// The wait expired before the fence signaled.
    TimedOut,
    /// The merge succeeded but returned no descriptor.
    MergeReturnedNothing,
    /// An underlying system call failed.
    Io(Errno),
}

/// A kernel `sync_file` fence, or none.
#[derive(Debug, PartialEq, Eq, Structural)]
pub struct SyncFence {
    /// The descriptor, if the fence holds one.
    pub fd: Option<i32>,
}

/// What a `poll` on one fence came back with.
#[derive(Debug, Clone, Copy, PartialEq, Eq, Structural)]
pub enum Polled {
    /// How many descriptors were ready.
    Ready(usize),
    /// The call failed.
    Failed(Errno),
}

/// What the merge call came back with.
#[derive(Debug, Clone, Copy, PartialEq, Eq, Structural)]
pub enum Merged {
    /// The call succeeded and reported this descriptor, negative for none.
    Descriptor(i32),
    /// The call failed.
    Failed(Errno),
}

/// How long a `poll` may wait, as the pair it takes.
#[derive(Debug, Clone, Copy, PartialEq, Eq, Structural)]
pub struct PollTimeout {
    /// Whole seconds.
    pub secs: i64,
    /// Nanoseconds past them.
    pub nanos: i64,
}

impl SyncFence {
    /// An empty fence holding no descriptor.
    pub fn new() -> (fence: Self)
        ensures
            fence.fd is None,
    {
        SyncFence { fd: None }
    }

    /// The fence of a descriptor that was duplicated for it, or why it could not
    /// be.
    pub fn import(duplicated: Result<i32, Errno>) -> (fence: Result<Self, SyncError>)
        ensures
            fence == match duplicated {
                Ok(fd) => Ok::<SyncFence, SyncError>(SyncFence { fd: Some(fd) }),
                Err(errno) => Err(SyncError::Io(errno)),
            },
    {
        match duplicated {
            Ok(fd) => Ok(SyncFence { fd: Some(fd) }),
            Err(errno) => Err(SyncError::Io(errno)),
        }
    }

    /// A fence holding `fd` itself, not a duplicate.
    pub fn from_owned(fd: i32) -> (fence: Self)
        ensures
            fence.fd == Some(fd),
    {
        SyncFence { fd: Some(fd) }
    }

    /// Whether this holds a descriptor.
    pub fn is_valid(&self) -> (valid: bool)
        ensures
            valid == self.fd is Some,
    {
        self.fd.is_some()
    }

    /// The descriptor, for a plane's `IN_FENCE_FD` property. The kernel does
    /// not close it, so it stays with its holder.
    pub fn as_fd(&self) -> (fd: Option<i32>)
        ensures
            fd == self.fd,
    {
        self.fd
    }

    /// Release the descriptor to the caller.
    pub fn into_owned_fd(self) -> (fd: Option<i32>)
        ensures
            fd == self.fd,
    {
        self.fd
    }

    /// The descriptor to wait on, or [`SyncError::Empty`].
    pub fn wait_target(&self) -> (target: Result<i32, SyncError>)
        ensures
            target == match self.fd {
                Some(fd) => Ok::<i32, SyncError>(fd),
                None => Err(SyncError::Empty),
            },
    {
        match self.fd {
            Some(fd) => Ok(fd),
            None => Err(SyncError::Empty),
        }
    }

    /// The pair of descriptors to merge, or [`SyncError::Empty`] if either
    /// fence holds none.
    pub fn merge_targets(&self, other: &Self) -> (targets: Result<(i32, i32), SyncError>)
        ensures
            targets == match (self.fd, other.fd) {
                (Some(ours), Some(theirs)) => Ok::<(i32, i32), SyncError>((ours, theirs)),
                _ => Err(SyncError::Empty),
            },
    {
        match (self.fd, other.fd) {
            (Some(ours), Some(theirs)) => Ok((ours, theirs)),
            _ => Err(SyncError::Empty),
        }
    }

    /// Merge `other` into this fence, given what the merge call came back with.
    ///
    /// The merged descriptor takes the place of this fence's own. A merge that
    /// could not be asked for, failed, or reported no descriptor leaves this
    /// fence as it was. `other` is used up either way.
    pub fn merge(&mut self, other: Self, merged: Merged) -> (result: Result<(), SyncError>)
        ensures
            result == if old(self).fd is None || other.fd is None {
                Err::<(), SyncError>(SyncError::Empty)
            } else {
                match merged {
                    Merged::Failed(errno) => Err(SyncError::Io(errno)),
                    Merged::Descriptor(fd) if fd < 0 => Err(SyncError::MergeReturnedNothing),
                    Merged::Descriptor(fd) => Ok(()),
                }
            },
            final(self).fd == match (result, merged) {
                (Ok(()), Merged::Descriptor(fd)) => Some(fd),
                _ => old(self).fd,
            },
    {
        if self.fd.is_none() || other.fd.is_none() {
            return Err(SyncError::Empty);
        }
        match merged {
            Merged::Failed(errno) => Err(SyncError::Io(errno)),
            Merged::Descriptor(fd) => {
                if fd < 0 {
                    return Err(SyncError::MergeReturnedNothing);
                }
                self.fd = Some(fd);
                Ok(())
            },
        }
    }

    /// Wait for the fence to signal, given what the `poll` came back with.
    ///
    /// An interrupted call is reported, not retried: a fence wait belongs to its
    /// caller, who may want to act on the signal.
    pub fn wait(&self, polled: Polled) -> (outcome: Result<(), SyncError>)
        ensures
            outcome == if self.fd is None {
                Err::<(), SyncError>(SyncError::Empty)
            } else {
                match polled {
                    Polled::Failed(errno) => Err(SyncError::Io(errno)),
                    Polled::Ready(count) if count == 0 => Err(SyncError::TimedOut),
                    Polled::Ready(_) => Ok(()),
                }
            },
    {
        if self.fd.is_none() {
            return Err(SyncError::Empty);
        }
        match polled {
            Polled::Failed(errno) => Err(SyncError::Io(errno)),
            Polled::Ready(count) => {
                if count == 0 {
                    Err(SyncError::TimedOut)
                } else {
                    Ok(())
                }
            },
        }
    }
}

impl Default for SyncFence {
    fn default() -> (fence: Self)
        ensures
            fence.fd is None,
    {
        SyncFence { fd: None }
    }
}

/// Fences done with, and one more if there is one.
pub open spec fn with_spent(spent: Seq<SyncFence>, fence: Option<SyncFence>) -> Seq<SyncFence> {
    match fence {
        Some(done) => spent.push(done),
        None => spent,
    }
}

/// Keep a fence that is done with, for its descriptor to be closed.
pub fn keep_spent(spent: &mut Vec<SyncFence>, fence: Option<SyncFence>)
    ensures
        final(spent)@ == with_spent(old(spent)@, fence),
        fence is None ==> *final(spent) == *old(spent),
{
    if let Some(done) = fence {
        spent.push(done);
    }
}

/// A timeout as the seconds and nanoseconds `poll` takes. Seconds past
/// `i64::MAX` are held there.
pub fn poll_timeout(timeout: Duration) -> (spec: PollTimeout)
    ensures
        spec.nanos == duration_nanos(timeout) % 1_000_000_000,
        spec.secs == if duration_nanos(timeout) / 1_000_000_000 > i64::MAX {
            i64::MAX as int
        } else {
            (duration_nanos(timeout) / 1_000_000_000) as int
        },
{
    let total: u128 = timeout.as_nanos();
    let secs: u128 = total / 1_000_000_000;
    let nanos: u128 = total % 1_000_000_000;
    PollTimeout {
        secs: if secs > i64::MAX as u128 { i64::MAX } else { secs as i64 },
        nanos: nanos as i64,
    }
}

/// The kinds of I/O error a fence error is reported as.
#[derive(Debug, Clone, Copy, PartialEq, Eq, Structural)]
pub enum SyncErrorKind {
    /// The request made no sense.
    InvalidInput,
    /// The wait expired.
    TimedOut,
    /// Nothing more specific.
    Other,
    /// The system error itself.
    Os(i32),
}

impl SyncError {
    /// How this error is classified outside the library.
    pub fn kind(self) -> (kind: SyncErrorKind)
        ensures
            kind == match self {
                SyncError::Empty => SyncErrorKind::InvalidInput,
                SyncError::TimedOut => SyncErrorKind::TimedOut,
                SyncError::MergeReturnedNothing => SyncErrorKind::Other,
                SyncError::Io(errno) => SyncErrorKind::Os(errno.raw),
            },
    {
        match self {
            SyncError::Empty => SyncErrorKind::InvalidInput,
            SyncError::TimedOut => SyncErrorKind::TimedOut,
            SyncError::MergeReturnedNothing => SyncErrorKind::Other,
            SyncError::Io(errno) => SyncErrorKind::Os(errno.raw),
        }
    }
}

/// A fence that is done with is kept once, behind those before it.
pub proof fn law_spent_fences_are_kept(spent: Seq<SyncFence>, fence: SyncFence)
    ensures
        with_spent(spent, None) == spent,
        with_spent(spent, Some(fence)).len() == spent.len() + 1,
        with_spent(spent, Some(fence)).drop_last() == spent,
        with_spent(spent, Some(fence)).last() == fence,
{
    assert(with_spent(spent, Some(fence)).drop_last() =~= spent);
}

} // verus!
