//! The suspend-on-would-block read adapter: one resume attempt performs the
//! raw non-blocking read; on success or on a real failure it completes, and
//! on a would-block result it queues a read request with the dispatcher and
//! suspends. The decision from the raw outcome to the adapter's behaviour is
//! a verified function of its own, [`read_outcome`]; the surrounding
//! resumable computation (a future) is ordinary plumbing around
//! [`read_step`].

use vstd::prelude::*;
use std::task::Waker;
use crate::dispatch::DispatchError;
use crate::dispatch::Dispatcher;
use crate::dispatch::ENOENT;
use crate::epoll::interest;

verus! {

/// Linux errno for "operation would block" on a non-blocking descriptor
/// (`EAGAIN`, equal to `EWOULDBLOCK`).
pub const EAGAIN: i32 = 11;

/// The outcome of one resume attempt of a suspended read.
#[derive(Clone, Copy, Debug, PartialEq, Eq, Structural)]
pub enum ReadStep {
    /// The raw read transferred this many bytes (0 is passed through as-is:
    /// end-of-stream detection is the caller's business); the computation is
    /// complete and no request was queued.
    Done(usize),
    /// The read would block: a read request carrying the waker was queued,
    /// and the computation should suspend until the waker is woken.
    Suspended,
    /// The attempt failed: the raw read failed with an error other than
    /// would-block, or the would-block registration itself failed. No
    /// request is left queued.
    Failed(DispatchError),
}

/// Trusted: relies on `nix::unistd::read` for one raw read of up to
/// `buf.len()` bytes into the front of `buf`; it returns the transferred
/// byte count or the errno of the failed call, and never changes the
/// buffer's length.
#[verifier::external_body]
fn raw_read(fd: i32, buf: &mut Vec<u8>) -> (r: Result<usize, i32>)
    ensures
        final(buf)@.len() == old(buf)@.len(),
        r matches Ok(n) ==> n <= old(buf)@.len(),
{
    match nix::unistd::read(fd, buf.as_mut_slice()) {
        Ok(n) => Ok(n),
        Err(e) => Err(e as i32),
    }
}

/// Decide one resume attempt from the outcome of the raw read on `fd`: a
/// success completes with exactly the transferred count, a would-block
/// result queues a read request carrying `waker` and suspends, and every
/// other errno completes with that OS error untouched. Never suspends or
/// completes on the wrong outcome.
pub fn read_outcome(
    d: &mut Dispatcher,
    fd: i32,
    waker: Waker,
    raw: Result<usize, i32>,
) -> (r: ReadStep)
    requires
        old(d).wf(),
    ensures
        final(d).wf(),
        raw matches Ok(n) ==> r == ReadStep::Done(n) && *final(d) == *old(d),
        raw matches Err(e) ==> !(r matches ReadStep::Done(_)) && (if e != EAGAIN {
            r == ReadStep::Failed(DispatchError::Os(e)) && *final(d) == *old(d)
        } else {
            &&& (!old(d).subscribed(fd) ==>
                    r == ReadStep::Failed(DispatchError::Os(ENOENT)))
            &&& (r == ReadStep::Suspended ==> old(d).subscribed(fd)
                    && final(d).reads_of(fd) == old(d).reads_of(fd).push(waker)
                    && final(d).writes_of(fd) == old(d).writes_of(fd)
                    && final(d).armed_of(fd)
                        == interest(true, old(d).writes_of(fd).len() > 0))
            &&& (r matches ReadStep::Failed(e2) ==> *final(d) == *old(d)
                    && e2 matches DispatchError::Os(_))
        }),
        forall|f: i32| #![trigger final(d).subscribed(f)] #![trigger old(d).subscribed(f)]
            final(d).subscribed(f) == old(d).subscribed(f),
        forall|f: i32| #![trigger final(d).reads_of(f)] #![trigger old(d).reads_of(f)]
            f != fd && old(d).subscribed(f) ==>
                final(d).reads_of(f) == old(d).reads_of(f)
                && final(d).writes_of(f) == old(d).writes_of(f)
                && final(d).armed_of(f) == old(d).armed_of(f),
{
    match raw {
        Ok(n) => ReadStep::Done(n),
        Err(errno) => {
            if errno == EAGAIN {
                match d.request_read(fd, waker) {
                    Ok(()) => ReadStep::Suspended,
                    Err(e) => ReadStep::Failed(e),
                }
            } else {
                ReadStep::Failed(DispatchError::Os(errno))
            }
        }
    }
}

/// One resume attempt of a read bound to `fd` and `buf`. The descriptor must
/// already be in non-blocking mode; this adapter does not set that mode.
///
/// Attempt the raw read, then decide by [`read_outcome`]: complete with the
/// transferred count on success; queue a read request carrying `waker` (so
/// that a later poll cycle wakes it when `fd` reports read-readiness) and
/// suspend on would-block; complete with the error, leaving nothing queued,
/// on any other failure.
pub fn read_step(d: &mut Dispatcher, fd: i32, buf: &mut Vec<u8>, waker: Waker) -> (r: ReadStep)
    requires
        old(d).wf(),
    ensures
        final(d).wf(),
        final(buf)@.len() == old(buf)@.len(),
        r matches ReadStep::Done(n) ==> n <= old(buf)@.len() && *final(d) == *old(d),
        r == ReadStep::Suspended ==> old(d).subscribed(fd)
            && final(d).reads_of(fd) == old(d).reads_of(fd).push(waker)
            && final(d).writes_of(fd) == old(d).writes_of(fd),
        r matches ReadStep::Failed(e) ==> *final(d) == *old(d)
            && e matches DispatchError::Os(_),
        forall|f: i32| #![trigger final(d).subscribed(f)] #![trigger old(d).subscribed(f)]
            final(d).subscribed(f) == old(d).subscribed(f),
        forall|f: i32| #![trigger final(d).reads_of(f)] #![trigger old(d).reads_of(f)]
            f != fd && old(d).subscribed(f) ==>
                final(d).reads_of(f) == old(d).reads_of(f)
                && final(d).writes_of(f) == old(d).writes_of(f)
                && final(d).armed_of(f) == old(d).armed_of(f),
{
    let raw = raw_read(fd, buf);
    read_outcome(d, fd, waker, raw)
}

} // verus!
