//! The readiness dispatcher: a registry of pending I/O requests, kept
//! consistent with the kernel's per-descriptor interest state.
//!
//! After *subscribing* the dispatcher to a file descriptor, reads and writes
//! can be *requested* on it; each request queues a resumption token (a
//! [`std::task::Waker`]) in FIFO order. One readiness cycle ([`Dispatcher::poll`])
//! waits for kernel deliveries, wakes the front waiter of each fired
//! direction, and unconditionally reprograms the descriptor's one-shot
//! interest from the remaining queues.

use vstd::prelude::*;
use std::task::Waker;
use crate::epoll::Epoll;
use crate::epoll::Event;
use crate::epoll::interest;
use crate::epoll::interest_mask;
use crate::epoll::has_read;
use crate::epoll::has_write;
use crate::epoll::EPOLLIN;
use crate::epoll::EPOLLOUT;
use crate::epoll::EPOLL_CLOEXEC;
use crate::epoll::EPOLL_CTL_ADD;
use crate::epoll::EPOLL_CTL_MOD;

verus! {

#[verifier::external_type_specification]
#[verifier::external_body]
pub struct ExWaker(Waker);

/// Trusted: relies on `std::task::Waker::wake` to resume the suspended
/// computation the token stands for; resuming an abandoned one is a no-op.
#[verifier::external_body]
fn wake_token(waker: Waker) {
    waker.wake()
}

/// How many deliveries one readiness wait may hand back at most.
pub const EVENT_CAPACITY: usize = 1024;

/// Linux errno "no such file or directory" (`ENOENT`): what the kernel's
/// registration call yields for reprogramming a descriptor that is not
/// registered with the readiness instance.
pub const ENOENT: i32 = 2;

/// Linux errno "file exists" (`EEXIST`): the kernel's duplicate-registration
/// error for adding a descriptor that is already registered.
pub const EEXIST: i32 = 17;

/// An error returned by a dispatcher operation.
#[derive(Clone, Copy, Debug, PartialEq, Eq, Structural)]
pub enum DispatchError {
    /// A readiness event fired for a descriptor or direction with no pending
    /// request: the registry and the kernel have desynchronized. Unrecoverable;
    /// the caller is expected to treat it as fatal.
    QueueDesync,
    /// An OS error, by errno. Either the kernel refused an operation, or a
    /// precondition violation (requesting on a never-subscribed descriptor,
    /// subscribing twice) surfaced as the error the kernel's registration
    /// call yields for that misuse: [`ENOENT`] and [`EEXIST`] respectively,
    /// returned without reaching the kernel so that the outcome is exact.
    Os(i32),
}

/// The pending requests for one subscribed descriptor: two FIFO waiter
/// queues (insertion order is wake order), and a ghost record of the
/// interest mask most recently programmed into the kernel for it.
struct Waiters {
    fd: i32,
    reads: Vec<Waker>,
    writes: Vec<Waker>,
    armed: Ghost<u32>,
}

impl Waiters {
    /// The kernel interest for this descriptor is the one recomputed from
    /// current queue occupancy — or the zero mask of a fresh subscription,
    /// whose queues are both empty.
    spec fn wf(self) -> bool {
        ||| self.armed@ == interest(self.reads@.len() > 0, self.writes@.len() > 0)
        ||| (self.armed@ == 0 && self.reads@.len() == 0 && self.writes@.len() == 0)
    }
}

/// The readiness dispatcher: one owned kernel readiness instance, and the
/// mapping from subscribed descriptor to its pair of FIFO waiter queues.
pub struct Dispatcher {
    epoll: Epoll,
    entries: Vec<Waiters>,
}

impl Dispatcher {
    /// Each descriptor is registered at most once.
    spec fn distinct(s: Seq<Waiters>) -> bool {
        forall|i: int, j: int| #![trigger s[i].fd, s[j].fd]
            0 <= i < j < s.len() ==> s[i].fd != s[j].fd
    }

    /// The dispatcher's registry agrees with the kernel's interest state:
    /// descriptors are registered once, and each one's armed interest mask is
    /// the one recomputed from its current queue occupancy.
    pub closed spec fn wf(self) -> bool {
        &&& Self::distinct(self.entries@)
        &&& forall|i: int| 0 <= i < self.entries@.len() ==> (#[trigger] self.entries@[i]).wf()
    }

    /// Has `fd` been subscribed?
    pub closed spec fn subscribed(self, fd: i32) -> bool {
        exists|i: int| 0 <= i < self.entries@.len() && (#[trigger] self.entries@[i]).fd == fd
    }

    spec fn idx(self, fd: i32) -> int {
        choose|i: int| 0 <= i < self.entries@.len() && (#[trigger] self.entries@[i]).fd == fd
    }

    /// The pending read requests for `fd`, oldest first (meaningful only
    /// while `fd` is subscribed).
    pub closed spec fn reads_of(self, fd: i32) -> Seq<Waker> {
        self.entries@[self.idx(fd)].reads@
    }

    /// The pending write requests for `fd`, oldest first (meaningful only
    /// while `fd` is subscribed).
    pub closed spec fn writes_of(self, fd: i32) -> Seq<Waker> {
        self.entries@[self.idx(fd)].writes@
    }

    /// The interest mask most recently programmed into the kernel for `fd`
    /// (meaningful only while `fd` is subscribed).
    pub closed spec fn armed_of(self, fd: i32) -> u32 {
        self.entries@[self.idx(fd)].armed@
    }

    /// In a registry without duplicates, the entry that holds `fd` is the one
    /// the accessors read.
    proof fn lemma_idx(self, fd: i32, i: int)
        requires
            Self::distinct(self.entries@),
            0 <= i < self.entries@.len(),
            self.entries@[i].fd == fd,
        ensures
            self.subscribed(fd),
            self.idx(fd) == i,
            self.reads_of(fd) == self.entries@[i].reads@,
            self.writes_of(fd) == self.entries@[i].writes@,
            self.armed_of(fd) == self.entries@[i].armed@,
    {
        assert(self.subscribed(fd));
        let j = self.idx(fd);
        assert(0 <= j < self.entries@.len() && self.entries@[j].fd == fd);
        if i < j {
            assert(self.entries@[i].fd != self.entries@[j].fd);
        }
        if j < i {
            assert(self.entries@[j].fd != self.entries@[i].fd);
        }
    }

    /// Replacing one entry while keeping its descriptor leaves every other
    /// descriptor's registration, queues and armed mask unchanged.
    proof fn lemma_update_frames(pre: Self, post: Self, i: int)
        requires
            Self::distinct(pre.entries@),
            0 <= i < pre.entries@.len(),
            post.entries@.len() == pre.entries@.len(),
            post.entries@[i].fd == pre.entries@[i].fd,
            forall|j: int| 0 <= j < pre.entries@.len() && j != i
                ==> #[trigger] post.entries@[j] == pre.entries@[j],
        ensures
            Self::distinct(post.entries@),
            forall|f: i32| #![trigger post.subscribed(f)] #![trigger pre.subscribed(f)]
                post.subscribed(f) == pre.subscribed(f),
            forall|f: i32| #![trigger post.reads_of(f)] #![trigger pre.reads_of(f)]
                f != pre.entries@[i].fd && pre.subscribed(f) ==>
                    post.reads_of(f) == pre.reads_of(f)
                    && post.writes_of(f) == pre.writes_of(f)
                    && post.armed_of(f) == pre.armed_of(f),
    {
        assert forall|p: int, q: int| #![trigger post.entries@[p].fd, post.entries@[q].fd]
            0 <= p < q < post.entries@.len() implies post.entries@[p].fd != post.entries@[q].fd
        by {
            assert(post.entries@[p].fd == pre.entries@[p].fd);
            assert(post.entries@[q].fd == pre.entries@[q].fd);
        }
        assert forall|f: i32| post.subscribed(f) == pre.subscribed(f) by {
            if pre.subscribed(f) {
                let j = choose|j: int| 0 <= j < pre.entries@.len() && pre.entries@[j].fd == f;
                assert(post.entries@[j].fd == f);
                assert(post.subscribed(f));
            }
            if post.subscribed(f) {
                let j = choose|j: int| 0 <= j < post.entries@.len() && post.entries@[j].fd == f;
                assert(pre.entries@[j].fd == f);
                assert(pre.subscribed(f));
            }
        }
        assert forall|f: i32| f != pre.entries@[i].fd && pre.subscribed(f) implies
            post.reads_of(f) == pre.reads_of(f)
            && post.writes_of(f) == pre.writes_of(f)
            && post.armed_of(f) == pre.armed_of(f)
        by {
            let j = choose|j: int| 0 <= j < pre.entries@.len() && pre.entries@[j].fd == f;
            pre.lemma_idx(f, j);
            assert(post.entries@[j] == pre.entries@[j]);
            post.lemma_idx(f, j);
        }
    }

    /// Appending an entry for a new descriptor leaves every already
    /// subscribed descriptor's registration, queues and armed mask unchanged.
    proof fn lemma_push_frames(pre: Self, post: Self, fd: i32)
        requires
            Self::distinct(pre.entries@),
            !pre.subscribed(fd),
            post.entries@.len() == pre.entries@.len() + 1,
            post.entries@[pre.entries@.len() as int].fd == fd,
            forall|j: int| 0 <= j < pre.entries@.len()
                ==> #[trigger] post.entries@[j] == pre.entries@[j],
        ensures
            Self::distinct(post.entries@),
            post.subscribed(fd),
            post.idx(fd) == pre.entries@.len(),
            forall|f: i32| #![trigger post.subscribed(f)] #![trigger pre.subscribed(f)]
                f != fd ==> post.subscribed(f) == pre.subscribed(f),
            forall|f: i32| #![trigger post.reads_of(f)] #![trigger pre.reads_of(f)]
                f != fd && pre.subscribed(f) ==>
                    post.reads_of(f) == pre.reads_of(f)
                    && post.writes_of(f) == pre.writes_of(f)
                    && post.armed_of(f) == pre.armed_of(f),
    {
        let n = pre.entries@.len() as int;
        assert forall|j: int| 0 <= j < n implies pre.entries@[j].fd != fd by {
            if pre.entries@[j].fd == fd {
                pre.lemma_idx(fd, j);
            }
        }
        assert forall|p: int, q: int| #![trigger post.entries@[p].fd, post.entries@[q].fd]
            0 <= p < q < post.entries@.len() implies post.entries@[p].fd != post.entries@[q].fd
        by {
            if q < n {
                assert(post.entries@[p] == pre.entries@[p]);
                assert(post.entries@[q] == pre.entries@[q]);
            } else {
                assert(post.entries@[p] == pre.entries@[p]);
                assert(post.entries@[q].fd == fd);
            }
        }
        post.lemma_idx(fd, n);
        assert forall|f: i32| f != fd implies post.subscribed(f) == pre.subscribed(f) by {
            if pre.subscribed(f) {
                let j = choose|j: int| 0 <= j < pre.entries@.len() && pre.entries@[j].fd == f;
                assert(post.entries@[j].fd == f);
                assert(post.subscribed(f));
            }
            if post.subscribed(f) {
                let j = choose|j: int| 0 <= j < post.entries@.len() && post.entries@[j].fd == f;
                assert(j != n);
                assert(pre.entries@[j].fd == f);
                assert(pre.subscribed(f));
            }
        }
        assert forall|f: i32| f != fd && pre.subscribed(f) implies
            post.reads_of(f) == pre.reads_of(f)
            && post.writes_of(f) == pre.writes_of(f)
            && post.armed_of(f) == pre.armed_of(f)
        by {
            let j = choose|j: int| 0 <= j < pre.entries@.len() && pre.entries@[j].fd == f;
            pre.lemma_idx(f, j);
            assert(post.entries@[j] == pre.entries@[j]);
            post.lemma_idx(f, j);
        }
    }

    /// Find the registry index of `fd`.
    fn find(&self, fd: i32) -> (r: Option<usize>)
        requires
            Self::distinct(self.entries@),
        ensures
            match r {
                Some(i) => i < self.entries@.len() && self.entries@[i as int].fd == fd
                    && self.subscribed(fd) && self.idx(fd) == i,
                None => !self.subscribed(fd),
            },
    {
        let n = self.entries.len();
        let mut k: usize = 0;
        while k < n
            invariant
                n == self.entries@.len(),
                k <= n,
                Self::distinct(self.entries@),
                forall|j: int| 0 <= j < k ==> (#[trigger] self.entries@[j]).fd != fd,
            decreases n - k,
        {
            if self.entries[k].fd == fd {
                proof {
                    self.lemma_idx(fd, k as int);
                }
                return Some(k);
            }
            k += 1;
        }
        None
    }

    /// Create a dispatcher with a fresh kernel readiness instance and no
    /// pending requests. On failure the OS errno of the failed creation is
    /// returned.
    pub fn new(epoll_cloexec: bool) -> (r: Result<Dispatcher, DispatchError>)
        ensures
            r matches Ok(d) ==> d.wf() && forall|fd: i32| !(#[trigger] d.subscribed(fd)),
    {
        let flags: u32 = if epoll_cloexec { EPOLL_CLOEXEC } else { 0 };
        match Epoll::create1(flags) {
            Ok(ep) => Ok(Dispatcher { epoll: ep, entries: Vec::new() }),
            Err(e) => Err(DispatchError::Os(e)),
        }
    }

    /// Add `fd` to the dispatcher, registering it with the kernel with an
    /// empty interest mask. This must be done before requesting a read or a
    /// write on `fd`. Subscribing a descriptor twice fails with the kernel's
    /// duplicate-registration error and changes nothing; so does a refused
    /// kernel registration.
    pub fn subscribe(&mut self, fd: i32) -> (r: Result<(), DispatchError>)
        requires
            old(self).wf(),
        ensures
            final(self).wf(),
            old(self).subscribed(fd) ==>
                r == Err::<(), DispatchError>(DispatchError::Os(EEXIST)),
            r matches Err(e) ==> *final(self) == *old(self) && e matches DispatchError::Os(_),
            r matches Ok(v) ==> !old(self).subscribed(fd) && final(self).subscribed(fd)
                && final(self).reads_of(fd) == Seq::<Waker>::empty()
                && final(self).writes_of(fd) == Seq::<Waker>::empty()
                && final(self).armed_of(fd) == 0,
            forall|f: i32| #![trigger final(self).subscribed(f)] #![trigger old(self).subscribed(f)]
                f != fd ==> final(self).subscribed(f) == old(self).subscribed(f),
            forall|f: i32| #![trigger final(self).reads_of(f)] #![trigger old(self).reads_of(f)]
                f != fd && old(self).subscribed(f) ==>
                    final(self).reads_of(f) == old(self).reads_of(f)
                    && final(self).writes_of(f) == old(self).writes_of(f)
                    && final(self).armed_of(f) == old(self).armed_of(f),
    {
        match self.find(fd) {
            Some(_) => Err(DispatchError::Os(EEXIST)),
            None => {
                match self.epoll.ctl(EPOLL_CTL_ADD, fd, 0) {
                    Err(e) => Err(DispatchError::Os(e)),
                    Ok(()) => {
                        let entry = Waiters {
                            fd,
                            reads: Vec::new(),
                            writes: Vec::new(),
                            armed: Ghost(0),
                        };
                        self.entries.push(entry);
                        proof {
                            let n = old(self).entries@.len() as int;
                            Self::lemma_push_frames(*old(self), *self, fd);
                            self.lemma_idx(fd, n);
                            assert forall|i: int| 0 <= i < self.entries@.len()
                                implies (#[trigger] self.entries@[i]).wf()
                            by {
                                if i < n {
                                    assert(self.entries@[i] == old(self).entries@[i]);
                                }
                            }
                        }
                        Ok(())
                    }
                }
            }
        }
    }

    /// Append `waker` to `fd`'s read queue and reprogram the kernel interest
    /// accordingly. A request on a never-subscribed descriptor fails with the
    /// OS error the kernel yields for reprogramming an unregistered
    /// descriptor, and leaves no queue entry. Transactional: the kernel is
    /// reprogrammed with the prospective mask *before* the queue change is
    /// committed, so on any failure the registry and the kernel interest are
    /// both unchanged.
    pub fn request_read(&mut self, fd: i32, waker: Waker) -> (r: Result<(), DispatchError>)
        requires
            old(self).wf(),
        ensures
            final(self).wf(),
            !old(self).subscribed(fd) ==>
                r == Err::<(), DispatchError>(DispatchError::Os(ENOENT)),
            r matches Err(e) ==> *final(self) == *old(self) && e matches DispatchError::Os(_),
            r matches Ok(v) ==> old(self).subscribed(fd)
                && final(self).reads_of(fd) == old(self).reads_of(fd).push(waker)
                && final(self).writes_of(fd) == old(self).writes_of(fd)
                && final(self).armed_of(fd)
                    == interest(true, old(self).writes_of(fd).len() > 0),
            forall|f: i32| #![trigger final(self).subscribed(f)] #![trigger old(self).subscribed(f)]
                final(self).subscribed(f) == old(self).subscribed(f),
            forall|f: i32| #![trigger final(self).reads_of(f)] #![trigger old(self).reads_of(f)]
                f != fd && old(self).subscribed(f) ==>
                    final(self).reads_of(f) == old(self).reads_of(f)
                    && final(self).writes_of(f) == old(self).writes_of(f)
                    && final(self).armed_of(f) == old(self).armed_of(f),
    {
        match self.find(fd) {
            None => Err(DispatchError::Os(ENOENT)),
            Some(i) => {
                let write_pending = self.entries[i].writes.len() > 0;
                let mask = interest_mask(true, write_pending);
                match self.epoll.ctl(EPOLL_CTL_MOD, fd, mask) {
                    Err(e) => Err(DispatchError::Os(e)),
                    Ok(()) => {
                        let entry = &mut self.entries[i];
                        entry.reads.push(waker);
                        entry.armed = Ghost(mask);
                        proof {
                            let gi = i as int;
                            assert(self.entries@[gi].fd == fd);
                            assert(self.entries@[gi].reads@
                                == old(self).entries@[gi].reads@.push(waker));
                            Self::lemma_update_frames(*old(self), *self, gi);
                            old(self).lemma_idx(fd, gi);
                            self.lemma_idx(fd, gi);
                            assert forall|j: int| 0 <= j < self.entries@.len()
                                implies (#[trigger] self.entries@[j]).wf()
                            by {
                                if j != gi {
                                    assert(self.entries@[j] == old(self).entries@[j]);
                                }
                            }
                        }
                        Ok(())
                    }
                }
            }
        }
    }

    /// Append `waker` to `fd`'s write queue and reprogram the kernel interest
    /// accordingly. Fails on a never-subscribed descriptor, and is
    /// transactional, in the same way as [`Self::request_read`].
    pub fn request_write(&mut self, fd: i32, waker: Waker) -> (r: Result<(), DispatchError>)
        requires
            old(self).wf(),
        ensures
            final(self).wf(),
            !old(self).subscribed(fd) ==>
                r == Err::<(), DispatchError>(DispatchError::Os(ENOENT)),
            r matches Err(e) ==> *final(self) == *old(self) && e matches DispatchError::Os(_),
            r matches Ok(v) ==> old(self).subscribed(fd)
                && final(self).writes_of(fd) == old(self).writes_of(fd).push(waker)
                && final(self).reads_of(fd) == old(self).reads_of(fd)
                && final(self).armed_of(fd)
                    == interest(old(self).reads_of(fd).len() > 0, true),
            forall|f: i32| #![trigger final(self).subscribed(f)] #![trigger old(self).subscribed(f)]
                final(self).subscribed(f) == old(self).subscribed(f),
            forall|f: i32| #![trigger final(self).reads_of(f)] #![trigger old(self).reads_of(f)]
                f != fd && old(self).subscribed(f) ==>
                    final(self).reads_of(f) == old(self).reads_of(f)
                    && final(self).writes_of(f) == old(self).writes_of(f)
                    && final(self).armed_of(f) == old(self).armed_of(f),
    {
        match self.find(fd) {
            None => Err(DispatchError::Os(ENOENT)),
            Some(i) => {
                let read_pending = self.entries[i].reads.len() > 0;
                let mask = interest_mask(read_pending, true);
                match self.epoll.ctl(EPOLL_CTL_MOD, fd, mask) {
                    Err(e) => Err(DispatchError::Os(e)),
                    Ok(()) => {
                        let entry = &mut self.entries[i];
                        entry.writes.push(waker);
                        entry.armed = Ghost(mask);
                        proof {
                            let gi = i as int;
                            assert(self.entries@[gi].fd == fd);
                            assert(self.entries@[gi].writes@
                                == old(self).entries@[gi].writes@.push(waker));
                            Self::lemma_update_frames(*old(self), *self, gi);
                            old(self).lemma_idx(fd, gi);
                            self.lemma_idx(fd, gi);
                            assert forall|j: int| 0 <= j < self.entries@.len()
                                implies (#[trigger] self.entries@[j]).wf()
                            by {
                                if j != gi {
                                    assert(self.entries@[j] == old(self).entries@[j]);
                                }
                            }
                        }
                        Ok(())
                    }
                }
            }
        }
    }

    /// Reprogram the kernel interest for the entry at `i` from its current
    /// queue occupancy. Called after every readiness delivery, even when both
    /// queues are empty: one-shot interest was consumed by the delivery and
    /// must be explicitly re-armed. On a refused kernel update the armed mask
    /// is recorded as zero — the consumed one-shot interest was not restored.
    fn resubscribe(&mut self, i: usize) -> (r: Result<(), i32>)
        requires
            i < old(self).entries@.len(),
        ensures
            final(self).entries@.len() == old(self).entries@.len(),
            forall|j: int| 0 <= j < old(self).entries@.len() && j != i
                ==> #[trigger] final(self).entries@[j] == old(self).entries@[j],
            final(self).entries@[i as int].fd == old(self).entries@[i as int].fd,
            final(self).entries@[i as int].reads@ == old(self).entries@[i as int].reads@,
            final(self).entries@[i as int].writes@ == old(self).entries@[i as int].writes@,
            r matches Ok(v) ==> final(self).entries@[i as int].armed@
                == interest(
                    old(self).entries@[i as int].reads@.len() > 0,
                    old(self).entries@[i as int].writes@.len() > 0,
                ),
            r matches Err(e) ==> final(self).entries@[i as int].armed@ == 0,
    {
        let read_pending = self.entries[i].reads.len() > 0;
        let write_pending = self.entries[i].writes.len() > 0;
        let fd = self.entries[i].fd;
        let mask = interest_mask(read_pending, write_pending);
        match self.epoll.ctl(EPOLL_CTL_MOD, fd, mask) {
            Ok(()) => {
                let entry = &mut self.entries[i];
                entry.armed = Ghost(mask);
                Ok(())
            }
            Err(e) => {
                let entry = &mut self.entries[i];
                entry.armed = Ghost(0);
                Err(e)
            }
        }
    }

    /// Desynchronization test: does this delivery hit a descriptor that was
    /// never subscribed, or a fired direction with no pending request?
    pub open spec fn desync(self, ev: Event) -> bool {
        ||| !self.subscribed(ev.fd)
        ||| (has_read(ev.events) && self.reads_of(ev.fd).len() == 0)
        ||| (has_write(ev.events) && self.writes_of(ev.fd).len() == 0)
    }

    /// The effect of resolving one delivery: each fired direction loses its
    /// front (oldest) waiter, and the descriptor's interest is recomputed
    /// from the remaining queues.
    pub open spec fn resolved_one(pre: Dispatcher, post: Dispatcher, ev: Event) -> bool {
        &&& post.reads_of(ev.fd) == (if has_read(ev.events) {
                pre.reads_of(ev.fd).drop_first()
            } else {
                pre.reads_of(ev.fd)
            })
        &&& post.writes_of(ev.fd) == (if has_write(ev.events) {
                pre.writes_of(ev.fd).drop_first()
            } else {
                pre.writes_of(ev.fd)
            })
        &&& post.armed_of(ev.fd) == interest(
                post.reads_of(ev.fd).len() > 0,
                post.writes_of(ev.fd).len() > 0,
            )
    }

    /// One framed resolution step: the delivery's effect on its own
    /// descriptor ([`Self::resolved_one`]), every other descriptor untouched.
    pub open spec fn resolved_one_framed(pre: Dispatcher, post: Dispatcher, ev: Event) -> bool {
        &&& Self::resolved_one(pre, post, ev)
        &&& forall|f: i32| #![trigger post.subscribed(f)] #![trigger pre.subscribed(f)]
                post.subscribed(f) == pre.subscribed(f)
        &&& forall|f: i32| #![trigger post.reads_of(f)] #![trigger pre.reads_of(f)]
                f != ev.fd && pre.subscribed(f) ==>
                    post.reads_of(f) == pre.reads_of(f)
                    && post.writes_of(f) == pre.writes_of(f)
                    && post.armed_of(f) == pre.armed_of(f)
    }

    /// The effect of a delivery whose re-arm the kernel refused: the fired
    /// fronts were popped (and woken), but the consumed one-shot interest
    /// was not restored — the armed mask is recorded as zero; every other
    /// descriptor is untouched.
    pub open spec fn failed_one(pre: Dispatcher, post: Dispatcher, ev: Event) -> bool {
        &&& post.reads_of(ev.fd) == (if has_read(ev.events) {
                pre.reads_of(ev.fd).drop_first()
            } else {
                pre.reads_of(ev.fd)
            })
        &&& post.writes_of(ev.fd) == (if has_write(ev.events) {
                pre.writes_of(ev.fd).drop_first()
            } else {
                pre.writes_of(ev.fd)
            })
        &&& post.armed_of(ev.fd) == 0
        &&& forall|f: i32| #![trigger post.subscribed(f)] #![trigger pre.subscribed(f)]
                post.subscribed(f) == pre.subscribed(f)
        &&& forall|f: i32| #![trigger post.reads_of(f)] #![trigger pre.reads_of(f)]
                f != ev.fd && pre.subscribed(f) ==>
                    post.reads_of(f) == pre.reads_of(f)
                    && post.writes_of(f) == pre.writes_of(f)
                    && post.armed_of(f) == pre.armed_of(f)
    }

    /// The batch `evs` was resolved in order, delivery by delivery, each
    /// step the framed effect of one resolution.
    pub open spec fn resolved_batch(pre: Dispatcher, post: Dispatcher, evs: Seq<Event>) -> bool
        decreases evs.len(),
    {
        if evs.len() == 0 {
            post == pre
        } else {
            exists|mid: Dispatcher|
                #[trigger] Self::resolved_one_framed(pre, mid, evs.first())
                && Self::resolved_batch(mid, post, evs.drop_first())
        }
    }

    /// A resolved batch extends by one framed resolution step at its end.
    proof fn lemma_resolved_batch_snoc(
        pre: Dispatcher,
        mid: Dispatcher,
        post: Dispatcher,
        evs: Seq<Event>,
        ev: Event,
    )
        requires
            Self::resolved_batch(pre, mid, evs),
            Self::resolved_one_framed(mid, post, ev),
        ensures
            Self::resolved_batch(pre, post, evs.push(ev)),
        decreases evs.len(),
    {
        let s = evs.push(ev);
        if evs.len() == 0 {
            assert(mid == pre);
            assert(s.first() == ev);
            assert(s.drop_first() =~= Seq::<Event>::empty());
            assert(Self::resolved_batch(post, post, s.drop_first()));
            assert(Self::resolved_one_framed(pre, post, s.first()));
        } else {
            let m1 = choose|m: Dispatcher|
                #[trigger] Self::resolved_one_framed(pre, m, evs.first())
                && Self::resolved_batch(m, mid, evs.drop_first());
            Self::lemma_resolved_batch_snoc(m1, mid, post, evs.drop_first(), ev);
            assert(s.first() == evs.first());
            assert(s.drop_first() =~= evs.drop_first().push(ev));
            assert(Self::resolved_batch(m1, post, s.drop_first()));
        }
    }

    /// Resolve one readiness delivery: wake the front waiter of each fired
    /// direction, then unconditionally reprogram the descriptor's one-shot
    /// interest from the remaining queues. A delivery with no matching
    /// pending request is a registry/kernel desynchronization: it is
    /// reported, never silently ignored, and nothing is changed.
    pub fn resolve_one(&mut self, ev: Event) -> (r: Result<(), DispatchError>)
        requires
            old(self).wf(),
        ensures
            r matches Ok(v) ==> final(self).wf(),
            r == Err::<(), DispatchError>(DispatchError::QueueDesync)
                <==> old(self).desync(ev),
            r == Err::<(), DispatchError>(DispatchError::QueueDesync)
                ==> *final(self) == *old(self),
            r matches Ok(v) ==> Self::resolved_one(*old(self), *final(self), ev),
            r matches Err(DispatchError::Os(_)) ==>
                Self::failed_one(*old(self), *final(self), ev),
            forall|f: i32| #![trigger final(self).subscribed(f)] #![trigger old(self).subscribed(f)]
                final(self).subscribed(f) == old(self).subscribed(f),
            forall|f: i32| #![trigger final(self).reads_of(f)] #![trigger old(self).reads_of(f)]
                f != ev.fd && old(self).subscribed(f) ==>
                    final(self).reads_of(f) == old(self).reads_of(f)
                    && final(self).writes_of(f) == old(self).writes_of(f)
                    && final(self).armed_of(f) == old(self).armed_of(f),
            forall|f: i32| #![trigger final(self).reads_of(f)] #![trigger old(self).writes_of(f)]
                old(self).subscribed(f) ==>
                    is_suffix_of(final(self).reads_of(f), old(self).reads_of(f))
                    && is_suffix_of(final(self).writes_of(f), old(self).writes_of(f)),
    {
        let fd = ev.fd;
        match self.find(fd) {
            None => {
                proof {
                    lemma_suffix_refl_all(*old(self), *self);
                }
                Err(DispatchError::QueueDesync)
            }
            Some(i) => {
                let fired_read = ev.events & EPOLLIN != 0;
                let fired_write = ev.events & EPOLLOUT != 0;
                if fired_read && self.entries[i].reads.len() == 0 {
                    proof {
                        lemma_suffix_refl_all(*old(self), *self);
                    }
                    return Err(DispatchError::QueueDesync);
                }
                if fired_write && self.entries[i].writes.len() == 0 {
                    proof {
                        lemma_suffix_refl_all(*old(self), *self);
                    }
                    return Err(DispatchError::QueueDesync);
                }
                if fired_read {
                    let entry = &mut self.entries[i];
                    let w = entry.reads.remove(0);
                    wake_token(w);
                }
                if fired_write {
                    let entry = &mut self.entries[i];
                    let w = entry.writes.remove(0);
                    wake_token(w);
                }
                let r = self.resubscribe(i);
                proof {
                    let gi = i as int;
                    assert(self.entries@[gi].reads@ == (if has_read(ev.events) {
                        old(self).entries@[gi].reads@.drop_first()
                    } else {
                        old(self).entries@[gi].reads@
                    }));
                    assert(self.entries@[gi].writes@ == (if has_write(ev.events) {
                        old(self).entries@[gi].writes@.drop_first()
                    } else {
                        old(self).entries@[gi].writes@
                    }));
                    Self::lemma_update_frames(*old(self), *self, gi);
                    old(self).lemma_idx(fd, gi);
                    self.lemma_idx(fd, gi);
                    if r is Ok {
                        assert forall|j: int| 0 <= j < self.entries@.len()
                            implies (#[trigger] self.entries@[j]).wf()
                        by {
                            if j != gi {
                                assert(self.entries@[j] == old(self).entries@[j]);
                            }
                        }
                    }
                    assert forall|f: i32| old(self).subscribed(f) implies
                        is_suffix_of(self.reads_of(f), old(self).reads_of(f))
                        && is_suffix_of(self.writes_of(f), old(self).writes_of(f))
                    by {
                        if f == fd {
                            if has_read(ev.events) {
                                assert(self.reads_of(f) =~= old(self).reads_of(f).skip(1));
                                assert(self.reads_of(f) == old(self).reads_of(f).skip(1));
                            } else {
                                lemma_suffix_refl(self.reads_of(f));
                            }
                            if has_write(ev.events) {
                                assert(self.writes_of(f) =~= old(self).writes_of(f).skip(1));
                                assert(self.writes_of(f) == old(self).writes_of(f).skip(1));
                            } else {
                                lemma_suffix_refl(self.writes_of(f));
                            }
                        } else {
                            lemma_suffix_refl(self.reads_of(f));
                            lemma_suffix_refl(self.writes_of(f));
                        }
                    }
                }
                match r {
                    Ok(()) => Ok(()),
                    Err(e) => Err(DispatchError::Os(e)),
                }
            }
        }
    }

    /// Resolve every delivery of one readiness wait, in the order the kernel
    /// returned them. Resolution stops at the first failure; deliveries
    /// before it stay resolved.
    pub fn resolve_events(&mut self, events: &Vec<Event>) -> (r: Result<(), DispatchError>)
        requires
            old(self).wf(),
        ensures
            r matches Ok(v) ==> final(self).wf(),
            forall|f: i32| #![trigger final(self).subscribed(f)] #![trigger old(self).subscribed(f)]
                final(self).subscribed(f) == old(self).subscribed(f),
            forall|f: i32| #![trigger final(self).reads_of(f)] #![trigger old(self).reads_of(f)]
                untouched(events@, f) && old(self).subscribed(f) ==>
                    final(self).reads_of(f) == old(self).reads_of(f)
                    && final(self).writes_of(f) == old(self).writes_of(f)
                    && final(self).armed_of(f) == old(self).armed_of(f),
            r matches Ok(v) ==> forall|k: int| #![trigger events@[k]]
                0 <= k < events@.len() && sole_event_for_fd(events@, k) ==>
                    Self::resolved_one(*old(self), *final(self), events@[k]),
            events@.len() == 1 && old(self).desync(events@[0]) ==>
                r == Err::<(), DispatchError>(DispatchError::QueueDesync)
                && *final(self) == *old(self),
            events@.len() == 0 ==> r is Ok && *final(self) == *old(self),
            r matches Ok(v) ==> Self::resolved_batch(*old(self), *final(self), events@),
            r == Err::<(), DispatchError>(DispatchError::QueueDesync) ==> exists|k: int|
                0 <= k < events@.len()
                && #[trigger] Self::resolved_batch(*old(self), *final(self), events@.take(k))
                && final(self).desync(events@[k]),
            r matches Err(DispatchError::Os(_)) ==> exists|k: int, mid: Dispatcher|
                0 <= k < events@.len()
                && #[trigger] Self::resolved_batch(*old(self), mid, events@.take(k))
                && Self::failed_one(mid, *final(self), events@[k]),
            forall|f: i32| #![trigger final(self).reads_of(f)] #![trigger old(self).writes_of(f)]
                old(self).subscribed(f) ==>
                    is_suffix_of(final(self).reads_of(f), old(self).reads_of(f))
                    && is_suffix_of(final(self).writes_of(f), old(self).writes_of(f)),
    {
        let n = events.len();
        let mut k: usize = 0;
        proof {
            lemma_suffix_refl_all(*old(self), *self);
        }
        while k < n
            invariant
                n == events@.len(),
                k <= n,
                self.wf(),
                k == 0 ==> *self == *old(self),
                n == 1 && k == 1 ==> !old(self).desync(events@[0]),
                forall|f: i32| #![trigger self.subscribed(f)] #![trigger old(self).subscribed(f)]
                    self.subscribed(f) == old(self).subscribed(f),
                forall|f: i32| #![trigger self.reads_of(f)] #![trigger old(self).reads_of(f)]
                    untouched_upto(events@, k as int, f) && old(self).subscribed(f) ==>
                        self.reads_of(f) == old(self).reads_of(f)
                        && self.writes_of(f) == old(self).writes_of(f)
                        && self.armed_of(f) == old(self).armed_of(f),
                forall|k1: int| #![trigger events@[k1]]
                    0 <= k1 < k && sole_event_for_fd(events@, k1) ==>
                        old(self).subscribed(events@[k1].fd)
                        && Self::resolved_one(*old(self), *self, events@[k1]),
                Self::resolved_batch(*old(self), *self, events@.take(k as int)),
                forall|f: i32| #![trigger self.reads_of(f)] #![trigger old(self).writes_of(f)]
                    old(self).subscribed(f) ==>
                        is_suffix_of(self.reads_of(f), old(self).reads_of(f))
                        && is_suffix_of(self.writes_of(f), old(self).writes_of(f)),
            decreases n - k,
        {
            let ev = events[k];
            let ghost pre = *self;
            match self.resolve_one(ev) {
                Ok(()) => {
                    proof {
                        assert(!pre.desync(ev));
                        assert forall|f: i32|
                            untouched_upto(events@, k as int + 1, f) && old(self).subscribed(f)
                            implies self.reads_of(f) == old(self).reads_of(f)
                                && self.writes_of(f) == old(self).writes_of(f)
                                && self.armed_of(f) == old(self).armed_of(f)
                        by {
                            assert(untouched_upto(events@, k as int, f));
                            assert(events@[k as int].fd != f);
                        }
                        assert forall|k1: int|
                            0 <= k1 < k + 1 && sole_event_for_fd(events@, k1)
                            implies old(self).subscribed(events@[k1].fd)
                                && Self::resolved_one(*old(self), *self, events@[k1])
                        by {
                            if k1 < k {
                                assert(events@[k1].fd != events@[k as int].fd);
                            } else {
                                assert(untouched_upto(events@, k as int, ev.fd));
                            }
                        }
                        assert(Self::resolved_one_framed(pre, *self, ev));
                        Self::lemma_resolved_batch_snoc(
                            *old(self), pre, *self, events@.take(k as int), ev,
                        );
                        assert(events@.take(k as int + 1)
                            =~= events@.take(k as int).push(ev));
                        assert forall|f: i32| old(self).subscribed(f) implies
                            is_suffix_of(self.reads_of(f), old(self).reads_of(f))
                            && is_suffix_of(self.writes_of(f), old(self).writes_of(f))
                        by {
                            lemma_suffix_trans(
                                old(self).reads_of(f), pre.reads_of(f), self.reads_of(f),
                            );
                            lemma_suffix_trans(
                                old(self).writes_of(f), pre.writes_of(f), self.writes_of(f),
                            );
                        }
                    }
                }
                Err(e) => {
                    proof {
                        assert forall|f: i32|
                            untouched(events@, f) && old(self).subscribed(f)
                            implies self.reads_of(f) == old(self).reads_of(f)
                                && self.writes_of(f) == old(self).writes_of(f)
                                && self.armed_of(f) == old(self).armed_of(f)
                        by {
                            assert(untouched_upto(events@, k as int, f));
                            assert(events@[k as int].fd != f);
                        }
                        assert forall|f: i32| old(self).subscribed(f) implies
                            is_suffix_of(self.reads_of(f), old(self).reads_of(f))
                            && is_suffix_of(self.writes_of(f), old(self).writes_of(f))
                        by {
                            lemma_suffix_trans(
                                old(self).reads_of(f), pre.reads_of(f), self.reads_of(f),
                            );
                            lemma_suffix_trans(
                                old(self).writes_of(f), pre.writes_of(f), self.writes_of(f),
                            );
                        }
                        let gk = k as int;
                        if e == DispatchError::QueueDesync {
                            assert(*self == pre);
                            assert(Self::resolved_batch(*old(self), *self, events@.take(gk)));
                            assert(self.desync(events@[gk]));
                        } else {
                            assert(Self::resolved_batch(*old(self), pre, events@.take(gk)));
                            assert(Self::failed_one(pre, *self, events@[gk]));
                        }
                    }
                    return Err(e);
                }
            }
            k += 1;
        }
        proof {
            assert(events@.take(n as int) =~= events@);
        }
        Ok(())
    }

    /// One readiness cycle: block up to `timeout_ms` milliseconds (0: return
    /// at once with whatever is ready; negative: block indefinitely) for
    /// deliveries, then resolve each one in order — wake the front waiter of
    /// every fired direction and re-arm the one-shot interest.
    pub fn poll(&mut self, timeout_ms: i32) -> (r: Result<(), DispatchError>)
        requires
            old(self).wf(),
        ensures
            r matches Ok(v) ==> final(self).wf(),
            forall|f: i32| #![trigger final(self).subscribed(f)] #![trigger old(self).subscribed(f)]
                final(self).subscribed(f) == old(self).subscribed(f),
            forall|f: i32| #![trigger final(self).reads_of(f)] #![trigger old(self).writes_of(f)]
                old(self).subscribed(f) ==>
                    is_suffix_of(final(self).reads_of(f), old(self).reads_of(f))
                    && is_suffix_of(final(self).writes_of(f), old(self).writes_of(f)),
    {
        match self.epoll.wait(EVENT_CAPACITY, timeout_ms) {
            Err(e) => {
                proof {
                    lemma_suffix_refl_all(*old(self), *self);
                }
                Err(DispatchError::Os(e))
            }
            Ok(events) => self.resolve_events(&events),
        }
    }
}

/// No delivery in `evs` is for descriptor `f`.
pub open spec fn untouched(evs: Seq<Event>, f: i32) -> bool {
    forall|k: int| 0 <= k < evs.len() ==> (#[trigger] evs[k]).fd != f
}

/// No delivery in `evs` before index `k` is for descriptor `f`.
spec fn untouched_upto(evs: Seq<Event>, k: int, f: i32) -> bool {
    forall|k2: int| 0 <= k2 < k ==> (#[trigger] evs[k2]).fd != f
}

/// No other delivery in `evs` is for the same descriptor as `evs[k]`.
pub open spec fn sole_event_for_fd(evs: Seq<Event>, k: int) -> bool {
    forall|k2: int| 0 <= k2 < evs.len() && k2 != k ==> (#[trigger] evs[k2]).fd != evs[k].fd
}

/// `post` is `pre` with zero or more of its oldest entries removed: a
/// readiness cycle only ever shortens a queue from the front.
pub open spec fn is_suffix_of(post: Seq<Waker>, pre: Seq<Waker>) -> bool {
    exists|k: int| 0 <= k <= pre.len() && post == #[trigger] pre.skip(k)
}

proof fn lemma_suffix_refl(s: Seq<Waker>)
    ensures
        is_suffix_of(s, s),
{
    assert(s.skip(0) =~= s);
    assert(s == s.skip(0));
}

proof fn lemma_suffix_trans(a: Seq<Waker>, b: Seq<Waker>, c: Seq<Waker>)
    requires
        is_suffix_of(b, a),
        is_suffix_of(c, b),
    ensures
        is_suffix_of(c, a),
{
    let k1 = choose|k: int| 0 <= k <= a.len() && b == #[trigger] a.skip(k);
    let k2 = choose|k: int| 0 <= k <= b.len() && c == #[trigger] b.skip(k);
    assert(a.skip(k1).skip(k2) =~= a.skip(k1 + k2));
    assert(c == a.skip(k1 + k2));
}

/// An unchanged dispatcher trivially keeps every queue a suffix of itself.
proof fn lemma_suffix_refl_all(pre: Dispatcher, post: Dispatcher)
    requires
        post == pre,
    ensures
        forall|f: i32| #![trigger post.reads_of(f)] #![trigger pre.writes_of(f)]
            pre.subscribed(f) ==>
                is_suffix_of(post.reads_of(f), pre.reads_of(f))
                && is_suffix_of(post.writes_of(f), pre.writes_of(f)),
{
    assert forall|f: i32| pre.subscribed(f) implies
        is_suffix_of(post.reads_of(f), pre.reads_of(f))
        && is_suffix_of(post.writes_of(f), pre.writes_of(f))
    by {
        lemma_suffix_refl(pre.reads_of(f));
        lemma_suffix_refl(pre.writes_of(f));
    }
}

/// FIFO fairness. Requests append at the back of a queue
/// ([`Dispatcher::request_read`], [`Dispatcher::request_write`]) and each
/// delivery resolves the front ([`Dispatcher::resolve_one`]), so for any
/// queue of pending requests `q`, after `k` deliveries the queue is
/// `q.skip(k)`, and the request resolved next is `q[k]` — the `k`-th oldest.
/// Resolutions therefore occur in request order, however the resume
/// attempts were interleaved when the requests were queued.
pub proof fn lemma_fifo_order(q: Seq<Waker>, k: int)
    requires
        0 <= k < q.len(),
    ensures
        q.skip(k)[0] == q[k],
        q.skip(k).drop_first() == q.skip(k + 1),
{
    assert(q.skip(k).drop_first() =~= q.skip(k + 1));
}

/// Interest accuracy. In a well-formed dispatcher — and every operation
/// ensures well-formedness — the interest mask armed in the kernel for a
/// subscribed descriptor is exactly the one recomputed from queue occupancy:
/// read-readiness requested iff reads are pending and write-readiness iff
/// writes are pending, together with edge-triggered and one-shot mode; or
/// the all-zero mask of a fresh subscription, whose queues are both empty.
pub proof fn lemma_interest_accuracy(d: Dispatcher, fd: i32)
    requires
        d.wf(),
        d.subscribed(fd),
    ensures
        d.armed_of(fd) == interest(d.reads_of(fd).len() > 0, d.writes_of(fd).len() > 0)
        || (d.armed_of(fd) == 0 && d.reads_of(fd).len() == 0 && d.writes_of(fd).len() == 0),
        has_read(d.armed_of(fd)) == (d.reads_of(fd).len() > 0),
        has_write(d.armed_of(fd)) == (d.writes_of(fd).len() > 0),
{
    let i = choose|i: int| 0 <= i < d.entries@.len() && (#[trigger] d.entries@[i]).fd == fd;
    d.lemma_idx(fd, i);
    crate::epoll::lemma_interest_bits(d.reads_of(fd).len() > 0, d.writes_of(fd).len() > 0);
    assert(!has_read(0u32) && !has_write(0u32)) by (bit_vector);
}

} // verus!
