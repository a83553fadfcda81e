//! Owned wrapper around one kernel readiness-multiplexing (epoll) instance:
//! create, program interest, wait for readiness. The kernel calls themselves
//! are made through the `nix` crate and are trusted; everything that can be
//! computed — in particular the interest mask for a descriptor — is verified.

use vstd::prelude::*;

verus! {

/// Readiness bit: the descriptor can be read without blocking (kernel value of `EPOLLIN`).
pub const EPOLLIN: u32 = 0x001;

/// Readiness bit: the descriptor can be written without blocking (kernel value of `EPOLLOUT`).
pub const EPOLLOUT: u32 = 0x004;

/// One-shot mode: interest is disabled after one delivery until it is
/// reprogrammed (kernel value of `EPOLLONESHOT`).
pub const EPOLLONESHOT: u32 = 0x40000000;

/// Edge-triggered mode: a notification fires only on a readiness transition
/// (kernel value of `EPOLLET`).
pub const EPOLLET: u32 = 0x80000000;

/// Close-on-exec flag for instance creation (kernel value of `EPOLL_CLOEXEC`).
pub const EPOLL_CLOEXEC: u32 = 0o2000000;

/// Control operation: register a new descriptor (kernel value of `EPOLL_CTL_ADD`).
pub const EPOLL_CTL_ADD: i32 = 1;

/// Control operation: drop a descriptor (kernel value of `EPOLL_CTL_DEL`).
pub const EPOLL_CTL_DEL: i32 = 2;

/// Control operation: reprogram a registered descriptor (kernel value of `EPOLL_CTL_MOD`).
pub const EPOLL_CTL_MOD: i32 = 3;

/// Does this observed event mask report read readiness?
pub open spec fn has_read(flags: u32) -> bool {
    flags & EPOLLIN != 0
}

/// Does this observed event mask report write readiness?
pub open spec fn has_write(flags: u32) -> bool {
    flags & EPOLLOUT != 0
}

/// The interest mask to program for a descriptor, given whether reads and
/// writes are pending on it: the requested directions, always combined with
/// edge-triggered and one-shot mode.
pub open spec fn interest(read: bool, write: bool) -> u32 {
    EPOLLET | EPOLLONESHOT | (if read { EPOLLIN } else { 0 }) | (if write { EPOLLOUT } else { 0 })
}

/// The interest mask requests read readiness exactly when a read is pending,
/// and write readiness exactly when a write is pending.
pub proof fn lemma_interest_bits(read: bool, write: bool)
    ensures
        has_read(interest(read, write)) == read,
        has_write(interest(read, write)) == write,
        interest(read, write) != 0,
{
    assert(has_read(interest(read, write)) == read && has_write(interest(read, write)) == write
        && interest(read, write) != 0) by (bit_vector);
}

/// One-shot re-arm. When a delivery has just emptied a descriptor's read
/// queue while write requests remain pending, the interest recomputed for
/// the re-arm requests write readiness only — no read readiness — besides
/// the always-present edge-triggered and one-shot mode.
pub proof fn lemma_rearm_write_only()
    ensures
        !has_read(interest(false, true)),
        has_write(interest(false, true)),
        interest(false, true) == EPOLLET | EPOLLONESHOT | EPOLLOUT,
{
    lemma_interest_bits(false, true);
    assert(interest(false, true) == EPOLLET | EPOLLONESHOT | EPOLLOUT) by (bit_vector);
}

/// Compute the interest mask for the given pending directions.
pub fn interest_mask(read: bool, write: bool) -> (mask: u32)
    ensures
        mask == interest(read, write),
{
    EPOLLET | EPOLLONESHOT | (if read { EPOLLIN } else { 0 }) | (if write { EPOLLOUT } else { 0 })
}

/// One readiness delivery: the descriptor it belongs to and the directions
/// that fired on it.
#[derive(Clone, Copy, Debug, PartialEq, Eq, Structural)]
pub struct Event {
    /// The descriptor the delivery is for (the opaque tag it was armed with).
    pub fd: i32,
    /// The observed event mask.
    pub events: u32,
}

/// An exclusively owned kernel readiness-multiplexing instance.
pub struct Epoll {
    fd: i32,
}

impl Epoll {
    /// Allocate a kernel readiness instance. On failure the OS errno is returned.
    ///
    /// Trusted: relies on `nix::sys::epoll::epoll_create1`, which returns the
    /// new instance's descriptor or the errno of the failed call.
    #[verifier::external_body]
    pub fn create1(flags: u32) -> (r: Result<Epoll, i32>) {
        let bits = nix::sys::epoll::EpollCreateFlags::from_bits_truncate(flags as i32);
        match nix::sys::epoll::epoll_create1(bits) {
            Ok(fd) => Ok(Epoll { fd }),
            Err(e) => Err(e as i32),
        }
    }

    /// Trusted: relies on `nix::sys::epoll::epoll_ctl` with `EPOLL_CTL_ADD` to
    /// register `fd` with the given interest mask, tagged with `fd` itself.
    #[verifier::external_body]
    fn ctl_add(&self, fd: i32, events: u32) -> (r: Result<(), i32>) {
        let bits = nix::sys::epoll::EpollFlags::from_bits_truncate(events as i32);
        let mut ev = nix::sys::epoll::EpollEvent::new(bits, fd as u64);
        match nix::sys::epoll::epoll_ctl(self.fd, nix::sys::epoll::EpollOp::EpollCtlAdd, fd, &mut ev) {
            Ok(()) => Ok(()),
            Err(e) => Err(e as i32),
        }
    }

    /// Trusted: relies on `nix::sys::epoll::epoll_ctl` with `EPOLL_CTL_MOD` to
    /// replace the interest mask armed for the registered descriptor `fd`.
    #[verifier::external_body]
    fn ctl_mod(&self, fd: i32, events: u32) -> (r: Result<(), i32>) {
        let bits = nix::sys::epoll::EpollFlags::from_bits_truncate(events as i32);
        let mut ev = nix::sys::epoll::EpollEvent::new(bits, fd as u64);
        match nix::sys::epoll::epoll_ctl(self.fd, nix::sys::epoll::EpollOp::EpollCtlMod, fd, &mut ev) {
            Ok(()) => Ok(()),
            Err(e) => Err(e as i32),
        }
    }

    /// Trusted: relies on `nix::sys::epoll::epoll_ctl` with `EPOLL_CTL_DEL` to
    /// drop the registration of `fd`.
    #[verifier::external_body]
    fn ctl_del(&self, fd: i32) -> (r: Result<(), i32>) {
        let none: Option<&mut nix::sys::epoll::EpollEvent> = None;
        match nix::sys::epoll::epoll_ctl(self.fd, nix::sys::epoll::EpollOp::EpollCtlDel, fd, none) {
            Ok(()) => Ok(()),
            Err(e) => Err(e as i32),
        }
    }

    /// Register, reprogram or drop a descriptor's interest. On failure the OS
    /// errno is returned and the kernel's interest list is unchanged.
    pub fn ctl(&self, op: i32, fd: i32, events: u32) -> (r: Result<(), i32>)
        requires
            op == EPOLL_CTL_ADD || op == EPOLL_CTL_MOD || op == EPOLL_CTL_DEL,
    {
        if op == EPOLL_CTL_ADD {
            self.ctl_add(fd, events)
        } else if op == EPOLL_CTL_MOD {
            self.ctl_mod(fd, events)
        } else {
            self.ctl_del(fd)
        }
    }

    /// Block for up to `timeout_ms` milliseconds (0: return at once with
    /// whatever is ready; negative: block indefinitely) and return the ready
    /// subset of registered descriptors, each tagged with the descriptor and
    /// the directions that fired.
    ///
    /// Trusted: relies on `nix::sys::epoll::epoll_wait`, which fills at most
    /// `capacity` entries and returns how many it filled, or the errno of the
    /// failed call.
    #[verifier::external_body]
    pub fn wait(&self, capacity: usize, timeout_ms: i32) -> (r: Result<Vec<Event>, i32>)
        requires
            1 <= capacity <= 0x7fffffff,
        ensures
            r matches Ok(evs) ==> evs@.len() <= capacity,
    {
        let mut buf = vec![nix::sys::epoll::EpollEvent::empty(); capacity];
        match nix::sys::epoll::epoll_wait(self.fd, &mut buf, timeout_ms as isize) {
            Ok(n) => Ok(buf[..n].iter().map(|e| Event { fd: e.data() as i32, events: e.events().bits() as u32 }).collect()),
            Err(e) => Err(e as i32),
        }
    }
}

impl Drop for Epoll {
    /// Release the kernel instance; a release failure is not surfaced.
    ///
    /// Trusted: relies on `nix::unistd::close`.
    #[verifier::external_body]
    fn drop(&mut self)
        opens_invariants none
        no_unwind
    {
        let _ = nix::unistd::close(self.fd);
    }
}

} // verus!
