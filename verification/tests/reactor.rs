//! End-to-end tests of the reactor against real descriptors: pipes and unix
//! socket pairs in non-blocking mode, driven through the public dispatcher
//! and read-adapter API.

use std::sync::Arc;
use std::sync::Mutex;
use std::task::Wake;
use std::task::Waker;

use nix::fcntl::OFlag;
use nix::sys::socket::socketpair;
use nix::sys::socket::AddressFamily;
use nix::sys::socket::SockFlag;
use nix::sys::socket::SockType;
use nix::unistd::pipe2;
use nix::unistd::write as fd_write;

use yuk::dispatch::DispatchError;
use yuk::dispatch::Dispatcher;
use yuk::epoll::interest_mask;
use yuk::epoll::Event;
use yuk::epoll::EPOLLIN;
use yuk::epoll::EPOLLOUT;
use yuk::raw_fd::read_step;
use yuk::raw_fd::ReadStep;

/// A waker that appends its id to a shared log when woken.
struct LogWake {
    id: u32,
    log: Arc<Mutex<Vec<u32>>>,
}

impl Wake for LogWake {
    fn wake(self: Arc<Self>) {
        self.log.lock().unwrap().push(self.id);
    }
}

fn log_waker(id: u32, log: &Arc<Mutex<Vec<u32>>>) -> Waker {
    Waker::from(Arc::new(LogWake { id, log: Arc::clone(log) }))
}

fn new_log() -> Arc<Mutex<Vec<u32>>> {
    Arc::new(Mutex::new(Vec::new()))
}

fn logged(log: &Arc<Mutex<Vec<u32>>>) -> Vec<u32> {
    log.lock().unwrap().clone()
}

fn nonblocking_pipe() -> (i32, i32) {
    pipe2(OFlag::O_NONBLOCK).expect("pipe2")
}

#[test]
fn interest_mask_values() {
    assert_eq!(interest_mask(false, false), 0xC000_0000);
    assert_eq!(interest_mask(true, false), 0xC000_0000 | EPOLLIN);
    assert_eq!(interest_mask(false, true), 0xC000_0000 | EPOLLOUT);
    assert_eq!(interest_mask(true, true), 0xC000_0005);
}

#[test]
fn request_before_subscribe_fails() {
    let (rfd, _wfd) = nonblocking_pipe();
    let mut d = Dispatcher::new(true).expect("dispatcher");
    let log = new_log();
    // ENOENT: the error the kernel's registration call yields for an
    // unregistered descriptor (errno 2).
    assert_eq!(d.request_read(rfd, log_waker(1, &log)), Err(DispatchError::Os(2)));
    assert_eq!(d.request_write(rfd, log_waker(2, &log)), Err(DispatchError::Os(2)));
    // Nothing was queued: a poll cycle wakes nobody.
    d.poll(0).expect("poll");
    assert_eq!(logged(&log), Vec::<u32>::new());
}

#[test]
fn subscribe_twice_fails() {
    let (rfd, _wfd) = nonblocking_pipe();
    let mut d = Dispatcher::new(true).expect("dispatcher");
    d.subscribe(rfd).expect("first subscribe");
    // EEXIST: the kernel's duplicate-registration error (errno 17).
    assert_eq!(d.subscribe(rfd), Err(DispatchError::Os(17)));
}

#[test]
fn subscribe_invalid_fd_reports_os_error() {
    let mut d = Dispatcher::new(true).expect("dispatcher");
    // EBADF is errno 9 on Linux.
    assert_eq!(d.subscribe(-1), Err(DispatchError::Os(9)));
}

#[test]
fn ready_read_completes_without_request() {
    let (rfd, wfd) = nonblocking_pipe();
    fd_write(wfd, b"shoe").expect("write");
    let mut d = Dispatcher::new(true).expect("dispatcher");
    let log = new_log();
    let mut buf = vec![0u8; 4];
    let step = read_step(&mut d, rfd, &mut buf, log_waker(1, &log));
    assert_eq!(step, ReadStep::Done(4));
    assert_eq!(&buf, b"shoe");
    // The success path never queues a request or wakes anybody.
    assert_eq!(logged(&log), Vec::<u32>::new());
}

#[test]
fn short_read_reports_transferred_count() {
    let (rfd, wfd) = nonblocking_pipe();
    fd_write(wfd, b"ab").expect("write");
    let mut d = Dispatcher::new(true).expect("dispatcher");
    let log = new_log();
    let mut buf = vec![0u8; 16];
    let step = read_step(&mut d, rfd, &mut buf, log_waker(1, &log));
    assert_eq!(step, ReadStep::Done(2));
    assert_eq!(&buf[..2], b"ab");
    assert_eq!(buf.len(), 16);
}

#[test]
fn would_block_suspends_then_resumes() {
    let (rfd, wfd) = nonblocking_pipe();
    let mut d = Dispatcher::new(true).expect("dispatcher");
    d.subscribe(rfd).expect("subscribe");
    let log = new_log();

    // Empty pipe: the attempt suspends and queues the waker.
    let mut buf = vec![0u8; 8];
    let step = read_step(&mut d, rfd, &mut buf, log_waker(7, &log));
    assert_eq!(step, ReadStep::Suspended);
    assert_eq!(logged(&log), Vec::<u32>::new());

    // Data arrives; one poll cycle wakes the queued waker.
    fd_write(wfd, b"abc").expect("write");
    d.poll(1000).expect("poll");
    assert_eq!(logged(&log), vec![7]);

    // The retried attempt now completes with the transferred count.
    let step = read_step(&mut d, rfd, &mut buf, log_waker(8, &log));
    assert_eq!(step, ReadStep::Done(3));
    assert_eq!(&buf[..3], b"abc");
}

#[test]
fn would_block_on_never_subscribed_fd_fails() {
    let (rfd, _wfd) = nonblocking_pipe();
    let mut d = Dispatcher::new(true).expect("dispatcher");
    let log = new_log();
    let mut buf = vec![0u8; 8];
    let step = read_step(&mut d, rfd, &mut buf, log_waker(1, &log));
    assert_eq!(step, ReadStep::Failed(DispatchError::Os(2)));
}

#[test]
fn fifo_wake_order_over_injected_events() {
    let (rfd, _wfd) = nonblocking_pipe();
    let mut d = Dispatcher::new(true).expect("dispatcher");
    d.subscribe(rfd).expect("subscribe");
    let log = new_log();
    d.request_read(rfd, log_waker(1, &log)).expect("request 1");
    d.request_read(rfd, log_waker(2, &log)).expect("request 2");
    d.request_read(rfd, log_waker(3, &log)).expect("request 3");

    // Three read deliveries resolve the three requests in request order.
    let ev = Event { fd: rfd, events: EPOLLIN };
    d.resolve_one(ev).expect("first delivery");
    assert_eq!(logged(&log), vec![1]);
    d.resolve_one(ev).expect("second delivery");
    assert_eq!(logged(&log), vec![1, 2]);
    d.resolve_one(ev).expect("third delivery");
    assert_eq!(logged(&log), vec![1, 2, 3]);

    // All requests are drained now: one more delivery is a desync.
    assert_eq!(d.resolve_one(ev), Err(DispatchError::QueueDesync));
}

#[test]
fn event_without_request_is_desync() {
    let (rfd, _wfd) = nonblocking_pipe();
    let mut d = Dispatcher::new(true).expect("dispatcher");
    d.subscribe(rfd).expect("subscribe");

    // Subscribed, but no pending read request.
    let ev = Event { fd: rfd, events: EPOLLIN };
    assert_eq!(d.resolve_one(ev), Err(DispatchError::QueueDesync));

    // Never-subscribed descriptor.
    let stray = Event { fd: rfd + 1000, events: EPOLLOUT };
    assert_eq!(d.resolve_events(&vec![stray]), Err(DispatchError::QueueDesync));

    // A fired direction whose queue is empty is a desync even when the other
    // direction has a pending request.
    let log = new_log();
    d.request_read(rfd, log_waker(1, &log)).expect("request");
    let both = Event { fd: rfd, events: EPOLLIN | EPOLLOUT };
    assert_eq!(d.resolve_one(both), Err(DispatchError::QueueDesync));
    // The pending read request was not consumed by the refused delivery.
    d.resolve_one(ev).expect("read delivery");
    assert_eq!(logged(&log), vec![1]);
}

#[test]
fn one_wait_resolves_every_delivery_in_order() {
    let (r1, _w1) = nonblocking_pipe();
    let (r2, _w2) = nonblocking_pipe();
    let mut d = Dispatcher::new(true).expect("dispatcher");
    d.subscribe(r1).expect("subscribe r1");
    d.subscribe(r2).expect("subscribe r2");
    let log = new_log();
    d.request_read(r1, log_waker(1, &log)).expect("request r1");
    d.request_read(r2, log_waker(2, &log)).expect("request r2");

    let batch = vec![
        Event { fd: r2, events: EPOLLIN },
        Event { fd: r1, events: EPOLLIN },
    ];
    d.resolve_events(&batch).expect("resolve batch");
    // Deliveries are resolved in the order the wait returned them.
    assert_eq!(logged(&log), vec![2, 1]);
}

#[test]
fn poll_with_zero_timeout_returns_at_once() {
    let (rfd, _wfd) = nonblocking_pipe();
    let mut d = Dispatcher::new(true).expect("dispatcher");
    d.subscribe(rfd).expect("subscribe");
    let log = new_log();
    let mut buf = vec![0u8; 8];
    assert_eq!(read_step(&mut d, rfd, &mut buf, log_waker(1, &log)), ReadStep::Suspended);
    // No data: nothing is ready, nothing is woken.
    d.poll(0).expect("poll");
    assert_eq!(logged(&log), Vec::<u32>::new());
}

#[test]
fn mixed_directions_one_shot_rearm() {
    let (s0, s1) = socketpair(
        AddressFamily::Unix,
        SockType::Stream,
        None,
        SockFlag::SOCK_NONBLOCK,
    )
    .expect("socketpair");
    let mut d = Dispatcher::new(true).expect("dispatcher");
    d.subscribe(s0).expect("subscribe");
    let log = new_log();
    d.request_read(s0, log_waker(1, &log)).expect("read request");
    d.request_write(s0, log_waker(2, &log)).expect("write request");

    // The socket is writable at once but not readable: the first cycle
    // resolves only the write request.
    d.poll(1000).expect("first poll");
    assert_eq!(logged(&log), vec![2]);

    // The re-arm kept read interest for the still-pending read request:
    // once data arrives, the next cycle resolves it.
    fd_write(s1, b"x").expect("write");
    d.poll(1000).expect("second poll");
    assert_eq!(logged(&log), vec![2, 1]);
}

#[test]
fn write_request_resolves_when_writable() {
    let (s0, _s1) = socketpair(
        AddressFamily::Unix,
        SockType::Stream,
        None,
        SockFlag::SOCK_NONBLOCK,
    )
    .expect("socketpair");
    let mut d = Dispatcher::new(true).expect("dispatcher");
    d.subscribe(s0).expect("subscribe");
    let log = new_log();
    d.request_write(s0, log_waker(5, &log)).expect("write request");
    d.poll(1000).expect("poll");
    assert_eq!(logged(&log), vec![5]);
}
