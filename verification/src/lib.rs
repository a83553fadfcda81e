//! A small readiness reactor: it turns kernel readiness notifications for
//! file descriptors into wakeups for suspended I/O operations, so that
//! non-blocking reads can be written as suspend/resume computations.

pub mod dispatch;
pub mod epoll;
pub mod raw_fd;
