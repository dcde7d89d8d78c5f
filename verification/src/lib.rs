//! Exact borrowed-buffer transfers over Linux native asynchronous I/O.

pub mod error;
pub mod opcode;
pub mod request;
pub mod reply;
pub mod slots;
pub mod driver;
pub mod eventfd;
pub mod sums;
pub mod ids;
pub mod exact;
pub mod cancel;
pub mod transfer;
pub mod api;
pub mod laws;
