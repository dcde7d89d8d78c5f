//! Decisions on what an eventfd returns.

use vstd::prelude::*;

use crate::error::{Error, ErrorKind, ErrorView};

verus! {

/// Bytes that one read of an eventfd returns.
pub const VALUE_BYTES: usize = 8;

/// Checks the number of bytes that a read of an eventfd returned.
pub fn check_read(n: usize) -> (result: Result<(), Error>)
    ensures
        match result {
            Ok(()) => n == 8,
            Err(error) => n != 8 && error@ == (ErrorView::Message {
                kind: ErrorKind::Other,
                message: "short read from eventfd"@,
            }),
        },
{
    if n != VALUE_BYTES {
        return Err(Error::new(ErrorKind::Other, "short read from eventfd"));
    }
    Ok(())
}

/// Whether draining an eventfd is over after a read, and how it ended. It goes
/// on after a read that returned a value, and has succeeded when a read would
/// block.
pub fn drain_step(read: Result<u64, Error>) -> (end: Option<Result<(), Error>>)
    ensures
        match read {
            Ok(_) => end is None,
            Err(failure) if (match failure@ {
                ErrorView::Os(code) => code == 11,
                ErrorView::Message { kind, .. } => kind is WouldBlock,
            }) => end == Some(Ok::<(), Error>(())),
            Err(failure) => end matches Some(Err(error)) && error@ == failure@,
        },
{
    match read {
        Ok(_) => None,
        Err(error) => if error.is_would_block() {
            Some(Ok(()))
        } else {
            Some(Err(error))
        },
    }
}

} // verus!
