//! Errors of the transfer engine.

use vstd::prelude::*;
use vstd::string::StringExecFns;

verus! {

/// Error number with which Linux says that an operation would block.
pub const EAGAIN: i32 = 11;

/// What an error raised by this crate is about.
#[derive(Debug, Clone, Copy, PartialEq, Eq, Structural)]
pub enum ErrorKind {
    /// A parameter is out of range.
    InvalidInput,
    /// The operation cannot be carried out right now.
    WouldBlock,
    /// The time for the operation ran out.
    TimedOut,
    /// A read ended before its buffer was full.
    UnexpectedEof,
    /// A write ended before its buffer was sent.
    WriteZero,
    /// Anything else.
    Other,
}

/// An error of the operating system or of this crate.
#[derive(Debug, PartialEq, Eq)]
pub enum Error {
    /// An error number of the operating system.
    Os(i32),
    /// An error raised by this crate.
    Message {
        /// What it is about.
        kind: ErrorKind,
        /// What it says.
        message: String,
    },
}

/// The mathematical content of an [`Error`].
pub enum ErrorView {
    Os(i32),
    Message { kind: ErrorKind, message: Seq<char> },
}

impl View for Error {
    type V = ErrorView;

    open spec fn view(&self) -> ErrorView {
        match self {
            Error::Os(code) => ErrorView::Os(*code),
            Error::Message { kind, message } => ErrorView::Message { kind: *kind, message: message@ },
        }
    }
}

impl ErrorView {
    /// Whether the error says that an operation would block.
    pub open spec fn would_block(self) -> bool {
        match self {
            ErrorView::Os(code) => code == EAGAIN,
            ErrorView::Message { kind, .. } => kind == ErrorKind::WouldBlock,
        }
    }
}

impl Error {
    /// An error of this crate.
    pub fn new(kind: ErrorKind, message: &str) -> (error: Error)
        ensures
            error@ == (ErrorView::Message { kind, message: message@ }),
    {
        Error::Message { kind, message: message.to_owned() }
    }

    /// An error number of the operating system.
    pub fn from_raw_os_error(code: i32) -> (error: Error)
        ensures
            error@ == ErrorView::Os(code),
    {
        Error::Os(code)
    }

    /// The kind of an error of this crate, nothing for an error number.
    pub fn kind(&self) -> (kind: Option<ErrorKind>)
        ensures
            kind == match self@ {
                ErrorView::Os(_) => None::<ErrorKind>,
                ErrorView::Message { kind, .. } => Some(kind),
            },
    {
        match self {
            Error::Os(_) => None,
            Error::Message { kind, .. } => Some(*kind),
        }
    }

    /// Whether the error says that an operation would block.
    pub fn is_would_block(&self) -> (answer: bool)
        ensures
            answer == self@.would_block(),
            answer == match self@ {
                ErrorView::Os(code) => code == 11,
                ErrorView::Message { kind, .. } => kind is WouldBlock,
            },
    {
        match self {
            Error::Os(code) => *code == EAGAIN,
            Error::Message { kind, .. } => *kind == ErrorKind::WouldBlock,
        }
    }
}

/// The decimal digit of a number below ten.
pub open spec fn digit(n: nat) -> char
    recommends
        n < 10,
{
    (48 + n) as char
}

/// The decimal notation of a number, without leading zeros.
pub open spec fn decimal(n: nat) -> Seq<char>
    decreases n,
{
    if n < 10 {
        seq![digit(n)]
    } else {
        decimal(n / 10).push(digit(n % 10))
    }
}

fn digit_text(n: usize) -> (text: &'static str)
    requires
        n < 10,
    ensures
        text@ == seq![digit(n as nat)],
{
    proof {
        reveal_strlit("0");
        reveal_strlit("1");
        reveal_strlit("2");
        reveal_strlit("3");
        reveal_strlit("4");
        reveal_strlit("5");
        reveal_strlit("6");
        reveal_strlit("7");
        reveal_strlit("8");
        reveal_strlit("9");
    }
    match n {
        0 => "0",
        1 => "1",
        2 => "2",
        3 => "3",
        4 => "4",
        5 => "5",
        6 => "6",
        7 => "7",
        8 => "8",
        _ => "9",
    }
}

/// Appends the decimal notation of a number to a text.
pub fn append_decimal(text: &mut String, n: usize)
    ensures
        final(text)@ == old(text)@ + decimal(n as nat),
    decreases n,
{
    if n >= 10 {
        append_decimal(text, n / 10);
    }
    text.append(digit_text(n % 10));
    assert(text@ == old(text)@ + decimal(n as nat));
}

} // verus!
