//! Records that are exchanged with the kernel.

use vstd::prelude::*;

verus! {

/// Control block of one AIO operation.
#[derive(Debug, Clone, Copy, PartialEq, Eq, Structural)]
pub struct IoCb {
    /// What to do.
    pub opcode: u16,
    /// File descriptor to do it on.
    pub fd: i32,
    /// Address of the first byte of the buffer.
    pub buf: u64,
    /// Length of the buffer in bytes.
    pub nbytes: u64,
    /// Eventfd that is notified when the operation completes.
    pub resfd: Option<i32>,
    /// Value that the completion event carries.
    pub data: u64,
}

impl IoCb {
    /// A control block without notification and with data zero.
    pub fn new(opcode: u16, fd: i32, buf: u64, nbytes: u64) -> (iocb: IoCb)
        ensures
            iocb == (IoCb { opcode, fd, buf, nbytes, resfd: None, data: 0 }),
    {
        IoCb { opcode, fd, buf, nbytes, resfd: None, data: 0 }
    }

    /// The same control block with notification of an eventfd.
    pub fn with_resfd(self, resfd: i32) -> (iocb: IoCb)
        ensures
            iocb == (IoCb { resfd: Some(resfd), ..self }),
    {
        IoCb { resfd: Some(resfd), ..self }
    }

    /// The same control block with other data.
    pub fn with_data(self, data: u64) -> (iocb: IoCb)
        ensures
            iocb == (IoCb { data, ..self }),
    {
        IoCb { data, ..self }
    }
}

/// Submitted kernel AIO request.
#[derive(Debug, Clone, Copy, PartialEq, Eq, Structural)]
pub struct InFlight {
    /// Its control block.
    pub iocb: IoCb,
}

impl InFlight {
    /// The control block to hand to the kernel.
    pub fn iocb_ptr(&self) -> (iocb: &IoCb)
        ensures
            *iocb == self.iocb,
    {
        &self.iocb
    }
}

/// Completion event that the kernel reports.
#[derive(Debug, Clone, Copy, PartialEq, Eq, Structural)]
pub struct IoEvent {
    /// Data of the control block that completed.
    pub data: u64,
    /// Bytes transferred, or an error number negated.
    pub res: i64,
}

/// A length of time.
#[derive(Debug, Clone, Copy, PartialEq, Eq, Structural)]
pub struct Span {
    /// Whole seconds.
    pub secs: u64,
    /// Nanoseconds on top, less than a second.
    pub subsec_nanos: u32,
}

impl Span {
    /// Whether the span has no length.
    pub open spec fn spec_is_zero(self) -> bool {
        self.secs == 0 && self.subsec_nanos == 0
    }

    /// Whether the span has no length.
    pub fn is_zero(&self) -> (zero: bool)
        ensures
            zero == self.spec_is_zero(),
            zero == (self.secs == 0 && self.subsec_nanos == 0),
    {
        self.secs == 0 && self.subsec_nanos == 0
    }
}

/// A length of time as the kernel takes it.
#[derive(Debug, Clone, Copy, PartialEq, Eq, Structural)]
pub struct Timespec {
    /// Whole seconds.
    pub tv_sec: i64,
    /// Nanoseconds on top, less than a second.
    pub tv_nsec: i64,
}

/// Request to collect completion events.
#[derive(Debug, Clone, Copy, PartialEq, Eq, Structural)]
pub struct ReapRequest {
    /// Number of events to wait for.
    pub min_nr: i64,
    /// How long to wait for them, without limit if absent.
    pub timeout: Option<Timespec>,
}

} // verus!
