//! Exact transfers against a simulated kernel and USB host.

use gadget_aio::api::{ReadExact, WriteAll};
use gadget_aio::cancel::{CancelStep, Cancellation};
use gadget_aio::driver::Driver;
use gadget_aio::error::{Error, ErrorKind};
use gadget_aio::exact::{ExactState, PendingChunk, TransferKind};
use gadget_aio::opcode::PREAD;
use gadget_aio::reply::{Readiness, Reply};
use gadget_aio::request::{IoCb, IoEvent, ReapRequest, Span, Timespec};
use gadget_aio::transfer::{Mode, Phase, Stage, Transfer};
use std::collections::VecDeque;

const MPS: usize = 512;
const BASE: usize = 0x10000;
const FD: i32 = 7;
const TIMEOUT: Option<Span> = Some(Span { secs: 5, subsec_nanos: 0 });
const QUEUE_LEN: u32 = 4;
const NO_WAIT: ReapRequest = ReapRequest { min_nr: 0, timeout: None };

/// Kernel with a buffer at address `BASE`, connected to a USB host.
struct Kernel {
    memory: Vec<u8>,
    in_flight: VecDeque<IoCb>,
    from_host: VecDeque<Vec<u8>>,
    to_host: Vec<Vec<u8>>,
    submitted: usize,
    cancelled: usize,
    cancels: bool,
}

impl Kernel {
    fn new(memory: Vec<u8>) -> Self {
        Kernel {
            memory,
            in_flight: VecDeque::new(),
            from_host: VecDeque::new(),
            to_host: Vec::new(),
            submitted: 0,
            cancelled: 0,
            cancels: true,
        }
    }

    fn host_sends(&mut self, data: &[u8]) {
        if data.is_empty() {
            self.from_host.push_back(Vec::new());
        }
        for packet in data.chunks(MPS) {
            self.from_host.push_back(packet.to_vec());
        }
    }

    fn submit(&mut self, iocb: IoCb) {
        assert_eq!(iocb.fd, FD);
        assert!(iocb.buf as usize >= BASE);
        assert!((iocb.buf + iocb.nbytes) as usize <= BASE + self.memory.len());
        for other in &self.in_flight {
            assert!(iocb.buf + iocb.nbytes <= other.buf || other.buf + other.nbytes <= iocb.buf);
        }
        self.submitted += 1;
        self.in_flight.push_back(iocb);
    }

    /// Serves the oldest operation, if the host has something for it.
    fn serve(&mut self) -> Option<IoEvent> {
        let iocb = *self.in_flight.front()?;
        let start = iocb.buf as usize - BASE;
        let end = start + iocb.nbytes as usize;
        let mut n = 0;
        if iocb.opcode == PREAD {
            self.from_host.front()?;
            while start + n < end {
                let packet = match self.from_host.pop_front() {
                    Some(packet) => packet,
                    None => break,
                };
                self.memory[start + n..start + n + packet.len()].copy_from_slice(&packet);
                n += packet.len();
                if packet.len() < MPS {
                    break;
                }
            }
        } else {
            self.to_host.push(self.memory[start..end].to_vec());
            n = end - start;
        }
        self.in_flight.pop_front();
        Some(IoEvent { data: iocb.data, res: n as i64 })
    }

    fn reap(&mut self) -> Reply {
        let mut batch = Vec::new();
        while let Some(event) = self.serve() {
            batch.push(event);
        }
        Reply::Reaped(Ok(batch.len() as i64), batch)
    }

    fn cancel(&mut self, cancellation: &Cancellation) -> Reply {
        match cancellation.step() {
            CancelStep::Cancel(id) => {
                if self.cancels {
                    self.cancelled += 1;
                    self.in_flight.retain(|iocb| iocb.data != *id as u64);
                }
                Reply::Cancelled(self.cancels)
            }
            CancelStep::Reap(_) => {
                let batch: Vec<IoEvent> =
                    self.in_flight.drain(..).map(|iocb| IoEvent { data: iocb.data, res: -125 }).collect();
                Reply::Reaped(Ok(batch.len() as i64), batch)
            }
            CancelStep::Drain => Reply::Drained(Ok(())),
            CancelStep::Done(_) => unreachable!(),
        }
    }

    /// The reply to what a transfer is waiting for, nothing if it rests.
    fn reply(&mut self, driver: &Driver, phase: &Phase, left: &mut u64) -> Option<Reply> {
        Some(match phase {
            Phase::Deadline(_) => Reply::Deadline(true),
            Phase::Submit(submission) => {
                self.submit(driver.iocb(submission.handle.0).unwrap());
                Reply::Submitted(Ok(1))
            }
            Phase::Clock => {
                let secs = *left;
                *left = left.saturating_sub(1);
                Reply::Remaining(Span { secs, subsec_nanos: 0 })
            }
            Phase::Reap(request) => {
                assert_eq!(request.min_nr, 1);
                assert!(!self.in_flight.is_empty());
                self.reap()
            }
            Phase::Drain(_) => Reply::Drained(Ok(())),
            Phase::Collect(_, _) => {
                assert_eq!(phase.request(), Some(NO_WAIT));
                self.reap()
            }
            Phase::Register => Reply::Ready(Readiness::Pending),
            Phase::Cancel(cancellation, _) => self.cancel(cancellation),
            Phase::Ready | Phase::Sleep | Phase::Finished(_) => return None,
        })
    }

    fn run(&mut self, driver: &mut Driver, mut transfer: Transfer) -> Result<(), String> {
        let mut left = 5;
        while let Some(reply) = self.reply(driver, transfer.phase(), &mut left) {
            transfer.resume(driver, reply);
        }
        outcome(transfer.phase())
    }

    fn read(&mut self, driver: &mut Driver, len: usize, chunk_size: usize) -> Result<(), String> {
        let transfer = driver.read_exact(FD, BASE, len, chunk_size, TIMEOUT);
        self.run(driver, transfer)
    }

    fn write(&mut self, driver: &mut Driver, len: usize, chunk_size: usize) -> Result<(), String> {
        let transfer = driver.write_all(FD, BASE, len, chunk_size, TIMEOUT);
        self.run(driver, transfer)
    }

    /// Polls a read until it sleeps or ends.
    fn poll_read(&mut self, driver: &mut Driver, read: &mut ReadExact) {
        read.poll(driver, Reply::Begin);
        while let Some(reply) = self.reply(driver, read.phase(), &mut 0) {
            read.poll(driver, reply);
        }
    }

    /// Polls a write until it sleeps or ends.
    fn poll_write(&mut self, driver: &mut Driver, write: &mut WriteAll) {
        write.poll(driver, Reply::Begin);
        while let Some(reply) = self.reply(driver, write.phase(), &mut 0) {
            write.poll(driver, reply);
        }
    }
}

fn outcome(phase: &Phase) -> Result<(), String> {
    match phase {
        Phase::Finished(Ok(())) => Ok(()),
        Phase::Finished(Err(error)) => Err(text(error)),
        _ => panic!("not finished: {phase:?}"),
    }
}

fn text(error: &Error) -> String {
    match error {
        Error::Os(code) => format!("os {code}"),
        Error::Message { kind, message } => format!("{kind:?}: {message}"),
    }
}

fn driver() -> Driver {
    Driver::new(QUEUE_LEN, 9).unwrap()
}

fn assert_idle(driver: &Driver, kernel: &Kernel) {
    assert!(driver.is_drained());
    assert_eq!(driver.completed_len(), 0);
    assert!(kernel.in_flight.is_empty());
}

const TIMED_OUT: &str = "TimedOut: timeout waiting for exact AIO transfer";

// Host sends MPS bytes of 0xAA followed by a ZLP. The device reads exactly MPS
// bytes, then the ZLP is rejected as a short exact read.
#[test]
fn zlp_recv_mps_buffer() {
    let mut driver = driver();
    let mut kernel = Kernel::new(vec![0; MPS]);
    kernel.host_sends(&[0xAA; MPS]);
    kernel.host_sends(&[]);
    kernel.read(&mut driver, MPS, 16384).expect("recv data failed");
    assert!(kernel.memory.iter().all(|&b| b == 0xAA), "expected all 0xAA");
    let error = kernel.read(&mut driver, MPS, 16384).unwrap_err();
    assert_eq!(error, "UnexpectedEof: short AIO read: expected 512 bytes, received 0");
    assert_idle(&driver, &kernel);
}

// Host sends MPS bytes of 0xBB followed by a ZLP. The device reads with a
// buffer of twice the size: the positive short completion is progress, the ZLP
// terminates the transfer, and the remaining exact read times out.
#[test]
fn zlp_recv_large_buffer() {
    let mut driver = driver();
    let mut kernel = Kernel::new(vec![0; 2 * MPS]);
    kernel.host_sends(&[0xBB; MPS]);
    kernel.host_sends(&[]);
    assert_eq!(kernel.read(&mut driver, 2 * MPS, 16384), Err(TIMED_OUT.to_string()));
    assert!(kernel.memory[..MPS].iter().all(|&b| b == 0xBB));
    assert_eq!(kernel.submitted, 2);
    assert_eq!(kernel.cancelled, 1);
    assert_idle(&driver, &kernel);
}

// The device sends a ZLP with an empty write. The host gets no bytes.
#[test]
fn zlp_send_empty() {
    let mut driver = driver();
    let mut kernel = Kernel::new(vec![]);
    kernel.write(&mut driver, 0, 16384).expect("device: send ZLP failed");
    assert_eq!(kernel.to_host, vec![Vec::<u8>::new()], "host: expected ZLP (0 bytes)");
    assert_idle(&driver, &kernel);
}

// The device sends MPS bytes of 0xDD and then a ZLP.
#[test]
fn zlp_send_data_then_zlp() {
    let mut driver = driver();
    let mut kernel = Kernel::new(vec![0xDD; MPS]);
    kernel.write(&mut driver, MPS, 16384).expect("device: send data failed");
    kernel.write(&mut driver, 0, 16384).expect("device: send ZLP failed");
    assert_eq!(kernel.to_host.len(), 2);
    assert_eq!(kernel.to_host[0].len(), MPS);
    assert!(kernel.to_host[0].iter().all(|&b| b == 0xDD), "host: expected all 0xDD");
    assert_eq!(kernel.to_host[1].len(), 0, "host: expected ZLP (0 bytes)");
}

// A single exact zero-length write delivers a ZLP.
#[test]
fn zlp_send_single_call() {
    let mut driver = driver();
    let mut kernel = Kernel::new(vec![0xEE; MPS]);
    kernel.write(&mut driver, MPS, 16384).expect("device: write data failed");
    let before = kernel.submitted;
    kernel.write(&mut driver, 0, 16384).expect("device: write ZLP failed");
    assert_eq!(kernel.submitted - before, 1);
    assert_eq!(kernel.to_host[0].len(), MPS);
    assert!(kernel.to_host[0].iter().all(|&b| b == 0xEE), "host: expected all 0xEE");
    assert_eq!(kernel.to_host[1].len(), 0, "host: expected ZLP (0 bytes)");
}

// Sixteen rounds of exact reads and writes without a timeout.
#[test]
fn transfer_sync_no_timeout() {
    let mut driver = driver();
    let mut kernel = Kernel::new(vec![0; MPS]);
    for round in 0..16u8 {
        kernel.host_sends(&[round; MPS]);
        let read = driver.read_exact(FD, BASE, MPS, 16384, None);
        kernel.run(&mut driver, read).unwrap();
        assert!(kernel.memory.iter().all(|&x| x == round));
        let write = driver.write_all(FD, BASE, MPS, 16384, None);
        kernel.run(&mut driver, write).unwrap();
        assert_eq!(kernel.to_host[round as usize], vec![round; MPS]);
    }
    assert_idle(&driver, &kernel);
}

// Eight rounds of polled reads and writes of 32 KiB.
#[test]
fn transfer_async() {
    const SIZE: usize = 32 * 1024;
    let mut driver = driver();
    let mut kernel = Kernel::new(vec![0; SIZE]);
    for round in 0..8u8 {
        let mut read = driver.read_exact_async(FD, BASE, SIZE, 16384);
        kernel.poll_read(&mut driver, &mut read);
        assert!(matches!(read.phase(), Phase::Sleep));
        kernel.host_sends(&[round; SIZE]);
        kernel.poll_read(&mut driver, &mut read);
        outcome(read.phase()).unwrap();
        assert!(kernel.memory.iter().all(|&x| x == round));

        let mut write = driver.write_all_async(FD, BASE, SIZE, 16384);
        kernel.poll_write(&mut driver, &mut write);
        outcome(write.phase()).unwrap();
        assert_eq!(kernel.to_host.concat(), vec![round; SIZE]);
        kernel.to_host.clear();
    }
    assert_idle(&driver, &kernel);
}

#[test]
fn long_transfers_go_in_chunks_through_a_short_queue() {
    let mut driver = driver();
    let data: Vec<u8> = (0..10 * MPS + 100).map(|i| (i % 251) as u8).collect();
    let mut kernel = Kernel::new(data.clone());
    kernel.write(&mut driver, data.len(), MPS).unwrap();
    assert_eq!(kernel.submitted, 11);
    assert_eq!(kernel.to_host.concat(), data);
    assert_eq!(kernel.to_host.last().unwrap().len(), 100);

    let mut kernel = Kernel::new(vec![0; data.len()]);
    kernel.host_sends(&data);
    kernel.read(&mut driver, data.len(), MPS).unwrap();
    assert_eq!(kernel.memory, data);
    assert_eq!(kernel.submitted, 11);
}

#[test]
fn chunk_size_zero_counts_as_one() {
    let mut driver = driver();
    let mut kernel = Kernel::new(vec![1, 2, 3]);
    kernel.write(&mut driver, 3, 0).unwrap();
    assert_eq!(kernel.to_host, vec![vec![1], vec![2], vec![3]]);
}

#[test]
fn empty_read_needs_no_operation() {
    let mut driver = driver();
    let mut kernel = Kernel::new(vec![]);
    kernel.read(&mut driver, 0, MPS).unwrap();
    assert_eq!(kernel.submitted, 0);
    let transfer = driver.read_exact(FD, BASE, 0, MPS, None);
    assert!(matches!(transfer.phase(), Phase::Finished(Ok(()))));
}

#[test]
fn short_read_is_progress_and_the_rest_follows() {
    let mut driver = driver();
    let mut kernel = Kernel::new(vec![0; 1000]);
    kernel.host_sends(&[1; 300]);
    kernel.host_sends(&[2; 512]);
    kernel.host_sends(&[3; 188]);
    kernel.read(&mut driver, 1000, 16384).unwrap();
    let mut expected = vec![1; 300];
    expected.extend(vec![2; 512]);
    expected.extend(vec![3; 188]);
    assert_eq!(kernel.memory, expected);
    assert_eq!(kernel.submitted, 2);
}

#[test]
fn short_read_before_another_chunk_fails() {
    let mut driver = driver();
    let mut kernel = Kernel::new(vec![0; 2 * MPS]);
    kernel.host_sends(&[1; 300]);
    let error = kernel.read(&mut driver, 2 * MPS, MPS).unwrap_err();
    assert_eq!(error, "UnexpectedEof: short AIO read: expected 512 bytes, received 300");
    assert_eq!(kernel.cancelled, 1);
    assert_idle(&driver, &kernel);
}

#[test]
fn short_write_fails() {
    let mut driver = driver();
    let mut transfer = driver.write_all(FD, BASE, 100, 100, None);
    transfer.resume(&mut driver, Reply::Submitted(Ok(1)));
    transfer.resume(&mut driver, Reply::Reaped(Ok(1), vec![IoEvent { data: 0, res: 40 }]));
    transfer.resume(&mut driver, Reply::Drained(Ok(())));
    assert_eq!(
        outcome(transfer.phase()),
        Err("WriteZero: short AIO write: expected 100 bytes, wrote 40".to_string())
    );
}

#[test]
fn failed_operation_fails_the_transfer_and_cancels_the_rest() {
    let mut driver = driver();
    let mut transfer = driver.write_all(FD, BASE, 100, 50, None);
    transfer.resume(&mut driver, Reply::Submitted(Ok(1)));
    transfer.resume(&mut driver, Reply::Submitted(Ok(1)));
    transfer.resume(&mut driver, Reply::Reaped(Ok(1), vec![IoEvent { data: 0, res: -108 }]));
    transfer.resume(&mut driver, Reply::Drained(Ok(())));
    assert!(matches!(transfer.phase(), Phase::Cancel(_, Err(Error::Os(108)))));
    transfer.resume(&mut driver, Reply::Cancelled(true));
    assert_eq!(outcome(transfer.phase()), Err("os 108".to_string()));
    assert!(driver.is_drained());
}

#[test]
fn outcome_is_kept_when_the_cancellation_fails() {
    let mut driver = driver();
    let mut transfer = driver.write_all(FD, BASE, 100, 50, None);
    transfer.resume(&mut driver, Reply::Submitted(Ok(1)));
    transfer.resume(&mut driver, Reply::Submitted(Err(Error::Os(11))));
    transfer.resume(&mut driver, Reply::Cancelled(false));
    transfer.resume(&mut driver, Reply::Reaped(Err(Error::Os(22)), vec![]));
    assert_eq!(outcome(transfer.phase()), Err("os 11".to_string()));
    assert_eq!(driver.active_ids(), vec![0]);
}

#[test]
fn operations_that_cannot_be_cancelled_are_waited_for() {
    let mut driver = driver();
    let mut kernel = Kernel::new(vec![0; 4 * MPS]);
    kernel.cancels = false;
    let error = kernel.read(&mut driver, 4 * MPS, MPS).unwrap_err();
    assert_eq!(error, TIMED_OUT);
    assert_eq!(kernel.cancelled, 0);
    assert_idle(&driver, &kernel);
}

#[test]
fn chunk_that_is_not_accepted_fails() {
    let mut driver = driver();
    let mut transfer = driver.write_all(FD, BASE, 100, 100, None);
    transfer.resume(&mut driver, Reply::Submitted(Ok(0)));
    assert_eq!(outcome(transfer.phase()), Err("WouldBlock: AIO request not accepted".to_string()));
    assert!(driver.is_drained());
}

#[test]
fn timeout_that_cannot_be_expressed_fails_at_once() {
    let mut driver = driver();
    let mut transfer = driver.read_exact(FD, BASE, 100, 100, Some(Span { secs: u64::MAX, subsec_nanos: 0 }));
    assert!(matches!(transfer.phase(), Phase::Deadline(Span { secs: u64::MAX, .. })));
    transfer.resume(&mut driver, Reply::Deadline(false));
    assert_eq!(outcome(transfer.phase()), Err("InvalidInput: timeout too large".to_string()));
    assert!(driver.is_drained());
}

#[test]
fn remaining_time_decides_the_wait() {
    let mut driver = driver();
    for (left, expected) in [
        (Span { secs: 0, subsec_nanos: 0 }, TIMED_OUT),
        (Span { secs: 1 << 63, subsec_nanos: 0 }, "InvalidInput: timeout too large"),
    ] {
        let mut transfer = driver.read_exact(FD, BASE, 100, 100, TIMEOUT);
        transfer.resume(&mut driver, Reply::Deadline(true));
        transfer.resume(&mut driver, Reply::Submitted(Ok(1)));
        assert!(matches!(transfer.phase(), Phase::Clock));
        transfer.resume(&mut driver, Reply::Remaining(left));
        transfer.resume(&mut driver, Reply::Cancelled(true));
        assert_eq!(outcome(transfer.phase()), Err(expected.to_string()));
    }
    let mut transfer = driver.read_exact(FD, BASE, 100, 100, TIMEOUT);
    transfer.resume(&mut driver, Reply::Deadline(true));
    transfer.resume(&mut driver, Reply::Submitted(Ok(1)));
    transfer.resume(&mut driver, Reply::Remaining(Span { secs: 0, subsec_nanos: 1 }));
    assert!(matches!(transfer.phase(), Phase::Reap(_)));
}

#[test]
fn wait_without_events_times_out() {
    let mut driver = driver();
    let mut transfer = driver.read_exact(FD, BASE, 100, 100, None);
    transfer.resume(&mut driver, Reply::Submitted(Ok(1)));
    transfer.resume(&mut driver, Reply::Reaped(Ok(0), vec![]));
    assert!(matches!(transfer.phase(), Phase::Drain(0)));
    transfer.resume(&mut driver, Reply::Drained(Ok(())));
    transfer.resume(&mut driver, Reply::Cancelled(true));
    assert_eq!(outcome(transfer.phase()), Err(TIMED_OUT.to_string()));
}

#[test]
fn errors_of_waiting_and_draining_fail() {
    let mut driver = driver();
    let mut transfer = driver.read_exact(FD, BASE, 100, 100, None);
    transfer.resume(&mut driver, Reply::Submitted(Ok(1)));
    transfer.resume(&mut driver, Reply::Reaped(Err(Error::Os(4)), vec![]));
    transfer.resume(&mut driver, Reply::Cancelled(true));
    assert_eq!(outcome(transfer.phase()), Err("os 4".to_string()));

    let mut transfer = driver.read_exact(FD, BASE, 100, 100, None);
    transfer.resume(&mut driver, Reply::Submitted(Ok(1)));
    transfer.resume(&mut driver, Reply::Reaped(Ok(1), vec![IoEvent { data: 0, res: 100 }]));
    transfer.resume(&mut driver, Reply::Drained(Err(Error::Os(9))));
    assert_eq!(outcome(transfer.phase()), Err("os 9".to_string()));
    assert_eq!(driver.completed_len(), 0);
}

#[test]
fn replies_to_something_else_change_nothing() {
    let mut driver = driver();
    let mut transfer = driver.read_exact(FD, BASE, 100, 100, None);
    transfer.resume(&mut driver, Reply::Drained(Ok(())));
    transfer.resume(&mut driver, Reply::Begin);
    transfer.resume(&mut driver, Reply::Cancelled(true));
    assert!(matches!(transfer.phase(), Phase::Submit(_)));
    assert_eq!(driver.active_ids(), vec![0]);
}

#[test]
fn polled_transfer_looks_again_after_registration() {
    let mut driver = driver();
    let mut read = driver.read_exact_async(FD, BASE, 100, 100);
    assert!(matches!(read.phase(), Phase::Ready));
    read.poll(&mut driver, Reply::Begin);
    read.poll(&mut driver, Reply::Submitted(Ok(1)));
    assert!(matches!(read.phase(), Phase::Collect(Stage::First, 0)));
    read.poll(&mut driver, Reply::Reaped(Ok(0), vec![]));
    assert!(matches!(read.phase(), Phase::Register));
    read.poll(&mut driver, Reply::Ready(Readiness::Pending));
    assert!(matches!(read.phase(), Phase::Collect(Stage::AfterRegistration, 0)));
    // The completion raced with the registration.
    read.poll(&mut driver, Reply::Reaped(Ok(1), vec![IoEvent { data: 0, res: 100 }]));
    assert!(matches!(read.phase(), Phase::Collect(Stage::AfterRegistration, 1)));
    read.poll(&mut driver, Reply::Reaped(Ok(0), vec![]));
    assert_eq!(outcome(read.phase()), Ok(()));
}

#[test]
fn polled_transfer_goes_on_after_a_read_of_the_eventfd() {
    for read_result in [None, Some(Ok(1))] {
        let mut driver = driver();
        let mut write = driver.write_all_async(FD, BASE, 100, 100);
        write.poll(&mut driver, Reply::Begin);
        write.poll(&mut driver, Reply::Submitted(Ok(1)));
        write.poll(&mut driver, Reply::Reaped(Ok(0), vec![]));
        write.poll(&mut driver, Reply::Ready(Readiness::Readable(read_result)));
        assert!(matches!(write.phase(), Phase::Collect(Stage::AfterRead, 0)));
        // Nothing there after all: it is looked for again from the start.
        write.poll(&mut driver, Reply::Reaped(Ok(0), vec![]));
        assert!(matches!(write.phase(), Phase::Collect(Stage::First, 0)));
    }
}

#[test]
fn errors_of_polling_fail() {
    for readiness in [Readiness::Failed(Error::Os(12)), Readiness::Readable(Some(Err(Error::Os(12))))] {
        let mut driver = driver();
        let mut read = driver.read_exact_async(FD, BASE, 100, 100);
        read.poll(&mut driver, Reply::Begin);
        read.poll(&mut driver, Reply::Submitted(Ok(1)));
        read.poll(&mut driver, Reply::Reaped(Ok(0), vec![]));
        read.poll(&mut driver, Reply::Ready(readiness));
        read.poll(&mut driver, Reply::Cancelled(true));
        assert_eq!(outcome(read.phase()), Err("os 12".to_string()));
        // Polled again after its end.
        read.poll(&mut driver, Reply::Begin);
        assert_eq!(outcome(read.phase()), Ok(()));
    }
}

#[test]
fn abandoned_futures_cancel_their_operations() {
    let mut driver = driver();
    let mut kernel = Kernel::new(vec![0; 2 * MPS]);
    let mut read = driver.read_exact_async(FD, BASE, 2 * MPS, MPS);
    kernel.poll_read(&mut driver, &mut read);
    assert_eq!(driver.active_len(), 2);
    read.abandon(&mut driver);
    while let Some(reply) = kernel.reply(&driver, read.phase(), &mut 0) {
        read.poll(&mut driver, reply);
    }
    assert_eq!(outcome(read.phase()), Ok(()));
    assert_eq!(kernel.cancelled, 2);
    assert_idle(&driver, &kernel);

    let mut write = driver.write_all_async(FD, BASE, MPS, MPS);
    write.abandon(&mut driver);
    assert_eq!(outcome(write.phase()), Ok(()));
    kernel.poll_write(&mut driver, &mut write);
    assert_eq!(outcome(write.phase()), Ok(()));
    assert_eq!(kernel.to_host.len(), 0);
}

#[test]
fn state_accounts_for_chunks() {
    let mut driver = driver();
    let mut state = ExactState::new(TransferKind::Read, FD, BASE, 250, 100);
    assert!(!state.is_done());
    for (offset, len) in [(0, 100), (100, 100), (200, 50)] {
        let submission = state.submit_available(&mut driver).unwrap().unwrap();
        assert_eq!(submission.chunk, PendingChunk { offset, len });
        assert_eq!(driver.iocb(submission.handle.0).unwrap().buf as usize, BASE + offset);
        state.submit_accepted(submission);
    }
    assert!(state.submit_available(&mut driver).unwrap().is_none());
    let mut ids = state.pending_ids();
    ids.sort();
    assert_eq!(ids, vec![0, 1, 2]);

    driver.complete_event(IoEvent { data: 2, res: 20 });
    driver.complete_event(IoEvent { data: 0, res: 100 });
    assert_eq!(state.consume_completed(&mut driver), Ok(()));
    assert_eq!(state.pending_ids(), vec![1]);
    // The short last chunk is continued behind the bytes it has brought.
    let submission = state.submit_available(&mut driver).unwrap().unwrap();
    assert_eq!(submission.chunk, PendingChunk { offset: 220, len: 30 });
    state.submit_accepted(submission);
    driver.complete_event(IoEvent { data: 1, res: 100 });
    driver.complete_event(IoEvent { data: submission.handle.0 as u64, res: 30 });
    assert_eq!(state.consume_completed(&mut driver), Ok(()));
    assert!(state.is_done());
}

#[test]
fn cleared_state_has_nothing_pending() {
    let mut driver = driver();
    let mut state = ExactState::new(TransferKind::Write, FD, BASE, 0, 100);
    let submission = state.submit_available(&mut driver).unwrap().unwrap();
    assert_eq!(submission.chunk, PendingChunk { offset: 0, len: 0 });
    state.submit_accepted(submission);
    assert!(!state.is_done());
    assert!(state.submit_available(&mut driver).unwrap().is_none());
    state.clear_pending();
    assert!(state.pending_ids().is_empty());
    assert!(state.is_done());
}

#[test]
fn bad_completion_is_reported_and_forgotten() {
    let mut driver = driver();
    let mut state = ExactState::new(TransferKind::Read, FD, BASE, 100, 100);
    let submission = state.submit_available(&mut driver).unwrap().unwrap();
    state.submit_accepted(submission);
    driver.complete_event(IoEvent { data: 0, res: 101 });
    let error = state.consume_completed(&mut driver).unwrap_err();
    assert_eq!(error.kind(), Some(ErrorKind::UnexpectedEof));
    assert_eq!(text(&error), "UnexpectedEof: short AIO read: expected 100 bytes, received 101");
    assert!(state.pending_ids().is_empty());
    assert_eq!(driver.completed_len(), 0);
}

#[test]
fn new_transfer_waits_to_be_run() {
    let mut driver = driver();
    let state = ExactState::new(TransferKind::Read, FD, BASE, 0, 1);
    let mut transfer = Transfer::new(state, Mode::Polled);
    assert!(matches!(transfer.phase(), Phase::Ready));
    transfer.resume(&mut driver, Reply::Begin);
    assert_eq!(outcome(transfer.phase()), Ok(()));
}

#[test]
fn phases_say_which_events_to_ask_for() {
    let mut driver = driver();
    let mut transfer = driver.read_exact(FD, BASE, 100, 100, TIMEOUT);
    assert_eq!(transfer.phase().request(), None);
    transfer.resume(&mut driver, Reply::Deadline(true));
    assert_eq!(transfer.phase().request(), None);
    transfer.resume(&mut driver, Reply::Submitted(Ok(1)));
    transfer.resume(&mut driver, Reply::Remaining(Span { secs: 3, subsec_nanos: 7 }));
    let timeout = Some(Timespec { tv_sec: 3, tv_nsec: 7 });
    assert_eq!(transfer.phase().request(), Some(ReapRequest { min_nr: 1, timeout }));
    transfer.resume(&mut driver, Reply::Reaped(Err(Error::Os(4)), vec![]));
    assert_eq!(transfer.phase().request(), None);
    transfer.resume(&mut driver, Reply::Cancelled(false));
    assert_eq!(transfer.phase().request(), Some(ReapRequest { min_nr: 1, timeout: None }));

    let mut driver = Driver::new(QUEUE_LEN, 9).unwrap();
    let mut read = driver.read_exact_async(FD, BASE, 100, 100);
    read.poll(&mut driver, Reply::Begin);
    read.poll(&mut driver, Reply::Submitted(Ok(1)));
    assert_eq!(read.phase().request(), Some(NO_WAIT));
    read.poll(&mut driver, Reply::Reaped(Ok(0), vec![]));
    assert_eq!(read.phase().request(), None);
}

#[test]
fn batch_after_batch_is_collected_without_waiting() {
    let mut driver = driver();
    let mut read = driver.read_exact_async(FD, BASE, 400, 100);
    read.poll(&mut driver, Reply::Begin);
    for _ in 0..4 {
        read.poll(&mut driver, Reply::Submitted(Ok(1)));
    }
    read.poll(&mut driver, Reply::Reaped(Ok(1), vec![IoEvent { data: 2, res: 100 }]));
    assert!(matches!(read.phase(), Phase::Collect(Stage::First, 1)));
    assert_eq!(read.phase().request(), Some(NO_WAIT));
    let batch = vec![IoEvent { data: 0, res: 100 }, IoEvent { data: 3, res: 100 }];
    read.poll(&mut driver, Reply::Reaped(Ok(2), batch));
    assert!(matches!(read.phase(), Phase::Collect(Stage::First, 3)));
    assert_eq!(read.phase().request(), Some(NO_WAIT));
    assert_eq!(driver.active_ids(), vec![1]);
    assert_eq!(driver.completed_len(), 3);
    read.poll(&mut driver, Reply::Reaped(Ok(0), vec![]));
    // The completions are accounted for and the last one is looked for.
    assert!(matches!(read.phase(), Phase::Collect(Stage::First, 0)));
    assert_eq!(driver.completed_len(), 0);
}

#[test]
fn submissions_tile_the_buffer_in_order() {
    let mut driver = driver();
    let mut transfer = driver.read_exact(FD, BASE, 1000, 300, None);
    let mut next = 0;
    let mut rounds = 0;
    while !matches!(transfer.phase(), Phase::Finished(_)) {
        let reply = match transfer.phase() {
            Phase::Submit(submission) => {
                assert_eq!(submission.chunk.offset, next);
                let iocb = driver.iocb(submission.handle.0).unwrap();
                assert_eq!(iocb.buf as usize, BASE + next);
                assert_eq!(iocb.nbytes as usize, submission.chunk.len);
                next += submission.chunk.len;
                Reply::Submitted(Ok(1))
            }
            Phase::Reap(_) => {
                rounds += 1;
                let mut batch = Vec::new();
                for id in driver.active_ids() {
                    let iocb = driver.iocb(id).unwrap();
                    let end = (iocb.buf + iocb.nbytes) as usize - BASE;
                    // The last chunk is cut short once.
                    let cut = if end == 1000 && rounds == 1 { 40 } else { 0 };
                    next -= cut;
                    batch.push(IoEvent { data: iocb.data, res: iocb.nbytes as i64 - cut as i64 });
                }
                Reply::Reaped(Ok(batch.len() as i64), batch)
            }
            _ => Reply::Drained(Ok(())),
        };
        transfer.resume(&mut driver, reply);
    }
    assert_eq!(outcome(transfer.phase()), Ok(()));
    assert_eq!(next, 1000);
    assert_eq!(rounds, 2);
}

#[test]
fn polled_and_blocking_transfers_end_alike() {
    let data: Vec<u8> = (0..6 * MPS + 40).map(|i| (i % 253) as u8).collect();
    for cut in [0, 100] {
        let mut outcomes = Vec::new();
        for polled in [false, true] {
            let mut driver = driver();
            let mut kernel = Kernel::new(vec![0; data.len()]);
            kernel.host_sends(&data[..cut]);
            kernel.host_sends(&data[cut..]);
            if polled {
                let mut read = driver.read_exact_async(FD, BASE, data.len(), 16384);
                assert_eq!(driver.active_len(), 0);
                kernel.poll_read(&mut driver, &mut read);
                while matches!(read.phase(), Phase::Sleep) && !kernel.from_host.is_empty() {
                    kernel.poll_read(&mut driver, &mut read);
                }
                outcomes.push(outcome(read.phase()));
            } else {
                let read = driver.read_exact(FD, BASE, data.len(), 16384, None);
                outcomes.push(kernel.run(&mut driver, read));
            }
            outcomes.push(if kernel.memory == data { Ok(()) } else { Err("other bytes".to_string()) });
            assert_idle(&driver, &kernel);
        }
        assert_eq!(outcomes[..2], outcomes[2..]);
        assert_eq!(outcomes[0].is_ok(), cut != 0);
    }
}

#[test]
fn failed_poll_leaves_nothing_behind() {
    let mut driver = driver();
    let mut write = driver.write_all_async(FD, BASE, 300, 100);
    write.poll(&mut driver, Reply::Begin);
    for _ in 0..3 {
        write.poll(&mut driver, Reply::Submitted(Ok(1)));
    }
    let batch = vec![IoEvent { data: 1, res: -5 }, IoEvent { data: 0, res: 100 }];
    write.poll(&mut driver, Reply::Reaped(Ok(2), batch));
    write.poll(&mut driver, Reply::Reaped(Ok(0), vec![]));
    assert!(matches!(write.phase(), Phase::Cancel(_, Err(Error::Os(5)))));
    write.poll(&mut driver, Reply::Cancelled(false));
    write.poll(&mut driver, Reply::Reaped(Ok(1), vec![IoEvent { data: 2, res: -125 }]));
    write.poll(&mut driver, Reply::Drained(Ok(())));
    assert_eq!(outcome(write.phase()), Err("os 5".to_string()));
    assert!(driver.is_drained());
    assert_eq!(driver.completed_len(), 0);
    write.poll(&mut driver, Reply::Begin);
    assert_eq!(outcome(write.phase()), Ok(()));
    assert!(driver.is_drained());
}

#[test]
fn polled_transfer_sleeps_with_everything_it_can_submit_in_flight() {
    let mut driver = driver();
    let mut kernel = Kernel::new(vec![0; 6 * MPS]);
    let mut read = driver.read_exact_async(FD, BASE, 6 * MPS, MPS);
    kernel.poll_read(&mut driver, &mut read);
    assert!(matches!(read.phase(), Phase::Sleep));
    assert_eq!(driver.active_len(), QUEUE_LEN as usize);
    assert_eq!(driver.completed_len(), 0);
    kernel.host_sends(&[1; 4 * MPS]);
    kernel.poll_read(&mut driver, &mut read);
    assert!(matches!(read.phase(), Phase::Sleep));
    assert_eq!(driver.active_len(), 2);
    assert_eq!(driver.completed_len(), 0);
}

/// Runs a read of 400 bytes in chunks of 100 with completions in given batches.
fn read_in_batches(polled: bool, batches: &[Vec<IoEvent>]) -> Result<(), String> {
    let mut driver = driver();
    let mode = if polled { Mode::Polled } else { Mode::Blocking(None) };
    let mut transfer = Transfer::new(ExactState::new(TransferKind::Read, FD, BASE, 400, 100), mode);
    let mut batches = batches.iter();
    loop {
        let reply = match transfer.phase() {
            Phase::Ready | Phase::Sleep => Reply::Begin,
            Phase::Submit(_) => Reply::Submitted(Ok(1)),
            Phase::Reap(_) | Phase::Collect(_, 0) => {
                let batch = batches.next().unwrap().clone();
                Reply::Reaped(Ok(batch.len() as i64), batch)
            }
            Phase::Collect(_, _) => Reply::Reaped(Ok(0), vec![]),
            Phase::Drain(_) => Reply::Drained(Ok(())),
            Phase::Cancel(_, _) => Reply::Cancelled(true),
            Phase::Finished(_) => break,
            phase => panic!("unexpected {phase:?}"),
        };
        transfer.resume(&mut driver, reply);
    }
    assert!(driver.is_drained());
    assert_eq!(driver.completed_len(), 0);
    outcome(transfer.phase())
}

#[test]
fn one_bad_chunk_gives_its_error_however_completions_come() {
    let event = |data: u64| IoEvent { data, res: if data == 2 { -5 } else { 100 } };
    let expected = Err("os 5".to_string());
    for polled in [false, true] {
        assert_eq!(read_in_batches(polled, &[vec![event(0), event(1), event(2), event(3)]]), expected);
        assert_eq!(read_in_batches(polled, &[vec![event(3)], vec![event(1)], vec![event(0), event(2)]]), expected);
        assert_eq!(read_in_batches(polled, &[vec![event(2)]]), expected);
    }
}

#[test]
fn last_chunk_cut_short_is_progress_however_completions_come() {
    // The rest of the last chunk goes under the number taken back last.
    for polled in [false, true] {
        let event = |data, res| IoEvent { data, res };
        let all_at_once = [
            vec![event(0, 100), event(1, 100), event(2, 100), event(3, 60)],
            vec![event(3, 40)],
        ];
        assert_eq!(read_in_batches(polled, &all_at_once), Ok(()));
        let one_by_one = [
            vec![event(3, 60)],
            vec![event(0, 100)],
            vec![event(3, 40)],
            vec![event(2, 100)],
            vec![event(1, 100)],
        ];
        assert_eq!(read_in_batches(polled, &one_by_one), Ok(()));
    }
}
