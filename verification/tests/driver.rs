//! Drivers, completions, errors and eventfd decisions.

use gadget_aio::cancel::{CancelStep, Cancellation};
use gadget_aio::driver::{CompletedOp, Driver, OpHandle};
use gadget_aio::error::{append_decimal, Error, ErrorKind, EAGAIN};
use gadget_aio::eventfd::{check_read, drain_step};
use gadget_aio::exact::TransferKind;
use gadget_aio::opcode::{PREAD, PWRITE};
use gadget_aio::reply::Reply;
use gadget_aio::request::{InFlight, IoCb, IoEvent, ReapRequest, Span, Timespec};

fn message(kind: ErrorKind, text: &str) -> Error {
    Error::Message { kind, message: text.to_string() }
}

fn driver(queue_len: u32) -> Driver {
    Driver::new(queue_len, 9).unwrap()
}

fn submit(driver: &mut Driver, nbytes: usize) -> OpHandle {
    let handle = driver.submit_raw(PREAD, 7, 4096, nbytes).unwrap();
    driver.submit_reply(handle, Ok(1)).unwrap()
}

fn is_done(cancellation: &Cancellation) -> bool {
    matches!(cancellation.step(), CancelStep::Done(Ok(())))
}

#[test]
fn queue_length_zero_is_refused() {
    let refusal = message(ErrorKind::InvalidInput, "AIO queue length must be greater than zero");
    assert_eq!(Driver::new(0, 9).unwrap_err(), refusal);
    assert_eq!(Driver::check_queue_len(0), Err(refusal));
    assert_eq!(Driver::check_queue_len(1), Ok(()));
}

#[test]
fn new_driver_is_idle() {
    let driver = driver(3);
    assert_eq!(driver.available_slots(), 3);
    assert_eq!(driver.queue_len(), 3);
    assert_eq!(driver.active_len(), 0);
    assert_eq!(driver.completed_len(), 0);
    assert!(driver.is_drained());
    assert_eq!(driver.reap_blocking(), None);
    assert_eq!(driver.reap_timeout(Span { secs: 1, subsec_nanos: 0 }), Ok(None));
    assert_eq!(driver.active_ids(), Vec::<usize>::new());
}

#[test]
fn submission_numbers_operations_and_fills_control_blocks() {
    let mut driver = driver(2);
    assert_eq!(driver.submit_raw(PREAD, 7, 4096, 10), Ok(OpHandle(0)));
    assert_eq!(driver.submit_raw(PWRITE, 8, 5000, 0), Ok(OpHandle(1)));
    assert_eq!(
        driver.iocb(0),
        Some(IoCb { opcode: PREAD, fd: 7, buf: 4096, nbytes: 10, resfd: Some(9), data: 0 })
    );
    assert_eq!(
        driver.iocb(1),
        Some(IoCb { opcode: PWRITE, fd: 8, buf: 5000, nbytes: 0, resfd: Some(9), data: 1 })
    );
    assert_eq!(driver.iocb(2), None);
    assert_eq!(driver.active_ids(), vec![0, 1]);
    assert!(driver.is_active(0) && driver.is_active(1) && !driver.is_active(2));
    assert_eq!(driver.active_len(), 2);
}

#[test]
fn full_queue_would_block() {
    let mut driver = driver(1);
    submit(&mut driver, 10);
    assert_eq!(driver.available_slots(), 0);
    assert_eq!(
        driver.submit_raw(PREAD, 7, 4096, 10),
        Err(message(ErrorKind::WouldBlock, "no AIO queue space available"))
    );
    assert_eq!(driver.active_len(), 1);
}

#[test]
fn refused_submission_leaves_no_trace() {
    let mut driver = driver(2);
    let handle = driver.submit_raw(PREAD, 7, 4096, 10).unwrap();
    assert_eq!(driver.submit_reply(handle, Ok(0)), Err(message(ErrorKind::WouldBlock, "AIO request not accepted")));
    assert!(driver.is_drained());
    let handle = driver.submit_raw(PREAD, 7, 4096, 10).unwrap();
    assert_eq!(handle, OpHandle(0));
    assert_eq!(driver.submit_reply(handle, Err(Error::Os(5))), Err(Error::Os(5)));
    assert!(driver.is_drained());
    assert_eq!(driver.available_slots(), 2);
}

#[test]
fn completion_moves_an_operation_once() {
    let mut driver = driver(2);
    submit(&mut driver, 10);
    submit(&mut driver, 20);
    driver.complete_event(IoEvent { data: 1, res: 20 });
    driver.complete_event(IoEvent { data: 1, res: 99 });
    driver.complete_event(IoEvent { data: 7, res: 1 });
    driver.complete_event(IoEvent { data: u64::MAX, res: 1 });
    assert!(driver.is_completed(1) && !driver.is_completed(0) && !driver.is_completed(7));
    assert_eq!(driver.completed_len(), 1);
    assert_eq!(driver.active_ids(), vec![0]);
    assert_eq!(driver.take_completed(1), Some(CompletedOp { id: 1, res: 20 }));
    assert_eq!(driver.take_completed(1), None);
}

#[test]
fn events_of_different_operations_commute() {
    let a = IoEvent { data: 0, res: 10 };
    let b = IoEvent { data: 1, res: -5 };
    let mut one = driver(2);
    let mut two = driver(2);
    for d in [&mut one, &mut two] {
        submit(d, 10);
        submit(d, 20);
    }
    one.complete_event(a);
    one.complete_event(b);
    two.complete_event(b);
    two.complete_event(a);
    for id in 0..2 {
        assert_eq!(one.take_completed(id), two.take_completed(id));
    }
    assert!(one.is_drained() && two.is_drained());
}

#[test]
fn batch_counts_as_the_kernel_says() {
    let mut driver = driver(3);
    for _ in 0..3 {
        submit(&mut driver, 10);
    }
    let batch = vec![IoEvent { data: 0, res: 10 }, IoEvent { data: 1, res: 10 }, IoEvent { data: 2, res: 10 }];
    assert_eq!(driver.reap_with_min(Ok(2), &batch), Ok(2));
    assert_eq!(driver.active_ids(), vec![2]);
    assert_eq!(driver.reap_with_min(Ok(-1), &batch), Ok(0));
    assert_eq!(driver.active_ids(), vec![2]);
    assert_eq!(driver.reap_with_min(Err(Error::Os(4)), &batch), Err(Error::Os(4)));
    assert_eq!(driver.active_ids(), vec![2]);
}

#[test]
fn waiting_is_for_one_event() {
    let mut driver = driver(1);
    submit(&mut driver, 10);
    assert_eq!(driver.reap_blocking(), Some(ReapRequest { min_nr: 1, timeout: None }));
    assert_eq!(
        driver.reap_timeout(Span { secs: 2, subsec_nanos: 500 }),
        Ok(Some(ReapRequest { min_nr: 1, timeout: Some(Timespec { tv_sec: 2, tv_nsec: 500 }) }))
    );
    assert_eq!(
        driver.reap_timeout(Span { secs: 1 << 63, subsec_nanos: 0 }),
        Err(message(ErrorKind::InvalidInput, "timeout too large"))
    );
    assert!(driver.reap_timeout(Span { secs: (1 << 63) - 1, subsec_nanos: 0 }).is_ok());
}

#[test]
fn slots_are_used_again() {
    let mut driver = driver(2);
    submit(&mut driver, 10);
    submit(&mut driver, 10);
    driver.complete_event(IoEvent { data: 0, res: 10 });
    driver.take_completed(0);
    assert_eq!(submit(&mut driver, 10), OpHandle(0));
    driver.withdraw(1);
    assert_eq!(driver.active_ids(), vec![0]);
    assert_eq!(submit(&mut driver, 10), OpHandle(1));
}

#[test]
fn number_taken_back_last_is_given_first() {
    let mut driver = driver(4);
    for id in 0..3 {
        assert_eq!(submit(&mut driver, 10), OpHandle(id));
    }
    driver.withdraw(0);
    driver.complete_event(IoEvent { data: 2, res: 10 });
    driver.withdraw(1);
    driver.take_completed(2);
    for id in [1, 2, 0, 3] {
        assert_eq!(submit(&mut driver, 10), OpHandle(id));
    }
    assert_eq!(driver.available_slots(), 0);
}

#[test]
fn results_of_operations() {
    assert_eq!(CompletedOp { id: 0, res: 0 }.result(), Ok(0));
    assert_eq!(CompletedOp { id: 0, res: 512 }.result(), Ok(512));
    assert_eq!(CompletedOp { id: 0, res: i64::MAX }.result(), Ok(i64::MAX as usize));
    assert_eq!(CompletedOp { id: 0, res: -5 }.result(), Err(Error::Os(5)));
    assert_eq!(CompletedOp { id: 0, res: -2147483647 }.result(), Err(Error::Os(i32::MAX)));
    assert_eq!(CompletedOp { id: 0, res: -2147483648 }.result(), Err(Error::Os(i32::MAX)));
    assert_eq!(CompletedOp { id: 0, res: i64::MIN }.result(), Err(Error::Os(i32::MAX)));
}

#[test]
fn transfer_kinds() {
    assert_eq!(TransferKind::Read.opcode(), 0);
    assert_eq!(TransferKind::Write.opcode(), 1);
    assert_eq!(
        TransferKind::Read.short_error(512, 0),
        message(ErrorKind::UnexpectedEof, "short AIO read: expected 512 bytes, received 0")
    );
    assert_eq!(
        TransferKind::Write.short_error(16384, 1024),
        message(ErrorKind::WriteZero, "short AIO write: expected 16384 bytes, wrote 1024")
    );
}

#[test]
fn decimal_notation() {
    for n in [0, 7, 9, 10, 99, 100, 65536, usize::MAX] {
        let mut text = String::from("n=");
        append_decimal(&mut text, n);
        assert_eq!(text, format!("n={n}"));
    }
}

#[test]
fn control_block_of_a_request() {
    let op = InFlight { iocb: IoCb::new(PREAD, 3, 16, 32).with_resfd(4).with_data(5) };
    assert_eq!(*op.iocb_ptr(), IoCb { opcode: 0, fd: 3, buf: 16, nbytes: 32, resfd: Some(4), data: 5 });
}

#[test]
fn errors_know_their_kind() {
    let error = Error::new(ErrorKind::TimedOut, "late");
    assert_eq!(error, message(ErrorKind::TimedOut, "late"));
    assert_eq!(error.kind(), Some(ErrorKind::TimedOut));
    assert!(!error.is_would_block());
    assert!(Error::new(ErrorKind::WouldBlock, "busy").is_would_block());
    assert_eq!(Error::from_raw_os_error(5), Error::Os(5));
    assert_eq!(Error::Os(5).kind(), None);
    assert!(!Error::Os(5).is_would_block());
    assert!(Error::Os(EAGAIN).is_would_block());
}

#[test]
fn eventfd_values_have_eight_bytes() {
    let short = message(ErrorKind::Other, "short read from eventfd");
    assert_eq!(check_read(8), Ok(()));
    assert_eq!(check_read(4), Err(short));
    assert!(check_read(0).is_err());
}

#[test]
fn draining_goes_on_until_a_read_would_block() {
    assert_eq!(drain_step(Ok(3)), None);
    assert_eq!(drain_step(Err(Error::Os(EAGAIN))), Some(Ok(())));
    assert_eq!(drain_step(Err(Error::new(ErrorKind::WouldBlock, "empty"))), Some(Ok(())));
    assert_eq!(drain_step(Err(Error::Os(9))), Some(Err(Error::Os(9))));
}

#[test]
fn cancelling_nothing_is_done_at_once() {
    let mut driver = driver(2);
    submit(&mut driver, 10);
    let cancellation = driver.cancel_and_reap(&vec![]);
    assert!(is_done(&cancellation));
    assert_eq!(driver.active_ids(), vec![0]);
}

#[test]
fn cancellation_drops_completions_and_unknown_operations() {
    let mut driver = driver(2);
    submit(&mut driver, 10);
    submit(&mut driver, 10);
    driver.complete_event(IoEvent { data: 0, res: 10 });
    let cancellation = driver.cancel_and_reap(&vec![0, 0, 77]);
    assert!(is_done(&cancellation));
    assert!(!driver.is_completed(0));
    assert_eq!(driver.active_ids(), vec![1]);
}

#[test]
fn cancellation_waits_for_what_the_kernel_keeps() {
    let mut driver = driver(3);
    for _ in 0..3 {
        submit(&mut driver, 10);
    }
    let mut cancellation = driver.cancel_and_reap(&vec![0, 2]);
    let mut asked = vec![];
    for _ in 0..2 {
        let id = match cancellation.step() {
            CancelStep::Cancel(id) => *id,
            _ => panic!("expected a request to cancel"),
        };
        asked.push(id);
        cancellation.resume(&mut driver, Reply::Cancelled(id == 0));
    }
    asked.sort();
    assert_eq!(asked, vec![0, 2]);
    assert_eq!(driver.active_ids(), vec![1, 2]);
    assert!(matches!(cancellation.step(), CancelStep::Reap(ReapRequest { min_nr: 1, timeout: None })));

    // An event of another operation does not end the wait.
    cancellation.resume(&mut driver, Reply::Reaped(Ok(1), vec![IoEvent { data: 1, res: 10 }]));
    assert!(matches!(cancellation.step(), CancelStep::Drain));
    cancellation.resume(&mut driver, Reply::Drained(Ok(())));
    assert!(matches!(cancellation.step(), CancelStep::Reap(_)));

    // A reply to something else changes nothing.
    cancellation.resume(&mut driver, Reply::Begin);
    assert!(matches!(cancellation.step(), CancelStep::Reap(_)));

    cancellation.resume(&mut driver, Reply::Reaped(Ok(1), vec![IoEvent { data: 2, res: -125 }]));
    cancellation.resume(&mut driver, Reply::Drained(Ok(())));
    assert!(is_done(&cancellation));
    assert!(driver.is_drained());
    assert!(driver.is_completed(1) && !driver.is_completed(2));
}

#[test]
fn cancellation_reports_errors() {
    let mut driver = driver(1);
    submit(&mut driver, 10);
    let mut cancellation = driver.cancel_and_reap(&vec![0]);
    cancellation.resume(&mut driver, Reply::Cancelled(false));
    cancellation.resume(&mut driver, Reply::Reaped(Err(Error::Os(22)), vec![]));
    assert!(matches!(cancellation.step(), CancelStep::Done(Err(Error::Os(22)))));

    let mut cancellation = driver.cancel_and_reap(&vec![0]);
    cancellation.resume(&mut driver, Reply::Cancelled(false));
    cancellation.resume(&mut driver, Reply::Reaped(Ok(0), vec![]));
    cancellation.resume(&mut driver, Reply::Drained(Err(Error::Os(9))));
    assert!(matches!(cancellation.step(), CancelStep::Done(Err(Error::Os(9)))));
}

#[test]
fn shutting_down_cancels_everything_in_flight() {
    let mut driver = driver(3);
    for _ in 0..3 {
        submit(&mut driver, 10);
    }
    driver.complete_event(IoEvent { data: 1, res: 10 });
    let mut cancellation = driver.shut_down();
    let mut asked = 0;
    while let CancelStep::Cancel(_) = cancellation.step() {
        asked += 1;
        cancellation.resume(&mut driver, Reply::Cancelled(true));
    }
    assert_eq!(asked, 2);
    assert!(is_done(&cancellation));
    assert!(driver.is_drained());
}
