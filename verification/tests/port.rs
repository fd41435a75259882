//! The decisions of a serial port, on a fake handle.

use std::time::Duration;

use jolt::error::{Error, IoError, IoErrorKind};
use jolt::port::{
    read_available, read_stream, LineAction, LineSequence, ReadExact, ReadStep, TimeoutStash,
    DEFAULT_TIMEOUT_MILLIS,
};

/// A serial handle in memory.
struct FakePort {
    timeout: Duration,
    stash: TimeoutStash,
    /// Modem-line writes as `('R'|'D', level)`, in order. The failing write (see
    /// `fail_line_write_at`) is not recorded.
    lines: Vec<(char, bool)>,
    /// Count of modem-line writes attempted so far.
    line_writes: usize,
    /// 1-based indices of the modem-line writes that fail.
    fail_line_write_at: Vec<usize>,
    /// Total time waited.
    clock: u128,
    /// How long each read takes before it gives a byte.
    read_delay: u128,
    /// Byte value each read yields.
    read_fill: u8,
}

impl FakePort {
    fn new(timeout: Duration) -> Self {
        FakePort {
            timeout,
            stash: TimeoutStash::new(),
            lines: Vec::new(),
            line_writes: 0,
            fail_line_write_at: Vec::new(),
            clock: 0,
            read_delay: 0,
            read_fill: 0,
        }
    }

    fn record_line(&mut self, which: char, level: bool) -> Result<(), Error> {
        self.line_writes += 1;
        if self.fail_line_write_at.contains(&self.line_writes) {
            return Err(Error::Serial(format!(
                "simulated modem-line write failure {}",
                self.line_writes
            )));
        }
        self.lines.push((which, level));
        Ok(())
    }

    fn drive(&mut self, mut sequence: LineSequence) -> Result<(), Error> {
        while let Some(action) = sequence.next() {
            let done = match action {
                LineAction::Rts(level) => self.record_line('R', level),
                LineAction::Dtr(level) => self.record_line('D', level),
                LineAction::Wait(nanos) => {
                    self.clock += nanos;
                    Ok(())
                }
                LineAction::ClearInput | LineAction::ClearOutput => Ok(()),
            };
            sequence.record(done);
        }
        sequence.finish()
    }

    fn set_timeout(&mut self, timeout: Duration) {
        self.stash.set_timeout(self.timeout);
        self.timeout = timeout;
    }

    fn reset_timeout(&mut self) {
        self.timeout = self.stash.reset_timeout();
    }

    fn read_exact_buf(&mut self, buf: &mut [u8], context: &str) -> Result<(), Error> {
        let start = self.clock;
        let mut reading = ReadExact::new(self.timeout.as_nanos(), buf.len());
        loop {
            match reading.poll(self.clock - start) {
                ReadStep::Complete => return Ok(()),
                ReadStep::Expired => return Err(ReadExact::expired(context)),
                ReadStep::Read => {
                    self.clock += self.read_delay;
                    buf[reading.filled] = self.read_fill;
                    reading.took(Ok(1), context)?;
                }
            }
        }
    }
}

fn io(kind: IoErrorKind) -> IoError {
    IoError {
        kind,
        message: "io".to_string(),
    }
}

/// A loaned handle's configured timeout survives the engine's per-command
/// override — `reset_timeout` restores what `set_timeout` stashed, not the
/// default.
#[test]
fn reset_timeout_restores_the_loaned_handles_timeout() {
    let caller_timeout = Duration::from_secs(7);
    let mut port = FakePort::new(caller_timeout);

    // Engine overrides the timeout for a slow command …
    port.set_timeout(Duration::from_secs(30));
    assert_eq!(port.timeout, Duration::from_secs(30));

    // … then rolls it back to the handle's own timeout, not the default.
    port.reset_timeout();
    assert_eq!(port.timeout, caller_timeout);
    assert_ne!(
        caller_timeout,
        Duration::from_millis(DEFAULT_TIMEOUT_MILLIS),
        "test would be vacuous"
    );
}

/// Without a prior `set_timeout`, `reset_timeout` falls back to the default
/// (nothing was stashed to restore).
#[test]
fn reset_timeout_falls_back_to_default_when_nothing_stashed() {
    let mut port = FakePort::new(Duration::from_secs(7));
    port.reset_timeout();
    assert_eq!(port.timeout, Duration::from_millis(DEFAULT_TIMEOUT_MILLIS));
}

#[test]
fn the_first_timeout_is_the_one_that_is_put_back() {
    let mut port = FakePort::new(Duration::from_secs(7));
    port.set_timeout(Duration::from_secs(30));
    port.set_timeout(Duration::from_secs(1));
    port.reset_timeout();
    assert_eq!(port.timeout, Duration::from_secs(7));
}

/// If a modem-line write fails after RESET is asserted, the device is not left
/// held in reset — the run state `(T,T)` is restored best-effort before the
/// original error propagates.
#[test]
fn reset_into_bootloader_recovers_run_state_on_line_failure() {
    // Fail the 5th line write: set_rts(t), set_dtr(t) [run baseline],
    // set_rts(t), set_dtr(f) [RESET asserted], set_dtr(t) <- fails here.
    let mut port = FakePort::new(Duration::from_millis(DEFAULT_TIMEOUT_MILLIS));
    port.fail_line_write_at = vec![5];
    let err = port.drive(LineSequence::reset_into_bootloader()).unwrap_err();
    assert!(matches!(err, Error::Serial(_)), "got {err:?}");

    let lines = &port.lines;
    assert_eq!(
        &lines[lines.len() - 2..],
        &[('R', true), ('D', true)],
        "run state restored after the failed write"
    );
}

/// Same guarantee for the reset-into-app pulse.
#[test]
fn reset_into_app_recovers_run_state_on_line_failure() {
    // Pulse writes: set_rts(t), set_dtr(f) [RESET asserted], set_rts(f)
    // [release] <- fail the 3rd, leaving the part held in reset.
    let mut port = FakePort::new(Duration::from_millis(DEFAULT_TIMEOUT_MILLIS));
    port.fail_line_write_at = vec![3];
    let err = port.drive(LineSequence::reset_into_app_no_settle()).unwrap_err();
    assert!(matches!(err, Error::Serial(_)), "got {err:?}");

    let lines = &port.lines;
    assert_eq!(
        &lines[lines.len() - 2..],
        &[('R', true), ('D', true)],
        "run state restored after the failed write"
    );
}

#[test]
fn bootloader_entry_moves_the_lines_in_order() {
    let mut port = FakePort::new(Duration::from_secs(1));
    port.drive(LineSequence::reset_into_bootloader()).unwrap();
    assert_eq!(
        port.lines,
        vec![
            ('R', true),
            ('D', true),
            ('R', true),
            ('D', false),
            ('D', true),
            ('R', false),
            ('D', false),
        ]
    );
    assert_eq!(port.clock, 160_000_000);
}

#[test]
fn app_reset_pulses_and_settles() {
    let mut port = FakePort::new(Duration::from_secs(1));
    port.drive(LineSequence::reset_into_app()).unwrap();
    assert_eq!(port.lines, vec![('R', true), ('D', false), ('R', false)]);
    assert_eq!(port.clock, 250_000_000);
    let mut port = FakePort::new(Duration::from_secs(1));
    port.drive(LineSequence::reset_into_app_no_settle()).unwrap();
    assert_eq!(port.clock, 100_000_000);
    let mut port = FakePort::new(Duration::from_secs(1));
    port.drive(LineSequence::reset_into_app_settle(1)).unwrap();
    assert_eq!(port.clock, 100_000_001);
}

#[test]
fn open_and_set_lines() {
    let mut port = FakePort::new(Duration::from_secs(1));
    port.drive(LineSequence::open()).unwrap();
    assert_eq!(port.lines, vec![('R', true), ('D', true)]);
    assert_eq!(port.clock, 50_000_000);
    port.drive(LineSequence::set_lines(false, true)).unwrap();
    assert_eq!(&port.lines[2..], &[('R', false), ('D', true)]);
}

#[test]
fn a_failure_before_reset_is_asserted_ends_at_once() {
    let mut port = FakePort::new(Duration::from_secs(1));
    port.fail_line_write_at = vec![2];
    assert!(port.drive(LineSequence::reset_into_bootloader()).is_err());
    assert_eq!(port.lines, vec![('R', true)]);
    let mut port = FakePort::new(Duration::from_secs(1));
    port.fail_line_write_at = vec![1];
    assert!(port.drive(LineSequence::set_lines(true, false)).is_err());
    assert!(port.lines.is_empty());
}

#[test]
fn the_original_error_surfaces() {
    // the restoring write of RTS fails too: DTR is not touched any more
    let mut port = FakePort::new(Duration::from_secs(1));
    port.fail_line_write_at = vec![2, 3];
    match port.drive(LineSequence::reset_into_app()).unwrap_err() {
        Error::Serial(text) => assert_eq!(text, "simulated modem-line write failure 2"),
        other => panic!("expected Serial, got {other:?}"),
    }
    assert_eq!(port.line_writes, 3);
}

/// A slow trickle (each `read` returns a byte within the per-read timeout) cannot
/// make an N-byte read run past the overall deadline — it ends in `Timeout`
/// instead of blocking indefinitely.
#[test]
fn read_exact_buf_enforces_overall_deadline_under_trickle() {
    let mut port = FakePort::new(Duration::from_secs(1));
    port.read_delay = Duration::from_millis(10).as_nanos(); // > the per-byte budget

    // per-read timeout 1 ms, 4 bytes -> overall budget ~4 ms. Each 10 ms
    // read makes progress but blows the deadline after the first byte.
    port.set_timeout(Duration::from_millis(1));
    let mut buf = [0u8; 4];
    let err = port.read_exact_buf(&mut buf, "trickle").unwrap_err();
    assert!(matches!(err, Error::Timeout { .. }), "got {err:?}");
}

/// A read that comfortably fits the budget still succeeds and fills the buf.
#[test]
fn read_exact_buf_succeeds_within_budget() {
    let mut port = FakePort::new(Duration::from_secs(1));
    port.read_fill = 0x79;
    port.set_timeout(Duration::from_secs(1));
    let mut buf = [0u8; 4];
    port.read_exact_buf(&mut buf, "fast").unwrap();
    assert_eq!(buf, [0x79; 4]);
}

#[test]
fn read_budget_scales_with_the_request() {
    assert_eq!(ReadExact::new(5, 4).budget, 20);
    assert_eq!(ReadExact::new(5, 0).budget, 5);
    assert_eq!(ReadExact::new(0, 9).budget, 0);
    let longest = Duration::MAX.as_nanos();
    assert_eq!(ReadExact::new(longest, 2).budget, longest);
    assert_eq!(ReadExact::new(longest, 1).budget, longest);
}

#[test]
fn read_outcomes() {
    let mut reading = ReadExact::new(10, 4);
    assert_eq!(reading.poll(39), ReadStep::Read);
    assert_eq!(reading.poll(40), ReadStep::Expired);
    assert!(reading.took(Err(io(IoErrorKind::Interrupted)), "x").is_ok());
    assert_eq!(reading.filled, 0);
    assert!(reading.took(Ok(3), "x").is_ok());
    assert_eq!(reading.filled, 3);
    assert!(matches!(
        reading.took(Ok(0), "x"),
        Err(Error::Timeout { context }) if context == "x"
    ));
    assert!(matches!(
        reading.took(Err(io(IoErrorKind::TimedOut)), "x"),
        Err(Error::Timeout { .. })
    ));
    assert!(matches!(
        reading.took(Err(io(IoErrorKind::BrokenPipe)), "x"),
        Err(Error::Io(e)) if e.kind == IoErrorKind::BrokenPipe
    ));
    assert!(reading.took(Ok(1), "x").is_ok());
    assert_eq!(reading.poll(40), ReadStep::Complete);
}

#[test]
fn stream_reads() {
    assert_eq!(read_stream(Ok(5), "c").unwrap(), 5);
    assert_eq!(read_stream(Err(io(IoErrorKind::TimedOut)), "c").unwrap(), 0);
    assert_eq!(read_stream(Err(io(IoErrorKind::Interrupted)), "c").unwrap(), 0);
    for gone in [
        Ok(0),
        Err(io(IoErrorKind::BrokenPipe)),
        Err(io(IoErrorKind::NotConnected)),
        Err(io(IoErrorKind::UnexpectedEof)),
    ] {
        assert!(matches!(read_stream(gone, "c"), Err(Error::Disconnected { context: "c" })));
    }
    assert!(matches!(
        read_stream(Err(io(IoErrorKind::Other)), "c"),
        Err(Error::Io(e)) if e.kind == IoErrorKind::Other
    ));
    assert_eq!(
        read_available(Ok(0)).unwrap_err().message(),
        "serial port disconnected while reading serial port"
    );
}
