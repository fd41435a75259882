//! STM32 USART bootloader protocol engine (AN3155).
//!
//! A [`Transport`] keeps a ghost record of everything that was done to it, the
//! [`trace`](Transport::trace): one [`Event`] per call, with what was handed to
//! the call and what came back. The contracts of [`Bootloader`] speak of that
//! trace. Each command is a [`Step`] script, and a call of the command runs the
//! script until a step fails (see [`follows`]); the outcome of the call is thus
//! fixed by the replies, whatever they are.

use vstd::prelude::*;

use std::time::Duration;

use crate::error::{outcome, Error, ErrorView, NackStage};
use crate::frame::{
    address_bytes, address_frame, chip_id, cmd_frame, command_bytes, data_bytes, erase_bytes,
    erase_frame, parse_chip_id, write_data_frame,
};

verus! {

/// The reply that accepts a frame.
pub const ACK: u8 = 0x79;

/// The reply that rejects a frame.
pub const NACK: u8 = 0x1F;

/// The byte that starts the auto-baud handshake.
pub const INIT: u8 = 0x7F;

pub const CMD_GET: u8 = 0x00;

pub const CMD_GET_ID: u8 = 0x02;

pub const CMD_READ_MEMORY: u8 = 0x11;

pub const CMD_GO: u8 = 0x21;

pub const CMD_WRITE_MEMORY: u8 = 0x31;

pub const CMD_EXT_ERASE: u8 = 0x44;

/// One thing that was done to a device, with what came of it.
#[allow(inconsistent_fields)]
#[verifier::ext_equal]
pub enum Event {
    /// `bytes` were sent.
    Write { bytes: Seq<u8>, outcome: Result<(), ErrorView> },
    /// `len` bytes were waited for.
    Read { len: nat, context: Seq<char>, outcome: Result<Seq<u8>, ErrorView> },
    /// Bytes that had come in unread were thrown away.
    ClearInput { outcome: Result<(), ErrorView> },
    /// The read timeout was overridden.
    SetTimeout { timeout: Duration, outcome: Result<(), ErrorView> },
    /// The read timeout was put back.
    ResetTimeout { outcome: Result<(), ErrorView> },
    /// The chip was reset into the system bootloader.
    ResetIntoBootloader { outcome: Result<(), ErrorView> },
    /// The chip was reset into the application.
    ResetIntoApp { outcome: Result<(), ErrorView> },
    /// Bytes were made to come in. Only a device in memory is told so.
    Queued { bytes: Seq<u8> },
    /// The number of flash pages was set. Only a device in memory is told so.
    Bounded { boundary: usize },
}

/// The byte-level serial operations the bootloader engine needs. Implemented by
/// the serial port of a real device, and by
/// [`ScriptedTransport`](crate::scripted::ScriptedTransport) for exercising the
/// protocol sequencing without hardware (see [`Bootloader`], which is generic
/// over this trait).
pub trait Transport {
    /// Everything that was done to the device so far, in order. It exists in
    /// proofs only: code that is not verified need not give it, a verified
    /// implementation defines it.
    open spec fn trace(&self) -> Seq<Event> {
        arbitrary()
    }

    /// Send all of `buf`.
    fn write_all(&mut self, buf: &[u8]) -> (r: Result<(), Error>)
        ensures
            final(self).trace() == old(self).trace().push(
                Event::Write { bytes: buf@, outcome: outcome(r) },
            ),
    ;

    /// Fill all of `buf` with received bytes; `context` says in an error what
    /// was waited for.
    fn read_exact_buf(&mut self, buf: &mut [u8], context: &str) -> (r: Result<(), Error>)
        ensures
            final(buf)@.len() == old(buf)@.len(),
            final(self).trace() == old(self).trace().push(
                Event::Read {
                    len: old(buf)@.len(),
                    context: context@,
                    outcome: match r {
                        Ok(()) => Ok(final(buf)@),
                        Err(e) => Err(e@),
                    },
                },
            ),
    ;

    /// Throw away what was received and not read.
    fn clear_input(&mut self) -> (r: Result<(), Error>)
        ensures
            final(self).trace() == old(self).trace().push(Event::ClearInput { outcome: outcome(r) }),
    ;

    /// Override the read timeout.
    fn set_timeout(&mut self, timeout: Duration) -> (r: Result<(), Error>)
        ensures
            final(self).trace() == old(self).trace().push(
                Event::SetTimeout { timeout, outcome: outcome(r) },
            ),
    ;

    /// Put the read timeout back to what it was before it was overridden.
    fn reset_timeout(&mut self) -> (r: Result<(), Error>)
        ensures
            final(self).trace() == old(self).trace().push(
                Event::ResetTimeout { outcome: outcome(r) },
            ),
    ;

    /// Receive one byte.
    fn read_byte(&mut self, context: &str) -> (r: Result<u8, Error>)
        ensures
            final(self).trace() == old(self).trace().push(
                Event::Read {
                    len: 1,
                    context: context@,
                    outcome: match r {
                        Ok(b) => Ok(seq![b]),
                        Err(e) => Err(e@),
                    },
                },
            ),
    {
        let mut b: [u8; 1] = [0u8; 1];
        match self.read_exact_buf(&mut b, context) {
            Ok(()) => {
                assert(b@ =~= seq![b@[0]]);
                Ok(b[0])
            },
            Err(e) => Err(e),
        }
    }
}

/// A device whose reset and boot lines can be driven as well.
pub trait Board: Transport {
    /// Drive the chip into the system bootloader.
    fn reset_into_bootloader(&mut self) -> (r: Result<(), Error>)
        ensures
            final(self).trace() == old(self).trace().push(
                Event::ResetIntoBootloader { outcome: outcome(r) },
            ),
    ;

    /// Reset the chip so that it boots the application in main flash.
    fn reset_into_app(&mut self) -> (r: Result<(), Error>)
        ensures
            final(self).trace() == old(self).trace().push(
                Event::ResetIntoApp { outcome: outcome(r) },
            ),
    ;
}

/// One step of a command.
#[verifier::ext_equal]
pub enum Step {
    /// Send `bytes`.
    Send { bytes: Seq<u8> },
    /// Expect an ACK; a NACK is reported with `stage`.
    Ack { context: Seq<char>, stage: NackStage },
    /// Receive `len` bytes.
    Receive { len: nat, context: Seq<char> },
    /// Throw away what was received and not read.
    ClearInput,
    /// Override the read timeout.
    SetTimeout { timeout: Duration },
}

/// The event is a read of `len` bytes that, if it succeeded, gave that many.
pub open spec fn is_read(event: Event, len: nat, context: Seq<char>) -> bool {
    event matches Event::Read { len: n, context: c, outcome: o } && n == len && c == context && (
    o matches Ok(bytes) ==> bytes.len() == len)
}

/// The event is what carrying out the step does.
pub open spec fn made(step: Step, event: Event) -> bool {
    match step {
        Step::Send { bytes } => event matches Event::Write { bytes: b, .. } && b == bytes,
        Step::Ack { context, .. } => is_read(event, 1, context),
        Step::Receive { len, context } => is_read(event, len, context),
        Step::ClearInput => event is ClearInput,
        Step::SetTimeout { timeout } => event matches Event::SetTimeout { timeout: t, .. } && t
            == timeout,
    }
}

/// The error that a reply byte stands for where an ACK is due.
pub open spec fn ack_fault(byte: u8, context: Seq<char>, stage: NackStage) -> Option<ErrorView> {
    if byte == ACK {
        None
    } else if byte == NACK {
        Some(ErrorView::Nack { context, stage })
    } else {
        Some(ErrorView::UnexpectedByte { context, got: byte, expected: ACK })
    }
}

/// The error of a failed operation.
pub open spec fn failure<T>(r: Result<T, ErrorView>) -> Option<ErrorView> {
    match r {
        Ok(_) => None,
        Err(e) => Some(e),
    }
}

/// The error that a step ends in when it meets this event, if it does not pass.
pub open spec fn fault(step: Step, event: Event) -> Option<ErrorView> {
    match event {
        Event::Write { outcome, .. } => failure(outcome),
        Event::Read { outcome, .. } => match outcome {
            Err(e) => Some(e),
            Ok(bytes) => match step {
                Step::Ack { context, stage } => ack_fault(bytes[0], context, stage),
                _ => None,
            },
        },
        Event::ClearInput { outcome } => failure(outcome),
        Event::SetTimeout { outcome, .. } => failure(outcome),
        Event::ResetTimeout { outcome } => failure(outcome),
        Event::ResetIntoBootloader { outcome } => failure(outcome),
        Event::ResetIntoApp { outcome } => failure(outcome),
        Event::Queued { .. } => None,
        Event::Bounded { .. } => None,
    }
}

/// The events are a run of the script: its steps are carried out in order up to
/// and with the first that fails, whose error is the result. With no failure the
/// whole script is run.
pub open spec fn follows(script: Seq<Step>, events: Seq<Event>, r: Result<(), ErrorView>) -> bool {
    &&& events.len() <= script.len()
    &&& forall|i: int| 0 <= i < events.len() ==> #[trigger] made(script[i], events[i])
    &&& match r {
        Ok(()) => {
            &&& events.len() == script.len()
            &&& forall|i: int| 0 <= i < events.len() ==> #[trigger] fault(script[i], events[i]) is None
        },
        Err(e) => {
            &&& events.len() > 0
            &&& forall|i: int|
                0 <= i < events.len() - 1 ==> #[trigger] fault(script[i], events[i]) is None
            &&& fault(script[events.len() - 1], events.last()) == Some(e)
        },
    }
}

/// Between the two traces the script was run with this result.
pub open spec fn advances(
    before: Seq<Event>,
    after: Seq<Event>,
    script: Seq<Step>,
    r: Result<(), ErrorView>,
) -> bool {
    &&& before.len() <= after.len()
    &&& after.take(before.len() as int) == before
    &&& follows(script, after.skip(before.len() as int), r)
}

/// What one step gives.
pub open spec fn step_result(step: Step, event: Event) -> Result<(), ErrorView> {
    match fault(step, event) {
        None => Ok(()),
        Some(e) => Err(e),
    }
}

proof fn lemma_one_step(before: Seq<Event>, step: Step, event: Event)
    requires
        made(step, event),
    ensures
        advances(before, before.push(event), seq![step], step_result(step, event)),
{
    let after = before.push(event);
    assert(after.take(before.len() as int) =~= before);
    assert(after.skip(before.len() as int) =~= seq![event]);
}

proof fn lemma_then(
    t0: Seq<Event>,
    t1: Seq<Event>,
    t2: Seq<Event>,
    a: Seq<Step>,
    b: Seq<Step>,
    r: Result<(), ErrorView>,
)
    requires
        advances(t0, t1, a, Ok(())),
        advances(t1, t2, b, r),
    ensures
        advances(t0, t2, a + b, r),
{
    let n0 = t0.len() as int;
    let n1 = t1.len() as int;
    let ea = t1.skip(n0);
    let eb = t2.skip(n1);
    let events = t2.skip(n0);
    assert(t2.take(n0) =~= t2.take(n1).take(n0));
    assert(events =~= ea + eb) by {
        assert(t2.take(n1) == t1);
        assert forall|i: int| 0 <= i < events.len() implies events[i] == (ea + eb)[i] by {
            if i < ea.len() {
                assert(t2.take(n1)[n0 + i] == t2[n0 + i]);
            }
        }
    }
    assert forall|i: int| 0 <= i < events.len() implies #[trigger] made((a + b)[i], events[i]) by {
        if i < ea.len() {
            assert(made(a[i], ea[i]));
        } else {
            assert(made(b[i - ea.len()], eb[i - ea.len()]));
        }
    }
    let passing: int = if r is Ok { events.len() as int } else { events.len() - 1 };
    assert forall|i: int| 0 <= i < passing implies #[trigger] fault((a + b)[i], events[i]) is None by {
        if i < ea.len() {
            assert(fault(a[i], ea[i]) is None);
        } else {
            assert(fault(b[i - ea.len()], eb[i - ea.len()]) is None);
        }
    }
}

proof fn lemma_stop(t0: Seq<Event>, t1: Seq<Event>, a: Seq<Step>, b: Seq<Step>, e: ErrorView)
    requires
        advances(t0, t1, a, Err(e)),
    ensures
        advances(t0, t1, a + b, Err(e)),
{
    let events = t1.skip(t0.len() as int);
    assert forall|i: int| 0 <= i < events.len() implies #[trigger] made((a + b)[i], events[i]) by {
        assert(made(a[i], events[i]));
    }
    assert forall|i: int| 0 <= i < events.len() - 1 implies #[trigger] fault((a + b)[i], events[i])
        is None by {
        assert(fault(a[i], events[i]) is None);
    }
}

/// A command frame and its acknowledgement.
pub open spec fn command_script(cmd: u8, context: Seq<char>) -> Seq<Step> {
    seq![
        Step::Send { bytes: command_bytes(cmd) },
        Step::Ack { context, stage: NackStage::Command },
    ]
}

/// A payload frame and its acknowledgement.
pub open spec fn payload_script(bytes: Seq<u8>, context: Seq<char>) -> Seq<Step> {
    seq![Step::Send { bytes }, Step::Ack { context, stage: NackStage::Payload }]
}

/// The auto-baud handshake.
pub open spec fn init_script() -> Seq<Step> {
    seq![
        Step::ClearInput,
        Step::Send { bytes: seq![INIT] },
        Step::Ack { context: "bootloader init (0x7F)"@, stage: NackStage::Command },
    ]
}

/// `Get ID`, where the device gives `n` as the length less one.
pub open spec fn get_id_script(n: u8) -> Seq<Step> {
    command_script(CMD_GET_ID, "Get ID command"@) + seq![
        Step::Receive { len: 1, context: "Get ID length"@ },
        Step::Receive { len: n as nat + 1, context: "Get ID payload"@ },
        Step::Ack { context: "Get ID final ACK"@, stage: NackStage::Payload },
    ]
}

/// `Get`, where the device gives `n` as the number of commands.
pub open spec fn get_script(n: u8) -> Seq<Step> {
    command_script(CMD_GET, "Get command"@) + seq![
        Step::Receive { len: 1, context: "Get length"@ },
        Step::Receive { len: 1, context: "Get bootloader version"@ },
        Step::Receive { len: n as nat, context: "Get supported commands"@ },
        Step::Ack { context: "Get final ACK"@, stage: NackStage::Payload },
    ]
}

/// `Extended Erase` up to the moment when the erase timeout is in force.
pub open spec fn erase_head_script(timeout: Duration) -> Seq<Step> {
    command_script(CMD_EXT_ERASE, "Extended Erase command"@) + seq![Step::SetTimeout { timeout }]
}

/// The page list of `Extended Erase`.
pub open spec fn erase_pages_script(pages: Seq<u16>) -> Seq<Step> {
    payload_script(erase_bytes(pages), "Extended Erase pages"@)
}

/// `Write Memory`.
pub open spec fn write_script(addr: u32, data: Seq<u8>) -> Seq<Step> {
    command_script(CMD_WRITE_MEMORY, "Write Memory command"@) + payload_script(
        address_bytes(addr),
        "Write Memory address"@,
    ) + payload_script(data_bytes(data), "Write Memory data"@)
}

/// `Read Memory` of `len` bytes, which are asked for as `len` less one and its
/// complement.
pub open spec fn read_script(addr: u32, len: nat) -> Seq<Step> {
    command_script(CMD_READ_MEMORY, "Read Memory command"@) + payload_script(
        address_bytes(addr),
        "Read Memory address"@,
    ) + payload_script(command_bytes((len - 1) as u8), "Read Memory length"@) + seq![
        Step::Receive { len, context: "Read Memory data"@ },
    ]
}

/// `Go`.
pub open spec fn go_script(addr: u32) -> Seq<Step> {
    command_script(CMD_GO, "Go command"@) + payload_script(address_bytes(addr), "Go address"@)
}

/// What was asked of a device.
#[verifier::ext_equal]
pub enum Op {
    Init,
    GetId,
    Get,
    Erase { pages: Seq<u16>, timeout: Duration },
    Write { addr: u32, data: Seq<u8> },
    Read { addr: u32, len: nat },
    Go { addr: u32 },
    ResetIntoBootloader,
    ResetIntoApp,
}

/// What a device gave back.
#[verifier::ext_equal]
pub enum Reply {
    Done,
    Id { id: u16 },
    Info { version: u8, commands: Seq<u8> },
    Data { bytes: Seq<u8> },
}

/// The bytes that an event received.
pub open spec fn received(event: Event) -> Seq<u8> {
    match event {
        Event::Read { outcome: Ok(bytes), .. } => bytes,
        _ => Seq::empty(),
    }
}

/// The first byte that event `i` received; zero if there is none.
pub open spec fn received_byte(events: Seq<Event>, i: int) -> u8 {
    if i < events.len() && received(events[i]).len() > 0 {
        received(events[i])[0]
    } else {
        0
    }
}

/// The result with the reply left out.
pub open spec fn unit(r: Result<Reply, ErrorView>) -> Result<(), ErrorView> {
    match r {
        Ok(_) => Ok(()),
        Err(e) => Err(e),
    }
}

/// The result of an operation that gives nothing back.
pub open spec fn done(r: Result<(), ErrorView>) -> Result<Reply, ErrorView> {
    match r {
        Ok(()) => Ok(Reply::Done),
        Err(e) => Err(e),
    }
}

/// The result of `Get ID` as a reply.
pub open spec fn id_reply(r: Result<u16, Error>) -> Result<Reply, ErrorView> {
    match r {
        Ok(id) => Ok(Reply::Id { id }),
        Err(e) => Err(e@),
    }
}

/// The result of `Get` as a reply.
pub open spec fn info_reply(r: Result<(u8, Vec<u8>), Error>) -> Result<Reply, ErrorView> {
    match r {
        Ok((version, commands)) => Ok(Reply::Info { version, commands: commands@ }),
        Err(e) => Err(e@),
    }
}

/// The result of `Read Memory` as a reply.
pub open spec fn data_reply(r: Result<Vec<u8>, Error>) -> Result<Reply, ErrorView> {
    match r {
        Ok(data) => Ok(Reply::Data { bytes: data@ }),
        Err(e) => Err(e@),
    }
}

/// The events are a run of the script and the reply is `reply` if it succeeds.
pub open spec fn runs(
    script: Seq<Step>,
    events: Seq<Event>,
    r: Result<Reply, ErrorView>,
    reply: Reply,
) -> bool {
    &&& follows(script, events, unit(r))
    &&& r matches Ok(v) ==> v == reply
}

/// An argument was rejected before anything was sent.
pub open spec fn refused(
    events: Seq<Event>,
    r: Result<Reply, ErrorView>,
    context: Seq<char>,
) -> bool {
    events.len() == 0 && r == Err::<Reply, _>(ErrorView::InvalidArgument { context })
}

/// An Extended Erase with its timeout: once the erase timeout is in force, the
/// page list is sent and its acknowledgement awaited, and whatever comes of that,
/// the timeout is put back last; whether putting it back worked does not matter.
pub open spec fn erase_exchange(
    pages: Seq<u16>,
    timeout: Duration,
    events: Seq<Event>,
    r: Result<Reply, ErrorView>,
) -> bool {
    ||| r is Err && follows(erase_head_script(timeout), events, unit(r))
    ||| {
        &&& events.len() >= 4
        &&& follows(erase_head_script(timeout), events.take(3), Ok(()))
        &&& runs(
            erase_pages_script(pages),
            events.subrange(3, events.len() - 1),
            r,
            Reply::Done,
        )
        &&& events.last() is ResetTimeout
    }
}

/// The events are what the operation does on the wire, and the result what it
/// makes of the replies.
pub open spec fn exchange(op: Op, events: Seq<Event>, r: Result<Reply, ErrorView>) -> bool {
    match op {
        Op::Init => runs(init_script(), events, r, Reply::Done),
        Op::GetId => runs(
            get_id_script(received_byte(events, 2)),
            events,
            r,
            Reply::Id { id: chip_id(received(events[3])) },
        ),
        Op::Get => runs(
            get_script(received_byte(events, 2)),
            events,
            r,
            Reply::Info {
                version: received_byte(events, 3),
                commands: received(events[4]),
            },
        ),
        Op::Erase { pages, timeout } => if 1 <= pages.len() <= 80 {
            erase_exchange(pages, timeout, events, r)
        } else {
            refused(events, r, "extended_erase_pages expects 1..=80 pages"@)
        },
        Op::Write { addr, data } => if 1 <= data.len() <= 256 {
            runs(write_script(addr, data), events, r, Reply::Done)
        } else {
            refused(events, r, "write_block expects 1..=256 bytes"@)
        },
        Op::Read { addr, len } => if 1 <= len <= 256 {
            runs(
                read_script(addr, len),
                events,
                r,
                Reply::Data { bytes: received(events[6]) },
            )
        } else {
            refused(events, r, "read_block expects 1..=256 bytes"@)
        },
        Op::Go { addr } => runs(go_script(addr), events, r, Reply::Done),
        Op::ResetIntoBootloader => {
            &&& events.len() == 1
            &&& events[0] matches Event::ResetIntoBootloader { outcome } && r == done(outcome)
        },
        Op::ResetIntoApp => {
            &&& events.len() == 1
            &&& events[0] matches Event::ResetIntoApp { outcome } && r == done(outcome)
        },
    }
}

/// Once an erase has overridden the read timeout, the timeout is put back, last
/// of all, however the erase ended. Before that, nothing puts it back.
pub proof fn law_timeout_put_back(
    pages: Seq<u16>,
    timeout: Duration,
    events: Seq<Event>,
    r: Result<Reply, ErrorView>,
    i: int,
)
    requires
        exchange(Op::Erase { pages, timeout }, events, r),
        0 <= i < events.len(),
        events[i] matches Event::SetTimeout { outcome, .. } && outcome is Ok,
    ensures
        events.last() is ResetTimeout,
        forall|j: int| 0 <= j < events.len() - 1 ==> !(#[trigger] events[j] is ResetTimeout),
{
    let head = erase_head_script(timeout);
    assert(head.len() == 3);
    if r is Err && follows(head, events, unit(r)) {
        // the override is the last step of the head, and it did not fail
        assert(made(head[i], events[i]));
        assert(i == 2);
        assert(fault(head[2], events[2]) is None);
        assert(false);
    }
    let first = events.take(3);
    let middle = events.subrange(3, events.len() - 1);
    assert forall|j: int| 0 <= j < events.len() - 1 implies !(#[trigger] events[j] is ResetTimeout) by {
        if j < 3 {
            assert(made(head[j], first[j]));
        } else {
            assert(made(erase_pages_script(pages)[j - 3], middle[j - 3]));
        }
    }
}

/// Nothing went wrong with the line in this event.
pub open spec fn smooth(event: Event) -> bool {
    match event {
        Event::Write { outcome, .. } => outcome is Ok,
        Event::Read { outcome, .. } => outcome is Ok,
        Event::ClearInput { outcome } => outcome is Ok,
        Event::SetTimeout { outcome, .. } => outcome is Ok,
        Event::ResetTimeout { outcome } => outcome is Ok,
        Event::ResetIntoBootloader { outcome } => outcome is Ok,
        Event::ResetIntoApp { outcome } => outcome is Ok,
        Event::Queued { .. } => true,
        Event::Bounded { .. } => true,
    }
}

/// On a line on which nothing goes wrong, an erase is decided by the two replies: a
/// NACK to the command byte is one of the command stage, whatever would follow, and
/// a NACK to the page list one of the payload stage. With both acknowledged the
/// erase succeeds.
pub proof fn law_erase_replies(
    pages: Seq<u16>,
    timeout: Duration,
    events: Seq<Event>,
    r: Result<Reply, ErrorView>,
)
    requires
        exchange(Op::Erase { pages, timeout }, events, r),
        1 <= pages.len() <= 80,
        forall|i: int| 0 <= i < events.len() ==> smooth(#[trigger] events[i]),
    ensures
        match ack_fault(
            received_byte(events, 1),
            "Extended Erase command"@,
            NackStage::Command,
        ) {
            Some(e) => r == Err::<Reply, _>(e),
            None => match ack_fault(
                received_byte(events, 4),
                "Extended Erase pages"@,
                NackStage::Payload,
            ) {
                Some(e) => r == Err::<Reply, _>(e),
                None => r == Ok::<_, ErrorView>(Reply::Done),
            },
        },
{
    let head = erase_head_script(timeout);
    let list = erase_pages_script(pages);
    assert(head.len() == 3 && list.len() == 2);
    if r is Err && follows(head, events, unit(r)) {
        assert(made(head[0], events[0]));
        assert(smooth(events[0]));
        assert(events.len() > 1);
        assert(made(head[1], events[1]));
        assert(smooth(events[1]));
        if events.len() == 3 {
            assert(made(head[2], events[2]));
            assert(smooth(events[2]));
            assert(fault(head[1], events[1]) is None);
        }
    } else {
        let first = events.take(3);
        let middle = events.subrange(3, events.len() - 1);
        assert(made(head[1], first[1]));
        assert(fault(head[1], first[1]) is None);
        assert(smooth(events[1]));
        assert(middle.len() > 0);
        assert(made(list[0], middle[0]));
        assert(smooth(events[3]));
        assert(middle.len() > 1);
        assert(made(list[1], middle[1]));
        assert(smooth(events[4]));
        assert(middle[1] == events[4]);
        if r is Ok {
            assert(fault(list[1], middle[1]) is None);
        }
    }
}

/// A read that succeeds gives as many bytes as were asked for.
pub proof fn law_read_length(addr: u32, len: nat, events: Seq<Event>, r: Result<Reply, ErrorView>)
    requires
        exchange(Op::Read { addr, len }, events, r),
        r is Ok,
    ensures
        r matches Ok(Reply::Data { bytes }) && bytes.len() == len,
{
    let script = read_script(addr, len);
    assert(script.len() == 7);
    assert(made(script[6], events[6]));
    assert(fault(script[6], events[6]) is None);
}

/// Between the two traces the operation was performed with this result.
pub open spec fn performs(
    before: Seq<Event>,
    after: Seq<Event>,
    op: Op,
    r: Result<Reply, ErrorView>,
) -> bool {
    &&& before.len() <= after.len()
    &&& after.take(before.len() as int) == before
    &&& exchange(op, after.skip(before.len() as int), r)
}

/// A reset is an operation of one event.
pub(crate) proof fn lemma_reset(before: Seq<Event>, r: Result<(), ErrorView>)
    ensures
        performs(
            before,
            before.push(Event::ResetIntoBootloader { outcome: r }),
            Op::ResetIntoBootloader,
            done(r),
        ),
        performs(
            before,
            before.push(Event::ResetIntoApp { outcome: r }),
            Op::ResetIntoApp,
            done(r),
        ),
{
    let a = before.push(Event::ResetIntoBootloader { outcome: r });
    let b = before.push(Event::ResetIntoApp { outcome: r });
    assert(a.take(before.len() as int) =~= before);
    assert(b.take(before.len() as int) =~= before);
    assert(a.skip(before.len() as int)[0] == a.last());
    assert(b.skip(before.len() as int)[0] == b.last());
}

/// The protocol engine on a borrowed device.
pub struct Bootloader<'a, T: Transport> {
    pub port: &'a mut T,
}

impl<'a, T: Transport> Bootloader<'a, T> {
    /// An engine on `port`. What it does to the port is seen by the port's owner
    /// once the engine is gone.
    pub fn new(port: &'a mut T) -> (bl: Self)
        ensures
            *bl.port == *old(port),
            *final(bl.port) == *final(port),
    {
        Bootloader { port }
    }

    fn read_ack(&mut self, context: &str, stage: NackStage) -> (r: Result<(), Error>)
        ensures
            *final(final(self).port) == *final(old(self).port),
            advances(
                old(self).port.trace(),
                final(self).port.trace(),
                seq![Step::Ack { context: context@, stage }],
                outcome(r),
            ),
    {
        let ghost before = self.port.trace();
        let ghost step = Step::Ack { context: context@, stage };
        let reply = self.port.read_byte(context);
        proof {
            lemma_one_step(before, step, self.port.trace().last());
        }
        match reply {
            Ok(b) => if b == ACK {
                Ok(())
            } else if b == NACK {
                Err(Error::Nack { context: context.to_string(), stage })
            } else {
                Err(
                    Error::UnexpectedByte { context: context.to_string(), got: b, expected: ACK },
                )
            },
            Err(e) => Err(e),
        }
    }

    fn send(&mut self, bytes: &[u8]) -> (r: Result<(), Error>)
        ensures
            *final(final(self).port) == *final(old(self).port),
            advances(
                old(self).port.trace(),
                final(self).port.trace(),
                seq![Step::Send { bytes: bytes@ }],
                outcome(r),
            ),
    {
        let ghost before = self.port.trace();
        let r = self.port.write_all(bytes);
        proof {
            lemma_one_step(before, Step::Send { bytes: bytes@ }, self.port.trace().last());
        }
        r
    }

    fn send_command(&mut self, cmd: u8, context: &str) -> (r: Result<(), Error>)
        ensures
            *final(final(self).port) == *final(old(self).port),
            advances(
                old(self).port.trace(),
                final(self).port.trace(),
                command_script(cmd, context@),
                outcome(r),
            ),
    {
        let ghost t0 = self.port.trace();
        let frame = cmd_frame(cmd);
        let ghost a = seq![Step::Send { bytes: command_bytes(cmd) }];
        let ghost b = seq![Step::Ack { context: context@, stage: NackStage::Command }];
        assert(a + b =~= command_script(cmd, context@));
        match self.send(&frame) {
            Ok(()) => {
                let ghost t1 = self.port.trace();
                let r = self.read_ack(context, NackStage::Command);
                proof {
                    lemma_then(t0, t1, self.port.trace(), a, b, outcome(r));
                }
                r
            },
            Err(e) => {
                proof {
                    lemma_stop(t0, self.port.trace(), a, b, e@);
                }
                Err(e)
            },
        }
    }

    fn send_payload(&mut self, bytes: &[u8], context: &str) -> (r: Result<(), Error>)
        ensures
            *final(final(self).port) == *final(old(self).port),
            advances(
                old(self).port.trace(),
                final(self).port.trace(),
                payload_script(bytes@, context@),
                outcome(r),
            ),
    {
        let ghost t0 = self.port.trace();
        let ghost a = seq![Step::Send { bytes: bytes@ }];
        let ghost b = seq![Step::Ack { context: context@, stage: NackStage::Payload }];
        assert(a + b =~= payload_script(bytes@, context@));
        match self.send(bytes) {
            Ok(()) => {
                let ghost t1 = self.port.trace();
                let r = self.read_ack(context, NackStage::Payload);
                proof {
                    lemma_then(t0, t1, self.port.trace(), a, b, outcome(r));
                }
                r
            },
            Err(e) => {
                proof {
                    lemma_stop(t0, self.port.trace(), a, b, e@);
                }
                Err(e)
            },
        }
    }

    fn send_address(&mut self, addr: u32, context: &str) -> (r: Result<(), Error>)
        ensures
            *final(final(self).port) == *final(old(self).port),
            advances(
                old(self).port.trace(),
                final(self).port.trace(),
                payload_script(address_bytes(addr), context@),
                outcome(r),
            ),
    {
        let frame = address_frame(addr);
        self.send_payload(&frame, context)
    }

    fn receive_byte(&mut self, context: &str) -> (r: Result<u8, Error>)
        ensures
            *final(final(self).port) == *final(old(self).port),
            advances(
                old(self).port.trace(),
                final(self).port.trace(),
                seq![Step::Receive { len: 1, context: context@ }],
                match r {
                    Ok(_) => Ok(()),
                    Err(e) => Err(e@),
                },
            ),
            r matches Ok(b) ==> received(final(self).port.trace().last()) == seq![b],
            r is Err ==> received(final(self).port.trace().last()).len() == 0,
            final(self).port.trace().len() == old(self).port.trace().len() + 1,
    {
        let ghost before = self.port.trace();
        let r = self.port.read_byte(context);
        proof {
            lemma_one_step(
                before,
                Step::Receive { len: 1, context: context@ },
                self.port.trace().last(),
            );
        }
        r
    }

    fn receive(&mut self, len: usize, context: &str) -> (r: Result<Vec<u8>, Error>)
        ensures
            *final(final(self).port) == *final(old(self).port),
            advances(
                old(self).port.trace(),
                final(self).port.trace(),
                seq![Step::Receive { len: len as nat, context: context@ }],
                unit(data_reply(r)),
            ),
            r matches Ok(v) ==> received(final(self).port.trace().last()) == v@ && v@.len() == len,
            final(self).port.trace().len() == old(self).port.trace().len() + 1,
    {
        let ghost before = self.port.trace();
        let mut buf: Vec<u8> = vec![0u8; len];
        let r = self.port.read_exact_buf(buf.as_mut_slice(), context);
        proof {
            lemma_one_step(
                before,
                Step::Receive { len: len as nat, context: context@ },
                self.port.trace().last(),
            );
        }
        match r {
            Ok(()) => Ok(buf),
            Err(e) => Err(e),
        }
    }

    /// Auto-baud init: send a single `0x7F` and expect an ACK. Called after a
    /// fresh reset into the bootloader, so a NACK ("already initialised") means
    /// something is off — `connect` then retries with another reset.
    pub fn init(&mut self) -> (r: Result<(), Error>)
        ensures
            *final(final(self).port) == *final(old(self).port),
            performs(
                old(self).port.trace(),
                final(self).port.trace(),
                Op::Init,
                done(outcome(r)),
            ),
    {
        let ghost t0 = self.port.trace();
        let ghost a = seq![Step::ClearInput];
        let ghost b = seq![Step::Send { bytes: seq![INIT] }];
        let ghost c = seq![
            Step::Ack { context: "bootloader init (0x7F)"@, stage: NackStage::Command },
        ];
        assert(a + b + c =~= init_script());
        let cleared = self.port.clear_input();
        let ghost t1 = self.port.trace();
        proof {
            lemma_one_step(t0, Step::ClearInput, t1.last());
        }
        if let Err(e) = cleared {
            proof {
                lemma_stop(t0, t1, a, b, e@);
                lemma_stop(t0, t1, a + b, c, e@);
            }
            return Err(e);
        }
        let byte: [u8; 1] = [INIT];
        assert(byte@ =~= seq![INIT]);
        let sent = self.send(&byte);
        let ghost t2 = self.port.trace();
        proof {
            lemma_then(t0, t1, t2, a, b, outcome(sent));
        }
        if let Err(e) = sent {
            proof {
                lemma_stop(t0, t2, a + b, c, e@);
            }
            return Err(e);
        }
        let r = self.read_ack("bootloader init (0x7F)", NackStage::Command);
        proof {
            lemma_then(t0, t2, self.port.trace(), a + b, c, outcome(r));
        }
        r
    }

    /// `Get ID` -> 16-bit product id (0x447 for STM32L0x3).
    pub fn get_id(&mut self) -> (r: Result<u16, Error>)
        ensures
            *final(final(self).port) == *final(old(self).port),
            performs(
                old(self).port.trace(),
                final(self).port.trace(),
                Op::GetId,
                id_reply(r),
            ),
    {
        let ghost t0 = self.port.trace();
        let ghost a = command_script(CMD_GET_ID, "Get ID command"@);
        let ghost b = seq![Step::Receive { len: 1, context: "Get ID length"@ }];
        let ghost ack = seq![Step::Ack { context: "Get ID final ACK"@, stage: NackStage::Payload }];
        let ghost payload0 = seq![Step::Receive { len: 1, context: "Get ID payload"@ }];
        assert(a + b + payload0 + ack =~= get_id_script(0));
        let sent = self.send_command(CMD_GET_ID, "Get ID command");
        let ghost t1 = self.port.trace();
        if let Err(e) = sent {
            proof {
                lemma_stop(t0, t1, a, b, e@);
                lemma_stop(t0, t1, a + b, payload0, e@);
                lemma_stop(t0, t1, a + b + payload0, ack, e@);
            }
            return Err(e);
        }
        let length = self.receive_byte("Get ID length");
        let ghost t2 = self.port.trace();
        let n = match length {
            Ok(n) => {
                proof {
                    lemma_then(t0, t1, t2, a, b, Ok(()));
                }
                n
            },
            Err(e) => {
                proof {
                    lemma_then(t0, t1, t2, a, b, Err(e@));
                    lemma_stop(t0, t2, a + b, payload0, e@);
                    lemma_stop(t0, t2, a + b + payload0, ack, e@);
                    assert(t2.skip(t0.len() as int)[2] == t2.last());
                }
                return Err(e);
            },
        };
        let ghost payload = seq![Step::Receive { len: n as nat + 1, context: "Get ID payload"@ }];
        assert(a + b + payload + ack =~= get_id_script(n));
        assert(t2.skip(t0.len() as int)[2] == t2.last());
        let body = self.receive(n as usize + 1, "Get ID payload");
        let ghost t3 = self.port.trace();
        assert(t3.skip(t0.len() as int)[2] == t2.last()) by {
            assert(t3.take(t2.len() as int)[t2.len() - 1] == t2.last());
        }
        let buf = match body {
            Ok(buf) => {
                proof {
                    lemma_then(t0, t2, t3, a + b, payload, Ok(()));
                }
                buf
            },
            Err(e) => {
                proof {
                    lemma_then(t0, t2, t3, a + b, payload, Err(e@));
                    lemma_stop(t0, t3, a + b + payload, ack, e@);
                }
                return Err(e);
            },
        };
        let last = self.read_ack("Get ID final ACK", NackStage::Payload);
        let ghost t4 = self.port.trace();
        proof {
            lemma_then(t0, t3, t4, a + b + payload, ack, outcome(last));
            let events = t4.skip(t0.len() as int);
            assert(events[2] == t2.last() && events[3] == t3.last()) by {
                assert(t4.take(t3.len() as int)[t2.len() - 1] == t3[t2.len() - 1]);
                assert(t3.take(t2.len() as int)[t2.len() - 1] == t2.last());
                assert(t4.take(t3.len() as int)[t3.len() - 1] == t3.last());
            }
        }
        match last {
            Ok(()) => Ok(parse_chip_id(buf.as_slice())),
            Err(e) => Err(e),
        }
    }

    /// `Get` -> (bootloader version, supported command bytes).
    pub fn get(&mut self) -> (r: Result<(u8, Vec<u8>), Error>)
        ensures
            *final(final(self).port) == *final(old(self).port),
            performs(
                old(self).port.trace(),
                final(self).port.trace(),
                Op::Get,
                info_reply(r),
            ),
    {
        let ghost t0 = self.port.trace();
        let ghost a = command_script(CMD_GET, "Get command"@);
        let ghost b = seq![Step::Receive { len: 1, context: "Get length"@ }];
        let ghost c = seq![Step::Receive { len: 1, context: "Get bootloader version"@ }];
        let ghost list0 = seq![Step::Receive { len: 0, context: "Get supported commands"@ }];
        let ghost ack = seq![Step::Ack { context: "Get final ACK"@, stage: NackStage::Payload }];
        assert(a + b + c + list0 + ack =~= get_script(0));
        let sent = self.send_command(CMD_GET, "Get command");
        let ghost t1 = self.port.trace();
        if let Err(e) = sent {
            proof {
                lemma_stop(t0, t1, a, b, e@);
                lemma_stop(t0, t1, a + b, c, e@);
                lemma_stop(t0, t1, a + b + c, list0, e@);
                lemma_stop(t0, t1, a + b + c + list0, ack, e@);
            }
            return Err(e);
        }
        let length = self.receive_byte("Get length");
        let ghost t2 = self.port.trace();
        assert(t2.skip(t0.len() as int)[2] == t2.last());
        let n = match length {
            Ok(n) => {
                proof {
                    lemma_then(t0, t1, t2, a, b, Ok(()));
                }
                n
            },
            Err(e) => {
                proof {
                    lemma_then(t0, t1, t2, a, b, Err(e@));
                    lemma_stop(t0, t2, a + b, c, e@);
                    lemma_stop(t0, t2, a + b + c, list0, e@);
                    lemma_stop(t0, t2, a + b + c + list0, ack, e@);
                }
                return Err(e);
            },
        };
        let ghost list = seq![Step::Receive { len: n as nat, context: "Get supported commands"@ }];
        assert(a + b + c + list + ack =~= get_script(n));
        let second = self.receive_byte("Get bootloader version");
        let ghost t3 = self.port.trace();
        assert(t3.skip(t0.len() as int)[2] == t2.last()) by {
            assert(t3.take(t2.len() as int)[t2.len() - 1] == t2.last());
        }
        let version = match second {
            Ok(version) => {
                proof {
                    lemma_then(t0, t2, t3, a + b, c, Ok(()));
                }
                version
            },
            Err(e) => {
                proof {
                    lemma_then(t0, t2, t3, a + b, c, Err(e@));
                    lemma_stop(t0, t3, a + b + c, list, e@);
                    lemma_stop(t0, t3, a + b + c + list, ack, e@);
                }
                return Err(e);
            },
        };
        let third = self.receive(n as usize, "Get supported commands");
        let ghost t4 = self.port.trace();
        assert(t4.skip(t0.len() as int)[2] == t2.last()) by {
            assert(t4.take(t3.len() as int)[t2.len() - 1] == t3[t2.len() - 1]);
            assert(t3.take(t2.len() as int)[t2.len() - 1] == t2.last());
        }
        let cmds = match third {
            Ok(cmds) => {
                proof {
                    lemma_then(t0, t3, t4, a + b + c, list, Ok(()));
                }
                cmds
            },
            Err(e) => {
                proof {
                    lemma_then(t0, t3, t4, a + b + c, list, Err(e@));
                    lemma_stop(t0, t4, a + b + c + list, ack, e@);
                }
                return Err(e);
            },
        };
        let last = self.read_ack("Get final ACK", NackStage::Payload);
        let ghost t5 = self.port.trace();
        proof {
            lemma_then(t0, t4, t5, a + b + c + list, ack, outcome(last));
            let events = t5.skip(t0.len() as int);
            assert(events[2] == t2.last() && events[3] == t3.last() && events[4] == t4.last()) by {
                assert(t5.take(t4.len() as int)[t2.len() - 1] == t4[t2.len() - 1]);
                assert(t5.take(t4.len() as int)[t3.len() - 1] == t4[t3.len() - 1]);
                assert(t5.take(t4.len() as int)[t4.len() - 1] == t4.last());
                assert(t4.take(t3.len() as int)[t2.len() - 1] == t3[t2.len() - 1]);
                assert(t4.take(t3.len() as int)[t3.len() - 1] == t3.last());
                assert(t3.take(t2.len() as int)[t2.len() - 1] == t2.last());
            }
        }
        match last {
            Ok(()) => Ok((version, cmds)),
            Err(e) => Err(e),
        }
    }

    /// Extended Erase of an explicit page list (1..=80 pages per call).
    /// `timeout` covers the (slow) erase ACK.
    ///
    /// The command byte + complement is acknowledged first (a NACK here is
    /// [`NackStage::Command`] — usually line corruption); the page-list payload
    /// is acknowledged second (a NACK here is [`NackStage::Payload`] — the
    /// device rejecting an out-of-range page). Callers walking an unknown flash
    /// density must treat only a *payload* NACK as the flash boundary.
    pub fn extended_erase_pages(&mut self, pages: &[u16], timeout: Duration) -> (r: Result<
        (),
        Error,
    >)
        ensures
            *final(final(self).port) == *final(old(self).port),
            performs(
                old(self).port.trace(),
                final(self).port.trace(),
                Op::Erase { pages: pages@, timeout },
                done(outcome(r)),
            ),
    {
        let ghost t0 = self.port.trace();
        if pages.len() == 0 || pages.len() > 80 {
            assert(t0.take(t0.len() as int) =~= t0);
            return Err(
                Error::InvalidArgument { context: "extended_erase_pages expects 1..=80 pages" },
            );
        }
        let ghost a = command_script(CMD_EXT_ERASE, "Extended Erase command"@);
        let ghost b = seq![Step::SetTimeout { timeout }];
        let sent = self.send_command(CMD_EXT_ERASE, "Extended Erase command");
        let ghost t1 = self.port.trace();
        if let Err(e) = sent {
            proof {
                lemma_stop(t0, t1, a, b, e@);
            }
            return Err(e);
        }
        let set = self.port.set_timeout(timeout);
        let ghost t2 = self.port.trace();
        proof {
            lemma_one_step(t1, Step::SetTimeout { timeout }, t2.last());
            lemma_then(t0, t1, t2, a, b, outcome(set));
        }
        if let Err(e) = set {
            return Err(e);
        }
        let frame = erase_frame(pages);
        let r = self.send_payload(frame.as_slice(), "Extended Erase pages");
        let ghost t3 = self.port.trace();
        let _ = self.port.reset_timeout();
        proof {
            let t4 = self.port.trace();
            let events = t4.skip(t0.len() as int);
            assert(t4.take(t0.len() as int) =~= t0) by {
                assert(t4.take(t3.len() as int) =~= t3);
                assert(t3.take(t2.len() as int).take(t0.len() as int) =~= t4.take(t0.len() as int));
            }
            assert(events.take(3) =~= t2.skip(t0.len() as int)) by {
                assert forall|i: int| 0 <= i < 3 implies events.take(3)[i] == t2.skip(
                    t0.len() as int,
                )[i] by {
                    assert(t3.take(t2.len() as int)[t0.len() + i] == t2[t0.len() + i]);
                }
            }
            assert(events.subrange(3, events.len() - 1) =~= t3.skip(t2.len() as int));
        }
        r
    }

    /// Write 1..=256 bytes at `addr`. Data should already be aligned/padded.
    pub fn write_block(&mut self, addr: u32, data: &[u8]) -> (r: Result<(), Error>)
        ensures
            *final(final(self).port) == *final(old(self).port),
            performs(
                old(self).port.trace(),
                final(self).port.trace(),
                Op::Write { addr, data: data@ },
                done(outcome(r)),
            ),
    {
        let ghost t0 = self.port.trace();
        if data.len() == 0 || data.len() > 256 {
            assert(t0.take(t0.len() as int) =~= t0);
            return Err(Error::InvalidArgument { context: "write_block expects 1..=256 bytes" });
        }
        let ghost a = command_script(CMD_WRITE_MEMORY, "Write Memory command"@);
        let ghost b = payload_script(address_bytes(addr), "Write Memory address"@);
        let ghost c = payload_script(data_bytes(data@), "Write Memory data"@);
        let sent = self.send_command(CMD_WRITE_MEMORY, "Write Memory command");
        let ghost t1 = self.port.trace();
        if let Err(e) = sent {
            proof {
                lemma_stop(t0, t1, a, b, e@);
                lemma_stop(t0, t1, a + b, c, e@);
            }
            return Err(e);
        }
        let addressed = self.send_address(addr, "Write Memory address");
        let ghost t2 = self.port.trace();
        proof {
            lemma_then(t0, t1, t2, a, b, outcome(addressed));
        }
        if let Err(e) = addressed {
            proof {
                lemma_stop(t0, t2, a + b, c, e@);
            }
            return Err(e);
        }
        let frame = write_data_frame(data);
        let r = self.send_payload(frame.as_slice(), "Write Memory data");
        proof {
            lemma_then(t0, t2, self.port.trace(), a + b, c, outcome(r));
        }
        r
    }

    /// Read `len` (1..=256) bytes from `addr`.
    pub fn read_block(&mut self, addr: u32, len: usize) -> (r: Result<Vec<u8>, Error>)
        ensures
            *final(final(self).port) == *final(old(self).port),
            performs(
                old(self).port.trace(),
                final(self).port.trace(),
                Op::Read { addr, len: len as nat },
                data_reply(r),
            ),
            r matches Ok(data) ==> data@.len() == len,
    {
        let ghost t0 = self.port.trace();
        if len == 0 || len > 256 {
            assert(t0.take(t0.len() as int) =~= t0);
            return Err(Error::InvalidArgument { context: "read_block expects 1..=256 bytes" });
        }
        let ghost a = command_script(CMD_READ_MEMORY, "Read Memory command"@);
        let ghost b = payload_script(address_bytes(addr), "Read Memory address"@);
        let ghost c = payload_script(command_bytes((len - 1) as u8), "Read Memory length"@);
        let ghost d = seq![Step::Receive { len: len as nat, context: "Read Memory data"@ }];
        let sent = self.send_command(CMD_READ_MEMORY, "Read Memory command");
        let ghost t1 = self.port.trace();
        if let Err(e) = sent {
            proof {
                lemma_stop(t0, t1, a, b, e@);
                lemma_stop(t0, t1, a + b, c, e@);
                lemma_stop(t0, t1, a + b + c, d, e@);
            }
            return Err(e);
        }
        let addressed = self.send_address(addr, "Read Memory address");
        let ghost t2 = self.port.trace();
        proof {
            lemma_then(t0, t1, t2, a, b, outcome(addressed));
        }
        if let Err(e) = addressed {
            proof {
                lemma_stop(t0, t2, a + b, c, e@);
                lemma_stop(t0, t2, a + b + c, d, e@);
            }
            return Err(e);
        }
        let frame = cmd_frame((len - 1) as u8);
        let asked = self.send_payload(&frame, "Read Memory length");
        let ghost t3 = self.port.trace();
        proof {
            lemma_then(t0, t2, t3, a + b, c, outcome(asked));
        }
        if let Err(e) = asked {
            proof {
                lemma_stop(t0, t3, a + b + c, d, e@);
            }
            return Err(e);
        }
        let r = self.receive(len, "Read Memory data");
        proof {
            let t4 = self.port.trace();
            lemma_then(t0, t3, t4, a + b + c, d, unit(data_reply(r)));
            assert(t4.skip(t0.len() as int)[6] == t4.last());
        }
        r
    }

    /// Jump to the application at `addr`.
    pub fn go(&mut self, addr: u32) -> (r: Result<(), Error>)
        ensures
            *final(final(self).port) == *final(old(self).port),
            performs(
                old(self).port.trace(),
                final(self).port.trace(),
                Op::Go { addr },
                done(outcome(r)),
            ),
    {
        let ghost t0 = self.port.trace();
        let ghost a = command_script(CMD_GO, "Go command"@);
        let ghost b = payload_script(address_bytes(addr), "Go address"@);
        match self.send_command(CMD_GO, "Go command") {
            Ok(()) => {
                let ghost t1 = self.port.trace();
                let r = self.send_address(addr, "Go address");
                proof {
                    lemma_then(t0, t1, self.port.trace(), a, b, outcome(r));
                }
                r
            },
            Err(e) => {
                proof {
                    lemma_stop(t0, self.port.trace(), a, b, e@);
                }
                Err(e)
            },
        }
    }
}

} // verus!
