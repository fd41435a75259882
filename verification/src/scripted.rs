//! A device in memory, for exercising the protocol sequencing without hardware.

use vstd::prelude::*;

use std::collections::VecDeque;
use std::time::Duration;

use crate::bootloader::{
    ack_fault, erase_exchange, erase_head_script, fault, follows, init_script, made,
    payload_script, performs, received, smooth, unit, Board, Event, Op, Reply, Transport, ACK,
    CMD_EXT_ERASE, NACK,
};
use crate::chip::in_bounds;
use crate::error::{is_payload_nack, Error, ErrorView, NackStage};
use crate::frame::{command_bytes, erase_bytes, law_erase_frame_lists_pages, listed_pages};
use crate::plan::{duration_of_millis, erase_pages_of, min};
use crate::session::Call;

verus! {

/// A reset that a [`ScriptedTransport`] was put through.
#[derive(Debug, Clone, Copy, PartialEq, Eq, Structural)]
pub enum Reset {
    IntoBootloader,
    IntoApp,
}

/// A scripted in-memory device:
///   * a queue of **canned reply bytes** (`push_byte` and its kin) that reads
///     consume in order, and
///   * an optional **erase-boundary simulation** (`set_erase_boundary`): when
///     set, Extended Erase (0x44) command and page-list frames are answered
///     automatically — the command byte ACKs, and the page list ACKs iff every
///     page is `< boundary` (erased pages are recorded), else NACKs. This models
///     a part of unknown density.
///
/// All written bytes, timeouts and resets are recorded.
pub struct ScriptedTransport {
    state: ScriptState,
}

/// What a [`ScriptedTransport`] holds.
struct ScriptState {
    written: Vec<u8>,
    replies: VecDeque<u8>,
    timeouts: Vec<Duration>,
    erase_boundary: Option<usize>,
    erased_pages: Vec<u16>,
    // True once the current Extended Erase command byte has been consumed
    // and its page-list payload is expected next.
    awaiting_erase_pages: bool,
    resets: Vec<Reset>,
    events: Ghost<Seq<Event>>,
}

/// The state of a [`ScriptedTransport`].
#[verifier::ext_equal]
pub struct ScriptView {
    pub written: Seq<u8>,
    pub replies: Seq<u8>,
    pub timeouts: Seq<Duration>,
    pub boundary: Option<usize>,
    pub erased: Seq<u16>,
    pub awaiting: bool,
    pub resets: Seq<Reset>,
}

impl View for ScriptedTransport {
    type V = ScriptView;

    closed spec fn view(&self) -> ScriptView {
        self.state.value()
    }
}

/// What resetting the timeout is recorded as, in milliseconds.
pub const DEFAULT_TIMEOUT_MARKER_MILLIS: u64 = 1000;

/// The frame holds as many pages as its count says, all below `boundary`.
pub open spec fn accepted(frame: Seq<u8>, boundary: usize) -> bool {
    &&& frame.len() >= 2
    &&& frame.len() >= 2 + 2 * listed_pages(frame).len()
    &&& forall|i: int|
        0 <= i < listed_pages(frame).len() ==> #[trigger] listed_pages(frame)[i] < boundary
}

/// The pages of `more` behind those of `pages`, each page once.
pub open spec fn united(pages: Seq<u16>, more: Seq<u16>) -> Seq<u16>
    decreases more.len(),
{
    if more.len() == 0 {
        pages
    } else {
        let head = united(pages, more.drop_last());
        if head.contains(more.last()) {
            head
        } else {
            head.push(more.last())
        }
    }
}

/// The state after `bytes` were sent.
pub open spec fn sent(state: ScriptView, bytes: Seq<u8>) -> ScriptView {
    let written = state.written + bytes;
    match state.boundary {
        None => ScriptView { written, ..state },
        Some(boundary) => if bytes == command_bytes(CMD_EXT_ERASE) {
            ScriptView { written, replies: state.replies.push(ACK), awaiting: true, ..state }
        } else if !state.awaiting {
            ScriptView { written, ..state }
        } else if accepted(bytes, boundary) {
            ScriptView {
                written,
                replies: state.replies.push(ACK),
                erased: united(state.erased, listed_pages(bytes)),
                awaiting: false,
                ..state
            }
        } else {
            ScriptView { written, replies: state.replies.push(NACK), awaiting: false, ..state }
        },
    }
}

/// The state of a device that was just made.
pub open spec fn initial() -> ScriptView {
    ScriptView {
        written: Seq::empty(),
        replies: Seq::empty(),
        timeouts: Seq::empty(),
        boundary: None,
        erased: Seq::empty(),
        awaiting: false,
        resets: Seq::empty(),
    }
}

/// The state after an event.
pub open spec fn next_state(state: ScriptView, event: Event) -> ScriptView {
    match event {
        Event::Write { bytes, .. } => sent(state, bytes),
        Event::Read { len, .. } => ScriptView {
            replies: if len <= state.replies.len() {
                state.replies.skip(len as int)
            } else {
                Seq::empty()
            },
            ..state
        },
        Event::ClearInput { .. } => state,
        Event::SetTimeout { timeout, .. } => ScriptView {
            timeouts: state.timeouts.push(timeout),
            ..state
        },
        Event::ResetTimeout { .. } => ScriptView {
            timeouts: state.timeouts.push(duration_of_millis(DEFAULT_TIMEOUT_MARKER_MILLIS)),
            ..state
        },
        Event::ResetIntoBootloader { .. } => ScriptView {
            resets: state.resets.push(Reset::IntoBootloader),
            ..state
        },
        Event::ResetIntoApp { .. } => ScriptView {
            resets: state.resets.push(Reset::IntoApp),
            ..state
        },
        Event::Queued { bytes } => ScriptView { replies: state.replies + bytes, ..state },
        Event::Bounded { boundary } => ScriptView { boundary: Some(boundary), ..state },
    }
}

/// The state after everything in the trace.
pub open spec fn replay(trace: Seq<Event>) -> ScriptView
    decreases trace.len(),
{
    if trace.len() == 0 {
        initial()
    } else {
        next_state(replay(trace.drop_last()), trace.last())
    }
}

/// What a read gives in this state: the first replies, if there are enough.
pub open spec fn reply_to(
    state: ScriptView,
    len: nat,
    context: Seq<char>,
) -> Result<Seq<u8>, ErrorView> {
    if len <= state.replies.len() {
        Ok(state.replies.take(len as int))
    } else {
        Err(ErrorView::Timeout { context })
    }
}

/// In this state the event comes out as it does: a read gives what is queued, and
/// nothing else fails.
pub open spec fn fits(state: ScriptView, event: Event) -> bool {
    match event {
        Event::Read { len, context, outcome } => outcome == reply_to(state, len, context),
        _ => smooth(event),
    }
}

/// Every event in the trace came out as the state before it says.
#[verifier::opaque]
pub open spec fn answered(trace: Seq<Event>) -> bool {
    forall|i: int| 0 <= i < trace.len() ==> fits(replay(trace.take(i)), #[trigger] trace[i])
}

proof fn lemma_record(trace: Seq<Event>, event: Event)
    requires
        answered(trace),
        fits(replay(trace), event),
    ensures
        answered(trace.push(event)),
        replay(trace.push(event)) == next_state(replay(trace), event),
{
    reveal(answered);
    let longer = trace.push(event);
    assert(longer.drop_last() =~= trace);
    assert forall|i: int| 0 <= i < longer.len() implies fits(
        replay(longer.take(i)),
        #[trigger] longer[i],
    ) by {
        if i < trace.len() {
            assert(longer.take(i) =~= trace.take(i));
            assert(longer[i] == trace[i]);
        } else {
            assert(longer.take(i) =~= trace);
        }
    }
}

impl ScriptState {
    spec fn value(&self) -> ScriptView {
        ScriptView {
            written: self.written@,
            replies: self.replies@,
            timeouts: self.timeouts@,
            boundary: self.erase_boundary,
            erased: self.erased_pages@,
            awaiting: self.awaiting_erase_pages,
            resets: self.resets@,
        }
    }

    /// The fields are what the trace says.
    spec fn wf(&self) -> bool {
        answered(self.events@) && self.value() == replay(self.events@)
    }

    fn new() -> (r: Self)
        ensures
            r.wf(),
            r.value() == initial(),
            r.events@ == Seq::<Event>::empty(),
    {
        let r = ScriptState {
            written: Vec::new(),
            replies: VecDeque::new(),
            timeouts: Vec::new(),
            erase_boundary: None,
            erased_pages: Vec::new(),
            awaiting_erase_pages: false,
            resets: Vec::new(),
            events: Ghost(Seq::empty()),
        };
        proof {
            reveal(answered);
            assert(r.value() =~= initial());
        }
        r
    }

    /// Move replies into `buf`, as many as there are and as fit.
    fn fill(&mut self, buf: &mut [u8]) -> (n: usize)
        ensures
            final(buf)@.len() == old(buf)@.len(),
            n == min(old(buf)@.len() as int, old(self).value().replies.len() as int),
            final(buf)@.take(n as int) == old(self).value().replies.take(n as int),
            final(self).value() == (ScriptView {
                replies: old(self).value().replies.skip(n as int),
                ..old(self).value()
            }),
            final(self).events@ == old(self).events@,
    {
        let ghost replies = self.replies@;
        let mut i: usize = 0;
        assert(replies.skip(0) =~= replies);
        while i < buf.len() && self.replies.len() > 0
            invariant
                i <= buf@.len(),
                i <= replies.len(),
                buf@.len() == old(buf)@.len(),
                replies == old(self).value().replies,
                self.events@ == old(self).events@,
                self.value() == (ScriptView {
                    replies: replies.skip(i as int),
                    ..old(self).value()
                }),
                forall|j: int| 0 <= j < i ==> #[trigger] buf@[j] == replies[j],
            decreases buf@.len() - i,
        {
            if let Some(b) = self.replies.pop_front() {
                buf[i] = b;
                i += 1;
                assert(self.value().replies =~= replies.skip(i as int));
            }
        }
        assert(buf@.take(i as int) =~= replies.take(i as int));
        i
    }

    /// Queue reply bytes.
    fn queue(&mut self, bytes: &[u8])
        ensures
            final(self).value() == (ScriptView {
                replies: old(self).value().replies + bytes@,
                ..old(self).value()
            }),
            final(self).events@ == old(self).events@,
    {
        let mut i: usize = 0;
        assert(self.replies@ =~= self.replies@ + bytes@.take(0));
        while i < bytes.len()
            invariant
                i <= bytes@.len(),
                self.value() == (ScriptView {
                    replies: old(self).value().replies + bytes@.take(i as int),
                    ..old(self).value()
                }),
                self.events@ == old(self).events@,
            decreases bytes@.len() - i,
        {
            self.replies.push_back(bytes[i]);
            i += 1;
            assert(self.value().replies =~= old(self).value().replies + bytes@.take(i as int));
        }
        assert(bytes@.take(bytes@.len() as int) =~= bytes@);
    }

    /// Take bytes that were sent, and queue what is answered.
    fn accept(&mut self, buf: &[u8])
        ensures
            final(self).value() == sent(old(self).value(), buf@),
            final(self).events@ == old(self).events@,
    {
        self.written.extend_from_slice(buf);
        if let Some(boundary) = self.erase_boundary {
            // An Extended Erase command frame is [0x44, 0xBB].
            if buf.len() == 2 && buf[0] == CMD_EXT_ERASE && buf[1] == 0xFF - CMD_EXT_ERASE {
                assert(buf@ =~= command_bytes(CMD_EXT_ERASE));
                self.replies.push_back(ACK);
                self.awaiting_erase_pages = true;
            } else if self.awaiting_erase_pages {
                self.awaiting_erase_pages = false;
                match Self::parse_page_list(buf) {
                    Some(pages) => {
                        if all_below(pages.as_slice(), boundary) {
                            self.record_erased(pages.as_slice());
                            self.replies.push_back(ACK);
                        } else {
                            self.replies.push_back(NACK);
                        }
                    },
                    None => {
                        self.replies.push_back(NACK);
                    },
                }
            }
        }
    }

    /// Parse a page-list frame (the bytes after `44 BB`) into page numbers; `None`
    /// if it is shorter than its count says.
    fn parse_page_list(frame: &[u8]) -> (r: Option<Vec<u16>>)
        ensures
            match r {
                Some(pages) => {
                    &&& frame@.len() >= 2
                    &&& frame@.len() >= 2 + 2 * listed_pages(frame@).len()
                    &&& pages@ == listed_pages(frame@)
                },
                None => frame@.len() < 2 || frame@.len() < 2 + 2 * listed_pages(frame@).len(),
            },
    {
        if frame.len() < 2 {
            return None;
        }
        // [count_hi, count_lo, (page_hi, page_lo)*, checksum]
        let n: usize = frame[0] as usize * 256 + frame[1] as usize + 1;
        if frame.len() < 2 + 2 * n {
            return None;
        }
        let mut pages: Vec<u16> = Vec::new();
        let mut i: usize = 0;
        while i < n
            invariant
                i <= n,
                n == listed_pages(frame@).len(),
                frame@.len() >= 2 + 2 * n,
                pages@ == listed_pages(frame@).take(i as int),
            decreases n - i,
        {
            let hi = frame[2 + i * 2] as u16;
            let lo = frame[2 + i * 2 + 1] as u16;
            pages.push(hi * 256 + lo);
            i += 1;
            assert(pages@ =~= listed_pages(frame@).take(i as int));
        }
        assert(pages@ =~= listed_pages(frame@));
        Some(pages)
    }

    /// Record `pages` as erased, each page once.
    fn record_erased(&mut self, pages: &[u16])
        ensures
            final(self).value() == (ScriptView {
                erased: united(old(self).value().erased, pages@),
                ..old(self).value()
            }),
            final(self).events@ == old(self).events@,
    {
        let mut i: usize = 0;
        assert(united(self.value().erased, pages@.take(0)) =~= self.value().erased);
        while i < pages.len()
            invariant
                i <= pages@.len(),
                self.value() == (ScriptView {
                    erased: united(old(self).value().erased, pages@.take(i as int)),
                    ..old(self).value()
                }),
                self.events@ == old(self).events@,
            decreases pages@.len() - i,
        {
            let p = pages[i];
            let known = contains_page(self.erased_pages.as_slice(), p);
            if !known {
                self.erased_pages.push(p);
            }
            i += 1;
            assert(pages@.take(i as int).drop_last() =~= pages@.take(i - 1));
        }
        assert(pages@.take(pages@.len() as int) =~= pages@);
    }

    /// Record an event after which the fields are as they are now.
    proof fn lemma_recorded(before: ScriptState, after: ScriptState, event: Event)
        requires
            before.wf(),
            fits(before.value(), event),
            after.value() == next_state(before.value(), event),
            after.events@ == before.events@.push(event),
        ensures
            after.wf(),
    {
        lemma_record(before.events@, event);
    }
}

/// Whether `p` is among `pages`.
fn contains_page(pages: &[u16], p: u16) -> (r: bool)
    ensures
        r == pages@.contains(p),
{
    let mut i: usize = 0;
    while i < pages.len()
        invariant
            i <= pages@.len(),
            forall|j: int| 0 <= j < i ==> pages@[j] != p,
        decreases pages@.len() - i,
    {
        if pages[i] == p {
            assert(pages@[i as int] == p);
            return true;
        }
        i += 1;
    }
    false
}

/// Whether all of `pages` are below `boundary`.
fn all_below(pages: &[u16], boundary: usize) -> (r: bool)
    ensures
        r == forall|i: int| 0 <= i < pages@.len() ==> #[trigger] pages@[i] < boundary,
{
    let mut i: usize = 0;
    while i < pages.len()
        invariant
            i <= pages@.len(),
            forall|j: int| 0 <= j < i ==> #[trigger] pages@[j] < boundary,
        decreases pages@.len() - i,
    {
        if pages[i] as usize >= boundary {
            return false;
        }
        i += 1;
    }
    true
}

impl ScriptedTransport {
    #[verifier::type_invariant]
    spec fn wf(self) -> bool {
        self.state.wf()
    }

    /// The state is what the trace says, and every event in the trace came out as
    /// the state before it says: each read gave what was queued.
    pub open spec fn consistent(&self) -> bool {
        answered(self.trace()) && self@ == replay(self.trace())
    }

    /// A device that answers nothing.
    pub fn new() -> (r: Self)
        ensures
            r@ == initial(),
            r.trace() == Seq::<Event>::empty(),
            r.consistent(),
    {
        ScriptedTransport { state: ScriptState::new() }
    }

    /// Take the state out, to work on it.
    fn take(&mut self) -> (s: ScriptState)
        ensures
            s == old(self).state,
            s.wf(),
    {
        proof {
            use_type_invariant(&*self);
        }
        let mut s = ScriptState::new();
        std::mem::swap(&mut s, &mut self.state);
        s
    }

    /// Enable the Extended Erase simulation: pages `< boundary` erase (ACK), any
    /// page `>= boundary` NACKs the whole command (AN3155 semantics).
    pub fn set_erase_boundary(&mut self, boundary: usize)
        ensures
            final(self)@ == (ScriptView { boundary: Some(boundary), ..old(self)@ }),
            final(self).trace() == old(self).trace().push(Event::Bounded { boundary }),
            final(self).consistent(),
    {
        let mut s = self.take();
        let ghost before = s;
        s.erase_boundary = Some(boundary);
        proof {
            let event = Event::Bounded { boundary };
            s.events@ = s.events@.push(event);
            ScriptState::lemma_recorded(before, s, event);
        }
        self.state = s;
    }

    /// Queue reply bytes.
    pub fn push_bytes(&mut self, bytes: &[u8])
        ensures
            final(self)@ == (ScriptView { replies: old(self)@.replies + bytes@, ..old(self)@ }),
            final(self).trace() == old(self).trace().push(Event::Queued { bytes: bytes@ }),
            final(self).consistent(),
    {
        let mut s = self.take();
        let ghost before = s;
        s.queue(bytes);
        proof {
            let event = Event::Queued { bytes: bytes@ };
            s.events@ = s.events@.push(event);
            ScriptState::lemma_recorded(before, s, event);
        }
        self.state = s;
    }

    /// Queue one reply byte.
    pub fn push_byte(&mut self, b: u8)
        ensures
            final(self)@ == (ScriptView { replies: old(self)@.replies.push(b), ..old(self)@ }),
            final(self).trace() == old(self).trace().push(Event::Queued { bytes: seq![b] }),
            final(self).consistent(),
    {
        let bytes: [u8; 1] = [b];
        assert(bytes@ =~= seq![b]);
        self.push_bytes(&bytes);
    }

    /// Queue an ACK.
    pub fn push_ack(&mut self)
        ensures
            final(self)@ == (ScriptView { replies: old(self)@.replies.push(ACK), ..old(self)@ }),
            final(self).trace() == old(self).trace().push(Event::Queued { bytes: seq![ACK] }),
            final(self).consistent(),
    {
        self.push_byte(ACK);
    }

    /// Queue a NACK.
    pub fn push_nack(&mut self)
        ensures
            final(self)@ == (ScriptView { replies: old(self)@.replies.push(NACK), ..old(self)@ }),
            final(self).trace() == old(self).trace().push(Event::Queued { bytes: seq![NACK] }),
            final(self).consistent(),
    {
        self.push_byte(NACK);
    }

    /// Queue an Extended Erase chunk reply: command-frame ACK and page-list ACK.
    pub fn push_erase_chunk_ack(&mut self)
        ensures
            final(self)@ == (ScriptView {
                replies: old(self)@.replies + seq![ACK, ACK],
                ..old(self)@
            }),
            final(self).trace() == old(self).trace().push(Event::Queued { bytes: seq![ACK, ACK] }),
            final(self).consistent(),
    {
        let bytes: [u8; 2] = [ACK, ACK];
        assert(bytes@ =~= seq![ACK, ACK]);
        self.push_bytes(&bytes);
    }

    /// Queue a NACK to a command frame (line corruption of the command byte).
    pub fn push_command_nack(&mut self)
        ensures
            final(self)@ == (ScriptView { replies: old(self)@.replies.push(NACK), ..old(self)@ }),
            final(self).trace() == old(self).trace().push(Event::Queued { bytes: seq![NACK] }),
            final(self).consistent(),
    {
        self.push_nack();
    }

    /// The pages that were erased, each once.
    pub fn erased_pages(&self) -> (r: &[u16])
        ensures
            r@ == self@.erased,
            self.consistent(),
    {
        proof {
            use_type_invariant(self);
        }
        self.state.erased_pages.as_slice()
    }

    /// The timeouts that were set, in order.
    pub fn timeouts(&self) -> (r: &[Duration])
        ensures
            r@ == self@.timeouts,
            self.consistent(),
    {
        proof {
            use_type_invariant(self);
        }
        self.state.timeouts.as_slice()
    }

    /// All bytes written to the transport, in order.
    pub fn written(&self) -> (r: &[u8])
        ensures
            r@ == self@.written,
            self.consistent(),
    {
        proof {
            use_type_invariant(self);
        }
        self.state.written.as_slice()
    }

    /// The resets, in order.
    pub fn resets(&self) -> (r: &[Reset])
        ensures
            r@ == self@.resets,
            self.consistent(),
    {
        proof {
            use_type_invariant(self);
        }
        self.state.resets.as_slice()
    }
}

impl Transport for ScriptedTransport {
    closed spec fn trace(&self) -> Seq<Event> {
        self.state.events@
    }

    fn write_all(&mut self, buf: &[u8]) -> (r: Result<(), Error>)
        ensures
            r is Ok,
            final(self)@ == sent(old(self)@, buf@),
    {
        let mut s = self.take();
        let ghost before = s;
        s.accept(buf);
        proof {
            let event = Event::Write { bytes: buf@, outcome: Ok(()) };
            s.events@ = s.events@.push(event);
            ScriptState::lemma_recorded(before, s, event);
        }
        self.state = s;
        Ok(())
    }

    fn read_exact_buf(&mut self, buf: &mut [u8], context: &str) -> (r: Result<(), Error>)
        ensures
            old(buf)@.len() <= old(self)@.replies.len() ==> {
                &&& r is Ok
                &&& final(buf)@ == old(self)@.replies.take(old(buf)@.len() as int)
                &&& final(self)@ == (ScriptView {
                    replies: old(self)@.replies.skip(old(buf)@.len() as int),
                    ..old(self)@
                })
            },
            old(buf)@.len() > old(self)@.replies.len() ==> {
                &&& r matches Err(Error::Timeout { context: c }) && c@ == context@
                &&& final(self)@ == (ScriptView { replies: Seq::empty(), ..old(self)@ })
            },
    {
        let mut s = self.take();
        let ghost before = s;
        let filled: usize = s.fill(buf);
        let r = if filled == buf.len() {
            Ok(())
        } else {
            Err(Error::Timeout { context: context.to_string() })
        };
        proof {
            let outcome = if r is Ok {
                Ok(buf@)
            } else {
                Err(ErrorView::Timeout { context: context@ })
            };
            let event = Event::Read { len: buf@.len(), context: context@, outcome };
            if r is Ok {
                assert(buf@.take(filled as int) =~= buf@);
            } else {
                assert(before.value().replies.skip(filled as int) =~= Seq::<u8>::empty());
            }
            s.events@ = s.events@.push(event);
            ScriptState::lemma_recorded(before, s, event);
        }
        self.state = s;
        r
    }

    fn clear_input(&mut self) -> (r: Result<(), Error>)
        ensures
            r is Ok,
            final(self)@ == old(self)@,
    {
        let mut s = self.take();
        let ghost before = s;
        proof {
            let event = Event::ClearInput { outcome: Ok(()) };
            s.events@ = s.events@.push(event);
            ScriptState::lemma_recorded(before, s, event);
        }
        self.state = s;
        Ok(())
    }

    fn set_timeout(&mut self, timeout: Duration) -> (r: Result<(), Error>)
        ensures
            r is Ok,
            final(self)@ == (ScriptView {
                timeouts: old(self)@.timeouts.push(timeout),
                ..old(self)@
            }),
    {
        let mut s = self.take();
        let ghost before = s;
        s.timeouts.push(timeout);
        proof {
            let event = Event::SetTimeout { timeout, outcome: Ok(()) };
            s.events@ = s.events@.push(event);
            ScriptState::lemma_recorded(before, s, event);
        }
        self.state = s;
        Ok(())
    }

    fn reset_timeout(&mut self) -> (r: Result<(), Error>)
        ensures
            r is Ok,
            final(self)@ == (ScriptView {
                timeouts: old(self)@.timeouts.push(
                    duration_of_millis(DEFAULT_TIMEOUT_MARKER_MILLIS),
                ),
                ..old(self)@
            }),
    {
        let mut s = self.take();
        let ghost before = s;
        s.timeouts.push(Duration::from_millis(DEFAULT_TIMEOUT_MARKER_MILLIS));
        proof {
            let event = Event::ResetTimeout { outcome: Ok(()) };
            s.events@ = s.events@.push(event);
            ScriptState::lemma_recorded(before, s, event);
        }
        self.state = s;
        Ok(())
    }
}

impl Board for ScriptedTransport {
    fn reset_into_bootloader(&mut self) -> (r: Result<(), Error>)
        ensures
            r is Ok,
            final(self)@ == (ScriptView {
                resets: old(self)@.resets.push(Reset::IntoBootloader),
                ..old(self)@
            }),
    {
        let mut s = self.take();
        let ghost before = s;
        s.resets.push(Reset::IntoBootloader);
        proof {
            let event = Event::ResetIntoBootloader { outcome: Ok(()) };
            s.events@ = s.events@.push(event);
            ScriptState::lemma_recorded(before, s, event);
        }
        self.state = s;
        Ok(())
    }

    fn reset_into_app(&mut self) -> (r: Result<(), Error>)
        ensures
            r is Ok,
            final(self)@ == (ScriptView {
                resets: old(self)@.resets.push(Reset::IntoApp),
                ..old(self)@
            }),
    {
        let mut s = self.take();
        let ghost before = s;
        s.resets.push(Reset::IntoApp);
        proof {
            let event = Event::ResetIntoApp { outcome: Ok(()) };
            s.events@ = s.events@.push(event);
            ScriptState::lemma_recorded(before, s, event);
        }
        self.state = s;
        Ok(())
    }
}

/// All bytes that were queued.
pub open spec fn queued_bytes(trace: Seq<Event>) -> Seq<u8>
    decreases trace.len(),
{
    if trace.len() == 0 {
        Seq::empty()
    } else {
        queued_bytes(trace.drop_last()) + match trace.last() {
            Event::Queued { bytes } => bytes,
            _ => Seq::empty(),
        }
    }
}

/// All bytes that were read.
pub open spec fn read_bytes(trace: Seq<Event>) -> Seq<u8>
    decreases trace.len(),
{
    if trace.len() == 0 {
        Seq::empty()
    } else {
        read_bytes(trace.drop_last()) + received(trace.last())
    }
}

/// Without the erase simulation, and as long as no read fails, what was read and
/// what is still queued is what was queued, in order: each read gives what was
/// queued.
pub proof fn law_queue_in_order(trace: Seq<Event>)
    requires
        answered(trace),
        forall|i: int| 0 <= i < trace.len() ==> !(#[trigger] trace[i] is Bounded),
        forall|i: int| 0 <= i < trace.len() ==> smooth(#[trigger] trace[i]),
    ensures
        read_bytes(trace) + replay(trace).replies == queued_bytes(trace),
        replay(trace).boundary is None,
    decreases trace.len(),
{
    if trace.len() > 0 {
        let head = trace.drop_last();
        let event = trace.last();
        lemma_prefix_answered(trace, head.len() as int);
        assert forall|i: int| 0 <= i < head.len() implies !(#[trigger] head[i] is Bounded)
            && smooth(head[i]) by {
            assert(head[i] == trace[i]);
        }
        law_queue_in_order(head);
        let n = trace.len() - 1;
        assert(trace.take(n) =~= head);
        law_event_by_event(trace, n);
        assert(smooth(trace[n]) && !(trace[n] is Bounded));
        let before = replay(head).replies;
        let after = replay(trace).replies;
        assert(read_bytes(trace) + after =~= queued_bytes(trace)) by {
            assert(received(event) + after =~= before + match event {
                Event::Queued { bytes } => bytes,
                _ => Seq::empty(),
            });
            assert(read_bytes(head) + (received(event) + after) =~= read_bytes(trace) + after);
        }
    } else {
        assert(read_bytes(trace) + replay(trace).replies =~= queued_bytes(trace));
    }
}

/// What holds of a trace holds of its beginning.
proof fn lemma_prefix_answered(trace: Seq<Event>, n: int)
    requires
        answered(trace),
        0 <= n <= trace.len(),
    ensures
        answered(trace.take(n)),
{
    reveal(answered);
    let head = trace.take(n);
    assert forall|i: int| 0 <= i < head.len() implies fits(
        replay(head.take(i)),
        #[trigger] head[i],
    ) by {
        assert(head.take(i) =~= trace.take(i));
        assert(fits(replay(trace.take(i)), trace[i]));
    }
}

/// Each event in the trace came out as the state before it says, which is what the
/// events before it made of it: a read gave the bytes that were queued, in order,
/// or timed out for want of bytes, and nothing else failed.
pub proof fn law_event_by_event(trace: Seq<Event>, i: int)
    requires
        answered(trace),
        0 <= i < trace.len(),
    ensures
        replay(trace.take(i + 1)) == next_state(replay(trace.take(i)), trace[i]),
        fits(replay(trace.take(i)), trace[i]),
{
    reveal(answered);
    assert(trace.take(i + 1).drop_last() =~= trace.take(i));
    assert(trace.take(i + 1).last() == trace[i]);
}

/// A handshake with a scripted device is decided by the first byte that is queued.
pub proof fn law_handshake_reads_the_queue(
    before: Seq<Event>,
    after: Seq<Event>,
    r: Result<Reply, ErrorView>,
)
    requires
        answered(after),
        performs(before, after, Op::Init, r),
        replay(before).replies.len() > 0,
    ensures
        r == match ack_fault(
            replay(before).replies[0],
            "bootloader init (0x7F)"@,
            NackStage::Command,
        ) {
            None => Ok::<_, ErrorView>(Reply::Done),
            Some(e) => Err(e),
        },
{
    let n = before.len() as int;
    let script = init_script();
    let events = after.skip(n);
    assert(script.len() == 3);
    assert(after.take(n) =~= before);
    assert(made(script[0], events[0]));
    assert(events[0] == after[n]);
    law_event_by_event(after, n);
    assert(fault(script[0], events[0]) is None);
    assert(events.len() > 1);
    assert(made(script[1], events[1]));
    assert(events[1] == after[n + 1]);
    law_event_by_event(after, n + 1);
    assert(fault(script[1], events[1]) is None);
    assert(events.len() > 2);
    assert(made(script[2], events[2]));
    assert(events[2] == after[n + 2]);
    law_event_by_event(after, n + 2);
    let state = replay(after.take(n + 2));
    assert(state.replies[0] == replay(before).replies[0]);
    if r is Ok {
        assert(fault(script[2], events[2]) is None);
    }
}

/// The simulation answers the command frame of an erase with an ACK.
proof fn lemma_simulated_command(
    before: Seq<Event>,
    after: Seq<Event>,
    timeout: Duration,
    boundary: usize,
)
    requires
        answered(after),
        before.len() <= after.len(),
        after.take(before.len() as int) == before,
        replay(before).boundary == Some(boundary),
        replay(before).replies.len() == 0,
        ({
            let head = erase_head_script(timeout);
            let events = after.skip(before.len() as int);
            &&& events.len() > 0
            &&& forall|i: int|
                0 <= i < events.len() && i < 3 ==> #[trigger] made(head[i], events[i])
        }),
    ensures
        ({
            let head = erase_head_script(timeout);
            let events = after.skip(before.len() as int);
            let n = before.len() as int;
            &&& forall|i: int|
                0 <= i < events.len() && i < 3 ==> #[trigger] fault(head[i], events[i]) is None
            &&& events.len() >= 2 ==> received(events[1]) == seq![ACK]
            &&& events.len() >= 3 ==> replay(after.take(n + 3)) == (ScriptView {
                written: replay(before).written + command_bytes(CMD_EXT_ERASE),
                awaiting: true,
                timeouts: replay(before).timeouts.push(timeout),
                ..replay(before)
            })
        }),
{
    let n = before.len() as int;
    let head = erase_head_script(timeout);
    let events = after.skip(n);
    let state = replay(before);
    assert(made(head[0], events[0]));
    assert(events[0] == after[n]);
    law_event_by_event(after, n);
    let state1 = replay(after.take(n + 1));
    assert(state1 == sent(state, command_bytes(CMD_EXT_ERASE)));
    assert(state1.replies =~= seq![ACK]);
    if events.len() >= 2 {
        assert(made(head[1], events[1]));
        assert(events[1] == after[n + 1]);
        law_event_by_event(after, n + 1);
        assert(received(events[1]) =~= seq![ACK]);
        assert(received(events[1])[0] == ACK);
        let state2 = replay(after.take(n + 2));
        assert(state2.replies =~= state.replies);
        if events.len() >= 3 {
            assert(made(head[2], events[2]));
            assert(events[2] == after[n + 2]);
            law_event_by_event(after, n + 2);
        }
    }
    assert forall|i: int| 0 <= i < events.len() && i < 3 implies #[trigger] fault(
        head[i],
        events[i],
    ) is None by {
        assert(i == 0 || i == 1 || i == 2);
    }
}

/// The frame is a page list that names `pages`.
#[verifier::opaque]
spec fn lists(frame: Seq<u8>, pages: Seq<u16>) -> bool {
    listed_pages(frame) == pages && frame.len() == 2 * pages.len() + 3 && pages.len() >= 1
}

proof fn lemma_lists(pages: Seq<u16>)
    requires
        1 <= pages.len() <= 80,
    ensures
        lists(erase_bytes(pages), pages),
{
    law_erase_frame_lists_pages(pages);
    reveal(lists);
}

/// What the simulation makes of a frame that lists `pages`.
proof fn lemma_list_sent(state: ScriptView, frame: Seq<u8>, pages: Seq<u16>, boundary: usize)
    requires
        lists(frame, pages),
        state.boundary == Some(boundary),
        state.awaiting,
    ensures
        sent(state, frame) == if all_in_range(pages, boundary) {
            ScriptView {
                written: state.written + frame,
                replies: state.replies.push(ACK),
                erased: united(state.erased, pages),
                awaiting: false,
                ..state
            }
        } else {
            ScriptView {
                written: state.written + frame,
                replies: state.replies.push(NACK),
                awaiting: false,
                ..state
            }
        },
{
    reveal(lists);
    let command = command_bytes(CMD_EXT_ERASE);
    assert(frame.len() != command.len());
    assert(accepted(frame, boundary) == all_in_range(pages, boundary));
}

/// All pages are below `boundary`.
spec fn all_in_range(pages: Seq<u16>, boundary: usize) -> bool {
    forall|i: int| 0 <= i < pages.len() ==> #[trigger] pages[i] < boundary
}

/// The simulation answers the page list of an erase, at `m` in the trace.
proof fn lemma_simulated_list(
    after: Seq<Event>,
    m: int,
    middle: Seq<Event>,
    frame: Seq<u8>,
    pages: Seq<u16>,
    r: Result<(), ErrorView>,
    boundary: usize,
)
    requires
        answered(after),
        0 <= m,
        m + middle.len() <= after.len(),
        middle == after.subrange(m, m + middle.len()),
        follows(payload_script(frame, "Extended Erase pages"@), middle, r),
        lists(frame, pages),
        replay(after.take(m)).boundary == Some(boundary),
        replay(after.take(m)).replies.len() == 0,
        replay(after.take(m)).awaiting,
    ensures
        middle.len() == 2,
        r is Ok <==> all_in_range(pages, boundary),
        r matches Err(e) ==> is_payload_nack(e),
        replay(after.take(m + 2)).boundary == Some(boundary),
        replay(after.take(m + 2)).replies.len() == 0,
        replay(after.take(m + 2)).erased == if r is Ok {
            united(replay(after.take(m)).erased, pages)
        } else {
            replay(after.take(m)).erased
        },
{
    let list = payload_script(frame, "Extended Erase pages"@);
    let state = replay(after.take(m));
    assert(list.len() == 2);
    lemma_list_sent(state, frame, pages, boundary);
    assert(middle.len() > 0);
    assert(made(list[0], middle[0]));
    assert(middle[0] == after[m]);
    law_event_by_event(after, m);
    let sent_state = replay(after.take(m + 1));
    assert(sent_state == sent(state, frame));
    let answer = if all_in_range(pages, boundary) {
        ACK
    } else {
        NACK
    };
    assert(sent_state.replies =~= seq![answer]);
    assert(fault(list[0], middle[0]) is None);
    assert(middle.len() == 2);
    assert(made(list[1], middle[1]));
    assert(middle[1] == after[m + 1]);
    law_event_by_event(after, m + 1);
    assert(received(middle[1]) =~= seq![answer]);
    assert(received(middle[1])[0] == answer);
    if r is Ok {
        assert(fault(list[1], middle[1]) is None);
    }
}

/// On a simulated device an erase does not fail before its page list.
proof fn lemma_command_does_not_fail(
    before: Seq<Event>,
    after: Seq<Event>,
    timeout: Duration,
    r: Result<(), ErrorView>,
    boundary: usize,
)
    requires
        answered(after),
        before.len() <= after.len(),
        after.take(before.len() as int) == before,
        replay(before).boundary == Some(boundary),
        replay(before).replies.len() == 0,
        follows(erase_head_script(timeout), after.skip(before.len() as int), r),
    ensures
        r is Ok,
{
    let head = erase_head_script(timeout);
    let events = after.skip(before.len() as int);
    if r is Err {
        lemma_simulated_command(before, after, timeout, boundary);
        let last = events.len() - 1;
        assert(fault(head[last], events[last]) is None);
    }
}

/// An erase on a simulated device, where `frame` lists the pages.
proof fn lemma_simulated_exchange(
    before: Seq<Event>,
    after: Seq<Event>,
    frame: Seq<u8>,
    pages: Seq<u16>,
    timeout: Duration,
    r: Result<(), ErrorView>,
    boundary: usize,
)
    requires
        answered(after),
        before.len() <= after.len(),
        after.take(before.len() as int) == before,
        ({
            let head = erase_head_script(timeout);
            let list = payload_script(frame, "Extended Erase pages"@);
            let events = after.skip(before.len() as int);
            ||| r is Err && follows(head, events, r)
            ||| {
                &&& events.len() >= 4
                &&& follows(head, events.take(3), Ok(()))
                &&& follows(list, events.subrange(3, events.len() - 1), r)
                &&& events.last() is ResetTimeout
            }
        }),
        lists(frame, pages),
        replay(before).boundary == Some(boundary),
        replay(before).replies.len() == 0,
    ensures
        r is Ok <==> all_in_range(pages, boundary),
        r matches Err(e) ==> is_payload_nack(e),
        replay(after).boundary == Some(boundary),
        replay(after).replies.len() == 0,
        replay(after).erased == if r is Ok {
            united(replay(before).erased, pages)
        } else {
            replay(before).erased
        },
{
    let n = before.len() as int;
    let head = erase_head_script(timeout);
    let events = after.skip(n);
    assert(head.len() == 3);
    if r is Err && follows(head, events, r) {
        lemma_command_does_not_fail(before, after, timeout, r, boundary);
    }
    let first = events.take(3);
    let middle = events.subrange(3, events.len() - 1);
    assert(events[0] == first[0] && events[1] == first[1] && events[2] == first[2]);
    assert(made(head[0], first[0]) && made(head[1], first[1]) && made(head[2], first[2]));
    lemma_simulated_command(before, after, timeout, boundary);
    assert(middle =~= after.subrange(n + 3, n + 3 + middle.len()));
    lemma_simulated_list(after, n + 3, middle, frame, pages, r, boundary);
    // last of all the timeout is put back
    assert(events.last() == after[n + 5]);
    law_event_by_event(after, n + 5);
    assert(after.take(n + 6) =~= after);
}

/// With the erase simulation a scripted device behaves as one of `boundary` flash
/// pages: a page list that is all in range is erased and recorded, any other is
/// rejected as a whole. Nothing is left queued.
pub proof fn law_simulated_erase(
    before: Seq<Event>,
    after: Seq<Event>,
    pages: Seq<u16>,
    timeout: Duration,
    r: Result<Reply, ErrorView>,
    boundary: usize,
)
    requires
        answered(after),
        performs(before, after, Op::Erase { pages, timeout }, r),
        1 <= pages.len() <= 80,
        replay(before).boundary == Some(boundary),
        replay(before).replies.len() == 0,
    ensures
        in_bounds(
            Call {
                op: Op::Erase { pages, timeout },
                events: after.skip(before.len() as int),
                result: r,
            },
            boundary as int,
        ),
        replay(after).boundary == Some(boundary),
        replay(after).replies.len() == 0,
        replay(after).erased == if r is Ok {
            united(replay(before).erased, pages)
        } else {
            replay(before).erased
        },
{
    let frame = erase_bytes(pages);
    lemma_lists(pages);
    let op = Op::Erase { pages, timeout };
    assert(erase_exchange(pages, timeout, after.skip(before.len() as int), r));
    lemma_simulated_exchange(before, after, frame, pages, timeout, unit(r), boundary);
    assert(erase_pages_of(op) == pages);
}

/// A device that was just made was sent nothing, holds nothing and has no boundary.
pub proof fn law_fresh()
    ensures
        initial().written.len() == 0,
        initial().replies.len() == 0,
        initial().timeouts.len() == 0,
        initial().erased.len() == 0,
        initial().resets.len() == 0,
        initial().boundary is None,
        !initial().awaiting,
{
}

/// Everything that is sent is recorded, and changes neither the boundary nor what was
/// recorded of timeouts and resets. Without a boundary nothing is answered.
pub proof fn law_sent_recorded(state: ScriptView, bytes: Seq<u8>)
    ensures
        sent(state, bytes).written == state.written + bytes,
        sent(state, bytes).boundary == state.boundary,
        sent(state, bytes).timeouts == state.timeouts,
        sent(state, bytes).resets == state.resets,
        state.boundary is None ==> sent(state, bytes) == (ScriptView {
            written: state.written + bytes,
            ..state
        }),
{
}

/// With a boundary the erase command is answered 0x79 and a page list is due next; what
/// is sent while none is due, and is no erase command, is not answered.
pub proof fn law_erase_command_answered(state: ScriptView, bytes: Seq<u8>)
    requires
        state.boundary is Some,
    ensures
        bytes == seq![0x44u8, 0xBBu8] ==> {
            &&& sent(state, bytes).replies == state.replies.push(0x79)
            &&& sent(state, bytes).awaiting
            &&& sent(state, bytes).erased == state.erased
        },
        bytes != seq![0x44u8, 0xBBu8] && !state.awaiting ==> {
            &&& sent(state, bytes).replies == state.replies
            &&& !sent(state, bytes).awaiting
            &&& sent(state, bytes).erased == state.erased
        },
{
    assert(command_bytes(CMD_EXT_ERASE) =~= seq![0x44u8, 0xBBu8]);
}

/// The frame names page `q` at place `i` of its list.
pub open spec fn names_page(frame: Seq<u8>, i: int, q: int) -> bool {
    &&& 0 <= i < frame[0] * 256 + frame[1] + 1
    &&& frame[2 + 2 * i] * 256 + frame[3 + 2 * i] == q
}

/// A page list that is due is answered 0x79 if it is whole and every page in it is below
/// the boundary. Exactly these pages are then erased, besides those that were. Otherwise
/// it is answered 0x1F and nothing is erased. Either way no list is due any more.
pub proof fn law_page_list_answered(state: ScriptView, frame: Seq<u8>, boundary: usize, q: u16)
    requires
        state.boundary == Some(boundary),
        state.awaiting,
        frame != seq![0x44u8, 0xBBu8],
    ensures
        ({
            let after = sent(state, frame);
            let whole = frame.len() >= 2 && frame.len() >= 2 + 2 * (frame[0] * 256 + frame[1] + 1);
            let good = whole && forall|i: int, p: int| #[trigger]
                names_page(frame, i, p) ==> p < boundary;
            &&& !after.awaiting
            &&& good ==> {
                &&& after.replies == state.replies.push(0x79)
                &&& after.erased.contains(q) <==> state.erased.contains(q) || exists|i: int|
                    names_page(frame, i, q as int)
            }
            &&& !good ==> {
                &&& after.replies == state.replies.push(0x1F)
                &&& after.erased == state.erased
            }
        }),
{
    assert(command_bytes(CMD_EXT_ERASE) =~= seq![0x44u8, 0xBBu8]);
    let list = listed_pages(frame);
    let whole = frame.len() >= 2 && frame.len() >= 2 + 2 * (frame[0] * 256 + frame[1] + 1);
    if whole {
        assert(list.len() == frame[0] * 256 + frame[1] + 1);
        assert forall|i: int| 0 <= i < list.len() implies #[trigger] list[i] == frame[2 + 2 * i]
            * 256 + frame[3 + 2 * i] by {}
        if accepted(frame, boundary) {
            assert forall|i: int, p: int| #[trigger] names_page(frame, i, p) implies p < boundary by {
                assert(list[i] == p);
            }
            law_united(state.erased, list, q);
            if list.contains(q) {
                let i = choose|i: int| 0 <= i < list.len() && list[i] == q;
                assert(names_page(frame, i, q as int));
            }
            if exists|i: int| names_page(frame, i, q as int) {
                let i = choose|i: int| names_page(frame, i, q as int);
                assert(list[i] == q);
            }
        } else {
            let i = choose|i: int| 0 <= i < list.len() && !(#[trigger] list[i] < boundary);
            assert(names_page(frame, i, list[i] as int));
        }
    }
}

/// What is united holds the pages of both and no other, and keeps the first as they
/// stand, in front; if these were all different, all are.
pub proof fn law_united(pages: Seq<u16>, more: Seq<u16>, q: u16)
    ensures
        united(pages, more).contains(q) <==> pages.contains(q) || more.contains(q),
        pages.len() <= united(pages, more).len(),
        united(pages, more).take(pages.len() as int) == pages,
        pages.no_duplicates() ==> united(pages, more).no_duplicates(),
    decreases more.len(),
{
    if more.len() > 0 {
        let head = more.drop_last();
        let before = united(pages, head);
        let last = more.last();
        law_united(pages, head, q);
        assert(more == head.push(last));
        assert(more.contains(q) <==> head.contains(q) || q == last) by {
            if head.contains(q) {
                let i = choose|i: int| 0 <= i < head.len() && head[i] == q;
                assert(more[i] == q);
            }
            if q == last {
                assert(more[more.len() - 1] == q);
            }
            if more.contains(q) && q != last {
                let i = choose|i: int| 0 <= i < more.len() && more[i] == q;
                assert(head[i] == q);
            }
        }
        if !before.contains(last) {
            let after = before.push(last);
            assert(after.contains(q) <==> before.contains(q) || q == last) by {
                if before.contains(q) {
                    let i = choose|i: int| 0 <= i < before.len() && before[i] == q;
                    assert(after[i] == q);
                }
                if q == last {
                    assert(after[after.len() - 1] == q);
                }
            }
            assert(after.take(pages.len() as int) =~= before.take(pages.len() as int));
        }
    } else {
        assert(pages.take(pages.len() as int) =~= pages);
    }
}

/// A read gives the first replies that are queued, as many as were asked for, and takes
/// them away; if there are fewer, it ends in a timeout with the context, and they are
/// gone.
pub proof fn law_reads_take_replies(state: ScriptView, event: Event)
    requires
        event is Read,
        fits(state, event),
    ensures
        event matches Event::Read { len, context, outcome } && (if len <= state.replies.len() {
            outcome == Ok::<_, ErrorView>(state.replies.take(len as int)) && next_state(state, event)
                == (ScriptView { replies: state.replies.skip(len as int), ..state })
        } else {
            outcome == Err::<Seq<u8>, _>(ErrorView::Timeout { context }) && next_state(state, event)
                == (ScriptView { replies: Seq::empty(), ..state })
        }),
{
}

/// Timeouts and resets are recorded in order, replies queued at the end, and the boundary
/// set; each of these changes nothing else, and clearing the input nothing at all.
pub proof fn law_events_recorded(
    state: ScriptView,
    timeout: Duration,
    bytes: Seq<u8>,
    boundary: usize,
    outcome: Result<(), ErrorView>,
)
    ensures
        next_state(state, Event::Write { bytes, outcome }) == sent(state, bytes),
        next_state(state, Event::SetTimeout { timeout, outcome }) == (ScriptView {
            timeouts: state.timeouts.push(timeout),
            ..state
        }),
        next_state(state, Event::ResetTimeout { outcome }) == (ScriptView {
            timeouts: state.timeouts.push(duration_of_millis(1000)),
            ..state
        }),
        next_state(state, Event::ResetIntoBootloader { outcome }) == (ScriptView {
            resets: state.resets.push(Reset::IntoBootloader),
            ..state
        }),
        next_state(state, Event::ResetIntoApp { outcome }) == (ScriptView {
            resets: state.resets.push(Reset::IntoApp),
            ..state
        }),
        next_state(state, Event::ClearInput { outcome }) == state,
        next_state(state, Event::Queued { bytes }) == (ScriptView {
            replies: state.replies + bytes,
            ..state
        }),
        next_state(state, Event::Bounded { boundary }) == (ScriptView {
            boundary: Some(boundary),
            ..state
        }),
{
}

/// Nothing that is done to the device fails but a read.
pub proof fn law_only_reads_fail(state: ScriptView, event: Event)
    requires
        fits(state, event),
        !(event is Read),
    ensures
        smooth(event),
{
}

} // verus!
