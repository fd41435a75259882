//! Progress events of the flash engine, and what takes them.

use vstd::prelude::*;

verus! {

/// Progress events emitted by the flash/erase engine. A consumer passes a
/// [`ProgressSink`] to render these; [`NoProgress`] discards them.
#[allow(inconsistent_fields)]
#[derive(Debug, Clone)]
pub enum Progress {
    /// Starting bootloader-entry attempt `attempt` of `of`.
    Connecting { attempt: u32, of: u32 },
    /// A bootloader-entry attempt failed with the message `error`. The engine
    /// retries until `of` is reached.
    ConnectError { attempt: u32, of: u32, error: String },
    /// The chip reported product id `id` (via `Get ID`).
    ChipIdentified { id: u16 },
    /// Erase progress: `pages_done` of `pages_total` pages erased.
    Erase { pages_done: usize, pages_total: usize },
    /// Write progress: `bytes_done` of `bytes_total` bytes written.
    Write { bytes_done: usize, bytes_total: usize },
    /// Verify progress: `bytes_done` of `bytes_total` bytes verified.
    Verify { bytes_done: usize, bytes_total: usize },
    /// Starting the application (reset into app or `Go`).
    Starting,
}

/// The value of a [`Progress`] event.
#[verifier::ext_equal]
pub enum ProgressView {
    Connecting { attempt: int, of: int },
    ConnectError { attempt: int, of: int, error: Seq<char> },
    ChipIdentified { id: u16 },
    Erase { pages_done: int, pages_total: int },
    Write { bytes_done: int, bytes_total: int },
    Verify { bytes_done: int, bytes_total: int },
    Starting,
}

impl View for Progress {
    type V = ProgressView;

    open spec fn view(&self) -> ProgressView {
        match *self {
            Progress::Connecting { attempt, of } => ProgressView::Connecting {
                attempt: attempt as int,
                of: of as int,
            },
            Progress::ConnectError { attempt, of, error } => ProgressView::ConnectError {
                attempt: attempt as int,
                of: of as int,
                error: error@,
            },
            Progress::ChipIdentified { id } => ProgressView::ChipIdentified { id },
            Progress::Erase { pages_done, pages_total } => ProgressView::Erase {
                pages_done: pages_done as int,
                pages_total: pages_total as int,
            },
            Progress::Write { bytes_done, bytes_total } => ProgressView::Write {
                bytes_done: bytes_done as int,
                bytes_total: bytes_total as int,
            },
            Progress::Verify { bytes_done, bytes_total } => ProgressView::Verify {
                bytes_done: bytes_done as int,
                bytes_total: bytes_total as int,
            },
            Progress::Starting => ProgressView::Starting,
        }
    }
}

/// Takes progress events as they happen. A consumer (a plain CLI, a TUI, a
/// machine-readable frontend) renders them however it likes.
pub trait ProgressSink {
    /// Every event that was reported so far, in order. It exists in proofs only:
    /// code that is not verified need not give it, a verified implementation
    /// defines it.
    open spec fn events(&self) -> Seq<ProgressView> {
        arbitrary()
    }

    /// Take one event.
    fn report(&mut self, event: Progress)
        ensures
            final(self).events() == old(self).events().push(event@),
    ;
}

/// Discards a `Progress` event.
pub fn no_progress(_event: Progress) {
}

/// A [`ProgressSink`] that discards every event, for callers that don't want
/// progress output.
pub struct NoProgress {
    seen: Ghost<Seq<ProgressView>>,
}

impl NoProgress {
    /// A sink that was told nothing yet.
    pub fn new() -> (r: Self)
        ensures
            r.events() == Seq::<ProgressView>::empty(),
    {
        NoProgress { seen: Ghost(Seq::empty()) }
    }
}

impl ProgressSink for NoProgress {
    closed spec fn events(&self) -> Seq<ProgressView> {
        self.seen@
    }

    fn report(&mut self, event: Progress) {
        proof {
            self.seen@ = self.seen@.push(event@);
        }
        no_progress(event);
    }
}

/// The value of an event holds what the event holds, each thing in its place.
pub proof fn law_progress_value(p: Progress)
    ensures
        p matches Progress::Connecting { attempt, of } ==> p@ == (ProgressView::Connecting {
            attempt: attempt as int,
            of: of as int,
        }),
        p matches Progress::ConnectError { attempt, of, error } ==> p@ == (
        ProgressView::ConnectError { attempt: attempt as int, of: of as int, error: error@ }),
        p matches Progress::ChipIdentified { id } ==> p@ == (ProgressView::ChipIdentified { id }),
        p matches Progress::Erase { pages_done, pages_total } ==> p@ == (ProgressView::Erase {
            pages_done: pages_done as int,
            pages_total: pages_total as int,
        }),
        p matches Progress::Write { bytes_done, bytes_total } ==> p@ == (ProgressView::Write {
            bytes_done: bytes_done as int,
            bytes_total: bytes_total as int,
        }),
        p matches Progress::Verify { bytes_done, bytes_total } ==> p@ == (ProgressView::Verify {
            bytes_done: bytes_done as int,
            bytes_total: bytes_total as int,
        }),
        p is Starting ==> p@ == ProgressView::Starting,
{
}

} // verus!
