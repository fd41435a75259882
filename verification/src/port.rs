//! The decisions of a serial port that drives RESET and BOOT0 through the
//! bridge's RTS/DTR lines: in which order the lines move, what a read comes to,
//! and which read timeout is put back.
//!
//! On the HARDWARIO TOWER Radio Dongle the FT231X drives NRST and BOOT0 through
//! transistors, with a 1 µF cap on NRST so reset releases slowly. In raw
//! modem-line terms (`true` = line asserted) the verified behaviour is:
//!   (T,F) holds RESET asserted;
//!   (T,F) -> (F,T) raises BOOT0 while NRST ramps up (cap), so the chip latches
//!          BOOT0 high and boots system memory;
//!   (T,T) / (F,F) run the application.
//!
//! Nothing here touches a port. A [`LineSequence`] says what to do next and is
//! told what came of it; the owner of the port does it.

use vstd::prelude::*;

use std::time::Duration;

use crate::error::{outcome, Error, ErrorView, IoError, IoErrorKind};
use crate::plan::{duration_of_millis, min};

verus! {

/// Run-baseline settle before asserting RESET in the bootloader-entry sequence.
pub const BOOT_PRIME_MILLIS: u64 = 10;

/// How long RESET is held asserted before BOOT0 is raised.
pub const BOOT_RESET_HOLD_MILLIS: u64 = 50;

/// Settle after raising BOOT0 + releasing RESET (lets the NRST cap ramp up).
pub const BOOT_RELEASE_HOLD_MILLIS: u64 = 50;

/// Settle after dropping BOOT0, before the `0x7F` init byte.
pub const BOOT_PRE_INIT_MILLIS: u64 = 50;

/// RESET pulse width for a reset into the application.
pub const RESET_PULSE_MILLIS: u64 = 100;

/// Post-reset settle so the application has booted before we talk to it.
pub const APP_BOOT_MILLIS: u64 = 150;

/// Settle after driving the run-state lines on open.
pub const RUN_SETTLE_MILLIS: u64 = 50;

/// Default read timeout for the bootloader protocol.
pub const DEFAULT_TIMEOUT_MILLIS: u64 = 1000;

/// Nanoseconds in a millisecond.
pub const NANOS_PER_MILLI: u128 = 1_000_000;

/// One thing to do to a port.
#[derive(Debug, Clone, Copy, PartialEq, Eq, Structural)]
pub enum LineAction {
    /// Set the RTS line (`true` = asserted).
    Rts(bool),
    /// Set the DTR line (`true` = asserted).
    Dtr(bool),
    /// Wait for so many nanoseconds.
    Wait(u128),
    /// Throw away what was received and not read.
    ClearInput,
    /// Throw away what was to be sent and is not sent yet.
    ClearOutput,
}

/// A wait given in milliseconds.
pub open spec fn wait(millis: u64) -> LineAction {
    LineAction::Wait((millis * NANOS_PER_MILLI) as u128)
}

/// How the chip is driven into the system bootloader. The per-line write order is
/// deliberate: with the 1 µF cap on NRST the transient ordering of each (rts,dtr)
/// change matters.
///
/// (T,F) asserts RESET; switching to (F,T) raises BOOT0 while RESET releases
/// — the cap delays the NRST rise so BOOT0 is high when the chip latches it,
/// selecting system memory. (F,F) then drops BOOT0 (harmless once latched).
pub open spec fn bootloader_entry() -> Seq<LineAction> {
    seq![
        LineAction::ClearInput,
        LineAction::ClearOutput,
        LineAction::Rts(true),
        LineAction::Dtr(true),
        wait(BOOT_PRIME_MILLIS),
        LineAction::Rts(true),
        LineAction::Dtr(false),
        wait(BOOT_RESET_HOLD_MILLIS),
        LineAction::Dtr(true),
        LineAction::Rts(false),
        wait(BOOT_RELEASE_HOLD_MILLIS),
        LineAction::Dtr(false),
        wait(BOOT_PRE_INIT_MILLIS),
        LineAction::ClearInput,
    ]
}

/// From which step of the bootloader entry on NRST is driven low.
pub const BOOTLOADER_ENTRY_GUARD: usize = 5;

/// How the chip is reset into the application: a RESET pulse with BOOT0 low, then
/// a wait of `settle` nanoseconds, unless that is zero.
pub open spec fn app_reset(settle: u128) -> Seq<LineAction> {
    let pulse = seq![
        LineAction::Rts(true),
        LineAction::Dtr(false),
        wait(RESET_PULSE_MILLIS),
        LineAction::Rts(false),
    ];
    if settle == 0 {
        pulse
    } else {
        pulse.push(LineAction::Wait(settle))
    }
}

/// How a port that was just opened is put into the run state, because USB-UART
/// bridges assert both lines on open.
pub open spec fn run_state() -> Seq<LineAction> {
    seq![LineAction::Rts(true), LineAction::Dtr(true), wait(RUN_SETTLE_MILLIS)]
}

/// RTS and DTR driven together, RTS first.
pub open spec fn both_lines(rts: bool, dtr: bool) -> Seq<LineAction> {
    seq![LineAction::Rts(rts), LineAction::Dtr(dtr)]
}

/// What a run of a sequence has come to: what there is to do, from which step on a
/// failure is mended, and what came of what was done so far.
#[verifier::ext_equal]
pub struct SequenceView {
    pub actions: Seq<LineAction>,
    pub guard: int,
    pub outcomes: Seq<Result<(), ErrorView>>,
}

/// Where the first failure is; the number of outcomes if there is none.
pub open spec fn first_failure(outcomes: Seq<Result<(), ErrorView>>) -> int
    decreases outcomes.len(),
{
    if outcomes.len() == 0 {
        0
    } else {
        let k = first_failure(outcomes.drop_last());
        if k < outcomes.len() - 1 || outcomes.last() is Err {
            k
        } else {
            outcomes.len() as int
        }
    }
}

impl SequenceView {
    /// What is to be done next. The steps are done in order. If one fails that is
    /// not mended, nothing more is done. If one fails that is, RTS and then DTR are
    /// asserted, the run state, and nothing more is done; nor is DTR if RTS fails.
    pub open spec fn next(self) -> Option<LineAction> {
        let n = self.outcomes.len() as int;
        let k = first_failure(self.outcomes);
        if k == n {
            if n < self.actions.len() {
                Some(self.actions[n])
            } else {
                None
            }
        } else if k < self.guard {
            None
        } else if n == k + 1 {
            Some(LineAction::Rts(true))
        } else if n == k + 2 && self.outcomes[k + 1] is Ok {
            Some(LineAction::Dtr(true))
        } else {
            None
        }
    }

    /// What the run comes to: the first failure, if there is one.
    pub open spec fn result(self) -> Result<(), ErrorView> {
        let k = first_failure(self.outcomes);
        if k < self.outcomes.len() {
            self.outcomes[k]
        } else {
            Ok(())
        }
    }

    /// The run after one more step.
    pub open spec fn after(self, done: Result<(), ErrorView>) -> SequenceView {
        SequenceView { outcomes: self.outcomes.push(done), ..self }
    }

    /// The run when only the first `n` steps were done.
    pub open spec fn before(self, n: int) -> SequenceView {
        SequenceView { outcomes: self.outcomes.take(n), ..self }
    }

    /// Each step was done because there was something to be done.
    pub open spec fn valid(self) -> bool {
        forall|n: int| 0 <= n < self.outcomes.len() ==> (#[trigger] self.before(n)).next() is Some
    }

    /// What was done, step by step.
    pub open spec fn performed(self) -> Seq<LineAction> {
        let k = first_failure(self.outcomes);
        Seq::new(
            self.outcomes.len(),
            |i: int|
                if i <= k {
                    self.actions[i]
                } else if i == k + 1 {
                    LineAction::Rts(true)
                } else {
                    LineAction::Dtr(true)
                },
        )
    }
}

proof fn lemma_first_failure(outcomes: Seq<Result<(), ErrorView>>)
    ensures
        0 <= first_failure(outcomes) <= outcomes.len(),
        first_failure(outcomes) < outcomes.len() ==> outcomes[first_failure(outcomes)] is Err,
        forall|i: int| 0 <= i < first_failure(outcomes) ==> #[trigger] outcomes[i] is Ok,
    decreases outcomes.len(),
{
    if outcomes.len() > 0 {
        let head = outcomes.drop_last();
        lemma_first_failure(head);
        assert forall|i: int| 0 <= i < first_failure(outcomes) implies #[trigger] outcomes[i]
            is Ok by {
            if i < head.len() {
                assert(head[i] == outcomes[i]);
            }
        }
    }
}

proof fn lemma_failure_in_prefix(outcomes: Seq<Result<(), ErrorView>>, n: int)
    requires
        first_failure(outcomes) < n <= outcomes.len(),
    ensures
        first_failure(outcomes.take(n)) == first_failure(outcomes),
    decreases outcomes.len(),
{
    lemma_first_failure(outcomes);
    if n < outcomes.len() {
        let head = outcomes.drop_last();
        lemma_first_failure(head);
        lemma_failure_in_prefix(head, n);
        assert(head.take(n) =~= outcomes.take(n));
    } else {
        assert(outcomes.take(n) =~= outcomes);
    }
}

/// A run that began at the start stays one as long as each step is done because it
/// is the next.
pub proof fn law_runs_stay_valid(run: SequenceView, done: Result<(), ErrorView>)
    requires
        run.valid(),
        run.next() is Some,
    ensures
        run.after(done).valid(),
{
    let longer = run.after(done);
    assert forall|n: int| 0 <= n < longer.outcomes.len() implies (#[trigger] longer.before(
        n,
    )).next() is Some by {
        if n < run.outcomes.len() {
            assert(longer.before(n) =~= run.before(n));
        } else {
            assert(longer.before(n) =~= run);
        }
    }
}

proof fn lemma_one_more_outcome(outcomes: Seq<Result<(), ErrorView>>, r: Result<(), ErrorView>)
    ensures
        first_failure(outcomes.push(r)) == if first_failure(outcomes) < outcomes.len() || r is Err {
            first_failure(outcomes)
        } else {
            outcomes.len() as int + 1
        },
{
    assert(outcomes.push(r).drop_last() =~= outcomes);
    lemma_first_failure(outcomes);
}

/// A sequence of line changes and waits that a port is put through.
pub struct LineSequence {
    actions: Vec<LineAction>,
    guard: usize,
    at: usize,
    failure: Option<Error>,
    mended: usize,
    mendable: bool,
    outcomes: Ghost<Seq<Result<(), ErrorView>>>,
}

impl View for LineSequence {
    type V = SequenceView;

    closed spec fn view(&self) -> SequenceView {
        SequenceView {
            actions: self.actions@,
            guard: self.guard as int,
            outcomes: self.outcomes@,
        }
    }
}

impl LineSequence {
    /// The fields say what the outcomes were.
    pub closed spec fn wf(&self) -> bool {
        let outcomes = self.outcomes@;
        let k = first_failure(outcomes);
        &&& self.at == k
        &&& self.at <= self.actions@.len()
        &&& match self.failure {
            None => k == outcomes.len(),
            Some(e) => {
                &&& k < outcomes.len()
                &&& outcomes[k] == Err::<(), _>(e@)
                &&& self.mended == outcomes.len() - k - 1
                &&& self.mended <= 2
                &&& self.mendable <==> (self.mended >= 1 ==> outcomes[k + 1] is Ok)
            },
        }
    }

    /// A sequence of which nothing was done yet.
    fn start(actions: Vec<LineAction>, guard: usize) -> (r: Self)
        ensures
            r.wf(),
            r@ == (SequenceView {
                actions: actions@,
                guard: guard as int,
                outcomes: Seq::empty(),
            }),
    {
        LineSequence {
            actions,
            guard,
            at: 0,
            failure: None,
            mended: 0,
            mendable: true,
            outcomes: Ghost(Seq::empty()),
        }
    }

    /// Drive the chip into the system bootloader. Once NRST is driven low, a failed
    /// step does not leave the device held in reset: the run state is restored,
    /// best-effort, before the original error surfaces.
    pub fn reset_into_bootloader() -> (r: Self)
        ensures
            r.wf(),
            r@ == (SequenceView {
                actions: bootloader_entry(),
                guard: BOOTLOADER_ENTRY_GUARD as int,
                outcomes: Seq::empty(),
            }),
    {
        let mut actions: Vec<LineAction> = Vec::new();
        actions.push(LineAction::ClearInput);
        actions.push(LineAction::ClearOutput);
        actions.push(LineAction::Rts(true));
        actions.push(LineAction::Dtr(true));
        actions.push(LineAction::Wait(BOOT_PRIME_MILLIS as u128 * NANOS_PER_MILLI));
        actions.push(LineAction::Rts(true));
        actions.push(LineAction::Dtr(false));
        actions.push(LineAction::Wait(BOOT_RESET_HOLD_MILLIS as u128 * NANOS_PER_MILLI));
        actions.push(LineAction::Dtr(true));
        actions.push(LineAction::Rts(false));
        actions.push(LineAction::Wait(BOOT_RELEASE_HOLD_MILLIS as u128 * NANOS_PER_MILLI));
        actions.push(LineAction::Dtr(false));
        actions.push(LineAction::Wait(BOOT_PRE_INIT_MILLIS as u128 * NANOS_PER_MILLI));
        actions.push(LineAction::ClearInput);
        assert(actions@ =~= bootloader_entry());
        Self::start(actions, BOOTLOADER_ENTRY_GUARD)
    }

    /// Pulse RESET with BOOT0 low so the chip boots the main flash application,
    /// then wait for it to come up.
    pub fn reset_into_app() -> (r: Self)
        ensures
            r.wf(),
            r@ == (SequenceView {
                actions: app_reset((APP_BOOT_MILLIS * NANOS_PER_MILLI) as u128),
                guard: 0,
                outcomes: Seq::empty(),
            }),
    {
        Self::reset_into_app_settle(APP_BOOT_MILLIS as u128 * NANOS_PER_MILLI)
    }

    /// Like [`reset_into_app`](Self::reset_into_app) but ends as soon as RESET is
    /// released, with no post-boot settle. Use when the caller manages the wait
    /// itself (e.g. it immediately starts streaming the app's output and wants the
    /// boot banner).
    pub fn reset_into_app_no_settle() -> (r: Self)
        ensures
            r.wf(),
            r@ == (SequenceView { actions: app_reset(0), guard: 0, outcomes: Seq::empty() }),
    {
        Self::reset_into_app_settle(0)
    }

    /// Pulse RESET with BOOT0 low so the chip boots the main flash application,
    /// waiting `settle` nanoseconds after releasing RESET. A failed step does not
    /// leave the device held in reset.
    pub fn reset_into_app_settle(settle: u128) -> (r: Self)
        ensures
            r.wf(),
            r@ == (SequenceView { actions: app_reset(settle), guard: 0, outcomes: Seq::empty() }),
    {
        let mut actions: Vec<LineAction> = Vec::new();
        actions.push(LineAction::Rts(true));
        actions.push(LineAction::Dtr(false));
        actions.push(LineAction::Wait(RESET_PULSE_MILLIS as u128 * NANOS_PER_MILLI));
        actions.push(LineAction::Rts(false));
        if settle != 0 {
            actions.push(LineAction::Wait(settle));
        }
        assert(actions@ =~= app_reset(settle));
        Self::start(actions, 0)
    }

    /// Put a port that was just opened into the run state.
    pub fn open() -> (r: Self)
        ensures
            r.wf(),
            r@ == (SequenceView {
                actions: run_state(),
                guard: run_state().len() as int,
                outcomes: Seq::empty(),
            }),
    {
        let mut actions: Vec<LineAction> = Vec::new();
        actions.push(LineAction::Rts(true));
        actions.push(LineAction::Dtr(true));
        actions.push(LineAction::Wait(RUN_SETTLE_MILLIS as u128 * NANOS_PER_MILLI));
        assert(actions@ =~= run_state());
        Self::start(actions, 3)
    }

    /// Drive RTS/DTR together (RTS first).
    pub fn set_lines(rts: bool, dtr: bool) -> (r: Self)
        ensures
            r.wf(),
            r@ == (SequenceView {
                actions: both_lines(rts, dtr),
                guard: both_lines(rts, dtr).len() as int,
                outcomes: Seq::empty(),
            }),
    {
        let mut actions: Vec<LineAction> = Vec::new();
        actions.push(LineAction::Rts(rts));
        actions.push(LineAction::Dtr(dtr));
        assert(actions@ =~= both_lines(rts, dtr));
        Self::start(actions, 2)
    }

    /// What is to be done next; `None` once the sequence is over.
    pub fn next(&self) -> (r: Option<LineAction>)
        requires
            self.wf(),
        ensures
            r == self@.next(),
    {
        if self.failure.is_none() {
            if self.at < self.actions.len() {
                Some(self.actions[self.at])
            } else {
                None
            }
        } else if self.at < self.guard {
            None
        } else if self.mended == 0 {
            Some(LineAction::Rts(true))
        } else if self.mended == 1 && self.mendable {
            Some(LineAction::Dtr(true))
        } else {
            None
        }
    }

    /// Tell what came of what was to be done.
    pub fn record(&mut self, done: Result<(), Error>)
        requires
            old(self).wf(),
            old(self)@.next() is Some,
        ensures
            final(self).wf(),
            final(self)@ == old(self)@.after(outcome(done)),
    {
        assert(self.failure is None ==> self.at < self.actions.len());
        proof {
            lemma_first_failure(self.outcomes@);
            lemma_one_more_outcome(self.outcomes@, outcome(done));
            self.outcomes@ = self.outcomes@.push(outcome(done));
        }
        if self.failure.is_none() {
            match done {
                Ok(()) => {
                    self.at = self.at + 1;
                },
                Err(e) => {
                    self.failure = Some(e);
                    self.mended = 0;
                    self.mendable = true;
                },
            }
        } else {
            if self.mended == 0 {
                self.mendable = done.is_ok();
            }
            self.mended = self.mended + 1;
        }
    }

    /// What the sequence came to: the first failure, whatever came of restoring
    /// the run state after it.
    pub fn finish(self) -> (r: Result<(), Error>)
        requires
            self.wf(),
            self@.next() is None,
        ensures
            outcome(r) == self@.result(),
    {
        match self.failure {
            None => Ok(()),
            Some(e) => Err(e),
        }
    }
}

/// The levels of RTS and DTR after an action: a line write that succeeds moves its
/// line.
pub open spec fn moved(
    levels: (bool, bool),
    action: LineAction,
    done: Result<(), ErrorView>,
) -> (bool, bool) {
    match (action, done) {
        (LineAction::Rts(level), Ok(())) => (level, levels.1),
        (LineAction::Dtr(level), Ok(())) => (levels.0, level),
        _ => levels,
    }
}

/// The levels of RTS and DTR after these actions, from `start`.
pub open spec fn levels(
    start: (bool, bool),
    actions: Seq<LineAction>,
    outcomes: Seq<Result<(), ErrorView>>,
) -> (bool, bool)
    decreases actions.len(),
{
    if actions.len() == 0 {
        start
    } else {
        let i = actions.len() - 1;
        moved(levels(start, actions.drop_last(), outcomes), actions[i], outcomes[i])
    }
}

proof fn lemma_levels_step(
    start: (bool, bool),
    actions: Seq<LineAction>,
    outcomes: Seq<Result<(), ErrorView>>,
    i: int,
)
    requires
        0 <= i < actions.len(),
    ensures
        levels(start, actions.take(i + 1), outcomes) == moved(
            levels(start, actions.take(i), outcomes),
            actions[i],
            outcomes[i],
        ),
{
    assert(actions.take(i + 1).drop_last() =~= actions.take(i));
}

/// If a step fails while RESET may be asserted, the device is not left held in
/// reset: once the sequence is over, both lines are asserted again, the run state,
/// unless a write of theirs failed too. The error that surfaces is the original
/// one.
pub proof fn law_run_state_restored(run: SequenceView, start: (bool, bool), k: int)
    requires
        run.valid(),
        run.next() is None,
        k == first_failure(run.outcomes),
        run.guard <= k < run.outcomes.len(),
        forall|i: int| k < i < run.outcomes.len() ==> #[trigger] run.outcomes[i] is Ok,
    ensures
        levels(start, run.performed(), run.outcomes) == (true, true),
        run.performed().skip(run.performed().len() - 2) == both_lines(true, true),
        run.result() == run.outcomes[k],
        run.result() is Err,
{
    lemma_first_failure(run.outcomes);
    let n = run.outcomes.len() as int;
    if n > k + 3 {
        // nothing was left to do after three steps
        lemma_failure_in_prefix(run.outcomes, k + 3);
        assert(run.before(k + 3).next() is Some);
    }
    assert(n == k + 3);
    let done = run.performed();
    reveal_with_fuel(levels, 3);
    assert(done[n - 1] == LineAction::Dtr(true));
    assert(done[n - 2] == LineAction::Rts(true));
    assert(done.drop_last()[n - 2] == LineAction::Rts(true));
    assert(run.outcomes[k + 1] is Ok);
    assert(run.outcomes[k + 2] is Ok);
    assert(done.skip(done.len() - 2) =~= both_lines(true, true));
}

/// A step that fails while RESET is not asserted ends the sequence at once.
pub proof fn law_early_failure_ends(run: SequenceView)
    requires
        first_failure(run.outcomes) < run.outcomes.len(),
        first_failure(run.outcomes) < run.guard,
    ensures
        run.next() is None,
        run.result() == run.outcomes[first_failure(run.outcomes)],
{
}

/// A sequence in which nothing fails is done step by step to its end.
pub proof fn law_untroubled_run(run: SequenceView)
    requires
        run.outcomes.len() <= run.actions.len(),
        forall|i: int| 0 <= i < run.outcomes.len() ==> #[trigger] run.outcomes[i] is Ok,
    ensures
        run.performed() == run.actions.take(run.outcomes.len() as int),
        run.next() is None <==> run.outcomes.len() == run.actions.len(),
        run.result() is Ok,
{
    lemma_first_failure(run.outcomes);
    let k = first_failure(run.outcomes);
    if k < run.outcomes.len() {
        assert(run.outcomes[k] is Ok);
    }
    assert(run.performed() =~= run.actions.take(run.outcomes.len() as int));
}

/// Outcomes of steps that all succeeded.
pub open spec fn all_well(n: nat) -> Seq<Result<(), ErrorView>> {
    Seq::new(n, |i: int| Ok(()))
}

/// Bootloader entry takes the lines, whatever they were, from the run baseline
/// (T,T) over (T,F), RESET asserted, and (F,T), BOOT0 high, to (F,F), waiting in
/// each.
pub proof fn law_bootloader_entry_levels(start: (bool, bool))
    ensures
        levels(start, bootloader_entry().take(4), all_well(14)) == (true, true),
        bootloader_entry()[4] == wait(BOOT_PRIME_MILLIS),
        levels(start, bootloader_entry().take(7), all_well(14)) == (true, false),
        bootloader_entry()[7] == wait(BOOT_RESET_HOLD_MILLIS),
        levels(start, bootloader_entry().take(10), all_well(14)) == (false, true),
        bootloader_entry()[10] == wait(BOOT_RELEASE_HOLD_MILLIS),
        levels(start, bootloader_entry().take(12), all_well(14)) == (false, false),
        bootloader_entry()[12] == wait(BOOT_PRE_INIT_MILLIS),
        levels(start, bootloader_entry(), all_well(14)) == (false, false),
{
    let e = bootloader_entry();
    let ok = all_well(14);
    lemma_levels_step(start, e, ok, 0);
    lemma_levels_step(start, e, ok, 1);
    lemma_levels_step(start, e, ok, 2);
    lemma_levels_step(start, e, ok, 3);
    lemma_levels_step(start, e, ok, 4);
    lemma_levels_step(start, e, ok, 5);
    lemma_levels_step(start, e, ok, 6);
    lemma_levels_step(start, e, ok, 7);
    lemma_levels_step(start, e, ok, 8);
    lemma_levels_step(start, e, ok, 9);
    lemma_levels_step(start, e, ok, 10);
    lemma_levels_step(start, e, ok, 11);
    lemma_levels_step(start, e, ok, 12);
    lemma_levels_step(start, e, ok, 13);
    assert(e.take(14) =~= e);
}

/// A reset into the application asserts RESET with BOOT0 low for the pulse, and
/// leaves the lines at (F,F), which run the application.
pub proof fn law_app_reset_levels(start: (bool, bool), settle: u128)
    ensures
        levels(start, app_reset(settle).take(2), all_well(5)) == (true, false),
        app_reset(settle)[2] == wait(RESET_PULSE_MILLIS),
        levels(start, app_reset(settle), all_well(5)) == (false, false),
{
    let e = app_reset(settle);
    let ok = all_well(5);
    lemma_levels_step(start, e, ok, 0);
    lemma_levels_step(start, e, ok, 1);
    lemma_levels_step(start, e, ok, 2);
    lemma_levels_step(start, e, ok, 3);
    if settle != 0 {
        lemma_levels_step(start, e, ok, 4);
    }
    assert(e.take(e.len() as int) =~= e);
}

/// A port that was just opened has both lines asserted, the run state.
pub proof fn law_open_levels(start: (bool, bool))
    ensures
        levels(start, run_state(), all_well(3)) == (true, true),
{
    let e = run_state();
    lemma_levels_step(start, e, all_well(3), 0);
    lemma_levels_step(start, e, all_well(3), 1);
    lemma_levels_step(start, e, all_well(3), 2);
    assert(e.take(3) =~= e);
}

/// The most nanoseconds that a `Duration` holds.
pub const LONGEST_NANOS: u128 = 18_446_744_073_709_551_615_999_999_999;

/// How long a read of `len` bytes may take over all: one read timeout for each
/// byte, and no less than one.
pub open spec fn read_budget(per_read: int, len: int) -> int {
    min(per_read * if len == 0 {
        1
    } else {
        len
    }, LONGEST_NANOS as int)
}

/// The budget of a read is no less than one read timeout, and grows with the number
/// of bytes.
pub proof fn law_read_budget(per_read: int, len: int, more: int)
    requires
        0 <= per_read <= LONGEST_NANOS,
        0 <= len <= more,
    ensures
        per_read <= read_budget(per_read, len) <= read_budget(per_read, more),
{
    let a = if len == 0 {
        1
    } else {
        len
    };
    let b = if more == 0 {
        1
    } else {
        more
    };
    assert(per_read * a <= per_read * b) by (nonlinear_arith)
        requires
            0 <= per_read,
            a <= b,
    ;
    assert(per_read <= per_read * a) by (nonlinear_arith)
        requires
            0 <= per_read,
            1 <= a,
    ;
}

/// What to do next in a read of a number of bytes.
#[derive(Debug, Clone, Copy, PartialEq, Eq, Structural)]
pub enum ReadStep {
    /// Read into what is not filled yet.
    Read,
    /// The overall deadline has passed.
    Expired,
    /// Everything is filled.
    Complete,
}

/// What a read that was to fill `missing` bytes comes to: how many it filled, or
/// the error that ends the whole. A read of nothing means that none came in time,
/// as a timeout does; an interrupted read is made again.
pub open spec fn read_result(
    missing: int,
    read: Result<usize, IoError>,
    context: Seq<char>,
) -> Result<int, ErrorView> {
    match read {
        Ok(n) => if n == 0 {
            Err(ErrorView::Timeout { context })
        } else {
            Ok(min(n as int, missing))
        },
        Err(e) => match e.kind {
            IoErrorKind::TimedOut => Err(ErrorView::Timeout { context }),
            IoErrorKind::Interrupted => Ok(0),
            _ => Err(ErrorView::Io { kind: e.kind, message: e.message@ }),
        },
    }
}

/// A read of exactly `len` bytes, honouring the configured read timeout.
///
/// The timeout of a port is *per read*, so it restarts on every call that returns
/// data — a byte-at-a-time trickle would otherwise stretch an N-byte read without
/// any wall-clock bound. So this also enforces an overall deadline scaled to the
/// request size (one per-read timeout budget per byte, with the per-read timeout
/// as a floor) and ends in [`Error::Timeout`] once it is exceeded, regardless of
/// trickle.
pub struct ReadExact {
    /// How many bytes are to be read.
    pub len: usize,
    /// How many bytes were read so far.
    pub filled: usize,
    /// How many nanoseconds the whole may take.
    pub budget: u128,
}

impl ReadExact {
    /// No more is filled than was to be read.
    pub open spec fn wf(&self) -> bool {
        self.filled <= self.len
    }

    /// A read of `len` bytes with a timeout of `per_read` nanoseconds for each read.
    pub fn new(per_read: u128, len: usize) -> (r: Self)
        ensures
            r.wf(),
            r.len == len,
            r.filled == 0,
            r.budget == read_budget(per_read as int, len as int),
    {
        let bytes: u128 = if len == 0 {
            1
        } else {
            len as u128
        };
        proof {
            lemma_budget(per_read as int, bytes as int, LONGEST_NANOS as int);
        }
        let budget: u128 = if per_read > LONGEST_NANOS / bytes {
            LONGEST_NANOS
        } else {
            per_read * bytes
        };
        ReadExact { len, filled: 0, budget }
    }

    /// What to do next, `elapsed` nanoseconds after the start.
    pub fn poll(&self, elapsed: u128) -> (r: ReadStep)
        requires
            self.wf(),
        ensures
            r == ReadStep::Complete <==> self.filled == self.len,
            r == ReadStep::Expired <==> self.filled < self.len && elapsed >= self.budget,
            r == ReadStep::Read <==> self.filled < self.len && elapsed < self.budget,
    {
        if self.filled >= self.len {
            ReadStep::Complete
        } else if elapsed >= self.budget {
            ReadStep::Expired
        } else {
            ReadStep::Read
        }
    }

    /// Take the outcome of one read. `context` says in an error what was waited
    /// for.
    pub fn took(&mut self, read: Result<usize, IoError>, context: &str) -> (r: Result<(), Error>)
        requires
            old(self).wf(),
        ensures
            final(self).wf(),
            final(self).len == old(self).len,
            final(self).budget == old(self).budget,
            match read_result(old(self).len - old(self).filled, read, context@) {
                Ok(n) => r is Ok && final(self).filled == old(self).filled + n,
                Err(e) => {
                    &&& r matches Err(f) && f@ == e
                    &&& final(self).filled == old(self).filled
                },
            },
    {
        match read {
            Ok(n) => {
                if n == 0 {
                    return Err(Error::Timeout { context: context.to_string() });
                }
                if n < self.len - self.filled {
                    self.filled = self.filled + n;
                } else {
                    self.filled = self.len;
                }
                Ok(())
            },
            Err(e) => match e.kind {
                IoErrorKind::TimedOut => Err(Error::Timeout { context: context.to_string() }),
                IoErrorKind::Interrupted => Ok(()),
                _ => Err(Error::Io(e)),
            },
        }
    }

    /// The error of a read whose overall deadline has passed.
    pub fn expired(context: &str) -> (r: Error)
        ensures
            r@ == (ErrorView::Timeout { context: context@ }),
    {
        Error::Timeout { context: context.to_string() }
    }
}

proof fn lemma_budget(a: int, b: int, limit: int)
    requires
        a >= 0,
        b > 0,
        limit >= 0,
    ensures
        a > limit / b ==> a * b > limit,
        a <= limit / b ==> a * b <= limit,
{
    vstd::arithmetic::div_mod::lemma_fundamental_div_mod(limit, b);
    let q = limit / b;
    assert(a > q ==> a * b >= q * b + b) by (nonlinear_arith)
        requires
            b > 0,
    ;
    assert(a <= q ==> a * b <= q * b) by (nonlinear_arith)
        requires
            b > 0,
    ;
    assert(b * q == q * b) by (nonlinear_arith);
}

/// What a streaming read comes to: data, nothing on an idle line, or that the
/// device is gone.
pub open spec fn stream_result(
    read: Result<usize, IoError>,
    context: Seq<char>,
) -> Result<usize, ErrorView> {
    match read {
        Ok(n) => if n == 0 {
            Err(ErrorView::Disconnected { context })
        } else {
            Ok(n)
        },
        Err(e) => match e.kind {
            IoErrorKind::TimedOut => Ok(0),
            IoErrorKind::Interrupted => Ok(0),
            IoErrorKind::BrokenPipe => Err(ErrorView::Disconnected { context }),
            IoErrorKind::NotConnected => Err(ErrorView::Disconnected { context }),
            IoErrorKind::UnexpectedEof => Err(ErrorView::Disconnected { context }),
            _ => Err(ErrorView::Io { kind: e.kind, message: e.message@ }),
        },
    }
}

/// Streaming read for a serial monitor: `Ok(n>0)` for data, `Ok(0)` on an
/// idle-line timeout, and [`Error::Disconnected`] when the OS reports EOF
/// (an instantly-returning zero-byte read — the device was unplugged). This
/// last case is what stops the read loop from spinning after a disconnect.
pub fn read_stream(read: Result<usize, IoError>, context: &'static str) -> (r: Result<usize, Error>)
    ensures
        outcome(r) == stream_result(read, context@),
{
    match read {
        Ok(n) => if n == 0 {
            Err(Error::Disconnected { context })
        } else {
            Ok(n)
        },
        Err(e) => match e.kind {
            IoErrorKind::TimedOut => Ok(0),
            IoErrorKind::Interrupted => Ok(0),
            // A closed/unplugged device surfaces as one of these on some
            // platforms rather than a bare Ok(0).
            IoErrorKind::BrokenPipe => Err(Error::Disconnected { context }),
            IoErrorKind::NotConnected => Err(Error::Disconnected { context }),
            IoErrorKind::UnexpectedEof => Err(Error::Disconnected { context }),
            _ => Err(Error::Io(e)),
        },
    }
}

/// Read whatever bytes are currently available. Gives 0 on a read timeout (no
/// data) instead of an error — for streaming a port where idle gaps are normal
/// rather than a failure (e.g. the monitor).
pub fn read_available(read: Result<usize, IoError>) -> (r: Result<usize, Error>)
    ensures
        outcome(r) == stream_result(read, "reading serial port"@),
{
    read_stream(read, "reading serial port")
}

/// A streaming read gives nothing only on an idle line: a read that ended with no
/// byte, as it does at once when the device is gone, is an error, so that a loop
/// over such reads does not spin.
pub proof fn law_no_spin(read: Result<usize, IoError>, context: Seq<char>)
    requires
        stream_result(read, context) == Ok::<_, ErrorView>(0usize),
    ensures
        read matches Err(e) && (e.kind == IoErrorKind::TimedOut || e.kind
            == IoErrorKind::Interrupted),
{
}

/// What is remembered of the timeout when it is overridden: the first one that
/// was.
pub open spec fn stashed(saved: Option<Duration>, current: Duration) -> Option<Duration> {
    match saved {
        None => Some(current),
        Some(first) => Some(first),
    }
}

/// The timeout that is put back.
pub open spec fn restored(saved: Option<Duration>) -> Duration {
    match saved {
        None => duration_of_millis(DEFAULT_TIMEOUT_MILLIS),
        Some(first) => first,
    }
}

/// The read timeout to restore. Captured the first time the handle's timeout is
/// overridden, so the engine's per-command overrides (e.g. the long erase timeout)
/// are rolled back to whatever the handle actually had — notably a loaned handle's
/// caller-configured timeout — rather than to a hard-coded default.
pub struct TimeoutStash {
    pub saved: Option<Duration>,
}

impl TimeoutStash {
    /// Nothing is overridden.
    pub fn new() -> (r: Self)
        ensures
            r.saved is None,
    {
        TimeoutStash { saved: None }
    }

    /// The timeout is about to be overridden while it is `current`.
    pub fn set_timeout(&mut self, current: Duration)
        ensures
            final(self).saved == stashed(old(self).saved, current),
    {
        if self.saved.is_none() {
            self.saved = Some(current);
        }
    }

    /// The timeout that was in effect before it was overridden (falling back to
    /// [`DEFAULT_TIMEOUT_MILLIS`] if none was captured), which is forgotten.
    pub fn reset_timeout(&mut self) -> (r: Duration)
        ensures
            r == restored(old(self).saved),
            final(self).saved is None,
    {
        match self.saved.take() {
            Some(first) => first,
            None => Duration::from_millis(DEFAULT_TIMEOUT_MILLIS),
        }
    }
}

/// However often the timeout is overridden, what is put back is what the handle
/// had before the first time.
pub proof fn law_handle_timeout_survives(own: Duration, overridden: Seq<Duration>)
    ensures
        restored(
            overridden.fold_left(
                stashed(None, own),
                |s: Option<Duration>, d: Duration| stashed(s, d),
            ),
        ) == own,
{
    let f = |s: Option<Duration>, d: Duration| stashed(s, d);
    lemma_stash_keeps(Some(own), overridden, f);
}

proof fn lemma_stash_keeps(
    saved: Option<Duration>,
    overridden: Seq<Duration>,
    f: spec_fn(Option<Duration>, Duration) -> Option<Duration>,
)
    requires
        saved is Some,
        forall|s: Option<Duration>, d: Duration| #[trigger] f(s, d) == stashed(s, d),
    ensures
        overridden.fold_left(saved, f) == saved,
    decreases overridden.len(),
{
    if overridden.len() > 0 {
        lemma_stash_keeps(saved, overridden.drop_last(), f);
    }
}

/// A streaming read gives as many bytes as the line gave, however many. An idle or
/// interrupted line gives none, a line at its end or gone ends in a disconnect with
/// the context, and any other error is passed on as it is.
pub proof fn law_stream(n: usize, e: IoError, context: Seq<char>)
    ensures
        n > 0 ==> stream_result(Ok(n), context) == Ok::<usize, ErrorView>(n),
        stream_result(Ok(0), context) == Err::<usize, _>(ErrorView::Disconnected { context }),
        stream_result(Err(e), context) == Ok::<usize, ErrorView>(0) <==> (e.kind
            == IoErrorKind::TimedOut || e.kind == IoErrorKind::Interrupted),
        stream_result(Err(e), context) == Err::<usize, _>(ErrorView::Disconnected { context })
            <==> (e.kind == IoErrorKind::BrokenPipe || e.kind == IoErrorKind::NotConnected || e.kind
            == IoErrorKind::UnexpectedEof),
        stream_result(Err(e), context) matches Ok(k) ==> k == 0,
        stream_result(Err(e), context) matches Err(f) ==> (f == (ErrorView::Disconnected {
            context,
        }) || f == (ErrorView::Io { kind: e.kind, message: e.message@ })),
{
}

/// One read of an exact read counts every byte that it filled, and none beyond those
/// that were missing. A read of nothing is a timeout with the context, an interrupted
/// read counts nothing and ends nothing, and any other error is passed on as it is.
pub proof fn law_read_counts(missing: int, n: usize, e: IoError, context: Seq<char>)
    requires
        missing >= 0,
    ensures
        0 < n <= missing ==> read_result(missing, Ok(n), context) == Ok::<int, ErrorView>(n as int),
        n > missing ==> read_result(missing, Ok(n), context) == Ok::<int, ErrorView>(missing),
        read_result(missing, Ok(0), context) == Err::<int, _>(ErrorView::Timeout { context }),
        e.kind == IoErrorKind::Interrupted ==> read_result(missing, Err(e), context) == Ok::<
            int,
            ErrorView,
        >(0),
        e.kind == IoErrorKind::TimedOut ==> read_result(missing, Err(e), context) == Err::<int, _>(
            ErrorView::Timeout { context },
        ),
        e.kind != IoErrorKind::Interrupted && e.kind != IoErrorKind::TimedOut ==> read_result(
            missing,
            Err(e),
            context,
        ) == Err::<int, _>(ErrorView::Io { kind: e.kind, message: e.message@ }),
{
}

/// The budget of an exact read is that of one read per byte, and of one read for no
/// byte at all; if that is more than the longest time there is, it is that time.
pub proof fn law_budget_per_byte(per_read: int, len: int)
    requires
        0 <= per_read,
        0 <= len,
    ensures
        ({
            let whole = if len <= 1 {
                per_read
            } else {
                per_read * len
            };
            &&& whole <= 18_446_744_073_709_551_615_999_999_999 ==> read_budget(per_read, len)
                == whole
            &&& whole > 18_446_744_073_709_551_615_999_999_999 ==> read_budget(per_read, len)
                == 18_446_744_073_709_551_615_999_999_999
        }),
{
    assert(per_read * 1 == per_read);
}

/// The first override keeps the current timeout, a later one keeps what is kept; what
/// is kept is put back, and one second where nothing was.
pub proof fn law_stash(own: Duration, current: Duration)
    ensures
        stashed(None, current) == Some(current),
        stashed(Some(own), current) == Some(own),
        restored(Some(own)) == own,
        restored(None) == duration_of_millis(1000),
{
}

/// One more step adds its outcome to those before and changes nothing else.
pub proof fn law_recorded(run: SequenceView, done: Result<(), ErrorView>)
    ensures
        run.after(done).outcomes == run.outcomes.push(done),
        run.after(done).actions == run.actions,
        run.after(done).guard == run.guard,
{
}

/// While nothing failed, what is to be done next is the action that stands at the
/// number of steps done, and nothing once all are done.
pub proof fn law_next_in_order(run: SequenceView)
    requires
        forall|i: int| 0 <= i < run.outcomes.len() ==> #[trigger] run.outcomes[i] is Ok,
    ensures
        run.outcomes.len() < run.actions.len() ==> run.next() == Some(
            run.actions[run.outcomes.len() as int],
        ),
        run.outcomes.len() >= run.actions.len() ==> run.next() is None,
        run.result() is Ok,
{
    lemma_first_failure(run.outcomes);
}

/// A run whose step `k` is the first that failed ends in the error of that step. If
/// the step is mended, RTS is asserted right after it and, if that worked, DTR;
/// otherwise and after that nothing is done.
pub proof fn law_next_after_failure(run: SequenceView, k: int)
    requires
        0 <= k < run.outcomes.len(),
        run.outcomes[k] is Err,
        forall|i: int| 0 <= i < k ==> #[trigger] run.outcomes[i] is Ok,
    ensures
        run.result() == run.outcomes[k],
        k < run.guard ==> run.next() is None,
        k >= run.guard && run.outcomes.len() == k + 1 ==> run.next() == Some(LineAction::Rts(true)),
        k >= run.guard && run.outcomes.len() == k + 2 && run.outcomes[k + 1] is Ok ==> run.next()
            == Some(LineAction::Dtr(true)),
        run.outcomes.len() == k + 2 && run.outcomes[k + 1] is Err ==> run.next() is None,
        run.outcomes.len() > k + 2 ==> run.next() is None,
{
    lemma_first_failure(run.outcomes);
    let f = first_failure(run.outcomes);
    if f < k {
        assert(run.outcomes[f] is Ok);
    }
    if f > k {
        assert(run.outcomes[k] is Ok);
    }
}

/// The bootloader entry throws away what is left in both directions before it moves
/// a line, and what came in meanwhile at the very end. Before the step from which on
/// a failure is mended no action drives NRST low; from that step on RESET is asserted
/// with RTS first and DTR dropped next. BOOT0 is raised with DTR before RTS lets go of
/// RESET, and dropped with DTR at the end.
pub proof fn law_bootloader_entry_guarded()
    ensures
        bootloader_entry().len() == 14,
        bootloader_entry()[0] == LineAction::ClearInput,
        bootloader_entry()[1] == LineAction::ClearOutput,
        bootloader_entry()[2] == LineAction::Rts(true),
        bootloader_entry()[3] == LineAction::Dtr(true),
        bootloader_entry()[8] == LineAction::Dtr(true),
        bootloader_entry()[9] == LineAction::Rts(false),
        bootloader_entry()[11] == LineAction::Dtr(false),
        bootloader_entry().last() == LineAction::ClearInput,
        forall|i: int|
            0 <= i < BOOTLOADER_ENTRY_GUARD ==> #[trigger] bootloader_entry()[i]
                != LineAction::Dtr(false),
        bootloader_entry()[BOOTLOADER_ENTRY_GUARD as int] == LineAction::Rts(true),
        bootloader_entry()[BOOTLOADER_ENTRY_GUARD + 1] == LineAction::Dtr(false),
{
}

/// The waits of the bootloader entry are 10, 50, 50 and 50 milliseconds, and that of
/// a reset into the application 100 milliseconds, during which RTS is asserted and DTR is
/// not, before the settle, which comes last and only if it is not zero. A port that was
/// opened has both lines asserted and 50 milliseconds to settle.
pub proof fn law_waits(settle: u128)
    ensures
        bootloader_entry()[4] == LineAction::Wait(10_000_000),
        bootloader_entry()[7] == LineAction::Wait(50_000_000),
        bootloader_entry()[10] == LineAction::Wait(50_000_000),
        bootloader_entry()[12] == LineAction::Wait(50_000_000),
        app_reset(settle)[0] == LineAction::Rts(true),
        app_reset(settle)[1] == LineAction::Dtr(false),
        app_reset(settle)[2] == LineAction::Wait(100_000_000),
        app_reset(settle)[3] == LineAction::Rts(false),
        settle == 0 ==> app_reset(settle).len() == 4,
        settle != 0 ==> app_reset(settle).len() == 5 && app_reset(settle)[4] == LineAction::Wait(
            settle,
        ),
        run_state().len() == 3,
        run_state()[0] == LineAction::Rts(true),
        run_state()[1] == LineAction::Dtr(true),
        run_state()[2] == LineAction::Wait(50_000_000),
{
}

/// Driving both lines sets RTS first and DTR next, each to its own level.
pub proof fn law_both_lines(rts: bool, dtr: bool)
    ensures
        both_lines(rts, dtr).len() == 2,
        both_lines(rts, dtr)[0] == LineAction::Rts(rts),
        both_lines(rts, dtr)[1] == LineAction::Dtr(dtr),
{
}

} // verus!
