//! What the high-level operations do around programming and erasing: entering
//! the bootloader, identifying the chip, and starting the application.

use vstd::prelude::*;

use crate::bootloader::{done, info_reply, unit, Event, Op, Reply};
use crate::chip::{chip_erase_ends, erased, erases_chip, search_ends, wiped};
use crate::error::{error_text, outcome, Error, ErrorView};
use crate::flash::{length_fault, EntryError, EntryStep, FlashOptions};
use crate::plan::{
    block, block_count, chunk_start, erase_plan, footprint, law_blocks, law_erase_covers,
    law_verified, lemma_block_read_back, max_pages, programs, programs_in, read_back, read_fault,
    read_plan, write_plan,
};
use crate::progress::ProgressView;
use crate::session::{happened, in_turn, skipped, wire, Call, Phase};
use crate::target::{FLASH_BASE, MAX_FLASH_SIZE};

verus! {

/// How often bootloader entry is tried.
pub const CONNECT_ATTEMPTS: u32 = 5;

/// Attempt `k` to enter the bootloader: the chip is reset into it and, if that
/// succeeds, the handshake is made. It fails with the error of the last of these.
/// Its start is told, and its failure.
pub open spec fn tries_entry(k: int, attempt: Phase<()>) -> bool {
    let Phase { calls, result, told } = attempt;
    let of = CONNECT_ATTEMPTS as int;
    let begun = ProgressView::Connecting { attempt: k, of };
    &&& 1 <= calls.len() <= 2
    &&& calls[0].op == Op::ResetIntoBootloader
    &&& calls.len() == 2 <==> calls[0].result is Ok
    &&& calls.len() == 2 ==> calls[1].op == Op::Init
    &&& result == unit(calls.last().result)
    &&& told == match result {
        Ok(()) => seq![begun],
        Err(e) => seq![
            begun,
            ProgressView::ConnectError { attempt: k, of, error: error_text(e) },
        ],
    }
}

/// The calls of the attempts, one after the other.
pub open spec fn tried_calls(attempts: Seq<Phase<()>>) -> Seq<Call>
    decreases attempts.len(),
{
    if attempts.len() == 0 {
        Seq::empty()
    } else {
        tried_calls(attempts.drop_last()) + attempts.last().calls
    }
}

/// What the attempts told, one after the other.
pub open spec fn tried_told(attempts: Seq<Phase<()>>) -> Seq<ProgressView>
    decreases attempts.len(),
{
    if attempts.len() == 0 {
        Seq::empty()
    } else {
        tried_told(attempts.drop_last()) + attempts.last().told
    }
}

/// The phase is made of these attempts: all but the last fail, and the last
/// succeeds unless it is the last that is allowed.
pub open spec fn connects_in(attempts: Seq<Phase<()>>, phase: Phase<()>) -> bool {
    let n = attempts.len() as int;
    &&& 1 <= n <= CONNECT_ATTEMPTS
    &&& forall|i: int| 0 <= i < n ==> tries_entry(i + 1, #[trigger] attempts[i])
    &&& forall|i: int| 0 <= i < n - 1 ==> (#[trigger] attempts[i]).result is Err
    &&& phase.calls == tried_calls(attempts)
    &&& phase.told == tried_told(attempts)
    &&& if attempts.last().result is Ok {
        phase.result == Ok::<(), ErrorView>(())
    } else {
        &&& n == CONNECT_ATTEMPTS
        &&& phase.result == Err::<(), _>(ErrorView::BootloaderInit { attempts: CONNECT_ATTEMPTS })
    }
}

/// The bootloader is entered: it is tried until an attempt succeeds, at most
/// [`CONNECT_ATTEMPTS`] times. Only if no attempt succeeds that is an error.
pub open spec fn connects(phase: Phase<()>) -> bool {
    exists|attempts: Seq<Phase<()>>| connects_in(attempts, phase)
}

/// The chip is asked for its product id. If it does not give one, the application
/// is put back before the error is reported; whether that worked does not matter.
pub open spec fn identifies(phase: Phase<u16>) -> bool {
    let Phase { calls, result, told } = phase;
    &&& calls.len() >= 1
    &&& calls[0].op == Op::GetId
    &&& match result {
        Ok(id) => {
            &&& calls.len() == 1
            &&& calls[0].result == Ok::<_, ErrorView>(Reply::Id { id })
            &&& told == seq![ProgressView::ChipIdentified { id }]
        },
        Err(e) => {
            &&& calls.len() == 2
            &&& calls[0].result == Err::<Reply, _>(e)
            &&& calls[1].op == Op::ResetIntoApp
            &&& told == Seq::<ProgressView>::empty()
        },
    }
}

/// The phases of entering the bootloader and asking for the product id, where the
/// device is left as it is if it does not give one.
pub open spec fn enters_in(connecting: Phase<()>, asking: Phase<u16>) -> bool {
    &&& connects(connecting)
    &&& connecting.result is Ok ==> {
        &&& asking.calls.len() == 1
        &&& asking.calls[0].op == Op::GetId
        &&& match asking.result {
            Ok(id) => {
                &&& asking.calls[0].result == Ok::<_, ErrorView>(Reply::Id { id })
                &&& asking.told == seq![ProgressView::ChipIdentified { id }]
            },
            Err(e) => {
                &&& asking.calls[0].result == Err::<Reply, _>(e)
                &&& asking.told == Seq::<ProgressView>::empty()
            },
        }
    }
}

/// The phase enters the bootloader and asks for the product id; `stuck` says that
/// it failed to enter.
pub open spec fn enters(phase: Phase<u16>, stuck: bool) -> bool {
    exists|connecting: Phase<()>, asking: Phase<u16>|
        {
            &&& #[trigger] enters_in(connecting, asking)
            &&& phase == in_turn(connecting, asking)
            &&& stuck == connecting.result is Err
        }
}

/// `Get` is asked, whatever comes of it, and the chip is reset into the application.
pub open spec fn closes(
    reply: Result<Reply, ErrorView>,
    reset: Result<(), ErrorView>,
    phase: Phase<()>,
) -> bool {
    let Phase { calls, result, told } = phase;
    &&& calls.len() == 2
    &&& calls[0].op == Op::Get
    &&& calls[0].result == reply
    &&& calls[1].op == Op::ResetIntoApp
    &&& calls[1].result == done(reset)
    &&& result == reset
    &&& told == Seq::<ProgressView>::empty()
}

/// The phases of reading a device's info: the bootloader is entered and the chip
/// identified and, only if that succeeded, `Get` is asked and the application reset
/// into.
pub open spec fn informs_in(
    r: Result<(Result<(u8, Vec<u8>), Error>, Result<(), Error>), EntryError>,
    entering: Phase<u16>,
    closing: Phase<()>,
) -> bool {
    match r {
        Err(e) => {
            &&& enters(entering, e.step == EntryStep::Connect)
            &&& entering.result == Err::<u16, _>(e.error@)
        },
        Ok((reply, reset)) => {
            &&& enters(entering, false)
            &&& entering.result is Ok
            &&& closes(info_reply(reply), outcome(reset), closing)
        },
    }
}

/// The phase reads a device's info.
pub open spec fn informs(
    r: Result<(Result<(u8, Vec<u8>), Error>, Result<(), Error>), EntryError>,
    phase: Phase<()>,
) -> bool {
    exists|entering: Phase<u16>, closing: Phase<()>|
        {
            &&& #[trigger] informs_in(r, entering, closing)
            &&& phase == in_turn(entering, closing)
        }
}

/// One operation whose failure is the only thing that matters of its result, and
/// of whose success `value` is made.
pub open spec fn single<R>(op: Op, told: Seq<ProgressView>, value: R, phase: Phase<R>) -> bool {
    &&& phase.calls.len() == 1
    &&& phase.calls[0].op == op
    &&& phase.result == match phase.calls[0].result {
        Ok(_) => Ok(value),
        Err(e) => Err(e),
    }
    &&& phase.told == told
}

/// The application is started as the options say: by `Go`, by a hardware reset,
/// or not at all.
pub open spec fn starts(opts: FlashOptions, phase: Phase<()>) -> bool {
    let told = seq![ProgressView::Starting];
    if opts.run && opts.go {
        single(Op::Go { addr: FLASH_BASE }, told, (), phase)
    } else if opts.run {
        single(Op::ResetIntoApp, told, (), phase)
    } else {
        phase == skipped()
    }
}

/// The phases of a flash operation: each is gone into only if those before it
/// succeeded.
pub open spec fn flashes_in(
    firmware: Seq<u8>,
    opts: FlashOptions,
    connecting: Phase<()>,
    identifying: Phase<u16>,
    programming: Phase<()>,
    starting: Phase<()>,
) -> bool {
    &&& connects(connecting)
    &&& connecting.result is Ok ==> identifies(identifying)
    &&& connecting.result is Ok && identifying.result is Ok ==> programs(
        firmware,
        opts.erase,
        opts.verify,
        programming,
    )
    &&& connecting.result is Ok && identifying.result is Ok && programming.result is Ok ==> starts(
        opts,
        starting,
    )
}

/// The phase flashes the image: an image of a bad length is rejected before
/// anything is done to the device. Otherwise the bootloader is entered, the chip
/// identified, the image programmed and the application started.
pub open spec fn flashes(firmware: Seq<u8>, opts: FlashOptions, phase: Phase<()>) -> bool {
    match length_fault(firmware.len() as int) {
        Some(e) => phase == (Phase {
            calls: Seq::<Call>::empty(),
            result: Err::<(), _>(e),
            told: Seq::<ProgressView>::empty(),
        }),
        None => exists|
            connecting: Phase<()>,
            identifying: Phase<u16>,
            programming: Phase<()>,
            starting: Phase<()>,
        |
            {
                &&& #[trigger] flashes_in(
                    firmware,
                    opts,
                    connecting,
                    identifying,
                    programming,
                    starting,
                )
                &&& phase == in_turn(
                    in_turn(in_turn(connecting, identifying), programming),
                    starting,
                )
            },
    }
}

/// The phases of a full-chip erase: each is gone into only if those before it
/// succeeded.
pub open spec fn wipes_in(
    connecting: Phase<()>,
    identifying: Phase<u16>,
    erasing: Phase<int>,
    resetting: Phase<int>,
) -> bool {
    &&& connects(connecting)
    &&& connecting.result is Ok ==> identifies(identifying)
    &&& connecting.result is Ok ==> (identifying.result matches Ok(id) ==> {
        &&& erases_chip(id, erasing)
        &&& erasing.result matches Ok(pages) ==> single(
            Op::ResetIntoApp,
            Seq::empty(),
            pages,
            resetting,
        )
    })
}

/// The phase erases the whole device: the bootloader is entered, the chip
/// identified and erased, and the application reset into. The result is the
/// number of pages that were erased.
pub open spec fn wipes(phase: Phase<int>) -> bool {
    exists|
        connecting: Phase<()>,
        identifying: Phase<u16>,
        erasing: Phase<int>,
        resetting: Phase<int>,
    |
        {
            &&& #[trigger] wipes_in(connecting, identifying, erasing, resetting)
            &&& phase == in_turn(in_turn(in_turn(connecting, identifying), erasing), resetting)
        }
}

/// How many of the calls reset the chip into the bootloader.
pub open spec fn resets(calls: Seq<Call>) -> int
    decreases calls.len(),
{
    if calls.len() == 0 {
        0
    } else {
        resets(calls.drop_last()) + if calls.last().op == Op::ResetIntoBootloader {
            1int
        } else {
            0
        }
    }
}

/// How many of the events tell that an attempt begins.
pub open spec fn attempts(told: Seq<ProgressView>) -> int
    decreases told.len(),
{
    if told.len() == 0 {
        0
    } else {
        attempts(told.drop_last()) + if told.last() is Connecting {
            1int
        } else {
            0
        }
    }
}

proof fn lemma_resets_join(a: Seq<Call>, b: Seq<Call>)
    ensures
        resets(a + b) == resets(a) + resets(b),
    decreases b.len(),
{
    if b.len() == 0 {
        assert(a + b =~= a);
    } else {
        lemma_resets_join(a, b.drop_last());
        assert((a + b).drop_last() =~= a + b.drop_last());
    }
}

proof fn lemma_attempts_join(a: Seq<ProgressView>, b: Seq<ProgressView>)
    ensures
        attempts(a + b) == attempts(a) + attempts(b),
    decreases b.len(),
{
    if b.len() == 0 {
        assert(a + b =~= a);
    } else {
        lemma_attempts_join(a, b.drop_last());
        assert((a + b).drop_last() =~= a + b.drop_last());
    }
}

/// Attempts consist of resets and handshakes, with one reset each, and each is told
/// once.
proof fn lemma_tried(tries: Seq<Phase<()>>)
    requires
        forall|i: int| 0 <= i < tries.len() ==> tries_entry(i + 1, #[trigger] tries[i]),
    ensures
        resets(tried_calls(tries)) == tries.len(),
        attempts(tried_told(tries)) == tries.len(),
        forall|i: int|
            0 <= i < tried_calls(tries).len() ==> ((#[trigger] tried_calls(tries)[i]).op
                == Op::ResetIntoBootloader || tried_calls(tries)[i].op == Op::Init),
    decreases tries.len(),
{
    if tries.len() > 0 {
        let head = tries.drop_last();
        let last = tries.last();
        assert forall|i: int| 0 <= i < head.len() implies tries_entry(i + 1, #[trigger] head[i]) by {
            assert(tries_entry(i + 1, tries[i]));
        }
        lemma_tried(head);
        assert(tries_entry(tries.len() as int, tries[tries.len() - 1]));
        lemma_resets_join(tried_calls(head), last.calls);
        lemma_attempts_join(tried_told(head), last.told);
        reveal_with_fuel(resets, 3);
        reveal_with_fuel(attempts, 3);
        let calls = tried_calls(tries);
        let n = tried_calls(head).len() as int;
        assert forall|i: int| 0 <= i < calls.len() implies (#[trigger] calls[i]).op
            == Op::ResetIntoBootloader || calls[i].op == Op::Init by {
            if i < n {
                assert(calls[i] == tried_calls(head)[i]);
            } else {
                assert(calls[i] == last.calls[i - n]);
            }
        }
    }
}

/// The operations of connecting.
proof fn lemma_connect_ops(phase: Phase<()>, i: int)
    requires
        connects(phase),
        0 <= i < phase.calls.len(),
    ensures
        phase.calls[i].op == Op::ResetIntoBootloader || phase.calls[i].op == Op::Init,
{
    let tries = choose|tries: Seq<Phase<()>>| connects_in(tries, phase);
    lemma_tried(tries);
}

/// Connecting resets the chip once per attempt, at least once and at most
/// [`CONNECT_ATTEMPTS`] times, and if it fails, exactly so often. Each attempt
/// is told once.
pub proof fn law_one_reset_per_attempt(phase: Phase<()>)
    requires
        connects(phase),
    ensures
        1 <= resets(phase.calls) <= CONNECT_ATTEMPTS,
        resets(phase.calls) == attempts(phase.told),
        phase.result is Err ==> resets(phase.calls) == CONNECT_ATTEMPTS,
{
    let tries = choose|tries: Seq<Phase<()>>| connects_in(tries, phase);
    lemma_tried(tries);
}

/// Connecting fails only by giving up: a failed attempt, whichever of its calls
/// failed, is followed by another as long as one is left.
pub proof fn law_only_giving_up_fails(phase: Phase<()>, e: ErrorView)
    requires
        connects(phase),
        phase.result == Err::<(), _>(e),
    ensures
        e == (ErrorView::BootloaderInit { attempts: CONNECT_ATTEMPTS }),
{
}

/// An empty image, and one that is larger than any device of the family, is
/// rejected with the device untouched and nothing told.
pub proof fn law_bad_image_rejected(
    before: Seq<Event>,
    after: Seq<Event>,
    told_before: Seq<ProgressView>,
    told_after: Seq<ProgressView>,
    firmware: Seq<u8>,
    opts: FlashOptions,
    phase: Phase<()>,
)
    requires
        happened(before, after, told_before, told_after, phase),
        flashes(firmware, opts, phase),
        firmware.len() == 0 || firmware.len() > MAX_FLASH_SIZE,
    ensures
        phase.result is Err,
        after == before,
        told_after == told_before,
{
    assert(before + wire(phase.calls) =~= before);
    assert(told_before + phase.told =~= told_before);
}

/// The operation changes the contents of flash.
pub open spec fn modifies(op: Op) -> bool {
    op is Erase || op is Write
}

/// The call put the device back to running the application.
pub open spec fn back_in_app(call: Call) -> bool {
    call.op == Op::ResetIntoApp && call.result is Ok
}

/// Entering the bootloader and asking for the product id changes nothing in flash.
pub proof fn law_entry_modifies_nothing(phase: Phase<u16>, stuck: bool, i: int)
    requires
        enters(phase, stuck),
        0 <= i < phase.calls.len(),
    ensures
        !modifies(phase.calls[i].op),
{
    let (connecting, asking) = choose|connecting: Phase<()>, asking: Phase<u16>|
        {
            &&& #[trigger] enters_in(connecting, asking)
            &&& phase == in_turn(connecting, asking)
            &&& stuck == connecting.result is Err
        };
    let c = connecting.calls.len() as int;
    if i < c {
        lemma_connect_ops(connecting, i);
        assert(phase.calls[i] == connecting.calls[i]);
    } else {
        assert(phase.calls[i] == asking.calls[i - c]);
    }
}

/// Reading a device's info changes nothing in flash. If the chip gave its id, the last
/// thing that is done to it is to reset it into the application, whatever came of
/// `Get`.
pub proof fn law_info_modifies_nothing(
    r: Result<(Result<(u8, Vec<u8>), Error>, Result<(), Error>), EntryError>,
    phase: Phase<()>,
    i: int,
)
    requires
        informs(r, phase),
        0 <= i < phase.calls.len(),
    ensures
        !modifies(phase.calls[i].op),
        r is Ok ==> phase.calls.last().op == Op::ResetIntoApp,
{
    let (entering, closing) = choose|entering: Phase<u16>, closing: Phase<()>|
        {
            &&& #[trigger] informs_in(r, entering, closing)
            &&& phase == in_turn(entering, closing)
        };
    let n = entering.calls.len() as int;
    if i < n {
        let stuck = r matches Err(e) && e.step == EntryStep::Connect;
        law_entry_modifies_nothing(entering, stuck, i);
        assert(phase.calls[i] == entering.calls[i]);
    } else {
        assert(phase.calls[i] == closing.calls[i - n]);
    }
}

/// The operations of a programming phase.
proof fn lemma_programs_ops(firmware: Seq<u8>, erase: bool, verify: bool, phase: Phase<()>)
    requires
        programs(firmware, erase, verify, phase),
    ensures
        forall|i: int|
            0 <= i < phase.calls.len() ==> ((#[trigger] phase.calls[i]).op is Erase
                || phase.calls[i].op is Write || phase.calls[i].op is Read),
        forall|i: int|
            0 <= i < phase.calls.len() && (#[trigger] phase.calls[i]).op is Read ==> verify,
        forall|i: int|
            0 <= i < phase.calls.len() && (#[trigger] phase.calls[i]).op is Erase ==> erase,
{
    let (erasing, writing, verifying) = choose|
        erasing: Phase<()>,
        writing: Phase<()>,
        verifying: Phase<()>,
    |
        {
            &&& #[trigger] programs_in(firmware, erase, verify, erasing, writing, verifying)
            &&& phase == in_turn(in_turn(erasing, writing), verifying)
        };
    let calls = phase.calls;
    let e = erasing.calls.len() as int;
    let w = writing.calls.len() as int;
    assert forall|i: int| 0 <= i < calls.len() implies {
        &&& (#[trigger] calls[i]).op is Erase || calls[i].op is Write || calls[i].op is Read
        &&& calls[i].op is Read ==> verify
        &&& calls[i].op is Erase ==> erase
    } by {
        if i < e {
            assert(calls[i] == erasing.calls[i]);
        } else if i < e + w {
            assert(calls[i] == writing.calls[i - e]);
        } else {
            assert(calls[i] == verifying.calls[i - e - w]);
        }
    }
}

/// The phases of a flash operation whose image is of a good length.
proof fn lemma_flash_phases(firmware: Seq<u8>, opts: FlashOptions, phase: Phase<()>) -> (r: (
    Phase<()>,
    Phase<u16>,
    Phase<()>,
    Phase<()>,
))
    requires
        flashes(firmware, opts, phase),
        length_fault(firmware.len() as int) is None,
    ensures
        flashes_in(firmware, opts, r.0, r.1, r.2, r.3),
        phase == in_turn(in_turn(in_turn(r.0, r.1), r.2), r.3),
{
    choose|
        connecting: Phase<()>,
        identifying: Phase<u16>,
        programming: Phase<()>,
        starting: Phase<()>,
    |
        {
            &&& #[trigger] flashes_in(
                firmware,
                opts,
                connecting,
                identifying,
                programming,
                starting,
            )
            &&& phase == in_turn(in_turn(in_turn(connecting, identifying), programming), starting)
        }
}

/// Where a call of a flash operation belongs.
proof fn lemma_flash_calls(
    firmware: Seq<u8>,
    opts: FlashOptions,
    connecting: Phase<()>,
    identifying: Phase<u16>,
    programming: Phase<()>,
    starting: Phase<()>,
    i: int,
)
    requires
        flashes_in(firmware, opts, connecting, identifying, programming, starting),
        0 <= i < in_turn(
            in_turn(in_turn(connecting, identifying), programming),
            starting,
        ).calls.len(),
    ensures
        ({
            let calls = in_turn(
                in_turn(in_turn(connecting, identifying), programming),
                starting,
            ).calls;
            let c = connecting.calls.len() as int;
            let d = identifying.calls.len() as int;
            let p = programming.calls.len() as int;
            if i < c {
                calls[i] == connecting.calls[i] && (calls[i].op == Op::ResetIntoBootloader
                    || calls[i].op == Op::Init)
            } else if i < c + d {
                &&& connecting.result is Ok
                &&& calls[i] == identifying.calls[i - c]
                &&& calls[i].op == Op::GetId || (identifying.result is Err && calls[i].op
                    == Op::ResetIntoApp)
            } else if i < c + d + p {
                &&& connecting.result is Ok
                &&& identifying.result is Ok
                &&& calls[i] == programming.calls[i - c - d]
                &&& modifies(calls[i].op) || calls[i].op is Read
            } else {
                &&& connecting.result is Ok
                &&& identifying.result is Ok
                &&& programming.result is Ok
                &&& opts.run
                &&& starting.calls.len() == 1
                &&& i == calls.len() - 1
                &&& calls[i] == starting.calls[0]
                &&& calls[i].op == if opts.go {
                    Op::Go { addr: FLASH_BASE }
                } else {
                    Op::ResetIntoApp
                }
                &&& starting.result is Ok <==> calls[i].result is Ok
            }
        }),
{
    if i < connecting.calls.len() {
        lemma_connect_ops(connecting, i);
    }
    if connecting.result is Ok && identifying.result is Ok {
        lemma_programs_ops(firmware, opts.erase, opts.verify, programming);
    }
}

/// If the chip does not give its id, the last thing that is done to it is to reset
/// it into the application, which is intact.
pub proof fn law_failed_identification_restores_app(
    firmware: Seq<u8>,
    opts: FlashOptions,
    phase: Phase<()>,
    i: int,
)
    requires
        flashes(firmware, opts, phase),
        0 <= i < phase.calls.len(),
        phase.calls[i].op == Op::GetId,
        phase.calls[i].result is Err,
    ensures
        phase.result is Err,
        i == phase.calls.len() - 2,
        phase.calls.last().op == Op::ResetIntoApp,
        forall|j: int| 0 <= j < phase.calls.len() ==> !modifies((#[trigger] phase.calls[j]).op),
{
    let (c, d, p, s) = lemma_flash_phases(firmware, opts, phase);
    lemma_flash_calls(firmware, opts, c, d, p, s, i);
    assert(i == c.calls.len());
    assert forall|j: int| 0 <= j < phase.calls.len() implies !modifies(
        (#[trigger] phase.calls[j]).op,
    ) by {
        lemma_flash_calls(firmware, opts, c, d, p, s, j);
    }
    lemma_flash_calls(firmware, opts, c, d, p, s, phase.calls.len() - 1);
}

/// A flash operation that fails once it has begun to erase or write leaves the
/// device in the bootloader: it is not put back to running the application.
pub proof fn law_failed_flash_stays_in_bootloader(
    firmware: Seq<u8>,
    opts: FlashOptions,
    phase: Phase<()>,
    i: int,
    j: int,
)
    requires
        flashes(firmware, opts, phase),
        phase.result is Err,
        0 <= i < phase.calls.len(),
        modifies(phase.calls[i].op),
        0 <= j < phase.calls.len(),
    ensures
        !back_in_app(phase.calls[j]),
{
    let (c, d, p, s) = lemma_flash_phases(firmware, opts, phase);
    lemma_flash_calls(firmware, opts, c, d, p, s, i);
    lemma_flash_calls(firmware, opts, c, d, p, s, j);
}

/// A flash operation that succeeds ends as its options say: with the chip reset
/// into the application, with `Go`, or, without `run`, with neither.
pub proof fn law_flash_ends_as_asked(
    firmware: Seq<u8>,
    opts: FlashOptions,
    phase: Phase<()>,
    i: int,
)
    requires
        flashes(firmware, opts, phase),
        phase.result is Ok,
        0 <= i < phase.calls.len(),
    ensures
        opts.run && !opts.go ==> back_in_app(phase.calls.last()),
        opts.run && opts.go ==> phase.calls.last().op == (Op::Go { addr: FLASH_BASE })
            && phase.calls.last().result is Ok,
        !opts.run ==> phase.calls[i].op != Op::ResetIntoApp && !(phase.calls[i].op is Go),
        !opts.erase ==> !(phase.calls[i].op is Erase),
        !opts.verify ==> !(phase.calls[i].op is Read),
{
    let (c, d, p, s) = lemma_flash_phases(firmware, opts, phase);
    lemma_programs_ops(firmware, opts.erase, opts.verify, p);
    lemma_flash_calls(firmware, opts, c, d, p, s, i);
    lemma_flash_calls(firmware, opts, c, d, p, s, phase.calls.len() - 1);
}

/// Before the first write of an image that is erased for, each page that the image
/// spans was erased.
pub proof fn law_erased_before_written(
    firmware: Seq<u8>,
    verify: bool,
    phase: Phase<()>,
    w: int,
    q: int,
)
    requires
        programs(firmware, true, verify, phase),
        0 <= w < phase.calls.len(),
        phase.calls[w].op is Write,
        0 <= q < footprint(firmware),
    ensures
        wiped(phase.calls.take(w), q),
{
    let (erasing, writing, verifying) = choose|
        erasing: Phase<()>,
        writing: Phase<()>,
        verifying: Phase<()>,
    |
        {
            &&& #[trigger] programs_in(firmware, true, verify, erasing, writing, verifying)
            &&& phase == in_turn(in_turn(erasing, writing), verifying)
        };
    let n = erasing.calls.len() as int;
    let plan = erase_plan(footprint(firmware));
    if w < n {
        assert(phase.calls[w] == erasing.calls[w]);
        assert(erasing.calls[w].op == plan[w]);
    }
    law_erase_covers(footprint(firmware), q);
    let k = q / 80;
    assert(phase.calls.take(w)[k] == erasing.calls[k]);
    assert(erasing.calls[k].op == plan[k]);
    assert(erased(phase.calls.take(w)[k], q));
}

/// The call wrote block `k` of the image, and `later` read back, from the same
/// address, the bytes that were written of it.
pub open spec fn gave_back(firmware: Seq<u8>, k: int, call: Call, later: Call) -> bool {
    match (call.op, later.op, later.result) {
        (Op::Write { addr, data }, Op::Read { addr: from, len }, Ok(Reply::Data { bytes })) => {
            &&& call.result is Ok
            &&& from == addr
            &&& bytes.len() == len
            &&& bytes == data.take(len as int)
            &&& bytes == block(firmware, k)
        },
        _ => false,
    }
}

/// Once an image is programmed with verification, each block that was written has
/// been read back from where it was written, as it was written.
pub proof fn law_reads_give_back_writes(firmware: Seq<u8>, erase: bool, phase: Phase<()>, k: int)
    requires
        programs(firmware, erase, true, phase),
        phase.result is Ok,
        forall|i: int| 0 <= i < phase.calls.len() ==> #[trigger] phase.calls[i].valid(),
        0 <= k < block_count(firmware),
    ensures
        exists|i: int, j: int|
            0 <= i < j < phase.calls.len() && gave_back(
                firmware,
                k,
                #[trigger] phase.calls[i],
                #[trigger] phase.calls[j],
            ),
{
    let (erasing, writing, verifying) = choose|
        erasing: Phase<()>,
        writing: Phase<()>,
        verifying: Phase<()>,
    |
        {
            &&& #[trigger] programs_in(firmware, erase, true, erasing, writing, verifying)
            &&& phase == in_turn(in_turn(erasing, writing), verifying)
        };
    let e = erasing.calls.len() as int;
    let w = writing.calls.len() as int;
    let i = e + k;
    let j = e + w + k;
    assert(phase.calls[i] == writing.calls[k]);
    assert(phase.calls[j] == verifying.calls[k]);
    assert(writing.calls[k].op == write_plan(firmware)[k]);
    assert(verifying.calls[k].op == read_plan(firmware)[k]);
    assert(read_fault(firmware, k, verifying.calls[k]) is None);
    assert(phase.calls[j].valid());
    law_blocks(firmware, k);
    lemma_block_read_back(firmware, k, verifying.calls[k]);
    assert(gave_back(firmware, k, phase.calls[i], phase.calls[j]));
}

/// The calls from `a` up to `b` read back the image, and flash is not modified
/// any more from there on.
pub open spec fn read_back_last(firmware: Seq<u8>, calls: Seq<Call>, a: int, b: int) -> bool {
    &&& 0 <= a <= b <= calls.len()
    &&& read_back(calls.subrange(a, b)) == firmware
    &&& forall|i: int| a <= i < calls.len() ==> !modifies((#[trigger] calls[i]).op)
}

/// A flash operation with verification that succeeds has read back the image,
/// byte for byte, after the last change to flash.
pub proof fn law_verified_flash(firmware: Seq<u8>, opts: FlashOptions, phase: Phase<()>)
    requires
        flashes(firmware, opts, phase),
        phase.result is Ok,
        opts.verify,
        forall|i: int| 0 <= i < phase.calls.len() ==> #[trigger] phase.calls[i].valid(),
    ensures
        exists|a: int, b: int| read_back_last(firmware, phase.calls, a, b),
{
    let (c, d, p, s) = lemma_flash_phases(firmware, opts, phase);
    let (e, w, v) = choose|erasing: Phase<()>, writing: Phase<()>, verifying: Phase<()>|
        {
            &&& #[trigger] programs_in(
                firmware,
                opts.erase,
                opts.verify,
                erasing,
                writing,
                verifying,
            )
            &&& p == in_turn(in_turn(erasing, writing), verifying)
        };
    let calls = phase.calls;
    let a = c.calls.len() + d.calls.len() + e.calls.len() + w.calls.len();
    let b = a + v.calls.len();
    assert(calls.subrange(a as int, b as int) =~= v.calls);
    assert forall|i: int| 0 <= i < v.calls.len() implies #[trigger] v.calls[i].valid() by {
        assert(calls[a + i].valid());
    }
    law_verified(firmware, v);
    assert forall|i: int| a <= i < calls.len() implies !modifies((#[trigger] calls[i]).op) by {
        if i < b {
            assert(calls[i] == v.calls[i - a]);
        } else {
            lemma_flash_calls(firmware, opts, c, d, p, s, i);
        }
    }
    assert(read_back_last(firmware, calls, a as int, b as int));
}

/// The operations of a full-chip erase.
proof fn lemma_erase_ops(id: u16, phase: Phase<int>, i: int)
    requires
        erases_chip(id, phase),
        0 <= i < phase.calls.len(),
    ensures
        phase.calls[i].op is Erase,
{
    let (m, found) = choose|m: int, found: Result<int, ErrorView>|
        chip_erase_ends(id, m, found, phase);
    let calls = phase.calls;
    if i > m {
        let tail = calls.skip(m + 1);
        let start = chunk_start(m, max_pages());
        let end = chunk_start(m + 1, max_pages());
        let n = choose|n: int| search_ends(tail, start, end, n, found);
        assert(search_ends(tail, start, end, n, found));
        assert(tail[i - m - 1] == calls[i]);
    }
}

/// A standalone erase that succeeds leaves the device running the application. One
/// that fails once it has begun to erase leaves it in the bootloader. One that
/// fails because the chip does not give its id resets it into the application.
pub proof fn law_erase_ends_as_promised(phase: Phase<int>, i: int, j: int)
    requires
        wipes(phase),
        0 <= i < phase.calls.len(),
        0 <= j < phase.calls.len(),
    ensures
        phase.result is Ok ==> back_in_app(phase.calls.last()),
        phase.result is Err && phase.calls[i].op is Erase ==> !back_in_app(phase.calls[j]),
        phase.calls[i].op == Op::GetId && phase.calls[i].result is Err ==> phase.calls.last().op
            == Op::ResetIntoApp && i == phase.calls.len() - 2,
{
    let (c, d, x, s) = choose|
        connecting: Phase<()>,
        identifying: Phase<u16>,
        erasing: Phase<int>,
        resetting: Phase<int>,
    |
        {
            &&& #[trigger] wipes_in(connecting, identifying, erasing, resetting)
            &&& phase == in_turn(in_turn(in_turn(connecting, identifying), erasing), resetting)
        };
    lemma_wipe_calls(c, d, x, s, i);
    lemma_wipe_calls(c, d, x, s, j);
    lemma_wipe_calls(c, d, x, s, phase.calls.len() - 1);
}

/// Where a call of a standalone erase belongs.
proof fn lemma_wipe_calls(
    connecting: Phase<()>,
    identifying: Phase<u16>,
    erasing: Phase<int>,
    resetting: Phase<int>,
    i: int,
)
    requires
        wipes_in(connecting, identifying, erasing, resetting),
        0 <= i < in_turn(
            in_turn(in_turn(connecting, identifying), erasing),
            resetting,
        ).calls.len(),
    ensures
        ({
            let calls = in_turn(
                in_turn(in_turn(connecting, identifying), erasing),
                resetting,
            ).calls;
            let c = connecting.calls.len() as int;
            let d = identifying.calls.len() as int;
            let x = erasing.calls.len() as int;
            if i < c {
                calls[i].op == Op::ResetIntoBootloader || calls[i].op == Op::Init
            } else if i < c + d {
                &&& connecting.result is Ok
                &&& calls[i] == identifying.calls[i - c]
                &&& calls[i].op == Op::GetId || (identifying.result is Err && calls[i].op
                    == Op::ResetIntoApp)
            } else if i < c + d + x {
                &&& connecting.result is Ok
                &&& identifying.result is Ok
                &&& calls[i].op is Erase
            } else {
                &&& connecting.result is Ok
                &&& identifying.result is Ok
                &&& erasing.result is Ok
                &&& i == calls.len() - 1
                &&& calls[i].op == Op::ResetIntoApp
                &&& resetting.result is Ok <==> calls[i].result is Ok
            }
        }),
{
    let c = connecting.calls.len() as int;
    let d = identifying.calls.len() as int;
    if i < c {
        lemma_connect_ops(connecting, i);
    }
    if c + d <= i < c + d + erasing.calls.len() {
        let id = identifying.result->Ok_0;
        lemma_erase_ops(id, erasing, i - c - d);
    }
}

/// There is one reset per attempt.
pub(crate) proof fn lemma_attempts_of(tries: Seq<Phase<()>>)
    requires
        forall|i: int| 0 <= i < tries.len() ==> tries_entry(i + 1, #[trigger] tries[i]),
    ensures
        resets(tried_calls(tries)) == tries.len(),
{
    lemma_tried(tries);
}

/// The attempts that a phase is made of are as many as its resets.
pub(crate) proof fn lemma_attempts_counted(phase: Phase<()>, tries: Seq<Phase<()>>)
    requires
        connects_in(tries, phase),
    ensures
        resets(phase.calls) == tries.len(),
{
    lemma_tried(tries);
}

} // verus!
