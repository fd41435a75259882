//! What the high-level operations do to a device, call by call: how the bootloader is
//! entered, what a full-chip erase erases, and what flashing, erasing and asking for
//! info come to.

use vstd::prelude::*;

use crate::bootloader::{Op, Reply};
use crate::chip::{
    chip_erase_ends, decides, erases_chip, halves, midpoint, narrowed, search_ends, searches, verdict,
};
use crate::connection::{
    connects, connects_in, enters, enters_in, flashes, flashes_in, informs, informs_in,
    law_one_reset_per_attempt, lemma_attempts_counted, lemma_attempts_of, resets, starts,
    tried_calls, tried_told, tries_entry, wipes, wipes_in,
};
use crate::error::{error_text, law_payload_nack, Error, ErrorView, NackStage};
use crate::flash::{length_fault, page_outcome, EntryError, EntryStep, FlashOptions};
use crate::image::{done_after, is_block_write, is_chunk, law_every_block_written};
use crate::plan::{
    chunk_start, duration_of_millis, erase_op, erase_plan, erase_progress, max_pages, page_range,
    programs,
};
use crate::progress::ProgressView;
use crate::session::{in_turn, Call, Phase};
use crate::target::{law_density_pages, law_flash_limits};

verus! {

/// An attempt to enter the bootloader goes on from call `i` as it must: a reset that
/// succeeded is followed by the handshake, a call that failed by the next reset, and a
/// handshake that succeeded by nothing.
pub open spec fn goes_on(calls: Seq<Call>, i: int) -> bool {
    let call = calls[i];
    &&& call.op == Op::ResetIntoBootloader || call.op == Op::Init
    &&& i + 1 < calls.len() ==> {
        &&& calls[i + 1].op == if call.op == Op::ResetIntoBootloader && call.result is Ok {
            Op::Init
        } else {
            Op::ResetIntoBootloader
        }
        &&& call.op == Op::Init ==> call.result is Err
    }
    &&& i + 1 == calls.len() ==> (call.result is Ok ==> call.op == Op::Init)
}

proof fn lemma_tries(tries: Seq<Phase<()>>)
    requires
        tries.len() > 0,
        forall|i: int| 0 <= i < tries.len() ==> tries_entry(i + 1, #[trigger] tries[i]),
        forall|i: int| 0 <= i < tries.len() - 1 ==> (#[trigger] tries[i]).result is Err,
    ensures
        ({
            let calls = tried_calls(tries);
            &&& calls.len() > 0
            &&& calls[0].op == Op::ResetIntoBootloader
            &&& forall|i: int| 0 <= i < calls.len() ==> #[trigger] goes_on(calls, i)
            &&& calls.last().result is Ok <==> tries.last().result is Ok
        }),
    decreases tries.len(),
{
    let calls = tried_calls(tries);
    let head = tries.drop_last();
    let last = tries.last();
    let n = tries.len() as int;
    assert(tries_entry(n, tries[n - 1]));
    let before = tried_calls(head);
    let c = before.len() as int;
    assert(calls == before + last.calls);
    if n > 1 {
        assert forall|i: int| 0 <= i < head.len() implies tries_entry(i + 1, #[trigger] head[i]) by {
            assert(tries_entry(i + 1, tries[i]));
        }
        assert forall|i: int| 0 <= i < head.len() - 1 implies (#[trigger] head[i]).result is Err by {
            assert(tries[i].result is Err);
        }
        lemma_tries(head);
        assert(tries[n - 2].result is Err);
        assert(before.last().result is Err);
    } else {
        assert(c == 0);
    }
    assert forall|i: int| 0 <= i < calls.len() implies #[trigger] goes_on(calls, i) by {
        if i < c {
            assert(goes_on(before, i));
            assert(calls[i] == before[i]);
            if i + 1 < c {
                assert(calls[i + 1] == before[i + 1]);
            } else {
                assert(calls[i + 1] == last.calls[0]);
            }
        } else {
            assert(calls[i] == last.calls[i - c]);
            if i + 1 < calls.len() {
                assert(calls[i + 1] == last.calls[i - c + 1]);
            }
        }
    }
    if c > 0 {
        assert(calls[0] == before[0]);
    } else {
        assert(calls[0] == last.calls[0]);
    }
    assert(calls.last() == last.calls.last());
}

/// Entering the bootloader begins with a reset and goes on as it must, call by call. It
/// succeeds exactly if its last call is a handshake that succeeded; it gives up after
/// five resets, and only with the error that says so.
pub proof fn law_connecting(phase: Phase<()>)
    requires
        connects(phase),
    ensures
        phase.calls.len() > 0,
        phase.calls[0].op == Op::ResetIntoBootloader,
        forall|i: int| 0 <= i < phase.calls.len() ==> #[trigger] goes_on(phase.calls, i),
        1 <= resets(phase.calls) <= 5,
        phase.result is Ok <==> phase.calls.last().op == Op::Init && phase.calls.last().result is Ok,
        phase.result matches Err(e) ==> e == (ErrorView::BootloaderInit { attempts: 5 }) && resets(
            phase.calls,
        ) == 5,
{
    let tries = choose|tries: Seq<Phase<()>>| connects_in(tries, phase);
    lemma_tries(tries);
    law_one_reset_per_attempt(phase);
    let n = phase.calls.len() - 1;
    assert(goes_on(phase.calls, n));
}

/// Attempt `k` failed with an error of this text: a call did after the reset of that
/// attempt and before the next.
pub open spec fn fails_saying(calls: Seq<Call>, k: int, text: Seq<char>) -> bool {
    exists|i: int|
        0 <= i < calls.len() && resets(calls.take(i + 1)) == k && ((#[trigger] calls[i]).result
            matches Err(e) && text == error_text(e))
}

/// What is told as number `i` while the bootloader is entered: the start of an attempt
/// and its failure in turn.
pub open spec fn entry_told(calls: Seq<Call>, i: int, p: ProgressView) -> bool {
    if i % 2 == 0 {
        p == (ProgressView::Connecting { attempt: i / 2 + 1, of: 5 })
    } else {
        p matches ProgressView::ConnectError { attempt, of, error } && attempt == i / 2 + 1 && of
            == 5 && fails_saying(calls, attempt, error)
    }
}

proof fn lemma_tries_told(tries: Seq<Phase<()>>)
    requires
        forall|i: int| 0 <= i < tries.len() ==> tries_entry(i + 1, #[trigger] tries[i]),
        forall|i: int| 0 <= i < tries.len() - 1 ==> (#[trigger] tries[i]).result is Err,
    ensures
        ({
            let told = tried_told(tries);
            &&& told.len() == if tries.len() > 0 && tries.last().result is Ok {
                2 * tries.len() - 1
            } else {
                2 * tries.len() as int
            }
            &&& forall|i: int|
                0 <= i < told.len() ==> entry_told(tried_calls(tries), i, #[trigger] told[i])
        }),
    decreases tries.len(),
{
    let n = tries.len() as int;
    if n > 0 {
        let told = tried_told(tries);
        let calls = tried_calls(tries);
        let head = tries.drop_last();
        let last = tries.last();
        assert(tries_entry(n, tries[n - 1]));
        assert forall|i: int| 0 <= i < head.len() implies tries_entry(i + 1, #[trigger] head[i]) by {
            assert(tries_entry(i + 1, tries[i]));
        }
        assert forall|i: int| 0 <= i < head.len() - 1 implies (#[trigger] head[i]).result is Err by {
            assert(tries[i].result is Err);
        }
        lemma_tries_told(head);
        if n > 1 {
            assert(tries[n - 2].result is Err);
        }
        let before = tried_told(head);
        let early = tried_calls(head);
        assert(before.len() == 2 * (n - 1));
        assert forall|i: int| 0 <= i < told.len() implies entry_told(calls, i, #[trigger] told[i]) by {
            if i < before.len() {
                assert(told[i] == before[i]);
                assert(entry_told(early, i, before[i]));
                if i % 2 != 0 {
                    let text = before[i]->ConnectError_error;
                    let k = i / 2 + 1;
                    let j = choose|j: int|
                        0 <= j < early.len() && resets(early.take(j + 1)) == k && ((
                        #[trigger] early[j]).result matches Err(e) && text == error_text(e));
                    assert(calls[j] == early[j]);
                    assert(calls.take(j + 1) =~= early.take(j + 1));
                }
            } else {
                assert(told[i] == last.told[i - before.len()]);
                let k = calls.len() - 1;
                assert(calls[k] == last.calls.last());
                assert(calls.take(k + 1) =~= calls);
                lemma_attempts_of(tries);
            }
        }
    }
}

/// While the bootloader is entered, each attempt is told by its number of five, and its
/// failure by the same number with the text of the error that a call failed with. An
/// attempt that succeeds is the last that is told.
pub proof fn law_connecting_told(phase: Phase<()>)
    requires
        connects(phase),
    ensures
        phase.told.len() == if phase.result is Ok {
            2 * resets(phase.calls) - 1
        } else {
            10
        },
        forall|i: int|
            0 <= i < phase.told.len() ==> entry_told(phase.calls, i, #[trigger] phase.told[i]),
{
    let tries = choose|tries: Seq<Phase<()>>| connects_in(tries, phase);
    lemma_tries_told(tries);
    law_one_reset_per_attempt(phase);
    lemma_attempts_counted(phase, tries);
}

/// An erase of pages `start..end`, with 30 seconds to do it.
pub open spec fn erases_range(op: Op, start: int, end: int) -> bool {
    op matches Op::Erase { pages, timeout } && timeout == duration_of_millis(30_000) && pages.len()
        == end - start && forall|i: int| 0 <= i < pages.len() ==> #[trigger] pages[i] == start + i
}

/// The page list was rejected: a NACK to the payload.
pub open spec fn rejected(call: Call) -> bool {
    call.result matches Err(ErrorView::Nack { stage, .. }) && stage == NackStage::Payload
}

/// `pages` is the flash size of some chip of the family, and no larger than that of the
/// chip with this id.
pub open spec fn flash_size_of(pages: int, id: u16) -> bool {
    &&& pages == 128 || pages == 256 || pages == 512 || pages == 1024 || pages == 1536
    &&& id == 0x457 ==> pages <= 128
    &&& id == 0x425 ==> pages <= 256
    &&& id == 0x417 ==> pages <= 512
}

/// An erase that stopped at `pages` pages is a success if that is a flash size of the
/// chip. Otherwise the error says how many pages and KiB were erased, of 128 bytes per
/// page, and on which chip.
pub proof fn law_verdict(pages: int, id: u16)
    requires
        0 <= pages <= usize::MAX,
    ensures
        flash_size_of(pages, id) ==> verdict(pages, id) == Ok::<_, ErrorView>(pages),
        !flash_size_of(pages, id) ==> (verdict(pages, id) matches Err(ErrorView::PartialErase {
            erased,
            kib,
            id: i,
        }) && erased == pages && kib == pages / 8 && i == id),
{
    law_density_pages(pages);
    law_flash_limits(id);
}

proof fn lemma_range(start: int, end: int)
    requires
        0 <= start <= end <= 1536,
    ensures
        erases_range(erase_op(start, end), start, end),
{
    let pages = page_range(start, end);
    assert forall|i: int| 0 <= i < pages.len() implies #[trigger] pages[i] == start + i by {}
}

/// What a search knows: the good length was not shown to be too long, and the bad one
/// was, by the trial of it or from the start.
proof fn lemma_narrowed(calls: Seq<Call>, start: int, width: int, n: int)
    requires
        0 <= n <= calls.len(),
        1 <= width,
        halves(calls, start, width, n),
        forall|j: int| 0 <= j < n ==> decides(#[trigger] calls[j]),
    ensures
        ({
            let (good, bad) = narrowed(calls, width, n);
            &&& 0 <= good < bad <= width
            &&& bad == width || exists|j: int|
                0 <= j < n && (#[trigger] calls[j]).result is Err && calls[j].op == erase_op(
                    start,
                    start + bad,
                )
        }),
    decreases n,
{
    if n == 0 {
        assert(narrowed(calls, width, n) == (0int, width)) by {
            reveal_with_fuel(narrowed, 2);
        }
    } else {
        lemma_narrowed(calls, start, width, n - 1);
        let (good, bad) = narrowed(calls, width, n - 1);
        assert(narrowed(calls, width, n) == if calls[n - 1].result is Ok {
            (midpoint(good, bad), bad)
        } else {
            (good, midpoint(good, bad))
        }) by {
            reveal_with_fuel(narrowed, 2);
        }
        assert(bad - good > 1 && calls[n - 1].op == erase_op(start, start + midpoint(good, bad)));
        if calls[n - 1].result is Ok {
            if bad != width {
                let j = choose|j: int|
                    0 <= j < n - 1 && (#[trigger] calls[j]).result is Err && calls[j].op == erase_op(
                        start,
                        start + bad,
                    );
                assert(calls[j].result is Err);
            }
        }
    }
}

/// The flash ends at `found`, in a range that begins at `start` and of which the pages
/// up to `end` were rejected: what is below was erased by the last call, and page
/// `found` was rejected.
pub open spec fn ends_at(calls: Seq<Call>, start: int, end: int, found: int) -> bool {
    &&& start <= found < end
    &&& found > start ==> calls.len() > 0 && calls.last().result is Ok && erases_range(
        calls.last().op,
        start,
        found,
    )
    &&& found + 1 == end || exists|j: int|
        0 <= j < calls.len() && rejected(#[trigger] calls[j]) && erases_range(
            calls[j].op,
            start,
            found + 1,
        )
}

/// A search for the end of flash in `start..end` tries only ranges from `start` on that
/// stay below `end`. If it finds the end, everything below was erased by its last call and
/// the page at the end was rejected. It fails only with the error of its last call.
pub proof fn law_search(calls: Seq<Call>, start: int, end: int, r: Result<int, ErrorView>)
    requires
        searches(calls, start, end, r),
        0 <= start < end <= 1536,
    ensures
        forall|i: int|
            0 <= i < calls.len() ==> exists|x: int|
                start < x < end && #[trigger] erases_range((#[trigger] calls[i]).op, start, x),
        match r {
            Ok(found) => ends_at(calls, start, end, found),
            Err(e) => calls.len() > 0 && calls.last().result == Err::<Reply, _>(e),
        },
{
    let n = choose|n: int| search_ends(calls, start, end, n, r);
    let width = end - start;
    let whole: int = if 0 < n == calls.len() && calls[n - 1].result is Err && !decides(calls[n - 1]) {
        n - 1
    } else {
        n
    };
    assert forall|i: int| 0 <= i < calls.len() implies exists|x: int|
        start < x < end && #[trigger] erases_range((#[trigger] calls[i]).op, start, x) by {
        if i < n {
            lemma_narrowed(calls, start, width, i);
            let (good, bad) = narrowed(calls, width, i);
            let x = start + midpoint(good, bad);
            assert(bad - good > 1 && calls[i].op == erase_op(start, x));
            lemma_range(start, x);
            assert(erases_range(calls[i].op, start, x));
        } else {
            lemma_narrowed(calls, start, width, n);
            let (good, bad) = narrowed(calls, width, n);
            lemma_range(start, start + good);
            assert(erases_range(calls[i].op, start, start + good));
        }
    }
    if let Ok(found) = r {
        lemma_narrowed(calls, start, width, n);
        let (good, bad) = narrowed(calls, width, n);
        assert(found == start + good);
        assert(bad == good + 1);
        lemma_range(start, found);
        lemma_range(start, found + 1);
        if found + 1 != end {
            let j = choose|j: int|
                0 <= j < n && (#[trigger] calls[j]).result is Err && calls[j].op == erase_op(
                    start,
                    start + bad,
                );
            assert(decides(calls[j]));
            law_payload_nack(calls[j].result->Err_0);
            assert(rejected(calls[j]));
        }
    }
}

/// Where chunk `k` of 80 pages ends on the largest chip.
pub open spec fn chunk_end(k: int) -> int {
    if 80 * k + 80 <= 1536 {
        80 * k + 80
    } else {
        1536
    }
}

/// A full-chip erase in which `m` chunks of 80 pages from page 0 on were erased. All
/// twenty are the 1536 pages of the largest chip. If the next one was not erased, the
/// first, or for another reason than a rejected page list, that error is the result.
/// Otherwise the end of flash is in it: it is searched for there, and where it is found
/// decides the result.
pub open spec fn chip_erased(id: u16, m: int, phase: Phase<int>) -> bool {
    let Phase { calls, result, told } = phase;
    let start = 80 * m;
    let end = chunk_end(m);
    &&& 0 <= m <= 20
    &&& m <= calls.len()
    &&& forall|i: int|
        0 <= i < m ==> is_chunk((#[trigger] calls[i]).op, i, 1536) && calls[i].result is Ok
    &&& forall|i: int|
        0 <= i <= m && i < told.len() ==> #[trigger] told[i] == (ProgressView::Erase {
            pages_done: done_after(i, 80, 1536),
            pages_total: 1536,
        })
    &&& if m == 20 {
        calls.len() == 20 && result == Ok::<_, ErrorView>(1536int) && told.len() == 21
    } else {
        &&& calls.len() > m
        &&& is_chunk(calls[m].op, m, 1536)
        &&& calls[m].result is Err
        &&& if m == 0 || !rejected(calls[m]) {
            calls.len() == m + 1 && told.len() == m + 1 && calls[m].result == Err::<Reply, _>(
                result->Err_0,
            ) && result is Err
        } else {
            ||| {
                &&& told.len() == m + 1
                &&& calls.len() > m + 1
                &&& result is Err
                &&& calls.last().result == Err::<Reply, _>(result->Err_0)
            }
            ||| exists|found: int|
                {
                    &&& #[trigger] ends_at(calls.skip(m + 1), start, end, found)
                    &&& told.len() == m + 2
                    &&& told[m + 1] == (ProgressView::Erase {
                        pages_done: found,
                        pages_total: found,
                    })
                    &&& if flash_size_of(found, id) {
                        result == Ok::<_, ErrorView>(found)
                    } else {
                        result matches Err(ErrorView::PartialErase { erased, kib, id: i }) && erased
                            == found && kib == found / 8 && i == id
                    }
                }
        }
    }
}

/// A full-chip erase goes through the flash in chunks of 80 pages from page 0 on, and
/// finds where it ends.
pub proof fn law_chip_erase(id: u16, phase: Phase<int>)
    requires
        erases_chip(id, phase),
    ensures
        exists|m: int| #[trigger] chip_erased(id, m, phase),
{
    let (m, found) = choose|m: int, found: Result<int, ErrorView>|
        chip_erase_ends(id, m, found, phase);
    lemma_chip_erased(id, m, found, phase);
    assert(chip_erased(id, m, phase));
}

proof fn lemma_chip_erased(id: u16, m: int, found: Result<int, ErrorView>, phase: Phase<int>)
    requires
        chip_erase_ends(id, m, found, phase),
    ensures
        chip_erased(id, m, phase),
{
    let Phase { calls, result, told } = phase;
    let plan = erase_plan(1536);
    let steps = erase_progress(1536);
    assert(max_pages() == 1536);
    assert(plan.len() == 20 && steps.len() == 21);
    assert forall|k: int| 0 <= k < 20 implies is_chunk(#[trigger] plan[k], k, 1536) by {}
    assert forall|i: int| 0 <= i < m implies is_chunk((#[trigger] calls[i]).op, i, 1536) && calls[i]
        .result is Ok by {
        assert(calls[i].op == plan[i]);
    }
    assert forall|i: int| 0 <= i <= m && i < told.len() implies #[trigger] told[i] == (
    ProgressView::Erase { pages_done: done_after(i, 80, 1536), pages_total: 1536 }) by {
        assert(told[i] == steps[i]);
        assert(chunk_start(i, 1536) == done_after(i, 80, 1536));
    }
    if m < 20 {
        assert(calls[m].op == plan[m]);
        let start = 80 * m;
        let end = chunk_end(m);
        assert(start == chunk_start(m, 1536) && end == chunk_start(m + 1, 1536));
        law_payload_nack(calls[m].result->Err_0);
        if m > 0 && rejected(calls[m]) {
            let tail = calls.skip(m + 1);
            law_search(tail, start, end, found);
            match found {
                Ok(f) => {
                    law_verdict(f, id);
                    assert(ends_at(calls.skip(m + 1), start, end, f));
                    assert(told.len() == m + 2);
                },
                Err(_) => {
                    assert(tail.last() == calls.last());
                },
            }
        }
    }
}

/// Some call erased page `q`.
pub open spec fn page_erased(calls: Seq<Call>, q: int) -> bool {
    exists|i: int|
        0 <= i < calls.len() && (#[trigger] calls[i]).result is Ok && (calls[i].op matches
            Op::Erase { pages, .. } && exists|j: int| 0 <= j < pages.len() && #[trigger] pages[j] == q)
}

proof fn lemma_page_erased(calls: Seq<Call>, i: int, q: int, j: int)
    requires
        0 <= i < calls.len(),
        calls[i].result is Ok,
        calls[i].op is Erase,
        0 <= j < calls[i].op->Erase_pages.len(),
        calls[i].op->Erase_pages[j] == q,
    ensures
        page_erased(calls, q),
{
}

/// A full-chip erase that succeeds with `pages` pages has, for every page below, a call
/// that erased it, and `pages` is 1536 or a flash size of the chip.
pub proof fn law_chip_erase_erases(id: u16, phase: Phase<int>, pages: int, q: int)
    requires
        erases_chip(id, phase),
        phase.result == Ok::<_, ErrorView>(pages),
        0 <= q < pages,
    ensures
        page_erased(phase.calls, q),
        pages == 1536 || flash_size_of(pages, id),
{
    law_chip_erase(id, phase);
    let m = choose|m: int| #[trigger] chip_erased(id, m, phase);
    let calls = phase.calls;
    if q < 80 * m {
        let k = q / 80;
        assert(is_chunk(calls[k].op, k, 1536));
        lemma_page_erased(calls, k, q, q - 80 * k);
    } else {
        let tail = calls.skip(m + 1);
        let last = calls.len() - 1;
        assert(tail.last() == calls[last]);
        lemma_page_erased(calls, last, q, q - 80 * m);
    }
}

/// The call is answered as by a device of `boundary` pages: an erase succeeds if every
/// page of its list is there, and otherwise the list is rejected.
pub open spec fn answers(call: Call, boundary: int) -> bool {
    call.op matches Op::Erase { pages, .. } ==> if forall|i: int|
        0 <= i < pages.len() ==> #[trigger] pages[i] < boundary {
        call.result is Ok
    } else {
        rejected(call)
    }
}

proof fn lemma_answers(call: Call, boundary: int, start: int, end: int)
    requires
        answers(call, boundary),
        erases_range(call.op, start, end),
        0 <= start < end,
    ensures
        call.result is Ok <==> end <= boundary,
        call.result is Err ==> rejected(call),
{
    let pages = call.op->Erase_pages;
    assert(pages[end - 1 - start] == end - 1);
}

proof fn lemma_chunk_range(op: Op, k: int)
    requires
        is_chunk(op, k, 1536),
        0 <= k < 20,
    ensures
        erases_range(op, 80 * k, chunk_end(k)),
{
}

/// On a device of `boundary` pages, 80 or more, a full-chip erase that gives a number of
/// pages gives `boundary`.
pub proof fn law_chip_erase_finds(id: u16, phase: Phase<int>, boundary: int, pages: int)
    requires
        erases_chip(id, phase),
        80 <= boundary <= 1536,
        forall|i: int| 0 <= i < phase.calls.len() ==> answers(#[trigger] phase.calls[i], boundary),
        phase.result == Ok::<_, ErrorView>(pages),
    ensures
        pages == boundary,
{
    law_chip_erase(id, phase);
    let m = choose|m: int| #[trigger] chip_erased(id, m, phase);
    let calls = phase.calls;
    if m > 0 {
        assert(is_chunk(calls[m - 1].op, m - 1, 1536));
        lemma_chunk_range(calls[m - 1].op, m - 1);
        lemma_answers(calls[m - 1], boundary, 80 * (m - 1), chunk_end(m - 1));
    }
    if m < 20 {
        let start = 80 * m;
        let end = chunk_end(m);
        lemma_chunk_range(calls[m].op, m);
        lemma_answers(calls[m], boundary, start, end);
        let tail = calls.skip(m + 1);
        assert(ends_at(tail, start, end, pages));
        if pages > start {
            let last = calls.len() - 1;
            assert(tail.last() == calls[last]);
            lemma_answers(calls[last], boundary, start, pages);
        }
        if pages + 1 != end {
            let j = choose|j: int|
                0 <= j < tail.len() && rejected(#[trigger] tail[j]) && erases_range(
                    tail[j].op,
                    start,
                    pages + 1,
                );
            assert(tail[j] == calls[m + 1 + j]);
            lemma_answers(calls[m + 1 + j], boundary, start, pages + 1);
        }
    }
}

/// An operation that enters the bootloader and identifies the chip: the first `c` calls
/// and `t` things told are those of entering. If that failed, it is all. Otherwise `Get
/// ID` is next: if it fails the chip is reset into the application and its error is the
/// result; if it gives `id`, that is told and the rest follows.
pub open spec fn identified<R>(phase: Phase<R>, c: int, t: int, id: u16) -> bool {
    let Phase { calls, result, told } = phase;
    &&& 0 < c <= calls.len()
    &&& 0 <= t <= told.len()
    &&& if c == calls.len() {
        &&& t == told.len()
        &&& result is Err
        &&& connects(Phase { calls, result: Err(result->Err_0), told })
    } else {
        &&& connects(Phase { calls: calls.take(c), result: Ok(()), told: told.take(t) })
        &&& calls[c].op == Op::GetId
        &&& match calls[c].result {
            Err(e) => {
                &&& calls.len() == c + 2
                &&& calls[c + 1].op == Op::ResetIntoApp
                &&& told.len() == t
                &&& result == Err::<R, _>(e)
            },
            Ok(reply) => {
                &&& reply == (Reply::Id { id })
                &&& told.len() > t
                &&& told[t] == (ProgressView::ChipIdentified { id })
            },
        }
    }
}

/// The chip was identified, so there is more to do.
pub open spec fn goes_further<R>(phase: Phase<R>, c: int) -> bool {
    c < phase.calls.len() && phase.calls[c].result is Ok
}

/// A flash operation whose chip was identified by call `c`: up to call `p` the image is
/// programmed, with the options as they are. If that failed, it is all. Otherwise, if
/// the application is to be started, that is told and one more call made, `Go` to the
/// start of flash or a reset, which decides the result.
pub open spec fn flashed(
    firmware: Seq<u8>,
    opts: FlashOptions,
    phase: Phase<()>,
    c: int,
    t: int,
    p: int,
    s: int,
) -> bool {
    let Phase { calls, result, told } = phase;
    let outcome = if p == calls.len() {
        result
    } else {
        Ok(())
    };
    &&& c < p <= calls.len()
    &&& t < s <= told.len()
    &&& programs(
        firmware,
        opts.erase,
        opts.verify,
        Phase { calls: calls.subrange(c + 1, p), result: outcome, told: told.subrange(t + 1, s) },
    )
    &&& if outcome is Ok && opts.run {
        &&& calls.len() == p + 1
        &&& told.len() == s + 1
        &&& told[s] == ProgressView::Starting
        &&& calls[p].op == if opts.go {
            Op::Go { addr: 0x0800_0000 }
        } else {
            Op::ResetIntoApp
        }
        &&& match calls[p].result {
            Ok(_) => result is Ok,
            Err(e) => result == Err::<(), _>(e),
        }
    } else {
        calls.len() == p && told.len() == s
    }
}

/// Flashing an image of 1 byte to 192 KiB enters the bootloader, identifies the chip,
/// programs the image and starts the application, in this order, and stops at what
/// fails.
pub proof fn law_flashing(firmware: Seq<u8>, opts: FlashOptions, phase: Phase<()>)
    requires
        flashes(firmware, opts, phase),
        1 <= firmware.len() <= 0x3_0000,
    ensures
        exists|c: int, t: int, id: u16| #[trigger]
            identified(phase, c, t, id) && (goes_further(phase, c) ==> exists|p: int, s: int|
                #[trigger] flashed(firmware, opts, phase, c, t, p, s)),
{
    let (a, b, d, f) = choose|a: Phase<()>, b: Phase<u16>, d: Phase<()>, f: Phase<()>|
        {
            &&& #[trigger] flashes_in(firmware, opts, a, b, d, f)
            &&& phase == in_turn(in_turn(in_turn(a, b), d), f)
        };
    let c = a.calls.len() as int;
    let t = a.told.len() as int;
    lemma_connecting_shape(a);
    let Phase { calls, result, told } = phase;
    if a.result is Err {
        assert(identified(phase, c, t, 0));
    } else {
        assert(calls.take(c) =~= a.calls);
        assert(told.take(t) =~= a.told);
        let id = match b.result {
            Ok(id) => id,
            Err(_) => 0,
        };
        assert(calls[c] == b.calls[0]);
        if b.result is Err {
            assert(calls[c + 1] == b.calls[1]);
            assert(identified(phase, c, t, id));
        } else {
            assert(told[t] == b.told[0]);
            assert(identified(phase, c, t, id));
            let p = c + 1 + d.calls.len() as int;
            let s = t + 1 + d.told.len() as int;
            lemma_flashed(firmware, opts, a, b, d, f);
            assert(flashed(firmware, opts, phase, c, t, p, s));
        }
    }
}

/// The part of a flash operation behind the identification.
proof fn lemma_flashed(
    firmware: Seq<u8>,
    opts: FlashOptions,
    a: Phase<()>,
    b: Phase<u16>,
    d: Phase<()>,
    f: Phase<()>,
)
    requires
        flashes_in(firmware, opts, a, b, d, f),
        a.result is Ok,
        b.result is Ok,
    ensures
        flashed(
            firmware,
            opts,
            in_turn(in_turn(in_turn(a, b), d), f),
            a.calls.len() as int,
            a.told.len() as int,
            a.calls.len() as int + 1 + d.calls.len() as int,
            a.told.len() as int + 1 + d.told.len() as int,
        ),
{
    let phase = in_turn(in_turn(in_turn(a, b), d), f);
    let Phase { calls, result, told } = phase;
    let c = a.calls.len() as int;
    let t = a.told.len() as int;
    let p = c + 1 + d.calls.len() as int;
    let s = t + 1 + d.told.len() as int;
    assert(b.calls.len() == 1 && b.told.len() == 1);
    assert(calls.subrange(c + 1, p) =~= d.calls);
    assert(told.subrange(t + 1, s) =~= d.told);
    assert(starts(opts, f) || d.result is Err);
    if d.result is Ok {
        if opts.run {
            assert(calls.len() == p + 1);
            assert(told.len() == s + 1);
            assert(calls[p] == f.calls[0]);
            assert(told[s] == f.told[0]);
        } else {
            assert(f.calls.len() == 0 && f.told.len() == 0);
            assert(calls.len() == p && told.len() == s);
        }
    } else {
        assert(calls.len() == p && told.len() == s);
    }
    let outcome = if p == calls.len() {
        result
    } else {
        Ok(())
    };
    if d.result is Ok {
        assert(d.result->Ok_0 == ());
        if p == calls.len() {
            assert(result->Ok_0 == ());
        }
    }
    assert(outcome == d.result);
    assert(d == (Phase {
        calls: calls.subrange(c + 1, p),
        result: outcome,
        told: told.subrange(t + 1, s),
    }));
}

/// Entering the bootloader takes at least one call.
proof fn lemma_connecting_shape(phase: Phase<()>)
    requires
        connects(phase),
    ensures
        phase.calls.len() > 0,
{
    law_connecting(phase);
}

/// An image of no bytes, or of more than 192 KiB, is rejected, the latter with its size
/// and the limit; nothing is done to the device and nothing told.
pub proof fn law_bad_length(firmware: Seq<u8>, opts: FlashOptions, phase: Phase<()>)
    requires
        flashes(firmware, opts, phase),
        firmware.len() == 0 || 0x3_0000 < firmware.len() <= usize::MAX,
    ensures
        phase.calls.len() == 0,
        phase.told.len() == 0,
        firmware.len() == 0 ==> phase.result == Err::<(), _>(
            ErrorView::InvalidArgument { context: "firmware image is empty (nothing to flash)"@ },
        ),
        firmware.len() > 0 ==> (phase.result matches Err(ErrorView::FirmwareTooLarge {
            size,
            max,
            max_kib,
        }) && size == firmware.len() && max == 0x3_0000 && max_kib == 192),
{
}

/// Exactly the lengths from 1 byte to 192 KiB are good.
pub proof fn law_good_lengths(len: int)
    requires
        0 <= len <= usize::MAX,
    ensures
        length_fault(len) is None <==> 1 <= len <= 0x3_0000,
        len == 0 ==> length_fault(len) == Some(
            ErrorView::InvalidArgument { context: "firmware image is empty (nothing to flash)"@ },
        ),
        len > 0x3_0000 ==> (length_fault(len) matches Some(ErrorView::FirmwareTooLarge {
            size,
            max,
            max_kib,
        }) && size == len && max == 0x3_0000 && max_kib == 192),
{
}

/// A flash operation that succeeds, whatever its options, has written every block of the
/// image: for block `k` there is a write that succeeded, at 256 times `k` from the start
/// of flash, whose data begins with the block.
pub proof fn law_flash_writes_image(
    firmware: Seq<u8>,
    opts: FlashOptions,
    phase: Phase<()>,
    k: int,
)
    requires
        flashes(firmware, opts, phase),
        phase.result is Ok,
        firmware.len() <= 0x3_0000,
        forall|i: int| 0 <= i < phase.calls.len() ==> #[trigger] phase.calls[i].valid(),
        0 <= k,
        256 * k < firmware.len(),
    ensures
        exists|i: int|
            0 <= i < phase.calls.len() && (#[trigger] phase.calls[i]).result is Ok
                && is_block_write(phase.calls[i].op, firmware, k),
{
    law_flashing(firmware, opts, phase);
    let (c, t, id) = choose|c: int, t: int, id: u16| #[trigger]
        identified(phase, c, t, id) && (goes_further(phase, c) ==> exists|p: int, s: int|
            #[trigger] flashed(firmware, opts, phase, c, t, p, s));
    let calls = phase.calls;
    assert(goes_further(phase, c));
    let (p, s) = choose|p: int, s: int| #[trigger] flashed(firmware, opts, phase, c, t, p, s);
    let part = Phase {
        calls: calls.subrange(c + 1, p),
        result: Ok::<(), ErrorView>(()),
        told: phase.told.subrange(t + 1, s),
    };
    assert forall|i: int| 0 <= i < part.calls.len() implies #[trigger] part.calls[i].valid() by {
        assert(part.calls[i] == calls[c + 1 + i]);
    }
    law_every_block_written(firmware, opts.erase, opts.verify, part, k);
    let i = choose|i: int|
        0 <= i < part.calls.len() && (#[trigger] part.calls[i]).result is Ok && is_block_write(
            part.calls[i].op,
            firmware,
            k,
        );
    assert(calls[c + 1 + i] == part.calls[i]);
}

/// A standalone erase whose chip was identified as `id` by call `c`: up to call `p` the
/// whole chip is erased. If that failed, it is all. Otherwise the chip is reset into the
/// application, and if that succeeds the result is the number of pages that were erased.
pub open spec fn wiped_clean(phase: Phase<int>, c: int, t: int, id: u16, p: int) -> bool {
    let Phase { calls, result, told } = phase;
    &&& c < p <= calls.len()
    &&& exists|pages: Result<int, ErrorView>|
        {
            &&& #[trigger] erases_chip(
                id,
                Phase {
                    calls: calls.subrange(c + 1, p),
                    result: pages,
                    told: told.skip(t + 1),
                },
            )
            &&& match pages {
                Err(e) => calls.len() == p && result == Err::<int, _>(e),
                Ok(n) => {
                    &&& calls.len() == p + 1
                    &&& calls[p].op == Op::ResetIntoApp
                    &&& match calls[p].result {
                        Ok(_) => result == Ok::<_, ErrorView>(n),
                        Err(e) => result == Err::<int, _>(e),
                    }
                },
            }
        }
}

/// A standalone erase enters the bootloader, identifies the chip, erases the whole of it,
/// whichever chip it is, and resets it into the application, in this order, and stops at
/// what fails.
pub proof fn law_wiping(phase: Phase<int>)
    requires
        wipes(phase),
    ensures
        exists|c: int, t: int, id: u16| #[trigger]
            identified(phase, c, t, id) && (goes_further(phase, c) ==> exists|p: int| #[trigger]
                wiped_clean(phase, c, t, id, p)),
{
    let (a, b, d, f) = choose|a: Phase<()>, b: Phase<u16>, d: Phase<int>, f: Phase<int>|
        {
            &&& #[trigger] wipes_in(a, b, d, f)
            &&& phase == in_turn(in_turn(in_turn(a, b), d), f)
        };
    let c = a.calls.len() as int;
    let t = a.told.len() as int;
    lemma_connecting_shape(a);
    let Phase { calls, result, told } = phase;
    if a.result is Err {
        assert((Phase { calls, result: Err::<(), _>(result->Err_0), told }) == a);
        assert(identified(phase, c, t, 0));
    } else {
        assert(calls.take(c) =~= a.calls);
        assert(told.take(t) =~= a.told);
        let id = match b.result {
            Ok(id) => id,
            Err(_) => 0,
        };
        assert(calls[c] == b.calls[0]);
        if b.result is Err {
            assert(calls[c + 1] == b.calls[1]);
            assert(identified(phase, c, t, id));
        } else {
            assert(told[t] == b.told[0]);
            assert(identified(phase, c, t, id));
            let p = c + 1 + d.calls.len() as int;
            assert(calls.subrange(c + 1, p) =~= d.calls);
            if d.result is Ok {
                assert(calls[p] == f.calls[0]);
                assert(f.told.len() == 0);
            }
            assert(told.skip(t + 1) =~= d.told);
            let part = Phase {
                calls: calls.subrange(c + 1, p),
                result: d.result,
                told: told.skip(t + 1),
            };
            assert(part == d);
            assert(erases_chip(id, part));
            assert(wiped_clean(phase, c, t, id, p));
        }
    }
}

/// A standalone erase that succeeds with `pages` pages has among its own calls, for every
/// page below and whichever chip it is, one that erased it. `pages` is 1536 or a flash
/// size of the chip that `Get ID` named, and on a device of `boundary` pages it is
/// `boundary`.
pub proof fn law_wipe_erases(phase: Phase<int>, pages: int, q: int, boundary: int)
    requires
        wipes(phase),
        phase.result == Ok::<_, ErrorView>(pages),
    ensures
        0 <= q < pages ==> page_erased(phase.calls, q),
        pages > 0 ==> pages == 1536 || exists|i: int, id: u16|
            0 <= i < phase.calls.len() && (#[trigger] phase.calls[i]).op == Op::GetId
                && phase.calls[i].result == Ok::<_, ErrorView>(Reply::Id { id }) && #[trigger]
                flash_size_of(pages, id),
        80 <= boundary <= 1536 && (forall|i: int|
            0 <= i < phase.calls.len() ==> answers(#[trigger] phase.calls[i], boundary)) ==> pages
            == boundary,
{
    law_wiping(phase);
    let (c, t, id) = choose|c: int, t: int, id: u16| #[trigger]
        identified(phase, c, t, id) && (goes_further(phase, c) ==> exists|p: int| #[trigger]
            wiped_clean(phase, c, t, id, p));
    let calls = phase.calls;
    assert(goes_further(phase, c));
    let p = choose|p: int| #[trigger] wiped_clean(phase, c, t, id, p);
    let part = Phase {
        calls: calls.subrange(c + 1, p),
        result: Ok::<_, ErrorView>(pages),
        told: phase.told.skip(t + 1),
    };
    assert(erases_chip(id, part));
    if 0 <= q < pages {
        law_chip_erase_erases(id, part, pages, q);
        let i = choose|i: int|
            0 <= i < part.calls.len() && (#[trigger] part.calls[i]).result is Ok && (
            part.calls[i].op matches Op::Erase { pages, .. } && exists|j: int|
                0 <= j < pages.len() && #[trigger] pages[j] == q);
        assert(calls[c + 1 + i] == part.calls[i]);
    }
    if pages > 0 {
        law_chip_erase_erases(id, part, pages, 0);
        assert(calls[c].op == Op::GetId);
    }
    if 80 <= boundary <= 1536 && (forall|i: int|
        0 <= i < calls.len() ==> answers(#[trigger] calls[i], boundary)) {
        assert forall|i: int| 0 <= i < part.calls.len() implies answers(
            #[trigger] part.calls[i],
            boundary,
        ) by {
            assert(part.calls[i] == calls[c + 1 + i]);
        }
        law_chip_erase_finds(id, part, boundary, pages);
    }
}

/// Entering for info: the bootloader is entered and, if that worked, `Get ID` asked once.
/// An id is told; an error is the result, with the device left as it is. `stuck` says
/// that it was entering that failed.
pub proof fn law_entering(phase: Phase<u16>, stuck: bool)
    requires
        enters(phase, stuck),
    ensures
        exists|c: int, t: int|
            0 < c <= phase.calls.len() && 0 <= t <= phase.told.len() && #[trigger] entered(
                phase,
                stuck,
                c,
                t,
            ),
{
    let (a, b) = choose|a: Phase<()>, b: Phase<u16>|
        {
            &&& #[trigger] enters_in(a, b)
            &&& phase == in_turn(a, b)
            &&& stuck == a.result is Err
        };
    let c = a.calls.len() as int;
    let t = a.told.len() as int;
    lemma_connecting_shape(a);
    if a.result is Err {
        assert(a == (Phase {
            calls: phase.calls,
            result: Err::<(), _>(phase.result->Err_0),
            told: phase.told,
        }));
    } else {
        assert(phase.calls.take(c) =~= a.calls);
        assert(phase.told.take(t) =~= a.told);
        assert(phase.calls[c] == b.calls[0]);
        if b.result is Ok {
            assert(phase.told[t] == b.told[0]);
        }
    }
    assert(entered(phase, stuck, c, t));
}

/// The first `c` calls and `t` things told are those of entering the bootloader, and what
/// follows is one `Get ID`.
pub open spec fn entered(phase: Phase<u16>, stuck: bool, c: int, t: int) -> bool {
    let Phase { calls, result, told } = phase;
    if stuck {
        &&& c == calls.len()
        &&& t == told.len()
        &&& result is Err
        &&& connects(Phase { calls, result: Err(result->Err_0), told })
    } else {
        &&& calls.len() == c + 1
        &&& connects(Phase { calls: calls.take(c), result: Ok(()), told: told.take(t) })
        &&& calls[c].op == Op::GetId
        &&& match result {
            Ok(id) => {
                &&& calls[c].result == Ok::<_, ErrorView>(Reply::Id { id })
                &&& told.len() == t + 1
                &&& told[t] == (ProgressView::ChipIdentified { id })
            },
            Err(e) => calls[c].result == Err::<Reply, _>(e) && told.len() == t,
        }
    }
}

/// Asking for info fails only in entering and identifying, and says which and why.
/// Otherwise it ends in `Get`, whatever comes of it, and a reset into the application,
/// and hands on what these two came to.
pub proof fn law_informing(
    r: Result<(Result<(u8, Vec<u8>), Error>, Result<(), Error>), EntryError>,
    phase: Phase<()>,
)
    requires
        informs(r, phase),
    ensures
        r matches Err(e) ==> phase.result == Err::<(), _>(e.error@) && enters(
            Phase { calls: phase.calls, result: Err(e.error@), told: phase.told },
            e.step == EntryStep::Connect,
        ),
        r matches Ok((reply, reset)) ==> {
            let n = phase.calls.len() - 2;
            &&& n > 0
            &&& phase.calls[n].op == Op::Get
            &&& match reply {
                Ok((version, commands)) => phase.calls[n].result == Ok::<_, ErrorView>(
                    Reply::Info { version, commands: commands@ },
                ),
                Err(e) => phase.calls[n].result == Err::<Reply, _>(e@),
            }
            &&& phase.calls[n + 1].op == Op::ResetIntoApp
            &&& match reset {
                Ok(()) => phase.calls[n + 1].result == Ok::<_, ErrorView>(Reply::Done),
                Err(e) => phase.calls[n + 1].result == Err::<Reply, _>(e@),
            }
            &&& exists|id: u16| #[trigger]
                enters(
                    Phase { calls: phase.calls.take(n), result: Ok(id), told: phase.told },
                    false,
                )
        },
{
    let (a, b) = choose|a: Phase<u16>, b: Phase<()>|
        {
            &&& #[trigger] informs_in(r, a, b)
            &&& phase == in_turn(a, b)
        };
    match r {
        Err(e) => {
            assert(a == (Phase {
                calls: phase.calls,
                result: Err::<u16, _>(e.error@),
                told: phase.told,
            }));
        },
        Ok((reply, reset)) => {
            law_entering(a, false);
            let n = a.calls.len() as int;
            assert(phase.calls.len() == n + 2);
            assert(phase.calls[n] == b.calls[0]);
            assert(phase.calls[n + 1] == b.calls[1]);
            assert(phase.calls.take(n) =~= a.calls);
            assert(phase.told =~= a.told);
            let id = a.result->Ok_0;
            assert(a == (Phase {
                calls: phase.calls.take(n),
                result: Ok::<_, ErrorView>(id),
                told: phase.told,
            }));
        },
    }
}

/// The number of pages that was returned is the one that was found, and the error the
/// one that was met.
pub proof fn law_page_outcome(r: Result<usize, Error>)
    ensures
        r matches Ok(n) ==> page_outcome(r) == Ok::<int, ErrorView>(n as int),
        r matches Err(e) ==> page_outcome(r) == Err::<int, _>(e@),
{
}

} // verus!
