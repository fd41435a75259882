//! The full-chip erase: how the end of flash is searched for, and what is made
//! of it.

use vstd::prelude::*;

use crate::bootloader::Reply;
use crate::error::{is_payload_nack, ErrorView};
use crate::plan::{
    chunk_start, erase_op, erase_pages_of, erase_phase, erase_plan, erase_progress, footprint,
    law_erase_covers, max_pages, page_range,
};
use crate::progress::ProgressView;
use crate::session::{Call, Phase};
use crate::target::{flash_limit, is_density, ERASE_CHUNK, FLASH_DENSITIES_PAGES, PAGE_SIZE};

verus! {

/// The length that is tried next between one that was erased and one that was
/// rejected.
pub open spec fn midpoint(good: int, bad: int) -> int {
    good + (bad - good) / 2
}

/// What is known after the first `n` trials on a range of `width` pages, of
/// which the whole was rejected: the longest length that was erased and the
/// shortest that was rejected.
#[verifier::opaque]
pub open spec fn narrowed(trials: Seq<Call>, width: int, n: int) -> (int, int)
    decreases n,
{
    if n <= 0 {
        (0, width)
    } else {
        let (good, bad) = narrowed(trials, width, n - 1);
        if trials[n - 1].result is Ok {
            (midpoint(good, bad), bad)
        } else {
            (good, midpoint(good, bad))
        }
    }
}

/// The call tells whether its pages are in range: they were erased, or the page
/// list was rejected.
pub open spec fn decides(call: Call) -> bool {
    call.result matches Err(e) ==> is_payload_nack(e)
}

/// The first `n` calls halve the range from `start` again and again.
pub open spec fn halves(calls: Seq<Call>, start: int, width: int, n: int) -> bool {
    forall|j: int|
        0 <= j < n ==> {
            let (good, bad) = narrowed(calls, width, j);
            bad - good > 1 && (#[trigger] calls[j]).op == erase_op(
                start,
                start + midpoint(good, bad),
            )
        }
}

/// The search for the first page out of range in `start..end` takes `n` trials
/// and ends with `r`. A trial that does not decide ends it with its error.
/// Otherwise the trials go on until the longest good length is known, which is
/// then erased once more, unless it is zero.
pub open spec fn search_ends(
    calls: Seq<Call>,
    start: int,
    end: int,
    n: int,
    r: Result<int, ErrorView>,
) -> bool {
    &&& 0 <= n <= calls.len()
    &&& halves(calls, start, end - start, n)
    &&& {
        ||| {
            &&& 0 < n == calls.len()
            &&& forall|j: int| 0 <= j < n - 1 ==> decides(#[trigger] calls[j])
            &&& calls[n - 1].result matches Err(e) && !is_payload_nack(e) && r == Err::<int, _>(e)
        }
        ||| {
            let (good, bad) = narrowed(calls, end - start, n);
            &&& forall|j: int| 0 <= j < n ==> decides(#[trigger] calls[j])
            &&& bad - good <= 1
            &&& if good == 0 {
                calls.len() == n && r == Ok::<_, ErrorView>(start)
            } else {
                &&& calls.len() == n + 1
                &&& calls[n].op == erase_op(start, start + good)
                &&& r == match calls[n].result {
                    Ok(_) => Ok(start + good),
                    Err(e) => Err(e),
                }
            }
        }
    }
}

/// The calls search for the first page out of range in `start..end`.
pub open spec fn searches(
    calls: Seq<Call>,
    start: int,
    end: int,
    r: Result<int, ErrorView>,
) -> bool {
    exists|n: int| search_ends(calls, start, end, n, r)
}

/// Whether `pages` can be the whole flash of the chip with this id.
pub open spec fn plausible(pages: int, id: u16) -> bool {
    &&& is_density(pages)
    &&& flash_limit(id) matches Some(limit) ==> pages <= limit as int / PAGE_SIZE as int
}

/// What an erase that stopped after `pages` pages reports.
pub open spec fn verdict(pages: int, id: u16) -> Result<int, ErrorView> {
    if plausible(pages, id) {
        Ok(pages)
    } else {
        Err(
            ErrorView::PartialErase {
                erased: pages as usize,
                kib: (pages * PAGE_SIZE / 1024) as usize,
                id,
            },
        )
    }
}

/// A full-chip erase in which `m` chunks in a row were erased. If the next one
/// was rejected, `found` is what the search for the end of flash in it gave.
pub open spec fn chip_erase_ends(
    id: u16,
    m: int,
    found: Result<int, ErrorView>,
    phase: Phase<int>,
) -> bool {
    let Phase { calls, result: r, told } = phase;
    let plan = erase_plan(max_pages());
    let steps = erase_progress(max_pages());
    &&& 0 <= m <= calls.len()
    &&& m <= plan.len()
    &&& forall|i: int|
        0 <= i < m ==> (#[trigger] calls[i]).op == plan[i] && calls[i].result is Ok
    &&& if m == plan.len() {
        calls.len() == m && r == Ok::<_, ErrorView>(max_pages()) && told == steps
    } else {
        &&& calls.len() > m
        &&& calls[m].op == plan[m]
        &&& calls[m].result matches Err(e) && if m > 0 && is_payload_nack(e) {
            &&& searches(
                calls.skip(m + 1),
                chunk_start(m, max_pages()),
                chunk_start(m + 1, max_pages()),
                found,
            )
            &&& match found {
                Err(f) => r == Err::<int, _>(f) && told == steps.take(m + 1),
                Ok(pages) => {
                    &&& r == verdict(pages, id)
                    &&& told == steps.take(m + 1).push(
                        ProgressView::Erase { pages_done: pages, pages_total: pages },
                    )
                },
            }
        } else {
            calls.len() == m + 1 && r == Err::<int, _>(e) && told == steps.take(m + 1)
        }
    }
}

/// The phase erases a chip of unknown flash size, with product id `id`: chunk by
/// chunk to the family maximum or to the first chunk that is not erased. A
/// rejected page list after the first chunk means that the flash ends in that
/// chunk, and the end is searched for; any other failure is the result.
pub open spec fn erases_chip(id: u16, phase: Phase<int>) -> bool {
    exists|m: int, found: Result<int, ErrorView>| chip_erase_ends(id, m, found, phase)
}

/// The trials after the first `n` do not matter for what is known after those.
proof fn lemma_narrowed_prefix(a: Seq<Call>, b: Seq<Call>, width: int, n: int)
    requires
        n <= a.len(),
        n <= b.len(),
        forall|j: int| 0 <= j < n ==> a[j] == b[j],
    ensures
        narrowed(a, width, n) == narrowed(b, width, n),
    decreases n,
{
    reveal_with_fuel(narrowed, 2);
    if n > 0 {
        lemma_narrowed_prefix(a, b, width, n - 1);
    }
}

/// After these calls the search has come down to `good` and `bad`.
pub(crate) open spec fn searching(
    calls: Seq<Call>,
    start: int,
    width: int,
    good: int,
    bad: int,
) -> bool {
    &&& (good, bad) == narrowed(calls, width, calls.len() as int)
    &&& halves(calls, start, width, calls.len() as int)
    &&& forall|j: int| 0 <= j < calls.len() ==> decides(#[trigger] calls[j])
}

/// One more call leaves what the earlier trials say as it is.
proof fn lemma_one_more(before: Seq<Call>, call: Call, start: int, width: int)
    requires
        halves(before, start, width, before.len() as int),
        forall|j: int| 0 <= j < before.len() ==> decides(#[trigger] before[j]),
    ensures
        halves(before.push(call), start, width, before.len() as int),
        narrowed(before.push(call), width, before.len() as int) == narrowed(
            before,
            width,
            before.len() as int,
        ),
        forall|j: int| 0 <= j < before.len() ==> decides(#[trigger] before.push(call)[j]),
{
    let calls = before.push(call);
    assert forall|j: int| 0 <= j < before.len() implies {
        let (good, bad) = narrowed(calls, width, j);
        bad - good > 1 && (#[trigger] calls[j]).op == erase_op(start, start + midpoint(good, bad))
    } by {
        lemma_narrowed_prefix(before, calls, width, j);
        assert(before[j] == calls[j]);
    }
    lemma_narrowed_prefix(before, calls, width, before.len() as int);
    assert forall|j: int| 0 <= j < before.len() implies decides(#[trigger] calls[j]) by {
        assert(decides(before[j]));
    }
}

/// The start of a search.
pub(crate) proof fn lemma_search_begins(start: int, width: int)
    ensures
        searching(Seq::empty(), start, width, 0, width),
{
    reveal(narrowed);
}

/// One trial of a search.
pub(crate) proof fn lemma_trial(
    before: Seq<Call>,
    call: Call,
    start: int,
    width: int,
    good: int,
    bad: int,
)
    requires
        searching(before, start, width, good, bad),
        bad - good > 1,
        call.op == erase_op(start, start + midpoint(good, bad)),
    ensures
        match call.result {
            Ok(_) => searching(before.push(call), start, width, midpoint(good, bad), bad),
            Err(e) => if is_payload_nack(e) {
                searching(before.push(call), start, width, good, midpoint(good, bad))
            } else {
                searches(before.push(call), start, start + width, Err(e))
            },
        },
{
    let calls = before.push(call);
    lemma_one_more(before, call, start, width);
    assert(calls[before.len() as int] == call);
    assert(narrowed(calls, width, calls.len() as int) == if call.result is Ok {
        (midpoint(good, bad), bad)
    } else {
        (good, midpoint(good, bad))
    }) by {
        reveal_with_fuel(narrowed, 2);
    }
    if let Err(e) = call.result {
        if !is_payload_nack(e) {
            assert(search_ends(calls, start, start + width, calls.len() as int, Err(e)));
        }
    }
}

/// A search that found no page in range.
pub(crate) proof fn lemma_nothing_good(calls: Seq<Call>, start: int, width: int, bad: int)
    requires
        searching(calls, start, width, 0, bad),
        bad <= 1,
    ensures
        searches(calls, start, start + width, Ok(start)),
{
    assert(search_ends(calls, start, start + width, calls.len() as int, Ok(start)));
}

/// A search that ends with the good range erased once more.
pub(crate) proof fn lemma_erased_again(
    before: Seq<Call>,
    call: Call,
    start: int,
    width: int,
    good: int,
    bad: int,
)
    requires
        searching(before, start, width, good, bad),
        bad - good <= 1,
        good != 0,
        call.op == erase_op(start, start + good),
    ensures
        searches(
            before.push(call),
            start,
            start + width,
            match call.result {
                Ok(_) => Ok(start + good),
                Err(e) => Err(e),
            },
        ),
{
    let r = match call.result {
        Ok(_) => Ok(start + good),
        Err(e) => Err(e),
    };
    lemma_one_more(before, call, start, width);
    assert(search_ends(before.push(call), start, start + width, before.len() as int, r));
}

/// The call erased page `q`.
pub open spec fn erased(call: Call, q: int) -> bool {
    call.result is Ok && erase_pages_of(call.op).contains(q as u16)
}

/// Some call erased page `q`.
pub open spec fn wiped(calls: Seq<Call>, q: int) -> bool {
    exists|i: int| 0 <= i < calls.len() && erased(#[trigger] calls[i], q)
}

/// Pages of the chunks that were erased in a row.
proof fn lemma_chunks_wiped(
    id: u16,
    m: int,
    found: Result<int, ErrorView>,
    phase: Phase<int>,
    q: int,
)
    requires
        chip_erase_ends(id, m, found, phase),
        0 <= q < chunk_start(m, max_pages()),
    ensures
        wiped(phase.calls, q),
{
    law_erase_covers(max_pages(), q);
    let k = q / 80;
    assert(k < m);
    assert(phase.calls[k].op == erase_plan(max_pages())[k]);
    assert(erased(phase.calls[k], q));
}

/// Pages that the search left erased.
proof fn lemma_search_wiped(calls: Seq<Call>, start: int, end: int, pages: int, q: int)
    requires
        searches(calls, start, end, Ok(pages)),
        0 <= start <= q < pages,
        end <= max_pages(),
    ensures
        wiped(calls, q),
{
    let n = choose|n: int| search_ends(calls, start, end, n, Ok(pages));
    assert(calls[n].op == erase_op(start, pages));
    assert(page_range(start, pages)[q - start] == q as u16);
    assert(erased(calls[n], q));
}

/// A page that was wiped in a part of the calls was wiped.
proof fn lemma_wiped_later(calls: Seq<Call>, from: int, q: int)
    requires
        0 <= from <= calls.len(),
        wiped(calls.skip(from), q),
    ensures
        wiped(calls, q),
{
    let tail = calls.skip(from);
    let i = choose|i: int| 0 <= i < tail.len() && erased(#[trigger] tail[i], q);
    assert(erased(calls[from + i], q));
}

/// A full-chip erase that reports success for `pages` pages has erased each of
/// them, and `pages` is the family maximum or a plausible flash size of the chip.
pub proof fn law_erased_chip(id: u16, phase: Phase<int>, pages: int, q: int)
    requires
        erases_chip(id, phase),
        phase.result == Ok::<_, ErrorView>(pages),
        0 <= q < pages,
    ensures
        wiped(phase.calls, q),
        pages == max_pages() || plausible(pages, id),
{
    let (m, found) = choose|m: int, found: Result<int, ErrorView>|
        chip_erase_ends(id, m, found, phase);
    if q < chunk_start(m, max_pages()) {
        lemma_chunks_wiped(id, m, found, phase, q);
    } else {
        let tail = phase.calls.skip(m + 1);
        let start = chunk_start(m, max_pages());
        let end = chunk_start(m + 1, max_pages());
        assert(searches(tail, start, end, Ok(pages)));
        lemma_search_wiped(tail, start, end, pages, q);
        lemma_wiped_later(phase.calls, m + 1, q);
    }
}

/// A failure of a full-chip erase that is not a rejected payload, such as a NACK
/// to the command byte, is never taken for the end of flash: it ends the erase,
/// and is what the erase reports.
pub proof fn law_other_failures_surface(id: u16, phase: Phase<int>, i: int, e: ErrorView)
    requires
        erases_chip(id, phase),
        0 <= i < phase.calls.len(),
        phase.calls[i].result == Err::<Reply, _>(e),
        !is_payload_nack(e),
    ensures
        i == phase.calls.len() - 1,
        phase.result == Err::<int, _>(e),
{
    let (m, found) = choose|m: int, found: Result<int, ErrorView>|
        chip_erase_ends(id, m, found, phase);
    let calls = phase.calls;
    assert(i >= m);
    if i > m {
        let tail = calls.skip(m + 1);
        let start = chunk_start(m, max_pages());
        let end = chunk_start(m + 1, max_pages());
        assert(searches(tail, start, end, found));
        let n = choose|n: int| search_ends(tail, start, end, n, found);
        let j = i - m - 1;
        assert(tail[j] == calls[i]);
        assert(!decides(tail[j]));
    }
}

/// The call is answered as by a device with `boundary` pages of flash, which
/// erases a page list if it is all in range and rejects it otherwise.
pub open spec fn in_bounds(call: Call, boundary: int) -> bool {
    if forall|i: int|
        0 <= i < erase_pages_of(call.op).len() ==> #[trigger] erase_pages_of(call.op)[i] < boundary {
        call.result is Ok
    } else {
        call.result matches Err(e) && is_payload_nack(e)
    }
}

/// How such a device answers the erase of a range.
proof fn lemma_in_bounds(call: Call, boundary: int, start: int, end: int)
    requires
        in_bounds(call, boundary),
        call.op == erase_op(start, end),
        0 <= start < end <= max_pages(),
    ensures
        call.result is Ok <==> end <= boundary,
        decides(call),
{
    let pages = erase_pages_of(call.op);
    assert(pages =~= page_range(start, end));
    assert(pages[end - 1 - start] == end - 1);
}

/// On such a device the trials keep the boundary between them.
proof fn lemma_narrows_to(calls: Seq<Call>, start: int, end: int, boundary: int, n: int)
    requires
        0 <= n <= calls.len(),
        halves(calls, start, end - start, n),
        forall|i: int| 0 <= i < calls.len() ==> in_bounds(#[trigger] calls[i], boundary),
        0 <= start <= boundary < end <= max_pages(),
    ensures
        ({
            let (good, bad) = narrowed(calls, end - start, n);
            0 <= good <= boundary - start < bad <= end - start
        }),
        forall|j: int| 0 <= j < n ==> decides(#[trigger] calls[j]),
    decreases n,
{
    reveal_with_fuel(narrowed, 2);
    if n > 0 {
        lemma_narrows_to(calls, start, end, boundary, n - 1);
        let (good, bad) = narrowed(calls, end - start, n - 1);
        let call = calls[n - 1];
        assert(call.op == erase_op(start, start + midpoint(good, bad)));
        lemma_in_bounds(call, boundary, start, start + midpoint(good, bad));
    }
}

/// On such a device a search finds the boundary.
proof fn lemma_search_finds(
    calls: Seq<Call>,
    start: int,
    end: int,
    boundary: int,
    r: Result<int, ErrorView>,
)
    requires
        searches(calls, start, end, r),
        forall|i: int| 0 <= i < calls.len() ==> in_bounds(#[trigger] calls[i], boundary),
        0 <= start <= boundary < end <= max_pages(),
    ensures
        r == Ok::<_, ErrorView>(boundary),
{
    let n = choose|n: int| search_ends(calls, start, end, n, r);
    lemma_narrows_to(calls, start, end, boundary, n);
    let (good, bad) = narrowed(calls, end - start, n);
    if 0 < n == calls.len() {
        assert(decides(calls[n - 1]));
    }
    assert(good == boundary - start);
    if good != 0 {
        lemma_in_bounds(calls[n], boundary, start, start + good);
    }
}

/// On a device with `boundary` pages of flash, at least one chunk and at most the
/// family maximum, a full-chip erase erases every page of the device, and the
/// result is the boundary if that is the flash size of the chip.
pub proof fn law_finds_boundary(id: u16, phase: Phase<int>, boundary: int)
    requires
        erases_chip(id, phase),
        ERASE_CHUNK <= boundary <= max_pages(),
        forall|i: int| 0 <= i < phase.calls.len() ==> in_bounds(#[trigger] phase.calls[i], boundary),
    ensures
        phase.result == if boundary == max_pages() {
            Ok(boundary)
        } else {
            verdict(boundary, id)
        },
        forall|q: int| 0 <= q < boundary ==> #[trigger] wiped(phase.calls, q),
{
    let (m, found) = choose|m: int, found: Result<int, ErrorView>|
        chip_erase_ends(id, m, found, phase);
    let calls = phase.calls;
    let plan = erase_plan(max_pages());
    let start = chunk_start(m, max_pages());
    let end = chunk_start(m + 1, max_pages());
    if m > 0 {
        assert(calls[m - 1].op == plan[m - 1]);
        lemma_in_bounds(calls[m - 1], boundary, chunk_start(m - 1, max_pages()), start);
    }
    if m < plan.len() {
        assert(in_bounds(calls[m], boundary));
        lemma_in_bounds(calls[m], boundary, start, end);
        let tail = calls.skip(m + 1);
        assert forall|i: int| 0 <= i < tail.len() implies in_bounds(#[trigger] tail[i], boundary) by {
            assert(tail[i] == calls[m + 1 + i]);
        }
        lemma_search_finds(tail, start, end, boundary, found);
    }
    assert forall|q: int| 0 <= q < boundary implies #[trigger] wiped(calls, q) by {
        if q < start {
            lemma_chunks_wiped(id, m, found, phase, q);
        } else {
            lemma_search_wiped(calls.skip(m + 1), start, end, boundary, q);
            lemma_wiped_later(calls, m + 1, q);
        }
    }
}

/// On a device with `boundary` pages of flash, the erase of the pages that an image
/// spans succeeds if the image fits. If it does not, the erase fails with the
/// rejection of a page out of range.
pub proof fn law_image_must_fit(firmware: Seq<u8>, phase: Phase<()>, boundary: int)
    requires
        erase_phase(firmware, phase),
        0 <= boundary,
        forall|i: int| 0 <= i < phase.calls.len() ==> in_bounds(#[trigger] phase.calls[i], boundary),
    ensures
        footprint(firmware) <= boundary ==> phase.result is Ok,
        footprint(firmware) > boundary ==> (phase.result matches Err(e) && is_payload_nack(e)),
{
    let count = footprint(firmware);
    let plan = erase_plan(count);
    if phase.result is Err {
        let k = phase.calls.len() - 1;
        assert(phase.calls[k].op == plan[k]);
        lemma_in_bounds(
            phase.calls[k],
            boundary,
            chunk_start(k, count),
            chunk_start(k + 1, count),
        );
    } else if count > 0 {
        let k = plan.len() - 1;
        assert(phase.calls[k].op == plan[k]);
        lemma_in_bounds(phase.calls[k], boundary, chunk_start(k, count), count);
    }
}

/// On a device that rejects a page of the very first chunk, a full-chip erase
/// reports the rejection: nothing tells that there is any flash at all.
pub proof fn law_first_chunk_must_pass(id: u16, phase: Phase<int>, boundary: int)
    requires
        erases_chip(id, phase),
        0 <= boundary < ERASE_CHUNK,
        forall|i: int| 0 <= i < phase.calls.len() ==> in_bounds(#[trigger] phase.calls[i], boundary),
    ensures
        phase.result matches Err(e) && is_payload_nack(e),
        phase.calls.len() == 1,
{
    let (m, found) = choose|m: int, found: Result<int, ErrorView>|
        chip_erase_ends(id, m, found, phase);
    let plan = erase_plan(max_pages());
    let call = phase.calls[0];
    assert(call.op == plan[0]);
    lemma_in_bounds(call, boundary, 0, 80);
}

/// The whole flash of a chip of the family is plausible for it.
pub proof fn law_full_flash_is_plausible(id: u16)
    requires
        flash_limit(id) is Some,
    ensures
        plausible(flash_limit(id)->0 as int / PAGE_SIZE as int, id),
{
    let table = FLASH_DENSITIES_PAGES@;
    assert(table =~= seq![128usize, 256, 512, 1024, 1536]);
    assert(table[0] == 128 && table[1] == 256 && table[2] == 512 && table[4] == 1536);
}

} // verus!
