//! High-level flash orchestration: connect, erase, write, verify, run.
//!
//! This layer is UI-free: it emits [`Progress`] events through a caller-supplied
//! [`ProgressSink`] rather than printing, so consumers (a plain CLI, a TUI, a
//! machine-readable frontend) render progress however they like.

use vstd::prelude::*;

use std::time::Duration;

use crate::bootloader::{
    data_reply, done, failure, id_reply, info_reply, lemma_reset, performs, Board, Bootloader, Op,
    Transport,
};
use crate::chip::{
    chip_erase_ends, erases_chip, lemma_erased_again, lemma_nothing_good, lemma_search_begins,
    lemma_trial, searches, searching, verdict,
};
use crate::connection::{
    connects, connects_in, enters, enters_in, flashes, flashes_in, identifies, informs, informs_in,
    starts, tried_calls, tried_told, tries_entry, wipes, wipes_in,
};
use crate::error::{error_text, outcome, Error, ErrorView};
use crate::plan::{
    block, block_count, block_start, chunk_start, erase_op, erase_phase, erase_plan,
    erase_progress, first_difference, flash_address, law_blocks, lemma_address, lemma_mismatch,
    max_pages, min, mismatch, padded, page_range, pieces, programs, programs_in, read_fault,
    read_plan, verify_phase, verify_progress, write_phase, write_plan, write_progress,
    ERASE_TIMEOUT_MILLIS,
};
use crate::session::{
    happened, in_turn, lemma_failed, lemma_in_turn, lemma_join, lemma_next_call, lemma_no_calls,
    session, skipped, works_through, Call, Phase,
};
use crate::target::{
    is_valid_density_pages, max_flash_size, pages_in, ERASE_CHUNK, FLASH_BASE, MAX_BLOCK,
    MAX_FLASH_SIZE, PAGE_SIZE, WRITE_ALIGN,
};

pub use crate::connection::CONNECT_ATTEMPTS;
pub use crate::progress::{no_progress, NoProgress, Progress, ProgressSink, ProgressView};

verus! {

/// Number of flash pages spanning `length` bytes of firmware, clamped to
/// `max_pages` (the connected device's page count).
pub fn pages_for_length(length: usize, max_pages: usize) -> (r: usize)
    ensures
        r == min(pieces(length as int, PAGE_SIZE as int), max_pages as int),
{
    let whole: usize = length / PAGE_SIZE;
    let pages: usize = if length % PAGE_SIZE == 0 {
        whole
    } else {
        whole + 1
    };
    if pages <= max_pages {
        pages
    } else {
        max_pages
    }
}

/// The error that an image of this length is rejected with.
pub open spec fn length_fault(len: int) -> Option<ErrorView> {
    if len == 0 {
        Some(ErrorView::InvalidArgument { context: "firmware image is empty (nothing to flash)"@ })
    } else if len > MAX_FLASH_SIZE {
        Some(
            ErrorView::FirmwareTooLarge {
                size: len as usize,
                max: MAX_FLASH_SIZE,
                max_kib: (MAX_FLASH_SIZE / 1024) as u32,
            },
        )
    } else {
        None
    }
}

/// Validate the image length before touching the device.
///
/// Rejects an **empty** image up front: erase/write/verify would each be a
/// no-op, so [`flash`] would reset the chip and return `Ok(())` having flashed
/// nothing — a library consumer could "successfully flash" an empty file
/// without noticing. Also rejects an image larger than the family maximum
/// [`MAX_FLASH_SIZE`] (the real per-part flash is smaller and is enforced later
/// by an out-of-range NACK).
pub fn check_firmware_len(len: usize) -> (r: Result<(), Error>)
    ensures
        match length_fault(len as int) {
            None => r is Ok,
            Some(e) => r matches Err(f) && f@ == e,
        },
{
    if len == 0 {
        return Err(
            Error::InvalidArgument { context: "firmware image is empty (nothing to flash)" },
        );
    }
    if len > MAX_FLASH_SIZE as usize {
        return Err(
            Error::FirmwareTooLarge {
                size: len,
                max: MAX_FLASH_SIZE,
                max_kib: MAX_FLASH_SIZE / 1024,
            },
        );
    }
    Ok(())
}

/// The page numbers `start..end`.
fn page_list(start: usize, end: usize) -> (r: Vec<u16>)
    requires
        start <= end,
    ensures
        r@ == page_range(start as int, end as int),
{
    let mut list: Vec<u16> = Vec::new();
    let mut p: usize = start;
    while p < end
        invariant
            start <= p <= end,
            list@ == page_range(start as int, p as int),
        decreases end - p,
    {
        list.push(p as u16);
        p += 1;
        assert(list@ =~= page_range(start as int, p as int));
    }
    list
}

/// Erase pages `[start..end)` in a single Extended Erase command.
fn erase_range<T: Transport>(bl: &mut Bootloader<T>, start: usize, end: usize) -> (r: Result<
    (),
    Error,
>)
    requires
        start <= end,
    ensures
        *final(final(bl).port) == *final(old(bl).port),
        performs(
            old(bl).port.trace(),
            final(bl).port.trace(),
            erase_op(start as int, end as int),
            done(outcome(r)),
        ),
{
    let list = page_list(start, end);
    bl.extended_erase_pages(list.as_slice(), Duration::from_millis(ERASE_TIMEOUT_MILLIS))
}

/// Erase pages `0..count` in chunks of [`ERASE_CHUNK`], reporting progress. Every
/// page must be in range; a NACK is a real error (used for the firmware
/// footprint, which always fits).
pub fn erase_pages<T: Transport, P: ProgressSink>(
    bl: &mut Bootloader<T>,
    count: usize,
    progress: &mut P,
) -> (r: Result<(), Error>)
    ensures
        *final(final(bl).port) == *final(old(bl).port),
        exists|phase: Phase<()>|
            {
                &&& #[trigger] happened(
                    old(bl).port.trace(),
                    final(bl).port.trace(),
                    old(progress).events(),
                    final(progress).events(),
                    phase,
                )
                &&& works_through(erase_plan(count as int), erase_progress(count as int), phase)
                &&& phase.result == outcome(r)
            },
{
    let ghost t0 = bl.port.trace();
    let ghost told0 = progress.events();
    let ghost plan = erase_plan(count as int);
    let ghost mut calls: Seq<Call> = Seq::empty();
    let ghost full = erase_progress(count as int);
    let mut page: usize = 0;
    progress.report(Progress::Erase { pages_done: 0, pages_total: count });
    proof {
        lemma_no_calls(t0);
        assert(progress.events() =~= told0 + full.take(1));
    }
    while page < count
        invariant
            page <= count,
            *final(bl.port) == *final(old(bl).port),
            t0 == old(bl).port.trace(),
            told0 == old(progress).events(),
            plan == erase_plan(count as int),
            full == erase_progress(count as int),
            session(t0, bl.port.trace(), calls),
            page == chunk_start(calls.len() as int, count as int),
            calls.len() <= plan.len(),
            forall|i: int| 0 <= i < calls.len() ==> (#[trigger] calls[i]).op == plan[i],
            forall|i: int| 0 <= i < calls.len() ==> (#[trigger] calls[i]).result is Ok,
            progress.events() == told0 + full.take(calls.len() as int + 1),
        decreases count - page,
    {
        let end: usize = if count - page > ERASE_CHUNK {
            page + ERASE_CHUNK
        } else {
            count
        };
        let ghost t1 = bl.port.trace();
        let ghost k = calls.len() as int;
        assert(end == chunk_start(k + 1, count as int));
        let r = erase_range(bl, page, end);
        proof {
            let call = lemma_next_call(
                t0,
                t1,
                bl.port.trace(),
                calls,
                erase_op(page as int, end as int),
                done(outcome(r)),
            );
            assert(k < plan.len());
            calls = calls.push(call);
        }
        if let Err(e) = r {
            proof {
                let phase = Phase { calls, result: Err::<(), _>(e@), told: full.take(k + 1) };
                assert(happened(t0, bl.port.trace(), told0, progress.events(), phase));
            }
            return Err(e);
        }
        page = end;
        progress.report(Progress::Erase { pages_done: page, pages_total: count });
        assert(progress.events() =~= told0 + full.take(calls.len() as int + 1));
    }
    proof {
        assert(calls.len() == plan.len());
        let phase = Phase {
            calls,
            result: Ok::<(), ErrorView>(()),
            told: full.take(calls.len() as int + 1),
        };
        assert(happened(t0, bl.port.trace(), told0, progress.events(), phase));
    }
    Ok(())
}

/// The outcome of an operation that gives a page count.
pub open spec fn page_outcome(r: Result<usize, Error>) -> Result<int, ErrorView> {
    match r {
        Ok(pages) => Ok(pages as int),
        Err(e) => Err(e@),
    }
}

/// A chunk `[start..end)` was NACKed (page list ran past this part's flash).
/// Bisect it to find the flash boundary — the first page the device rejects as
/// out of range — and erase every valid page below it. Returns the boundary
/// page number (== the number of pages in `[0..)` that are in range up to
/// `end`, i.e. the first out-of-range page).
///
/// AN3155 erases *nothing* for a page list containing any out-of-range page, so
/// a plain "stop at the first NACKed chunk" leaves up to `ERASE_CHUNK - 1` valid
/// pages at the density boundary un-erased on every STM32L0 density except the
/// 192 KiB part whose boundary happens to fall on a chunk edge. Bisecting the
/// failing chunk and re-erasing the valid prefix fixes that.
fn bisect_erase_boundary<T: Transport>(
    bl: &mut Bootloader<T>,
    start: usize,
    end: usize,
) -> (r: Result<usize, Error>)
    requires
        start < end,
    ensures
        *final(final(bl).port) == *final(old(bl).port),
        exists|calls: Seq<Call>|
            #[trigger] session(old(bl).port.trace(), final(bl).port.trace(), calls) && searches(
                calls,
                start as int,
                end as int,
                page_outcome(r),
            ),
        r matches Ok(page) ==> start <= page < end,
{
    let ghost t0 = bl.port.trace();
    let ghost mut calls: Seq<Call> = Seq::empty();
    let ghost width = end - start;
    let mut good: usize = 0;
    let mut bad: usize = end - start;
    proof {
        lemma_no_calls(t0);
        lemma_search_begins(start as int, width);
    }
    while bad - good > 1
        invariant
            good < bad <= end - start,
            width == end - start,
            *final(bl.port) == *final(old(bl).port),
            t0 == old(bl).port.trace(),
            session(t0, bl.port.trace(), calls),
            searching(calls, start as int, width, good as int, bad as int),
        decreases bad - good,
    {
        let mid: usize = good + (bad - good) / 2;
        let ghost t1 = bl.port.trace();
        let r = erase_range(bl, start, start + mid);
        proof {
            let call = lemma_next_call(
                t0,
                t1,
                bl.port.trace(),
                calls,
                erase_op(start as int, start + mid),
                done(outcome(r)),
            );
            lemma_trial(calls, call, start as int, width, good as int, bad as int);
            calls = calls.push(call);
        }
        match r {
            Ok(()) => {
                good = mid;
            },
            Err(e) => {
                if e.is_payload_nack() {
                    bad = mid;
                } else {
                    return Err(e);
                }
            },
        }
    }
    if good > 0 {
        let ghost t1 = bl.port.trace();
        let r = erase_range(bl, start, start + good);
        proof {
            let call = lemma_next_call(
                t0,
                t1,
                bl.port.trace(),
                calls,
                erase_op(start as int, start + good),
                done(outcome(r)),
            );
            lemma_erased_again(calls, call, start as int, width, good as int, bad as int);
            calls = calls.push(call);
        }
        match r {
            Ok(()) => {},
            Err(e) => {
                return Err(e);
            },
        }
    } else {
        proof {
            lemma_nothing_good(calls, start as int, width, bad as int);
        }
    }
    Ok(start + good)
}

/// Erase the entire device without knowing its density. The STM32L0 bootloader
/// can't report its flash size (Read Memory of the factory region is rejected)
/// and refuses the 0xFFFF mass-erase code, so erase pages from 0 up to the
/// family maximum in chunks. When a chunk is NACKed *after* at least one chunk
/// succeeded, the page list has run past this part's flash — `bisect_erase_boundary`
/// then finds the exact density boundary and erases the valid pages below it, so
/// no in-range page is left un-erased. Returns the number of pages erased.
///
/// Only a NACK to the page-list *payload* ([`NackStage::Payload`](crate::error::NackStage))
/// is treated as the flash boundary; a NACK to the Extended Erase *command* byte
/// is line corruption and propagates as an error rather than being mistaken for
/// successful completion.
///
/// A payload NACK is ambiguous, though: AN3155 returns it both for an
/// out-of-range page (the end of flash — the intended stop) *and* for a
/// write-protected (WRP) page (a truncated erase). To tell them apart, the
/// discovered boundary is cross-checked — using the `id` from `Get ID` — against
/// the known STM32L0 densities and the identified chip's flash size. If the stop
/// point isn't a plausible full-flash density, the erase left pages behind and
/// [`Error::PartialErase`] is returned rather than a silent `Ok` reporting fewer
/// pages than were requested.
pub fn erase_chip<T: Transport, P: ProgressSink>(
    bl: &mut Bootloader<T>,
    id: u16,
    progress: &mut P,
) -> (r: Result<usize, Error>)
    ensures
        *final(final(bl).port) == *final(old(bl).port),
        exists|phase: Phase<int>|
            {
                &&& #[trigger] happened(
                    old(bl).port.trace(),
                    final(bl).port.trace(),
                    old(progress).events(),
                    final(progress).events(),
                    phase,
                )
                &&& erases_chip(id, phase)
                &&& phase.result == page_outcome(r)
            },
{
    let ghost t0 = bl.port.trace();
    let ghost told0 = progress.events();
    let ghost plan = erase_plan(max_pages());
    let ghost steps = erase_progress(max_pages());
    let ghost mut calls: Seq<Call> = Seq::empty();
    let limit: usize = pages_in(MAX_FLASH_SIZE);
    let mut page: usize = 0;
    progress.report(Progress::Erase { pages_done: 0, pages_total: limit });
    proof {
        lemma_no_calls(t0);
        assert(progress.events() =~= told0 + steps.take(1));
    }
    while page < limit
        invariant
            limit == max_pages(),
            page <= limit,
            *final(bl.port) == *final(old(bl).port),
            t0 == old(bl).port.trace(),
            told0 == old(progress).events(),
            plan == erase_plan(max_pages()),
            steps == erase_progress(max_pages()),
            session(t0, bl.port.trace(), calls),
            page == chunk_start(calls.len() as int, max_pages()),
            calls.len() <= plan.len(),
            forall|i: int|
                0 <= i < calls.len() ==> (#[trigger] calls[i]).op == plan[i] && calls[i].result
                    is Ok,
            progress.events() == told0 + steps.take(calls.len() as int + 1),
        decreases limit - page,
    {
        let end: usize = if limit - page > ERASE_CHUNK {
            page + ERASE_CHUNK
        } else {
            limit
        };
        let ghost t1 = bl.port.trace();
        let ghost before = calls;
        let ghost m = calls.len() as int;
        assert(end == chunk_start(m + 1, max_pages()));
        let attempt = erase_range(bl, page, end);
        proof {
            let call = lemma_next_call(
                t0,
                t1,
                bl.port.trace(),
                calls,
                erase_op(page as int, end as int),
                done(outcome(attempt)),
            );
            assert(m < plan.len());
            assert(call.op == plan[m]);
            calls = calls.push(call);
        }
        match attempt {
            Ok(()) => {
                page = end;
                progress.report(Progress::Erase { pages_done: page, pages_total: limit });
                assert(progress.events() =~= told0 + steps.take(calls.len() as int + 1));
            },
            Err(e) => {
                if page == 0 || !e.is_payload_nack() {
                    proof {
                        let phase = Phase { calls, result: Err(e@), told: steps.take(m + 1) };
                        assert(chip_erase_ends(id, m, Err(e@), phase));
                        assert(happened(t0, bl.port.trace(), told0, progress.events(), phase));
                    }
                    return Err(e);
                }
                let ghost t2 = bl.port.trace();
                let found = bisect_erase_boundary(bl, page, end);
                let ghost more = choose|more: Seq<Call>|
                    #[trigger] session(t2, bl.port.trace(), more) && searches(
                        more,
                        page as int,
                        end as int,
                        page_outcome(found),
                    );
                let ghost all = calls + more;
                proof {
                    lemma_join(t0, t2, bl.port.trace(), calls, more);
                    assert(all.skip(m + 1) =~= more);
                    assert forall|i: int| 0 <= i < m implies (#[trigger] all[i]).op == plan[i]
                        && all[i].result is Ok by {
                        assert(all[i] == before[i]);
                    }
                    assert(all[m] == calls[m]);
                }
                match found {
                    Err(f) => {
                        proof {
                            let told = steps.take(m + 1);
                            let phase = Phase { calls: all, result: Err(f@), told };
                            assert(chip_erase_ends(id, m, Err(f@), phase));
                            assert(happened(t0, bl.port.trace(), told0, progress.events(), phase));
                        }
                        return Err(f);
                    },
                    Ok(pages) => {
                        progress.report(
                            Progress::Erase { pages_done: pages, pages_total: pages },
                        );
                        let ghost told = steps.take(m + 1).push(
                            ProgressView::Erase {
                                pages_done: pages as int,
                                pages_total: pages as int,
                            },
                        );
                        let r = judge_boundary(pages, id);
                        proof {
                            assert(progress.events() =~= told0 + told);
                            let phase = Phase { calls: all, result: page_outcome(r), told };
                            assert(chip_erase_ends(id, m, Ok(pages as int), phase));
                            assert(happened(t0, bl.port.trace(), told0, progress.events(), phase));
                        }
                        return r;
                    },
                }
            },
        }
    }
    proof {
        assert(calls.len() == plan.len());
        assert(steps.take(calls.len() as int + 1) =~= steps);
        let phase = Phase { calls, result: Ok(max_pages()), told: steps };
        assert(chip_erase_ends(id, calls.len() as int, Ok(max_pages()), phase));
        assert(happened(t0, bl.port.trace(), told0, progress.events(), phase));
    }
    Ok(page)
}

/// If a payload NACK ended the erase before the family maximum, that NACK
/// could equally be a write-protected (WRP) page rather than the end of
/// flash. Cross-check the stop point: it must be a real STM32L0 flash density
/// and fit the identified chip. Anything else is a truncated erase with pages
/// still un-erased — surface it instead of reporting a silent, partial Ok.
pub fn judge_boundary(pages: usize, id: u16) -> (r: Result<usize, Error>)
    ensures
        page_outcome(r) == verdict(pages as int, id),
{
    let fits_family = match max_flash_size(id) {
        None => true,
        Some(max) => pages <= pages_in(max),
    };
    if !is_valid_density_pages(pages) || !fits_family {
        assert(pages * PAGE_SIZE / 1024 == pages / 8);
        return Err(Error::PartialErase { erased: pages, kib: pages / 8, id });
    }
    Ok(pages)
}

/// Options controlling [`flash`]. See per-field docs for the erase/run coupling.
///
/// Construct with [`FlashOptions::default`] and tweak the fields you care about;
/// the struct is `#[non_exhaustive]` so future options don't break callers.
#[derive(Debug, Clone)]
#[non_exhaustive]
pub struct FlashOptions {
    /// Erase before writing. The erase covers only the **image footprint**
    /// (the pages the firmware spans), not the whole device — a full-chip wipe
    /// is [`erase`]. Writing STM32L0 flash that has *not* been erased corrupts
    /// the affected 8-byte words, so skip this only when you know the target
    /// pages are already erased.
    pub erase: bool,
    /// Read the image back after writing and compare byte-for-byte, failing with
    /// [`Error::VerifyMismatch`] on the first difference.
    pub verify: bool,
    /// Start the application after a successful write (see `go` for how).
    pub run: bool,
    /// When starting, use the bootloader `Go` command instead of a hardware
    /// reset. Only meaningful when `run` is set (`run: false` leaves the device
    /// parked in the bootloader regardless of `go`).
    pub go: bool,
}

impl Default for FlashOptions {
    fn default() -> (r: Self)
        ensures
            r.erase && r.verify && r.run && !r.go,
    {
        FlashOptions { erase: true, verify: true, run: true, go: false }
    }
}

/// Pad `chunk` up to a multiple of `align` with 0xFF (erased-flash value).
pub fn pad_block(chunk: &[u8], align: usize) -> (r: Vec<u8>)
    requires
        chunk@.len() > 0 ==> align > 0 && padded(chunk@, align as int).len() <= usize::MAX,
    ensures
        chunk@.len() > 0 ==> r@ == padded(chunk@, align as int),
        chunk@.len() == 0 ==> r@.len() == 0,
{
    let mut buf: Vec<u8> = vstd::slice::slice_to_vec(chunk);
    if chunk.len() == 0 {
        return buf;
    }
    let rest: usize = chunk.len() % align;
    let fill: usize = if rest == 0 {
        0
    } else {
        align - rest
    };
    proof {
        lemma_fill(chunk@.len() as int, align as int);
    }
    let mut i: usize = 0;
    while i < fill
        invariant
            i <= fill,
            buf@ == chunk@ + Seq::new(i as nat, |j: int| 0xFFu8),
        decreases fill - i,
    {
        buf.push(0xFF);
        i += 1;
        assert(buf@ =~= chunk@ + Seq::new(i as nat, |j: int| 0xFFu8));
    }
    assert(buf@ =~= padded(chunk@, align as int));
    buf
}

/// How many bytes it takes to fill up to a multiple.
proof fn lemma_fill(len: int, align: int)
    requires
        len >= 0,
        align > 0,
    ensures
        pieces(len, align) * align - len == if len % align == 0 {
            0
        } else {
            align - len % align
        },
{
    vstd::arithmetic::div_mod::lemma_fundamental_div_mod(len, align);
    assert((len / align + 1) * align == (len / align) * align + align) by (nonlinear_arith);
    assert(align * (len / align) == (len / align) * align) by (nonlinear_arith);
}

/// The write phase of [`write_image`].
fn write_blocks<T: Transport, P: ProgressSink>(
    bl: &mut Bootloader<T>,
    firmware: &[u8],
    progress: &mut P,
) -> (r: Result<(), Error>)
    ensures
        *final(final(bl).port) == *final(old(bl).port),
        exists|phase: Phase<()>|
            {
                &&& #[trigger] happened(
                    old(bl).port.trace(),
                    final(bl).port.trace(),
                    old(progress).events(),
                    final(progress).events(),
                    phase,
                )
                &&& write_phase(firmware@, phase)
                &&& phase.result == outcome(r)
            },
{
    let ghost t0 = bl.port.trace();
    let ghost told0 = progress.events();
    let ghost plan = write_plan(firmware@);
    let ghost full = write_progress(firmware@);
    let ghost mut calls: Seq<Call> = Seq::empty();
    let total: usize = firmware.len();
    progress.report(Progress::Write { bytes_done: 0, bytes_total: total });
    proof {
        lemma_no_calls(t0);
        assert(progress.events() =~= told0 + full.take(1));
    }
    let mut addr: u32 = FLASH_BASE;
    let mut written: usize = 0;
    while written < total
        invariant
            total == firmware@.len(),
            written <= total,
            *final(bl.port) == *final(old(bl).port),
            t0 == old(bl).port.trace(),
            told0 == old(progress).events(),
            plan == write_plan(firmware@),
            full == write_progress(firmware@),
            session(t0, bl.port.trace(), calls),
            written == block_start(firmware@, calls.len() as int),
            written < total ==> addr == flash_address(calls.len() * MAX_BLOCK),
            calls.len() <= plan.len(),
            forall|i: int| 0 <= i < calls.len() ==> (#[trigger] calls[i]).op == plan[i],
            forall|i: int| 0 <= i < calls.len() ==> (#[trigger] calls[i]).result is Ok,
            progress.events() == told0 + full.take(calls.len() as int + 1),
        decreases total - written,
    {
        let end: usize = if total - written > MAX_BLOCK {
            written + MAX_BLOCK
        } else {
            total
        };
        let ghost t1 = bl.port.trace();
        let ghost k = calls.len() as int;
        assert(end == block_start(firmware@, k + 1));
        let chunk = &firmware[written..end];
        assert(chunk@ == block(firmware@, k));
        proof {
            law_blocks(firmware@, k);
        }
        let buf = pad_block(chunk, WRITE_ALIGN);
        let r = bl.write_block(addr, buf.as_slice());
        proof {
            let call = lemma_next_call(
                t0,
                t1,
                bl.port.trace(),
                calls,
                Op::Write { addr, data: buf@ },
                done(outcome(r)),
            );
            assert(k < plan.len());
            assert(call.op == plan[k]);
            calls = calls.push(call);
        }
        if let Err(e) = r {
            proof {
                let phase = Phase { calls, result: Err::<(), _>(e@), told: full.take(k + 1) };
                assert(happened(t0, bl.port.trace(), told0, progress.events(), phase));
            }
            return Err(e);
        }
        proof {
            lemma_address(k * MAX_BLOCK, buf@.len() as int);
        }
        addr = addr.wrapping_add(buf.len() as u32);
        written = end;
        progress.report(Progress::Write { bytes_done: written, bytes_total: total });
        assert(progress.events() =~= told0 + full.take(calls.len() as int + 1));
    }
    proof {
        assert(calls.len() == plan.len());
        let phase = Phase {
            calls,
            result: Ok::<(), ErrorView>(()),
            told: full.take(calls.len() as int + 1),
        };
        assert(happened(t0, bl.port.trace(), told0, progress.events(), phase));
    }
    Ok(())
}

/// The verify phase of [`write_image`].
fn verify_blocks<T: Transport, P: ProgressSink>(
    bl: &mut Bootloader<T>,
    firmware: &[u8],
    progress: &mut P,
) -> (r: Result<(), Error>)
    ensures
        *final(final(bl).port) == *final(old(bl).port),
        exists|phase: Phase<()>|
            {
                &&& #[trigger] happened(
                    old(bl).port.trace(),
                    final(bl).port.trace(),
                    old(progress).events(),
                    final(progress).events(),
                    phase,
                )
                &&& verify_phase(firmware@, phase)
                &&& phase.result == outcome(r)
            },
{
    let ghost t0 = bl.port.trace();
    let ghost told0 = progress.events();
    let ghost plan = read_plan(firmware@);
    let ghost full = verify_progress(firmware@);
    let ghost mut calls: Seq<Call> = Seq::empty();
    let total: usize = firmware.len();
    progress.report(Progress::Verify { bytes_done: 0, bytes_total: total });
    proof {
        lemma_no_calls(t0);
        assert(progress.events() =~= told0 + full.take(1));
    }
    let mut addr: u32 = FLASH_BASE;
    let mut offset: usize = 0;
    while offset < total
        invariant
            total == firmware@.len(),
            offset <= total,
            *final(bl.port) == *final(old(bl).port),
            t0 == old(bl).port.trace(),
            told0 == old(progress).events(),
            plan == read_plan(firmware@),
            full == verify_progress(firmware@),
            session(t0, bl.port.trace(), calls),
            offset == block_start(firmware@, calls.len() as int),
            offset < total ==> addr == flash_address(calls.len() * MAX_BLOCK),
            calls.len() <= plan.len(),
            forall|i: int| 0 <= i < calls.len() ==> (#[trigger] calls[i]).op == plan[i],
            forall|i: int|
                0 <= i < calls.len() ==> read_fault(firmware@, i, #[trigger] calls[i]) is None,
            progress.events() == told0 + full.take(calls.len() as int + 1),
        decreases total - offset,
    {
        let len: usize = if total - offset > MAX_BLOCK {
            MAX_BLOCK
        } else {
            total - offset
        };
        let ghost t1 = bl.port.trace();
        let ghost k = calls.len() as int;
        assert(offset + len == block_start(firmware@, k + 1));
        let reply = bl.read_block(addr, len);
        proof {
            let call = lemma_next_call(
                t0,
                t1,
                bl.port.trace(),
                calls,
                Op::Read { addr, len: len as nat },
                data_reply(reply),
            );
            assert(k < plan.len());
            assert(call.op == plan[k]);
            calls = calls.push(call);
        }
        let compared = match reply {
            Ok(data) => compare_block(firmware, offset, addr, data.as_slice(), Ghost(k)),
            Err(e) => Err(e),
        };
        assert(read_fault(firmware@, k, calls[k]) == failure(outcome(compared)));
        if let Err(e) = compared {
            proof {
                let phase = Phase { calls, result: Err::<(), _>(e@), told: full.take(k + 1) };
                assert(happened(t0, bl.port.trace(), told0, progress.events(), phase));
            }
            return Err(e);
        }
        proof {
            lemma_address(k * MAX_BLOCK, len as int);
        }
        addr = addr.wrapping_add(len as u32);
        offset += len;
        progress.report(Progress::Verify { bytes_done: offset, bytes_total: total });
        assert(progress.events() =~= told0 + full.take(calls.len() as int + 1));
    }
    proof {
        assert(calls.len() == plan.len());
        let phase = Phase {
            calls,
            result: Ok::<(), ErrorView>(()),
            told: full.take(calls.len() as int + 1),
        };
        assert(happened(t0, bl.port.trace(), told0, progress.events(), phase));
    }
    Ok(())
}

/// Compare block `k` of the image, at `offset`, with what was read back from
/// `addr`.
fn compare_block(
    firmware: &[u8],
    offset: usize,
    addr: u32,
    data: &[u8],
    Ghost(k): Ghost<int>,
) -> (r: Result<(), Error>)
    requires
        0 <= k < block_count(firmware@),
        offset == block_start(firmware@, k),
        addr == flash_address(k * MAX_BLOCK),
        data@.len() == block(firmware@, k).len(),
    ensures
        failure(outcome(r)) == mismatch(firmware@, k, data@),
{
    let ghost expected = block(firmware@, k);
    let mut i: usize = 0;
    while i < data.len()
        invariant
            0 <= k < block_count(firmware@),
            i <= data@.len(),
            offset == block_start(firmware@, k),
            addr == flash_address(k * MAX_BLOCK),
            expected == block(firmware@, k),
            data@.len() == expected.len(),
            forall|j: int| 0 <= j < i ==> data@[j] == expected[j],
        decreases data@.len() - i,
    {
        assert(expected[i as int] == firmware@[offset + i]);
        if data[i] != firmware[offset + i] {
            let address: u32 = addr.wrapping_add(i as u32);
            proof {
                law_blocks(firmware@, k);
                lemma_address(k * MAX_BLOCK, i as int);
                assert(address == flash_address(k * MAX_BLOCK + i));
                assert(first_difference(data@, expected, i as int));
                lemma_mismatch(firmware@, k, data@, i as int);
            }
            return Err(
                Error::VerifyMismatch {
                    address,
                    got: data[i],
                    expected: firmware[offset + i],
                },
            );
        }
        i += 1;
    }
    Ok(())
}

/// The bootloader-protocol core of [`flash`]: optional footprint erase, write,
/// and optional read-back verify. Does **not** touch reset lines or start the
/// app — [`flash`] wraps that around it.
pub fn write_image<T: Transport, P: ProgressSink>(
    bl: &mut Bootloader<T>,
    firmware: &[u8],
    opts: &FlashOptions,
    progress: &mut P,
) -> (r: Result<(), Error>)
    ensures
        *final(final(bl).port) == *final(old(bl).port),
        exists|phase: Phase<()>|
            {
                &&& #[trigger] happened(
                    old(bl).port.trace(),
                    final(bl).port.trace(),
                    old(progress).events(),
                    final(progress).events(),
                    phase,
                )
                &&& programs(firmware@, opts.erase, opts.verify, phase)
                &&& phase.result == outcome(r)
            },
{
    let ghost t0 = bl.port.trace();
    let ghost told0 = progress.events();
    let ghost mut erasing = skipped();
    let ghost mut writing = skipped();
    proof {
        lemma_no_calls(t0);
        assert(told0 + erasing.told =~= told0);
    }
    if opts.erase {
        let pages: usize = pages_for_length(firmware.len(), pages_in(MAX_FLASH_SIZE));
        let erased = erase_pages(bl, pages, progress);
        proof {
            erasing = choose|phase: Phase<()>|
                {
                    &&& #[trigger] happened(
                        t0,
                        bl.port.trace(),
                        told0,
                        progress.events(),
                        phase,
                    )
                    &&& erase_phase(firmware@, phase)
                    &&& phase.result == outcome(erased)
                };
        }
        if let Err(e) = erased {
            proof {
                let rest = skipped();
                assert(programs_in(firmware@, opts.erase, opts.verify, erasing, rest, rest));
                lemma_failed(t0, bl.port.trace(), told0, progress.events(), erasing, rest);
                lemma_failed(
                    t0,
                    bl.port.trace(),
                    told0,
                    progress.events(),
                    in_turn(erasing, rest),
                    rest,
                );
            }
            return Err(e);
        }
    }
    let ghost t1 = bl.port.trace();
    let ghost told1 = progress.events();
    let written = write_blocks(bl, firmware, progress);
    let ghost t2 = bl.port.trace();
    let ghost told2 = progress.events();
    proof {
        writing = choose|phase: Phase<()>|
            {
                &&& #[trigger] happened(t1, t2, told1, told2, phase)
                &&& write_phase(firmware@, phase)
                &&& phase.result == outcome(written)
            };
        lemma_in_turn(t0, t1, t2, told0, told1, told2, erasing, writing);
    }
    let ghost head = in_turn(erasing, writing);
    if let Err(e) = written {
        proof {
            let rest = skipped();
            assert(programs_in(firmware@, opts.erase, opts.verify, erasing, writing, rest));
            lemma_failed(t0, t2, told0, told2, head, rest);
        }
        return Err(e);
    }
    if opts.verify {
        let r = verify_blocks(bl, firmware, progress);
        proof {
            let t3 = bl.port.trace();
            let told3 = progress.events();
            let verifying = choose|phase: Phase<()>|
                {
                    &&& #[trigger] happened(t2, t3, told2, told3, phase)
                    &&& verify_phase(firmware@, phase)
                    &&& phase.result == outcome(r)
                };
            assert(programs_in(firmware@, opts.erase, opts.verify, erasing, writing, verifying));
            lemma_in_turn(t0, t2, t3, told0, told2, told3, head, verifying);
        }
        return r;
    }
    proof {
        let rest = skipped();
        assert(programs_in(firmware@, opts.erase, opts.verify, erasing, writing, rest));
        lemma_no_calls(t2);
        assert(told2 + rest.told =~= told2);
        lemma_in_turn(t0, t2, t2, told0, told2, told2, head, rest);
    }
    Ok(())
}

/// Enter the bootloader and complete the 0x7F auto-baud handshake, retrying the
/// full reset sequence between attempts. Per-attempt failures are reported via
/// [`Progress::ConnectError`]; only exhausting all attempts is an error
/// ([`Error::BootloaderInit`]).
pub fn connect<T: Board, P: ProgressSink>(port: &mut T, progress: &mut P) -> (r: Result<(), Error>)
    ensures
        exists|phase: Phase<()>|
            {
                &&& #[trigger] happened(
                    old(port).trace(),
                    final(port).trace(),
                    old(progress).events(),
                    final(progress).events(),
                    phase,
                )
                &&& connects(phase)
                &&& phase.result == outcome(r)
            },
{
    let ghost t0 = port.trace();
    let ghost told0 = progress.events();
    let ghost mut tries: Seq<Phase<()>> = Seq::empty();
    proof {
        lemma_no_calls(t0);
        assert(told0 =~= told0 + so_far(tries).told);
    }
    let mut attempt: u32 = 1;
    while attempt <= CONNECT_ATTEMPTS
        invariant
            1 <= attempt <= CONNECT_ATTEMPTS + 1,
            t0 == old(port).trace(),
            told0 == old(progress).events(),
            tries.len() == attempt - 1,
            forall|i: int| 0 <= i < tries.len() ==> tries_entry(i + 1, #[trigger] tries[i]),
            forall|i: int| 0 <= i < tries.len() ==> (#[trigger] tries[i]).result is Err,
            happened(t0, port.trace(), told0, progress.events(), so_far(tries)),
        decreases CONNECT_ATTEMPTS + 1 - attempt,
    {
        let ghost t1 = port.trace();
        let ghost told1 = progress.events();
        let ghost earlier = tries;
        let entered = try_entry(port, progress, attempt);
        let ghost t2 = port.trace();
        let ghost told2 = progress.events();
        proof {
            let this = choose|phase: Phase<()>|
                {
                    &&& #[trigger] happened(t1, t2, told1, told2, phase)
                    &&& tries_entry(attempt as int, phase)
                    &&& phase.result == outcome(entered)
                };
            lemma_in_turn(t0, t1, t2, told0, told1, told2, so_far(earlier), this);
            tries = earlier.push(this);
            assert(tries.drop_last() =~= earlier);
            assert(happened(t0, t2, told0, told2, so_far(tries)));
        }
        if entered.is_ok() {
            proof {
                let phase = so_far(tries);
                assert(connects_in(tries, phase));
                assert(happened(t0, t2, told0, told2, phase));
            }
            return Ok(());
        }
        attempt += 1;
    }
    proof {
        let phase = Phase {
            result: Err::<(), _>(ErrorView::BootloaderInit { attempts: CONNECT_ATTEMPTS }),
            ..so_far(tries)
        };
        assert(connects_in(tries, phase));
        assert(happened(t0, port.trace(), told0, progress.events(), phase));
    }
    Err(Error::BootloaderInit { attempts: CONNECT_ATTEMPTS })
}

/// What the attempts did, as a phase after which it goes on.
spec fn so_far(tries: Seq<Phase<()>>) -> Phase<()> {
    Phase { calls: tried_calls(tries), result: Ok(()), told: tried_told(tries) }
}

/// One attempt of [`connect`]: reset, then handshake.
fn try_entry<T: Board, P: ProgressSink>(port: &mut T, progress: &mut P, attempt: u32) -> (r: Result<
    (),
    Error,
>)
    ensures
        exists|phase: Phase<()>|
            {
                &&& #[trigger] happened(
                    old(port).trace(),
                    final(port).trace(),
                    old(progress).events(),
                    final(progress).events(),
                    phase,
                )
                &&& tries_entry(attempt as int, phase)
                &&& phase.result == outcome(r)
            },
{
    let ghost t0 = port.trace();
    let ghost told0 = progress.events();
    let ghost mut calls: Seq<Call> = Seq::empty();
    progress.report(Progress::Connecting { attempt, of: CONNECT_ATTEMPTS });
    let mut r = port.reset_into_bootloader();
    let ghost t1 = port.trace();
    proof {
        lemma_no_calls(t0);
        lemma_reset(t0, outcome(r));
        let call = lemma_next_call(t0, t0, t1, calls, Op::ResetIntoBootloader, done(outcome(r)));
        calls = calls.push(call);
    }
    if r.is_ok() {
        let mut bl = Bootloader::new(port);
        r = bl.init();
        proof {
            let call = lemma_next_call(t0, t1, port.trace(), calls, Op::Init, done(outcome(r)));
            calls = calls.push(call);
        }
    }
    if let Err(e) = &r {
        progress.report(
            Progress::ConnectError { attempt, of: CONNECT_ATTEMPTS, error: e.message() },
        );
    }
    proof {
        let of = CONNECT_ATTEMPTS as int;
        let begun = ProgressView::Connecting { attempt: attempt as int, of };
        let told = match outcome(r) {
            Ok(()) => seq![begun],
            Err(e) => seq![
                begun,
                ProgressView::ConnectError { attempt: attempt as int, of, error: error_text(e) },
            ],
        };
        let phase = Phase { calls, result: outcome(r), told };
        assert(progress.events() =~= told0 + told);
        assert(tries_entry(attempt as int, phase));
        assert(happened(t0, port.trace(), told0, progress.events(), phase));
    }
    r
}

/// Ask the chip for its product id, and put the application back if that fails:
/// nothing was erased yet, so it is intact.
fn identify<T: Board, P: ProgressSink>(port: &mut T, progress: &mut P) -> (r: Result<u16, Error>)
    ensures
        exists|phase: Phase<u16>|
            {
                &&& #[trigger] happened(
                    old(port).trace(),
                    final(port).trace(),
                    old(progress).events(),
                    final(progress).events(),
                    phase,
                )
                &&& identifies(phase)
                &&& phase.result == outcome(r)
            },
{
    let ghost t0 = port.trace();
    let ghost told0 = progress.events();
    proof {
        lemma_no_calls(t0);
    }
    let mut bl = Bootloader::new(port);
    let reply = bl.get_id();
    let ghost t1 = port.trace();
    let ghost asked = lemma_next_call(t0, t0, t1, Seq::empty(), Op::GetId, id_reply(reply));
    match reply {
        Ok(id) => {
            progress.report(Progress::ChipIdentified { id });
            proof {
                let told = seq![ProgressView::ChipIdentified { id }];
                let phase = Phase {
                    calls: Seq::empty().push(asked),
                    result: Ok::<_, ErrorView>(id),
                    told,
                };
                assert(progress.events() =~= told0 + told);
                assert(happened(t0, t1, told0, progress.events(), phase));
            }
            Ok(id)
        },
        Err(e) => {
            let restored = port.reset_into_app();
            proof {
                lemma_reset(t1, outcome(restored));
                let call = lemma_next_call(
                    t0,
                    t1,
                    port.trace(),
                    Seq::empty().push(asked),
                    Op::ResetIntoApp,
                    done(outcome(restored)),
                );
                let phase = Phase {
                    calls: Seq::empty().push(asked).push(call),
                    result: Err::<u16, _>(e@),
                    told: Seq::empty(),
                };
                assert(told0 + phase.told =~= told0);
                assert(happened(t0, port.trace(), told0, progress.events(), phase));
            }
            Err(e)
        },
    }
}

/// Flash `firmware` to the connected device.
///
/// Full sequence: enter the bootloader ([`connect`]) → `Get ID`
/// ([`Progress::ChipIdentified`]) → optional footprint erase (only the pages the
/// image spans, not the whole device — see [`FlashOptions::erase`]) → write →
/// optional read-back verify → optional start (reset into app, or `Go` when
/// [`FlashOptions::go`] is set).
///
/// The image length is validated up front ([`check_firmware_len`]): an **empty**
/// image is rejected ([`Error::InvalidArgument`]) — erase/write/verify would all
/// be vacuous, so without this check `flash` would reset the chip and return
/// `Ok(())` having programmed nothing — and an image larger than
/// [`MAX_FLASH_SIZE`] is rejected ([`Error::FirmwareTooLarge`]). The latter is the
/// family *maximum*; an image that fits the maximum but exceeds the connected
/// part's real flash still passes this check and instead fails mid-erase/write
/// with an out-of-range page NACK.
///
/// Failure behaviour: on an error *before* the first erase/write (Get ID) the
/// device is reset back into the application so the intact app keeps running. On
/// any error *at or after* erase begins the device is left parked in the
/// bootloader (flash partly modified) — recover by re-flashing or power-cycling.
pub fn flash<T: Board, P: ProgressSink>(
    port: &mut T,
    firmware: &[u8],
    opts: &FlashOptions,
    progress: &mut P,
) -> (r: Result<(), Error>)
    ensures
        exists|phase: Phase<()>|
            {
                &&& #[trigger] happened(
                    old(port).trace(),
                    final(port).trace(),
                    old(progress).events(),
                    final(progress).events(),
                    phase,
                )
                &&& flashes(firmware@, *opts, phase)
                &&& phase.result == outcome(r)
            },
{
    let ghost t0 = port.trace();
    let ghost told0 = progress.events();
    let ghost unused: Phase<u16> = arbitrary();
    if let Err(e) = check_firmware_len(firmware.len()) {
        proof {
            let phase = Phase { calls: Seq::empty(), result: Err::<(), _>(e@), told: Seq::empty() };
            lemma_no_calls(t0);
            assert(told0 + phase.told =~= told0);
            assert(flashes(firmware@, *opts, phase));
            assert(happened(t0, port.trace(), told0, progress.events(), phase));
        }
        return Err(e);
    }
    let connected = connect(port, progress);
    let ghost t1 = port.trace();
    let ghost told1 = progress.events();
    let ghost connecting = choose|phase: Phase<()>|
        {
            &&& #[trigger] happened(t0, t1, told0, told1, phase)
            &&& connects(phase)
            &&& phase.result == outcome(connected)
        };
    if let Err(e) = connected {
        proof {
            let rest = skipped();
            assert(flashes_in(firmware@, *opts, connecting, unused, rest, rest));
            let a = in_turn(connecting, unused);
            lemma_failed(t0, t1, told0, told1, connecting, unused);
            lemma_failed(t0, t1, told0, told1, a, rest);
            lemma_failed(t0, t1, told0, told1, in_turn(a, rest), rest);
        }
        return Err(e);
    }
    let identified = identify(port, progress);
    let ghost t2 = port.trace();
    let ghost told2 = progress.events();
    let ghost identifying = choose|phase: Phase<u16>|
        {
            &&& #[trigger] happened(t1, t2, told1, told2, phase)
            &&& identifies(phase)
            &&& phase.result == outcome(identified)
        };
    let ghost known = in_turn(connecting, identifying);
    proof {
        lemma_in_turn(t0, t1, t2, told0, told1, told2, connecting, identifying);
    }
    if let Err(e) = identified {
        proof {
            let rest = skipped();
            assert(flashes_in(firmware@, *opts, connecting, identifying, rest, rest));
            lemma_failed(t0, t2, told0, told2, known, rest);
            lemma_failed(t0, t2, told0, told2, in_turn(known, rest), rest);
        }
        return Err(e);
    }
    let mut bl = Bootloader::new(port);
    let written = write_image(&mut bl, firmware, opts, progress);
    let ghost t3 = bl.port.trace();
    let ghost told3 = progress.events();
    let ghost programming = choose|phase: Phase<()>|
        {
            &&& #[trigger] happened(t2, t3, told2, told3, phase)
            &&& programs(firmware@, opts.erase, opts.verify, phase)
            &&& phase.result == outcome(written)
        };
    let ghost flashed = in_turn(known, programming);
    proof {
        lemma_in_turn(t0, t2, t3, told0, told2, told3, known, programming);
    }
    if let Err(e) = written {
        proof {
            let rest = skipped();
            assert(flashes_in(firmware@, *opts, connecting, identifying, programming, rest));
            lemma_failed(t0, t3, told0, told3, flashed, rest);
        }
        return Err(e);
    }
    if !opts.run {
        proof {
            let rest = skipped();
            lemma_no_calls(t3);
            assert(told3 + rest.told =~= told3);
            assert(flashes_in(firmware@, *opts, connecting, identifying, programming, rest));
            lemma_in_turn(t0, t3, t3, told0, told3, told3, flashed, rest);
        }
        return Ok(());
    }
    progress.report(Progress::Starting);
    let started = if opts.go {
        bl.go(FLASH_BASE)
    } else {
        port.reset_into_app()
    };
    proof {
        let t4 = port.trace();
        let op = if opts.go {
            Op::Go { addr: FLASH_BASE }
        } else {
            Op::ResetIntoApp
        };
        lemma_reset(t3, outcome(started));
        lemma_no_calls(t3);
        let call = lemma_next_call(t3, t3, t4, Seq::empty(), op, done(outcome(started)));
        let starting = Phase {
            calls: Seq::empty().push(call),
            result: outcome(started),
            told: seq![ProgressView::Starting],
        };
        assert(progress.events() =~= told3 + starting.told);
        assert(starts(*opts, starting));
        assert(flashes_in(firmware@, *opts, connecting, identifying, programming, starting));
        lemma_in_turn(t0, t3, t4, told0, told3, progress.events(), flashed, starting);
    }
    started
}

/// Enter the bootloader, identify the chip, erase the whole device, and reset
/// back into the application. The high-level counterpart to [`flash`] for a
/// standalone erase. Returns the number of pages erased.
///
/// Note: unlike [`flash`], the device is left running the application. On an
/// error *after* erase begins the device is left parked in the bootloader (its
/// flash partly wiped) — power-cycle or re-run to recover.
pub fn erase<T: Board, P: ProgressSink>(port: &mut T, progress: &mut P) -> (r: Result<usize, Error>)
    ensures
        exists|phase: Phase<int>|
            {
                &&& #[trigger] happened(
                    old(port).trace(),
                    final(port).trace(),
                    old(progress).events(),
                    final(progress).events(),
                    phase,
                )
                &&& wipes(phase)
                &&& phase.result == page_outcome(r)
            },
{
    let ghost t0 = port.trace();
    let ghost told0 = progress.events();
    let ghost unused: Phase<u16> = arbitrary();
    let ghost rest: Phase<int> = arbitrary();
    let connected = connect(port, progress);
    let ghost t1 = port.trace();
    let ghost told1 = progress.events();
    let ghost connecting = choose|phase: Phase<()>|
        {
            &&& #[trigger] happened(t0, t1, told0, told1, phase)
            &&& connects(phase)
            &&& phase.result == outcome(connected)
        };
    if let Err(e) = connected {
        proof {
            assert(wipes_in(connecting, unused, rest, rest));
            let a = in_turn(connecting, unused);
            lemma_failed(t0, t1, told0, told1, connecting, unused);
            lemma_failed(t0, t1, told0, told1, a, rest);
            lemma_failed(t0, t1, told0, told1, in_turn(a, rest), rest);
        }
        return Err(e);
    }
    let identified = identify(port, progress);
    let ghost t2 = port.trace();
    let ghost told2 = progress.events();
    let ghost identifying = choose|phase: Phase<u16>|
        {
            &&& #[trigger] happened(t1, t2, told1, told2, phase)
            &&& identifies(phase)
            &&& phase.result == outcome(identified)
        };
    let ghost known = in_turn(connecting, identifying);
    proof {
        lemma_in_turn(t0, t1, t2, told0, told1, told2, connecting, identifying);
    }
    let id: u16 = match identified {
        Ok(id) => id,
        Err(e) => {
            proof {
                assert(wipes_in(connecting, identifying, rest, rest));
                lemma_failed(t0, t2, told0, told2, known, rest);
                lemma_failed(t0, t2, told0, told2, in_turn(known, rest), rest);
            }
            return Err(e);
        },
    };
    let mut bl = Bootloader::new(port);
    let erased = erase_chip(&mut bl, id, progress);
    let ghost t3 = bl.port.trace();
    let ghost told3 = progress.events();
    let ghost erasing = choose|phase: Phase<int>|
        {
            &&& #[trigger] happened(t2, t3, told2, told3, phase)
            &&& erases_chip(id, phase)
            &&& phase.result == page_outcome(erased)
        };
    let ghost emptied = in_turn(known, erasing);
    proof {
        lemma_in_turn(t0, t2, t3, told0, told2, told3, known, erasing);
    }
    let pages: usize = match erased {
        Ok(pages) => pages,
        Err(e) => {
            proof {
                assert(wipes_in(connecting, identifying, erasing, rest));
                lemma_failed(t0, t3, told0, told3, emptied, rest);
            }
            return Err(e);
        },
    };
    let restored = port.reset_into_app();
    let r = match restored {
        Ok(()) => Ok(pages),
        Err(e) => Err(e),
    };
    proof {
        let t4 = port.trace();
        lemma_reset(t3, t4.last()->ResetIntoApp_outcome);
        lemma_no_calls(t3);
        let call = lemma_next_call(
            t3,
            t3,
            t4,
            Seq::empty(),
            Op::ResetIntoApp,
            done(t4.last()->ResetIntoApp_outcome),
        );
        let resetting = Phase {
            calls: Seq::empty().push(call),
            result: page_outcome(r),
            told: Seq::empty(),
        };
        assert(told3 + resetting.told =~= told3);
        assert(wipes_in(connecting, identifying, erasing, resetting));
        lemma_in_turn(t0, t3, t4, told0, told3, told3, emptied, resetting);
    }
    r
}

/// The step of [`enter_and_identify`] that failed.
#[derive(Debug, Clone, Copy, PartialEq, Eq, Structural)]
pub enum EntryStep {
    /// The bootloader was not entered.
    Connect,
    /// The chip did not give its id.
    GetId,
}

/// A failure of [`enter_and_identify`].
#[derive(Debug)]
pub struct EntryError {
    pub step: EntryStep,
    pub error: Error,
}

impl EntryStep {
    /// What a failure of this step is reported with.
    pub fn context(&self) -> (r: &'static str)
        ensures
            r@ == match *self {
                EntryStep::Connect => "entering bootloader"@,
                EntryStep::GetId => "Get ID"@,
            },
    {
        match self {
            EntryStep::Connect => "entering bootloader",
            EntryStep::GetId => "Get ID",
        }
    }
}

/// Enter the bootloader and ask for the chip id. Leaves the port in the
/// bootloader, ready for further commands, also if the chip does not give its id.
pub fn enter_and_identify<T: Board, P: ProgressSink>(port: &mut T, progress: &mut P) -> (r: Result<
    u16,
    EntryError,
>)
    ensures
        exists|phase: Phase<u16>|
            {
                &&& #[trigger] happened(
                    old(port).trace(),
                    final(port).trace(),
                    old(progress).events(),
                    final(progress).events(),
                    phase,
                )
                &&& enters(phase, r matches Err(e) && e.step == EntryStep::Connect)
                &&& phase.result == match r {
                    Ok(id) => Ok(id),
                    Err(e) => Err(e.error@),
                }
            },
{
    let ghost t0 = port.trace();
    let ghost told0 = progress.events();
    let connected = connect(port, progress);
    let ghost t1 = port.trace();
    let ghost told1 = progress.events();
    let ghost connecting = choose|phase: Phase<()>|
        {
            &&& #[trigger] happened(t0, t1, told0, told1, phase)
            &&& connects(phase)
            &&& phase.result == outcome(connected)
        };
    if let Err(error) = connected {
        proof {
            let unused: Phase<u16> = arbitrary();
            lemma_failed(t0, t1, told0, told1, connecting, unused);
            assert(enters_in(connecting, unused));
        }
        return Err(EntryError { step: EntryStep::Connect, error });
    }
    let mut bl = Bootloader::new(port);
    let reply = bl.get_id();
    let ghost t2 = port.trace();
    proof {
        lemma_no_calls(t1);
    }
    let ghost asked = lemma_next_call(t1, t1, t2, Seq::empty(), Op::GetId, id_reply(reply));
    match reply {
        Ok(id) => {
            progress.report(Progress::ChipIdentified { id });
            proof {
                let asking = Phase {
                    calls: Seq::empty().push(asked),
                    result: Ok::<_, ErrorView>(id),
                    told: seq![ProgressView::ChipIdentified { id }],
                };
                assert(progress.events() =~= told1 + asking.told);
                assert(enters_in(connecting, asking));
                lemma_in_turn(t0, t1, t2, told0, told1, progress.events(), connecting, asking);
            }
            Ok(id)
        },
        Err(error) => {
            proof {
                let asking = Phase {
                    calls: Seq::empty().push(asked),
                    result: Err::<u16, _>(error@),
                    told: Seq::empty(),
                };
                assert(told1 + asking.told =~= told1);
                assert(enters_in(connecting, asking));
                lemma_in_turn(t0, t1, t2, told0, told1, told1, connecting, asking);
            }
            Err(EntryError { step: EntryStep::GetId, error })
        },
    }
}

/// Read a device's info: enter the bootloader, identify the chip, ask `Get` for the
/// bootloader version and the supported commands, and reset into the application.
/// Gives what came of `Get`, whose failure is no error, and of the reset.
pub fn info<T: Board, P: ProgressSink>(port: &mut T, progress: &mut P) -> (r: Result<
    (Result<(u8, Vec<u8>), Error>, Result<(), Error>),
    EntryError,
>)
    ensures
        exists|phase: Phase<()>|
            {
                &&& #[trigger] happened(
                    old(port).trace(),
                    final(port).trace(),
                    old(progress).events(),
                    final(progress).events(),
                    phase,
                )
                &&& informs(r, phase)
            },
{
    let ghost t0 = port.trace();
    let ghost told0 = progress.events();
    let entered = enter_and_identify(port, progress);
    let ghost t1 = port.trace();
    let ghost told1 = progress.events();
    let ghost entering = choose|phase: Phase<u16>|
        {
            &&& #[trigger] happened(t0, t1, told0, told1, phase)
            &&& enters(phase, entered matches Err(e) && e.step == EntryStep::Connect)
            &&& phase.result == match entered {
                Ok(id) => Ok(id),
                Err(e) => Err(e.error@),
            }
        };
    if let Err(e) = entered {
        let r = Err(e);
        proof {
            let rest = skipped();
            lemma_failed(t0, t1, told0, told1, entering, rest);
            assert(informs_in(r, entering, rest));
        }
        return r;
    }
    let mut bl = Bootloader::new(port);
    let reply = bl.get();
    let ghost t2 = port.trace();
    let reset = port.reset_into_app();
    let ghost t3 = port.trace();
    let ghost closing = {
        lemma_no_calls(t1);
        let asked = lemma_next_call(t1, t1, t2, Seq::empty(), Op::Get, info_reply(reply));
        let calls = Seq::empty().push(asked);
        lemma_reset(t2, outcome(reset));
        let left = lemma_next_call(t1, t2, t3, calls, Op::ResetIntoApp, done(outcome(reset)));
        Phase { calls: calls.push(left), result: outcome(reset), told: Seq::empty() }
    };
    let r = Ok((reply, reset));
    proof {
        assert(told1 + closing.told =~= told1);
        assert(informs_in(r, entering, closing));
        lemma_in_turn(t0, t1, t3, told0, told1, told1, entering, closing);
    }
    r
}

} // verus!
