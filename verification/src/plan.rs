//! What the flash layer sets out to do: the pages to erase and the blocks to
//! write and read back.

use vstd::prelude::*;

use std::time::Duration;

use crate::bootloader::{law_read_length, Op, Reply};
use crate::error::ErrorView;
use crate::progress::ProgressView;
use crate::session::{in_turn, skipped, works_through, Call, Phase};
use crate::target::{ERASE_CHUNK, FLASH_BASE, MAX_BLOCK, MAX_FLASH_SIZE, PAGE_SIZE, WRITE_ALIGN};

verus! {

/// The `Duration` that `Duration::from_millis` makes.
pub uninterp spec fn duration_of_millis(millis: u64) -> Duration;

/// `Duration::from_millis` is a function of the number of milliseconds.
pub assume_specification[ Duration::from_millis ](millis: u64) -> (r: Duration)
    ensures
        r == duration_of_millis(millis),
;

/// Smaller of two numbers.
pub open spec fn min(a: int, b: int) -> int {
    if a <= b {
        a
    } else {
        b
    }
}

/// How many pieces of size `unit` it takes to cover `length`.
pub open spec fn pieces(length: int, unit: int) -> int {
    if length % unit == 0 {
        length / unit
    } else {
        length / unit + 1
    }
}

/// How long an erase may take, in milliseconds.
pub const ERASE_TIMEOUT_MILLIS: u64 = 30_000;

/// The page count of the largest device of the family.
pub open spec fn max_pages() -> int {
    MAX_FLASH_SIZE as int / PAGE_SIZE as int
}

/// The page numbers from `start` up to and without `end`, as they are sent.
pub open spec fn page_range(start: int, end: int) -> Seq<u16> {
    Seq::new((end - start) as nat, |i: int| (start + i) as u16)
}

/// The erase of pages `start..end`.
pub open spec fn erase_op(start: int, end: int) -> Op {
    Op::Erase {
        pages: page_range(start, end),
        timeout: duration_of_millis(ERASE_TIMEOUT_MILLIS),
    }
}

/// Where chunk `k` of an erase of `count` pages begins.
pub open spec fn chunk_start(k: int, count: int) -> int {
    min(k * ERASE_CHUNK, count)
}

/// The erase of pages `0..count`, chunk by chunk.
pub open spec fn erase_plan(count: int) -> Seq<Op> {
    Seq::new(
        pieces(count, ERASE_CHUNK as int) as nat,
        |k: int| erase_op(chunk_start(k, count), chunk_start(k + 1, count)),
    )
}

/// What is told of an erase of `count` pages: how many are done, first and after
/// each chunk.
pub open spec fn erase_progress(count: int) -> Seq<ProgressView> {
    Seq::new(
        (pieces(count, ERASE_CHUNK as int) + 1) as nat,
        |k: int| ProgressView::Erase { pages_done: chunk_start(k, count), pages_total: count },
    )
}

/// `chunk` filled up with 0xFF, the value of erased flash, to a multiple of
/// `align`.
pub open spec fn padded(chunk: Seq<u8>, align: int) -> Seq<u8> {
    chunk + Seq::new(
        (pieces(chunk.len() as int, align) * align - chunk.len()) as nat,
        |i: int| 0xFFu8,
    )
}

/// How many blocks an image is written in.
pub open spec fn block_count(firmware: Seq<u8>) -> int {
    pieces(firmware.len() as int, MAX_BLOCK as int)
}

/// Where block `k` begins in the image.
pub open spec fn block_start(firmware: Seq<u8>, k: int) -> int {
    min(k * MAX_BLOCK, firmware.len() as int)
}

/// Block `k` of the image.
pub open spec fn block(firmware: Seq<u8>, k: int) -> Seq<u8> {
    firmware.subrange(block_start(firmware, k), block_start(firmware, k + 1))
}

/// The flash address `offset` bytes behind the start of flash; addresses wrap
/// around at 32 bits.
pub open spec fn flash_address(offset: int) -> u32 {
    ((FLASH_BASE + offset) % 0x1_0000_0000) as u32
}

/// The writes of an image: each block, padded, at its place in flash.
pub open spec fn write_plan(firmware: Seq<u8>) -> Seq<Op> {
    Seq::new(
        block_count(firmware) as nat,
        |k: int|
            Op::Write {
                addr: flash_address(k * MAX_BLOCK),
                data: padded(block(firmware, k), WRITE_ALIGN as int),
            },
    )
}

/// The reads that an image is verified with: each block at its place in flash.
pub open spec fn read_plan(firmware: Seq<u8>) -> Seq<Op> {
    Seq::new(
        block_count(firmware) as nat,
        |k: int|
            Op::Read {
                addr: flash_address(k * MAX_BLOCK),
                len: block(firmware, k).len(),
            },
    )
}

/// What is told of the writes: how many bytes are done, first and after each
/// block.
pub open spec fn write_progress(firmware: Seq<u8>) -> Seq<ProgressView> {
    Seq::new(
        (block_count(firmware) + 1) as nat,
        |k: int|
            ProgressView::Write {
                bytes_done: block_start(firmware, k),
                bytes_total: firmware.len() as int,
            },
    )
}

/// What is told of the verification.
pub open spec fn verify_progress(firmware: Seq<u8>) -> Seq<ProgressView> {
    Seq::new(
        (block_count(firmware) + 1) as nat,
        |k: int|
            ProgressView::Verify {
                bytes_done: block_start(firmware, k),
                bytes_total: firmware.len() as int,
            },
    )
}

/// `j` is the first place where the two differ.
pub open spec fn first_difference(got: Seq<u8>, expected: Seq<u8>, j: int) -> bool {
    &&& 0 <= j < expected.len()
    &&& got[j] != expected[j]
    &&& forall|i: int| 0 <= i < j ==> got[i] == expected[i]
}

/// The first place where the two differ, if there is one.
pub open spec fn difference(got: Seq<u8>, expected: Seq<u8>) -> int {
    choose|j: int| first_difference(got, expected, j)
}

/// The error of block `k` being read back as `got`: the first byte that differs
/// from the image.
pub open spec fn mismatch(firmware: Seq<u8>, k: int, got: Seq<u8>) -> Option<ErrorView> {
    let expected = block(firmware, k);
    if exists|j: int| first_difference(got, expected, j) {
        let j = difference(got, expected);
        Some(
            ErrorView::VerifyMismatch {
                address: flash_address(k * MAX_BLOCK + j),
                got: got[j],
                expected: expected[j],
            },
        )
    } else {
        None
    }
}

/// The error that call `k` of a verification ends it with, if any.
pub open spec fn read_fault(firmware: Seq<u8>, k: int, call: Call) -> Option<ErrorView> {
    match call.result {
        Err(e) => Some(e),
        Ok(Reply::Data { bytes }) => mismatch(firmware, k, bytes),
        Ok(_) => None,
    }
}

/// The calls read the image back block by block, up to and with the first that
/// fails or differs from the image.
pub open spec fn verifies(firmware: Seq<u8>, calls: Seq<Call>, r: Result<(), ErrorView>) -> bool {
    let plan = read_plan(firmware);
    &&& calls.len() <= plan.len()
    &&& forall|i: int| 0 <= i < calls.len() ==> (#[trigger] calls[i]).op == plan[i]
    &&& match r {
        Ok(()) => {
            &&& calls.len() == plan.len()
            &&& forall|i: int|
                0 <= i < calls.len() ==> read_fault(firmware, i, #[trigger] calls[i]) is None
        },
        Err(e) => {
            &&& calls.len() > 0
            &&& forall|i: int|
                0 <= i < calls.len() - 1 ==> read_fault(firmware, i, #[trigger] calls[i]) is None
            &&& read_fault(firmware, calls.len() - 1, calls.last()) == Some(e)
        },
    }
}

/// How many pages the image spans; no more than the largest device has.
pub open spec fn footprint(firmware: Seq<u8>) -> int {
    min(pieces(firmware.len() as int, PAGE_SIZE as int), max_pages())
}

/// The erase of the pages that the image spans.
pub open spec fn erase_phase(firmware: Seq<u8>, phase: Phase<()>) -> bool {
    let count = footprint(firmware);
    works_through(erase_plan(count), erase_progress(count), phase)
}

/// The writes of the image.
pub open spec fn write_phase(firmware: Seq<u8>, phase: Phase<()>) -> bool {
    works_through(write_plan(firmware), write_progress(firmware), phase)
}

/// The image is read back and compared.
pub open spec fn verify_phase(firmware: Seq<u8>, phase: Phase<()>) -> bool {
    &&& verifies(firmware, phase.calls, phase.result)
    &&& phase.told == verify_progress(firmware).take(
        if phase.result is Ok {
            phase.calls.len() as int + 1
        } else {
            phase.calls.len() as int
        },
    )
}

/// The three phases of programming an image, of which the first and the last can
/// be left out. Each is gone into only if those before it succeeded.
pub open spec fn programs_in(
    firmware: Seq<u8>,
    erase: bool,
    verify: bool,
    erasing: Phase<()>,
    writing: Phase<()>,
    verifying: Phase<()>,
) -> bool {
    &&& if erase {
        erase_phase(firmware, erasing)
    } else {
        erasing == skipped()
    }
    &&& erasing.result is Ok ==> write_phase(firmware, writing)
    &&& erasing.result is Ok && writing.result is Ok ==> if verify {
        verify_phase(firmware, verifying)
    } else {
        verifying == skipped()
    }
}

/// The phase programs the image: the pages that it spans are erased if `erase`,
/// it is written, and it is read back and compared if `verify`.
pub open spec fn programs(firmware: Seq<u8>, erase: bool, verify: bool, phase: Phase<()>) -> bool {
    exists|erasing: Phase<()>, writing: Phase<()>, verifying: Phase<()>|
        {
            &&& #[trigger] programs_in(firmware, erase, verify, erasing, writing, verifying)
            &&& phase == in_turn(in_turn(erasing, writing), verifying)
        }
}

/// Block `k` of an image holds 1 to 256 bytes, and fewer than 256 only if it is
/// the last. Padded, it holds at most 256 bytes, a multiple of the write
/// alignment, and begins with the bytes of the image.
pub proof fn law_blocks(firmware: Seq<u8>, k: int)
    requires
        0 <= k < block_count(firmware),
    ensures
        1 <= block(firmware, k).len() <= MAX_BLOCK,
        k + 1 < block_count(firmware) ==> block(firmware, k).len() == MAX_BLOCK,
        block_start(firmware, k) == k * MAX_BLOCK,
        padded(block(firmware, k), WRITE_ALIGN as int).len() <= MAX_BLOCK,
        padded(block(firmware, k), WRITE_ALIGN as int).len() % WRITE_ALIGN as nat == 0,
        block(firmware, k).len() <= padded(block(firmware, k), WRITE_ALIGN as int).len(),
        padded(block(firmware, k), WRITE_ALIGN as int).take(block(firmware, k).len() as int)
            == block(firmware, k),
{
    let b = block(firmware, k);
    assert(padded(b, WRITE_ALIGN as int).take(b.len() as int) =~= b);
}

/// Addresses in flash follow each other.
pub(crate) proof fn lemma_address(offset: int, i: int)
    ensures
        (flash_address(offset) + i) % 0x1_0000_0000 == flash_address(offset + i),
{
}

/// The first `n` blocks of an image, one after the other.
pub open spec fn blocks_joined(firmware: Seq<u8>, n: int) -> Seq<u8>
    decreases n,
{
    if n <= 0 {
        Seq::empty()
    } else {
        blocks_joined(firmware, n - 1) + block(firmware, n - 1)
    }
}

proof fn lemma_blocks_joined(firmware: Seq<u8>, n: int)
    requires
        0 <= n <= block_count(firmware),
    ensures
        blocks_joined(firmware, n) == firmware.take(block_start(firmware, n)),
    decreases n,
{
    if n > 0 {
        lemma_blocks_joined(firmware, n - 1);
    }
    assert(blocks_joined(firmware, n) =~= firmware.take(block_start(firmware, n)));
}

/// The blocks cover the whole image: put together they are the image.
pub proof fn law_blocks_cover(firmware: Seq<u8>)
    ensures
        blocks_joined(firmware, block_count(firmware)) == firmware,
{
    lemma_blocks_joined(firmware, block_count(firmware));
    assert(firmware.take(firmware.len() as int) =~= firmware);
}

/// The writes of an image that fits the largest device follow each other from the
/// start of flash, each at an aligned address and of a length that the bootloader
/// takes.
pub proof fn law_writes_in_place(firmware: Seq<u8>, k: int)
    requires
        firmware.len() <= MAX_FLASH_SIZE,
        0 <= k < block_count(firmware),
    ensures
        write_plan(firmware)[k] matches Op::Write { addr, data } && {
            &&& addr == FLASH_BASE + block_start(firmware, k)
            &&& addr % WRITE_ALIGN as u32 == 0
            &&& 1 <= data.len() <= MAX_BLOCK
            &&& data.len() % WRITE_ALIGN as nat == 0
            &&& data.take(block(firmware, k).len() as int) == block(firmware, k)
        },
{
    law_blocks(firmware, k);
    let addr = flash_address(k * MAX_BLOCK);
    assert(addr == FLASH_BASE + k * MAX_BLOCK);
    assert(addr % 8 == 0);
}

/// Everything that is written of an image that fits the largest device lies in
/// the pages that the image spans, and each of those pages holds some of the
/// image.
pub proof fn law_writes_stay_in_footprint(firmware: Seq<u8>, k: int)
    requires
        firmware.len() <= MAX_FLASH_SIZE,
        0 <= k < block_count(firmware),
    ensures
        write_plan(firmware)[k] matches Op::Write { addr, data } && FLASH_BASE <= addr && addr
            + data.len() <= FLASH_BASE + footprint(firmware) * PAGE_SIZE,
        (footprint(firmware) - 1) * PAGE_SIZE < firmware.len() <= footprint(firmware) * PAGE_SIZE,
{
    law_blocks(firmware, k);
}

/// The pages that an operation erases.
pub open spec fn erase_pages_of(op: Op) -> Seq<u16> {
    match op {
        Op::Erase { pages, .. } => pages,
        _ => Seq::empty(),
    }
}

/// Each page below `count` is in one of the chunks of an erase of `0..count`.
pub proof fn law_erase_covers(count: int, p: int)
    requires
        0 <= p < count <= 0x1_0000,
    ensures
        0 <= p / (ERASE_CHUNK as int) < erase_plan(count).len(),
        erase_pages_of(erase_plan(count)[p / (ERASE_CHUNK as int)]).contains(p as u16),
{
    let k = p / 80;
    let pages = page_range(chunk_start(k, count), chunk_start(k + 1, count));
    assert(k < erase_plan(count).len());
    assert(pages[p - 80 * k] == p as u16);
}

/// The chunks of an erase of pages `0..count` name no other page, and are of a
/// size that the bootloader takes.
pub proof fn law_erase_stays_below(count: int, k: int)
    requires
        0 <= count <= 0x1_0000,
        0 <= k < erase_plan(count).len(),
    ensures
        erase_plan(count)[k] is Erase,
        1 <= erase_pages_of(erase_plan(count)[k]).len() <= ERASE_CHUNK,
        forall|i: int|
            0 <= i < erase_pages_of(erase_plan(count)[k]).len() ==> 0
                <= #[trigger] erase_pages_of(erase_plan(count)[k])[i] < count,
{
}

/// What a verification read, put together.
pub open spec fn read_back(calls: Seq<Call>) -> Seq<u8>
    decreases calls.len(),
{
    if calls.len() == 0 {
        Seq::empty()
    } else {
        read_back(calls.drop_last()) + match calls.last().result {
            Ok(Reply::Data { bytes }) => bytes,
            _ => Seq::empty(),
        }
    }
}

proof fn lemma_read_back(firmware: Seq<u8>, calls: Seq<Call>)
    requires
        calls.len() <= block_count(firmware),
        forall|i: int| 0 <= i < calls.len() ==> #[trigger] calls[i].valid(),
        forall|i: int|
            0 <= i < calls.len() ==> (#[trigger] calls[i]).op == read_plan(firmware)[i],
        forall|i: int|
            0 <= i < calls.len() ==> read_fault(firmware, i, #[trigger] calls[i]) is None,
    ensures
        read_back(calls) == blocks_joined(firmware, calls.len() as int),
    decreases calls.len(),
{
    if calls.len() > 0 {
        let n = calls.len() - 1;
        let head = calls.drop_last();
        assert forall|i: int| 0 <= i < head.len() implies #[trigger] head[i].valid() by {
            assert(calls[i].valid());
        }
        assert forall|i: int| 0 <= i < head.len() implies (#[trigger] head[i]).op == read_plan(
            firmware,
        )[i] by {
            assert(calls[i].op == read_plan(firmware)[i]);
        }
        assert forall|i: int| 0 <= i < head.len() implies read_fault(
            firmware,
            i,
            #[trigger] head[i],
        ) is None by {
            assert(read_fault(firmware, i, calls[i]) is None);
        }
        lemma_read_back(firmware, head);
        assert(calls[n].valid());
        assert(calls[n].op == read_plan(firmware)[n]);
        assert(read_fault(firmware, n, calls[n]) is None);
        lemma_block_read_back(firmware, n, calls[n]);
    }
}

/// A read of block `k` in which no fault is found gave the block.
pub(crate) proof fn lemma_block_read_back(firmware: Seq<u8>, k: int, call: Call)
    requires
        0 <= k < block_count(firmware),
        call.valid(),
        call.op == read_plan(firmware)[k],
        read_fault(firmware, k, call) is None,
    ensures
        call.result == Ok::<_, ErrorView>(Reply::Data { bytes: block(firmware, k) }),
{
    let expected = block(firmware, k);
    law_read_length(flash_address(k * MAX_BLOCK), expected.len(), call.events, call.result);
    let got = call.result->Ok_0->bytes;
    lemma_no_difference(got, expected, expected.len() as int);
    assert(got =~= expected);
}

proof fn lemma_no_difference(got: Seq<u8>, expected: Seq<u8>, n: int)
    requires
        got.len() == expected.len(),
        0 <= n <= expected.len(),
        !(exists|j: int| first_difference(got, expected, j)),
    ensures
        forall|j: int| 0 <= j < n ==> got[j] == expected[j],
    decreases n,
{
    if n > 0 {
        lemma_no_difference(got, expected, n - 1);
        assert(!first_difference(got, expected, n - 1));
    }
}

/// A verification that succeeds has read back the image, byte for byte.
pub proof fn law_verified(firmware: Seq<u8>, phase: Phase<()>)
    requires
        verify_phase(firmware, phase),
        phase.result is Ok,
        forall|i: int| 0 <= i < phase.calls.len() ==> #[trigger] phase.calls[i].valid(),
    ensures
        read_back(phase.calls) == firmware,
{
    lemma_read_back(firmware, phase.calls);
    law_blocks_cover(firmware);
}

/// The error of a block whose first difference is at `j`.
pub(crate) proof fn lemma_mismatch(firmware: Seq<u8>, k: int, got: Seq<u8>, j: int)
    requires
        first_difference(got, block(firmware, k), j),
    ensures
        mismatch(firmware, k, got) == Some(
            ErrorView::VerifyMismatch {
                address: flash_address(k * MAX_BLOCK + j),
                got: got[j],
                expected: block(firmware, k)[j],
            },
        ),
{
    let expected = block(firmware, k);
    let i = difference(got, expected);
    assert(i < j ==> got[i] == expected[i]);
    assert(j < i ==> got[j] == expected[j]);
}

/// A verification that reads back something else reports the first byte that
/// differs, at its address in flash.
pub proof fn law_mismatch_reported(firmware: Seq<u8>, k: int, got: Seq<u8>, j: int)
    requires
        firmware.len() <= MAX_FLASH_SIZE,
        0 <= k < block_count(firmware),
        first_difference(got, block(firmware, k), j),
    ensures
        mismatch(firmware, k, got) == Some(
            ErrorView::VerifyMismatch {
                address: (FLASH_BASE + k * MAX_BLOCK + j) as u32,
                got: got[j],
                expected: firmware[k * MAX_BLOCK + j],
            },
        ),
{
    lemma_mismatch(firmware, k, got, j);
    law_blocks(firmware, k);
}

/// What is told of the writes begins at nothing, never goes back, and ends at the
/// whole image.
pub proof fn law_write_progress(firmware: Seq<u8>, i: int, j: int)
    requires
        0 <= i <= j <= block_count(firmware),
    ensures
        write_progress(firmware)[i]->Write_bytes_done <= write_progress(firmware)[j]->Write_bytes_done,
        write_progress(firmware)[0]->Write_bytes_done == 0,
        write_progress(firmware).last()->Write_bytes_done == firmware.len(),
        write_progress(firmware)[i]->Write_bytes_total == firmware.len(),
{
}

/// The smaller of two numbers is one of them and no greater than either.
pub proof fn law_min(a: int, b: int)
    ensures
        min(a, b) <= a,
        min(a, b) <= b,
        min(a, b) == a || min(a, b) == b,
{
}

/// So many pieces cover the length, and one fewer does not.
pub proof fn law_pieces(length: int, unit: int)
    requires
        0 <= length,
        0 < unit,
    ensures
        0 <= pieces(length, unit),
        pieces(length, unit) * unit >= length,
        length > 0 ==> (pieces(length, unit) - 1) * unit < length,
        length == 0 ==> pieces(length, unit) == 0,
{
    let q = length / unit;
    let r = length % unit;
    assert(length == q * unit + r && 0 <= r < unit && 0 <= q) by (nonlinear_arith)
        requires
            0 <= length,
            0 < unit,
            q == length / unit,
            r == length % unit,
    ;
    assert((q + 1) * unit == q * unit + unit) by (nonlinear_arith);
    assert((q - 1) * unit == q * unit - unit) by (nonlinear_arith);
    if length == 0 {
        assert(q == 0) by (nonlinear_arith)
            requires
                0 == q * unit + r,
                0 <= r,
                0 <= q,
                0 < unit,
        ;
    }
}

/// Padding keeps what was there, adds only 0xFF, as few as there can be, and ends at a
/// multiple of the alignment.
pub proof fn law_padding(chunk: Seq<u8>, align: int, i: int)
    requires
        0 < align,
    ensures
        chunk.len() <= padded(chunk, align).len() < chunk.len() + align,
        padded(chunk, align).len() as int % align == 0,
        0 <= i < chunk.len() ==> padded(chunk, align)[i] == chunk[i],
        chunk.len() <= i < padded(chunk, align).len() ==> padded(chunk, align)[i] == 0xFF,
{
    let n = pieces(chunk.len() as int, align);
    law_pieces(chunk.len() as int, align);
    assert((n - 1) * align == n * align - align) by (nonlinear_arith);
    assert(0 * align == 0);
    assert(padded(chunk, align).len() == n * align);
    assert(n * align % align == 0) by (nonlinear_arith)
        requires
            0 < align,
    ;
}

/// A range of pages holds every page from its start to its end, in order.
pub proof fn law_page_range(start: int, end: int, i: int)
    requires
        0 <= start <= end <= 0x1_0000,
        0 <= i < end - start,
    ensures
        page_range(start, end).len() == end - start,
        page_range(start, end)[i] == start + i,
{
}

/// The address of an offset in flash is that many bytes behind 0x0800_0000, and begins
/// anew beyond 32 bits.
pub proof fn law_flash_address(offset: int)
    requires
        0 <= offset,
    ensures
        offset <= 0x3_0000 ==> flash_address(offset) == 0x0800_0000 + offset,
        flash_address(offset) == (0x0800_0000 + offset) % 0x1_0000_0000,
{
}

/// A block that was read back is blamed exactly if a byte of it differs from the image;
/// the error names the first that does, its address, what was got and what was expected.
pub proof fn law_mismatch(firmware: Seq<u8>, k: int, got: Seq<u8>, j: int)
    requires
        firmware.len() <= 0x3_0000,
        0 <= k,
        0 <= j < 256,
        256 * k + j < firmware.len(),
        got.len() == if 256 * k + 256 <= firmware.len() {
            256
        } else {
            firmware.len() - 256 * k
        },
        forall|i: int| 0 <= i < j ==> got[i] == #[trigger] firmware[256 * k + i],
    ensures
        got[j] != firmware[256 * k + j] ==> (mismatch(firmware, k, got) matches Some(
            ErrorView::VerifyMismatch { address, got: g, expected },
        ) && address == 0x0800_0000 + 256 * k + j && g == got[j] && expected == firmware[256 * k
            + j]),
        got[j] == firmware[256 * k + j] && j == got.len() - 1 ==> mismatch(firmware, k, got) is None,
{
    let expected = block(firmware, k);
    assert forall|i: int| 0 <= i < j implies got[i] == expected[i] by {
        assert(expected[i] == firmware[256 * k + i]);
    }
    assert(expected[j] == firmware[256 * k + j]);
    if got[j] != expected[j] {
        assert(first_difference(got, expected, j));
        lemma_mismatch(firmware, k, got, j);
    } else if j == got.len() - 1 {
        assert forall|i: int| !first_difference(got, expected, i) by {}
    }
}

} // verus!
