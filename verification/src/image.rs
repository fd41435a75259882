//! What programming an image does to a device, call by call: which pages are erased,
//! which bytes are written where, what is read back, and what is told meanwhile.

use vstd::prelude::*;

use crate::bootloader::{Op, Reply};
use crate::error::ErrorView;
use crate::plan::{
    block, block_count, block_start, chunk_start, difference, duration_of_millis, erase_plan,
    erase_progress, first_difference, footprint, law_blocks, lemma_block_read_back, padded,
    programs, programs_in, read_fault, read_plan, verify_progress, write_plan, write_progress,
};
use crate::progress::ProgressView;
use crate::session::{in_turn, works_through, Call, Phase};

verus! {

/// How many pages of 128 bytes an image of `len` bytes spans, up to the 1536 of the
/// largest chip.
pub open spec fn image_pages(len: int) -> int {
    if len <= 0x3_0000 {
        (len + 127) / 128
    } else {
        1536
    }
}

/// The address `offset` bytes behind the start of flash; beyond 32 bits addresses begin
/// anew.
pub open spec fn at_offset(addr: u32, offset: int) -> bool {
    &&& addr == (0x0800_0000 + offset) % 0x1_0000_0000
    &&& 0 <= offset <= 0x3_0000 ==> addr == 0x0800_0000 + offset
}

/// How many erases of 80 pages it takes for `pages` pages.
pub open spec fn image_chunks(pages: int) -> int {
    (pages + 79) / 80
}

/// How many writes of 256 bytes it takes for `len` bytes.
pub open spec fn image_blocks(len: int) -> int {
    (len + 255) / 256
}

/// How many bytes of an image of `len` bytes are in its block `k`.
pub open spec fn block_size(len: int, k: int) -> int {
    if 256 * k + 256 <= len {
        256
    } else {
        len - 256 * k
    }
}

/// The bytes of the image in its block `k`.
pub open spec fn block_bytes(firmware: Seq<u8>, k: int) -> Seq<u8> {
    firmware.subrange(256 * k, 256 * k + block_size(firmware.len() as int, k))
}

/// An erase of pages `80 * k` and on, in order, 80 of them or as many as are left of
/// `pages`, with 30 seconds to do it.
pub open spec fn is_chunk(op: Op, k: int, pages: int) -> bool {
    op matches Op::Erase { pages: list, timeout } && timeout == duration_of_millis(30_000)
        && list.len() == (if 80 * k + 80 <= pages {
        80
    } else {
        pages - 80 * k
    }) && forall|i: int| 0 <= i < list.len() ==> #[trigger] list[i] == 80 * k + i
}

/// A write of block `k` of the image where it belongs in flash, filled up with 0xFF to
/// a multiple of 8 bytes.
pub open spec fn is_block_write(op: Op, firmware: Seq<u8>, k: int) -> bool {
    let size = block_size(firmware.len() as int, k);
    op matches Op::Write { addr, data } && at_offset(addr, 256 * k) && data.len() % 8 == 0
        && size <= data.len() < size + 8 && data.len() <= 256 && data.take(size) == block_bytes(
        firmware,
        k,
    ) && forall|i: int| size <= i < data.len() ==> #[trigger] data[i] == 0xFF
}

/// A read of as many bytes as block `k` of the image has, from where it belongs.
pub open spec fn is_block_read(op: Op, firmware: Seq<u8>, k: int) -> bool {
    op matches Op::Read { addr, len } && at_offset(addr, 256 * k) && len == block_size(
        firmware.len() as int,
        k,
    )
}

/// Operation `i` of programming an image with `e` erases and `w` writes.
pub open spec fn in_place(firmware: Seq<u8>, e: int, w: int, i: int, op: Op) -> bool {
    if i < e {
        is_chunk(op, i, image_pages(firmware.len() as int))
    } else if i < e + w {
        is_block_write(op, firmware, i - e)
    } else {
        is_block_read(op, firmware, i - e - w)
    }
}

/// Call `i` succeeded and, if it is a read, gave what the image has there.
pub open spec fn went_well(firmware: Seq<u8>, e: int, w: int, i: int, call: Call) -> bool {
    &&& call.result is Ok
    &&& i >= e + w ==> call.result == Ok::<_, ErrorView>(
        Reply::Data { bytes: block_bytes(firmware, i - e - w) },
    )
}

/// `got` is not the image at `at`: byte `j` is the first to differ, and the error says
/// so.
pub open spec fn differs(
    firmware: Seq<u8>,
    at: int,
    size: int,
    got: Seq<u8>,
    j: int,
    err: ErrorView,
) -> bool {
    &&& 0 <= j < size
    &&& got[j] != firmware[at + j]
    &&& forall|t: int| 0 <= t < j ==> #[trigger] got[t] == firmware[at + t]
    &&& err matches ErrorView::VerifyMismatch { address, got: g, expected } && at_offset(
        address,
        at + j,
    ) && g == got[j] && expected == firmware[at + j]
}

/// Call `i` is why programming fails with `err`: it failed with it, or is a read that
/// gave something else than the image.
pub open spec fn went_wrong(
    firmware: Seq<u8>,
    e: int,
    w: int,
    i: int,
    call: Call,
    err: ErrorView,
) -> bool {
    ||| call.result == Err::<Reply, _>(err)
    ||| i >= e + w && (call.result matches Ok(Reply::Data { bytes }) && exists|j: int|
        #[trigger] differs(
            firmware,
            256 * (i - e - w),
            block_size(firmware.len() as int, i - e - w),
            bytes,
            j,
            err,
        ))
}

proof fn lemma_chunk(len: int, k: int)
    requires
        0 <= len,
    ensures
        erase_plan(image_pages(len)).len() == image_chunks(image_pages(len)),
        0 <= k < image_chunks(image_pages(len)) ==> is_chunk(
            erase_plan(image_pages(len))[k],
            k,
            image_pages(len),
        ),
{
}

proof fn lemma_footprint(firmware: Seq<u8>)
    ensures
        footprint(firmware) == image_pages(firmware.len() as int),
        block_count(firmware) == image_blocks(firmware.len() as int),
{
}

proof fn lemma_block(firmware: Seq<u8>, k: int)
    requires
        0 <= k < image_blocks(firmware.len() as int),
    ensures
        block(firmware, k) == block_bytes(firmware, k),
        block(firmware, k).len() == block_size(firmware.len() as int, k),
        is_block_write(write_plan(firmware)[k], firmware, k),
        is_block_read(read_plan(firmware)[k], firmware, k),
{
    lemma_footprint(firmware);
    law_blocks(firmware, k);
    assert(block(firmware, k) =~= block_bytes(firmware, k));
    let data = padded(block(firmware, k), 8);
    assert(data.take(block(firmware, k).len() as int) =~= block(firmware, k));
}

proof fn lemma_read_fault(
    firmware: Seq<u8>,
    e: int,
    w: int,
    i: int,
    call: Call,
    err: ErrorView,
)
    requires
        0 <= i - e - w < image_blocks(firmware.len() as int),
        call.op == read_plan(firmware)[i - e - w],
        read_fault(firmware, i - e - w, call) == Some(err),
    ensures
        went_wrong(firmware, e, w, i, call, err),
{
    let k = i - e - w;
    lemma_block(firmware, k);
    if let Ok(Reply::Data { bytes }) = call.result {
        let b = block(firmware, k);
        let j = difference(bytes, b);
        assert(first_difference(bytes, b, j));
        assert forall|t: int| 0 <= t < j implies #[trigger] bytes[t] == firmware[256 * k + t] by {
            assert(b[t] == firmware[256 * k + t]);
        }
        assert(b[j] == firmware[256 * k + j]);
        assert(differs(
            firmware,
            256 * (i - e - w),
            block_size(firmware.len() as int, i - e - w),
            bytes,
            j,
            err,
        ));
    }
}

/// Programming an image is, in this order: if it is asked for, an erase of every page
/// that the image spans, 80 at a time from page 0 on; a write of every block, 256 bytes
/// at a time from the start of flash on, whatever else is asked for; and, if it is asked
/// for, a read of every block. If it succeeds, all of that was done and succeeded, and
/// the reads gave the image. If not, it stopped at the call that failed, or that gave
/// the first byte that differs, and everything before that succeeded.
pub proof fn law_programming(firmware: Seq<u8>, erase: bool, verify: bool, phase: Phase<()>)
    requires
        programs(firmware, erase, verify, phase),
        forall|i: int| 0 <= i < phase.calls.len() ==> #[trigger] phase.calls[i].valid(),
    ensures
        ({
            let len = firmware.len() as int;
            let e = if erase {
                image_chunks(image_pages(len))
            } else {
                0
            };
            let w = image_blocks(len);
            let v = if verify {
                w
            } else {
                0
            };
            let calls = phase.calls;
            &&& calls.len() <= e + w + v
            &&& forall|i: int|
                0 <= i < calls.len() ==> in_place(firmware, e, w, i, (#[trigger] calls[i]).op)
            &&& match phase.result {
                Ok(()) => {
                    &&& calls.len() == e + w + v
                    &&& forall|i: int|
                        0 <= i < calls.len() ==> went_well(firmware, e, w, i, #[trigger] calls[i])
                },
                Err(err) => {
                    &&& calls.len() > 0
                    &&& forall|i: int|
                        0 <= i < calls.len() - 1 ==> went_well(
                            firmware,
                            e,
                            w,
                            i,
                            #[trigger] calls[i],
                        )
                    &&& went_wrong(firmware, e, w, calls.len() - 1, calls.last(), err)
                },
            }
        }),
{
    let (erasing, writing, verifying) = choose|
        erasing: Phase<()>,
        writing: Phase<()>,
        verifying: Phase<()>,
    |
        {
            &&& #[trigger] programs_in(firmware, erase, verify, erasing, writing, verifying)
            &&& phase == in_turn(in_turn(erasing, writing), verifying)
        };
    lemma_programming(firmware, erase, verify, erasing, writing, verifying);
}

proof fn lemma_programming(
    firmware: Seq<u8>,
    erase: bool,
    verify: bool,
    erasing: Phase<()>,
    writing: Phase<()>,
    verifying: Phase<()>,
)
    requires
        programs_in(firmware, erase, verify, erasing, writing, verifying),
        ({
            let calls = in_turn(in_turn(erasing, writing), verifying).calls;
            forall|i: int| 0 <= i < calls.len() ==> #[trigger] calls[i].valid()
        }),
    ensures
        ({
            let phase = in_turn(in_turn(erasing, writing), verifying);
            let len = firmware.len() as int;
            let e = if erase {
                image_chunks(image_pages(len))
            } else {
                0
            };
            let w = image_blocks(len);
            let v = if verify {
                w
            } else {
                0
            };
            let calls = phase.calls;
            &&& calls.len() <= e + w + v
            &&& forall|i: int|
                0 <= i < calls.len() ==> in_place(firmware, e, w, i, (#[trigger] calls[i]).op)
            &&& match phase.result {
                Ok(()) => {
                    &&& calls.len() == e + w + v
                    &&& forall|i: int|
                        0 <= i < calls.len() ==> went_well(firmware, e, w, i, #[trigger] calls[i])
                },
                Err(err) => {
                    &&& calls.len() > 0
                    &&& forall|i: int|
                        0 <= i < calls.len() - 1 ==> went_well(
                            firmware,
                            e,
                            w,
                            i,
                            #[trigger] calls[i],
                        )
                    &&& went_wrong(firmware, e, w, calls.len() - 1, calls.last(), err)
                },
            }
        }),
{
    let phase = in_turn(in_turn(erasing, writing), verifying);
    let len = firmware.len() as int;
    let pages = image_pages(len);
    let e = if erase {
        image_chunks(pages)
    } else {
        0
    };
    let w = image_blocks(len);
    let calls = phase.calls;
    lemma_footprint(firmware);
    lemma_chunk(len, 0);
    let a = erasing.calls.len() as int;
    let b = writing.calls.len() as int;
    if erasing.result is Ok {
        assert(a == e);
        if writing.result is Ok {
            assert(b == w);
        }
    }
    assert forall|i: int| 0 <= i < calls.len() implies in_place(
        firmware,
        e,
        w,
        i,
        (#[trigger] calls[i]).op,
    ) by {
        if i < a {
            assert(calls[i] == erasing.calls[i]);
            lemma_chunk(len, i);
        } else if i < a + b {
            assert(calls[i] == writing.calls[i - a]);
            lemma_block(firmware, i - a);
        } else {
            assert(calls[i] == verifying.calls[i - a - b]);
            lemma_block(firmware, i - a - b);
        }
    }
    let passed: int = if phase.result is Ok {
        calls.len() as int
    } else {
        calls.len() - 1
    };
    assert forall|i: int| 0 <= i < passed implies went_well(
        firmware,
        e,
        w,
        i,
        #[trigger] calls[i],
    ) by {
        if i < a {
            assert(calls[i] == erasing.calls[i]);
        } else if i < a + b {
            assert(calls[i] == writing.calls[i - a]);
        } else {
            let k = i - a - b;
            assert(calls[i] == verifying.calls[k]);
            assert(calls[i].valid());
            lemma_block(firmware, k);
            assert(read_fault(firmware, k, verifying.calls[k]) is None);
            lemma_block_read_back(firmware, k, verifying.calls[k]);
        }
    }
    if let Err(err) = phase.result {
        let n = calls.len() - 1;
        if erasing.result is Ok && writing.result is Ok {
            let k = n - a - b;
            assert(calls[n] == verifying.calls[k]);
            assert(k == n - e - w);
            lemma_read_fault(firmware, e, w, n, verifying.calls[k], err);
        } else if erasing.result is Ok {
            assert(calls[n] == writing.calls[n - a]);
        }
    }
}

/// Programming that succeeds, with or without erasing and verifying, has written every
/// block: for block `k` there is a write that succeeded, at 256 times `k` from the start
/// of flash, whose data begins with the block.
pub proof fn law_every_block_written(
    firmware: Seq<u8>,
    erase: bool,
    verify: bool,
    phase: Phase<()>,
    k: int,
)
    requires
        programs(firmware, erase, verify, phase),
        phase.result is Ok,
        forall|i: int| 0 <= i < phase.calls.len() ==> #[trigger] phase.calls[i].valid(),
        0 <= k,
        256 * k < firmware.len(),
    ensures
        exists|i: int|
            0 <= i < phase.calls.len() && (#[trigger] phase.calls[i]).result is Ok
                && is_block_write(phase.calls[i].op, firmware, k),
{
    law_programming(firmware, erase, verify, phase);
    let e = if erase {
        image_chunks(image_pages(firmware.len() as int))
    } else {
        0
    };
    let w = image_blocks(firmware.len() as int);
    let call = phase.calls[e + k];
    assert(in_place(firmware, e, w, e + k, call.op));
    assert(went_well(firmware, e, w, e + k, call));
    assert(call.result is Ok && is_block_write(call.op, firmware, k));
}

/// How far a job of `total` is after `k` steps of `step`.
pub open spec fn done_after(k: int, step: int, total: int) -> int {
    if k * step <= total {
        k * step
    } else {
        total
    }
}

/// What is told as number `i` while an image is programmed with `e` things told of the
/// erase and `w` of the writes.
pub open spec fn told_in_place(len: int, e: int, w: int, i: int, p: ProgressView) -> bool {
    if i < e {
        p == (ProgressView::Erase {
            pages_done: done_after(i, 80, image_pages(len)),
            pages_total: image_pages(len),
        })
    } else if i < e + w {
        p == (ProgressView::Write { bytes_done: done_after(i - e, 256, len), bytes_total: len })
    } else {
        p == (ProgressView::Verify { bytes_done: done_after(i - e - w, 256, len), bytes_total: len })
    }
}

proof fn lemma_steps(firmware: Seq<u8>, i: int)
    requires
        0 <= i,
    ensures
        ({
            let len = firmware.len() as int;
            let pages = image_pages(len);
            let w = image_blocks(len) + 1;
            &&& erase_progress(pages).len() == image_chunks(pages) + 1
            &&& write_progress(firmware).len() == w
            &&& verify_progress(firmware).len() == w
            &&& i < image_chunks(pages) + 1 ==> erase_progress(pages)[i] == (ProgressView::Erase {
                pages_done: done_after(i, 80, pages),
                pages_total: pages,
            })
            &&& i < w ==> write_progress(firmware)[i] == (ProgressView::Write {
                bytes_done: done_after(i, 256, len),
                bytes_total: len,
            })
            &&& i < w ==> verify_progress(firmware)[i] == (ProgressView::Verify {
                bytes_done: done_after(i, 256, len),
                bytes_total: len,
            })
        }),
{
    let len = firmware.len() as int;
    lemma_footprint(firmware);
    assert(chunk_start(i, image_pages(len)) == done_after(i, 80, image_pages(len)));
    assert(block_start(firmware, i) == done_after(i, 256, len));
}

/// While an image is programmed, each of its phases tells how far it is when it begins
/// and after each call that succeeded, from nothing to the whole; nothing else is told.
pub proof fn law_programming_told(firmware: Seq<u8>, erase: bool, verify: bool, phase: Phase<()>)
    requires
        programs(firmware, erase, verify, phase),
    ensures
        ({
            let len = firmware.len() as int;
            let c = phase.calls.len() as int;
            let chunks = if erase {
                image_chunks(image_pages(len))
            } else {
                0
            };
            let blocks = image_blocks(len);
            let e = if erase {
                chunks + 1
            } else {
                0
            };
            let w = blocks + 1;
            &&& forall|i: int|
                0 <= i < phase.told.len() ==> told_in_place(len, e, w, i, #[trigger] phase.told[i])
            &&& phase.told.len() == if phase.result is Ok {
                e + w + if verify {
                    w
                } else {
                    0
                }
            } else if c <= chunks {
                c
            } else if c <= chunks + blocks {
                e + (c - chunks)
            } else {
                e + w + (c - chunks - blocks)
            }
        }),
{
    let (erasing, writing, verifying) = choose|
        erasing: Phase<()>,
        writing: Phase<()>,
        verifying: Phase<()>,
    |
        {
            &&& #[trigger] programs_in(firmware, erase, verify, erasing, writing, verifying)
            &&& phase == in_turn(in_turn(erasing, writing), verifying)
        };
    lemma_programming_told(firmware, erase, verify, erasing, writing, verifying);
}

#[verifier::spinoff_prover]
proof fn lemma_programming_told(
    firmware: Seq<u8>,
    erase: bool,
    verify: bool,
    erasing: Phase<()>,
    writing: Phase<()>,
    verifying: Phase<()>,
)
    requires
        programs_in(firmware, erase, verify, erasing, writing, verifying),
    ensures
        ({
            let phase = in_turn(in_turn(erasing, writing), verifying);
            let len = firmware.len() as int;
            let c = phase.calls.len() as int;
            let chunks = if erase {
                image_chunks(image_pages(len))
            } else {
                0
            };
            let blocks = image_blocks(len);
            let e = if erase {
                chunks + 1
            } else {
                0
            };
            let w = blocks + 1;
            &&& forall|i: int|
                0 <= i < phase.told.len() ==> told_in_place(len, e, w, i, #[trigger] phase.told[i])
            &&& phase.told.len() == if phase.result is Ok {
                e + w + if verify {
                    w
                } else {
                    0
                }
            } else if c <= chunks {
                c
            } else if c <= chunks + blocks {
                e + (c - chunks)
            } else {
                e + w + (c - chunks - blocks)
            }
        }),
{
    let phase = in_turn(in_turn(erasing, writing), verifying);
    let len = firmware.len() as int;
    let pages = image_pages(len);
    lemma_footprint(firmware);
    lemma_chunk(len, 0);
    lemma_steps(firmware, 0);
    let e = if erase {
        image_chunks(pages) + 1
    } else {
        0
    };
    let w = image_blocks(len) + 1;
    let a = erasing.told.len() as int;
    let b = writing.told.len() as int;
    assert forall|i: int| 0 <= i < phase.told.len() implies told_in_place(
        len,
        e,
        w,
        i,
        #[trigger] phase.told[i],
    ) by {
        if i < a {
            assert(phase.told[i] == erasing.told[i]);
            assert(erasing.told[i] == erase_progress(pages)[i]);
            lemma_steps(firmware, i);
        } else if i < a + b {
            assert(phase.told[i] == writing.told[i - a]);
            assert(writing.told[i - a] == write_progress(firmware)[i - a]);
            lemma_steps(firmware, i - a);
        } else {
            assert(phase.told[i] == verifying.told[i - a - b]);
            assert(verifying.told[i - a - b] == verify_progress(firmware)[i - a - b]);
            lemma_steps(firmware, i - a - b);
        }
    }
}

/// The erase of `count` pages goes through them in order, 80 at a time from page 0 on,
/// each once. It succeeds if all of them were erased; otherwise it stopped at the first
/// erase that failed, and its error is the result. How far it is is told at the start and
/// after each erase that succeeded.
pub proof fn law_erasing(count: int, phase: Phase<()>)
    requires
        works_through(erase_plan(count), erase_progress(count), phase),
        0 <= count <= 0x1_0000,
    ensures
        ({
            let Phase { calls, result, told } = phase;
            let n = image_chunks(count);
            &&& calls.len() <= n
            &&& forall|i: int|
                0 <= i < calls.len() ==> is_chunk((#[trigger] calls[i]).op, i, count)
            &&& forall|i: int|
                0 <= i < told.len() ==> #[trigger] told[i] == (ProgressView::Erase {
                    pages_done: done_after(i, 80, count),
                    pages_total: count,
                })
            &&& match result {
                Ok(()) => {
                    &&& calls.len() == n
                    &&& told.len() == n + 1
                    &&& forall|i: int| 0 <= i < n ==> (#[trigger] calls[i]).result is Ok
                },
                Err(e) => {
                    &&& told.len() == calls.len() > 0
                    &&& forall|i: int|
                        0 <= i < calls.len() - 1 ==> (#[trigger] calls[i]).result is Ok
                    &&& calls.last().result == Err::<Reply, _>(e)
                },
            }
        }),
{
    let plan = erase_plan(count);
    let steps = erase_progress(count);
    assert(plan.len() == image_chunks(count));
    assert forall|i: int| 0 <= i < phase.calls.len() implies is_chunk(
        (#[trigger] phase.calls[i]).op,
        i,
        count,
    ) by {
        assert(phase.calls[i].op == plan[i]);
    }
    assert forall|i: int| 0 <= i < phase.told.len() implies #[trigger] phase.told[i] == (
    ProgressView::Erase { pages_done: done_after(i, 80, count), pages_total: count }) by {
        assert(phase.told[i] == steps[i]);
        assert(chunk_start(i, count) == done_after(i, 80, count));
    }
}

} // verus!
