//! What the operations do on the wire, byte by byte: what each sends and waits for,
//! when it succeeds, and what it makes of the replies.

use vstd::prelude::*;

use std::time::Duration;

use crate::bootloader::{
    data_reply, done, erase_exchange, erase_head_script, erase_pages_script, exchange, fault,
    follows, get_id_script, get_script, go_script, id_reply, info_reply, init_script, made,
    performs, read_script, received, received_byte, smooth, unit, write_script, Event, Op, Reply,
    Step,
};
use crate::error::{Error, ErrorView, NackStage};
use crate::frame::{
    command_bytes, data_bytes, erase_bytes, law_address_frame, law_chip_id,
    law_data_frame, law_erase_frame, xor_all,
};

verus! {

/// The event sends these bytes.
pub open spec fn sends(event: Event, bytes: Seq<u8>) -> bool {
    event matches Event::Write { bytes: b, .. } && b == bytes
}

/// The event waits for `len` bytes and, if it got any, got so many.
pub open spec fn awaits(event: Event, len: int, context: Seq<char>) -> bool {
    event matches Event::Read { len: n, context: c, outcome } && n == len && c == context && (
    outcome matches Ok(bytes) ==> bytes.len() == len)
}

/// The event got these bytes.
pub open spec fn gave(event: Event, bytes: Seq<u8>) -> bool {
    event matches Event::Read { outcome, .. } && outcome == Ok::<_, ErrorView>(bytes)
}

/// The event failed with this error.
pub open spec fn failed_with(event: Event, e: ErrorView) -> bool {
    match event {
        Event::Write { outcome, .. } => outcome == Err::<(), _>(e),
        Event::Read { outcome, .. } => outcome == Err::<Seq<u8>, _>(e),
        Event::ClearInput { outcome } => outcome == Err::<(), _>(e),
        Event::SetTimeout { outcome, .. } => outcome == Err::<(), _>(e),
        Event::ResetTimeout { outcome } => outcome == Err::<(), _>(e),
        Event::ResetIntoBootloader { outcome } => outcome == Err::<(), _>(e),
        Event::ResetIntoApp { outcome } => outcome == Err::<(), _>(e),
        Event::Queued { .. } => false,
        Event::Bounded { .. } => false,
    }
}

/// Five bytes: the address, highest byte first, and the XOR of the four.
pub open spec fn is_address_frame(f: Seq<u8>, addr: u32) -> bool {
    &&& f.len() == 5
    &&& f[0] * 0x100_0000 + f[1] * 0x1_0000 + f[2] * 0x100 + f[3] == addr
    &&& f[4] == f[0] ^ f[1] ^ f[2] ^ f[3]
}

/// The number of bytes less one, the bytes, and what makes the whole XOR to zero.
pub open spec fn is_data_frame(f: Seq<u8>, data: Seq<u8>) -> bool {
    &&& f.len() == data.len() + 2
    &&& f[0] + 1 == data.len()
    &&& f.subrange(1, f.len() - 1) == data
    &&& xor_all(f) == 0
}

/// The number of pages less one and the page numbers, each in two bytes with the
/// high one first, and what makes the whole XOR to zero.
#[verifier::opaque]
pub open spec fn is_page_frame(f: Seq<u8>, pages: Seq<u16>) -> bool {
    &&& f.len() == 2 * pages.len() + 3
    &&& f[0] * 256 + f[1] + 1 == pages.len()
    &&& forall|i: int| 0 <= i < pages.len() ==> f[2 + 2 * i] * 256 + f[3 + 2 * i] == #[trigger] pages[i]
    &&& xor_all(f) == 0
}

/// Every event went well.
pub open spec fn all_smooth(events: Seq<Event>) -> bool {
    forall|i: int| 0 <= i < events.len() ==> smooth(#[trigger] events[i])
}

/// A run that succeeded went well throughout.
proof fn lemma_smooth(script: Seq<Step>, events: Seq<Event>)
    requires
        follows(script, events, Ok(())),
    ensures
        all_smooth(events),
{
    assert forall|i: int| 0 <= i < events.len() implies smooth(#[trigger] events[i]) by {
        assert(made(script[i], events[i]));
        assert(fault(script[i], events[i]) is None);
    }
}

/// What an acknowledgement that passed is.
proof fn lemma_ack(script: Seq<Step>, events: Seq<Event>, i: int)
    requires
        0 <= i < events.len() <= script.len(),
        script[i] is Ack,
        made(script[i], events[i]),
        fault(script[i], events[i]) is None,
    ensures
        gave(events[i], seq![0x79u8]),
{
    if let Event::Read { outcome: Ok(bytes), .. } = events[i] {
        assert(bytes =~= seq![0x79u8]);
    }
}

/// The handshake throws away what came in, sends 0x7F and waits for one byte; it
/// succeeds only if that is 0x79.
pub proof fn law_init_on_wire(events: Seq<Event>, r: Result<Reply, ErrorView>)
    requires
        exchange(Op::Init, events, r),
    ensures
        events.len() <= 3,
        events.len() > 0 ==> events[0] is ClearInput,
        events.len() > 1 ==> sends(events[1], seq![0x7Fu8]),
        events.len() > 2 ==> awaits(events[2], 1, "bootloader init (0x7F)"@),
        r is Ok ==> {
            &&& r == Ok::<_, ErrorView>(Reply::Done)
            &&& events.len() == 3
            &&& all_smooth(events)
            &&& gave(events[2], seq![0x79u8])
        },
{
    let script = init_script();
    assert(script.len() == 3);
    if events.len() > 0 {
        assert(made(script[0], events[0]));
    }
    if events.len() > 1 {
        assert(made(script[1], events[1]));
    }
    if events.len() > 2 {
        assert(made(script[2], events[2]));
    }
    if r is Ok {
        lemma_smooth(script, events);
        assert(fault(script[2], events[2]) is None);
        lemma_ack(script, events, 2);
    }
}

/// `Get ID` sends 0x02 and its complement. The device gives the length of the payload
/// less one, the payload, and an acknowledgement on each side; the product id is the
/// number in the first two bytes of that payload.
pub proof fn law_get_id_on_wire(events: Seq<Event>, r: Result<Reply, ErrorView>, n: u8)
    requires
        exchange(Op::GetId, events, r),
        events.len() > 2 ==> gave(events[2], seq![n]) || !smooth(events[2]),
    ensures
        events.len() <= 5,
        events.len() > 0 ==> sends(events[0], seq![0x02u8, 0xFDu8]),
        events.len() > 1 ==> awaits(events[1], 1, "Get ID command"@),
        events.len() > 2 ==> awaits(events[2], 1, "Get ID length"@),
        events.len() > 3 ==> awaits(events[3], n + 1, "Get ID payload"@),
        events.len() > 4 ==> awaits(events[4], 1, "Get ID final ACK"@),
        r matches Ok(reply) ==> {
            &&& events.len() == 5
            &&& all_smooth(events)
            &&& gave(events[1], seq![0x79u8])
            &&& gave(events[4], seq![0x79u8])
            &&& reply matches Reply::Id { id } && events[3] matches Event::Read { outcome, .. }
                && outcome matches Ok(payload) && payload.len() == n + 1 && (if n == 0 {
                id == payload[0]
            } else {
                id == payload[0] * 256 + payload[1]
            })
        },
{
    let m = received_byte(events, 2);
    let script = get_id_script(m);
    assert(script.len() == 5);
    assert(command_bytes(0x02) =~= seq![0x02u8, 0xFDu8]);
    if events.len() > 0 {
        assert(made(script[0], events[0]));
    }
    if events.len() > 1 {
        assert(made(script[1], events[1]));
    }
    if events.len() > 2 {
        assert(made(script[2], events[2]));
    }
    if events.len() > 3 {
        assert(fault(script[2], events[2]) is None);
        assert(smooth(events[2]));
        assert(m == n);
        assert(made(script[3], events[3]));
    }
    if events.len() > 4 {
        assert(made(script[4], events[4]));
    }
    if r is Ok {
        lemma_smooth(script, events);
        assert(fault(script[1], events[1]) is None);
        assert(fault(script[3], events[3]) is None);
        assert(fault(script[4], events[4]) is None);
        lemma_ack(script, events, 1);
        lemma_ack(script, events, 4);
        law_chip_id(received(events[3]));
    }
}

/// `Get` sends 0x00 and its complement. The device gives the number of commands, the
/// version and so many command bytes, with an acknowledgement on each side; version
/// and commands are handed on as they came.
pub proof fn law_get_on_wire(events: Seq<Event>, r: Result<Reply, ErrorView>, n: u8)
    requires
        exchange(Op::Get, events, r),
        events.len() > 2 ==> gave(events[2], seq![n]) || !smooth(events[2]),
    ensures
        events.len() <= 6,
        events.len() > 0 ==> sends(events[0], seq![0x00u8, 0xFFu8]),
        events.len() > 1 ==> awaits(events[1], 1, "Get command"@),
        events.len() > 2 ==> awaits(events[2], 1, "Get length"@),
        events.len() > 3 ==> awaits(events[3], 1, "Get bootloader version"@),
        events.len() > 4 ==> awaits(events[4], n as int, "Get supported commands"@),
        events.len() > 5 ==> awaits(events[5], 1, "Get final ACK"@),
        r matches Ok(reply) ==> {
            &&& events.len() == 6
            &&& all_smooth(events)
            &&& gave(events[1], seq![0x79u8])
            &&& gave(events[5], seq![0x79u8])
            &&& reply matches Reply::Info { version, commands } && gave(events[3], seq![version])
                && gave(events[4], commands) && commands.len() == n
        },
{
    let m = received_byte(events, 2);
    let script = get_script(m);
    assert(script.len() == 6);
    assert(command_bytes(0x00) =~= seq![0x00u8, 0xFFu8]);
    if events.len() > 0 {
        assert(made(script[0], events[0]));
    }
    if events.len() > 1 {
        assert(made(script[1], events[1]));
    }
    if events.len() > 2 {
        assert(made(script[2], events[2]));
    }
    if events.len() > 3 {
        assert(fault(script[2], events[2]) is None);
        assert(smooth(events[2]));
        assert(m == n);
        assert(made(script[3], events[3]));
    }
    if events.len() > 4 {
        assert(made(script[4], events[4]));
    }
    if events.len() > 5 {
        assert(made(script[5], events[5]));
    }
    if r is Ok {
        lemma_smooth(script, events);
        assert(fault(script[1], events[1]) is None);
        assert(fault(script[3], events[3]) is None);
        assert(fault(script[4], events[4]) is None);
        assert(fault(script[5], events[5]) is None);
        lemma_ack(script, events, 1);
        lemma_ack(script, events, 5);
        let v = received(events[3]);
        assert(v =~= seq![v[0]]);
    }
}

proof fn lemma_data_frame(data: Seq<u8>)
    requires
        1 <= data.len() <= 256,
    ensures
        is_data_frame(data_bytes(data), data),
{
    let f = data_bytes(data);
    law_data_frame(data, 0);
    assert forall|i: int| 0 <= i < data.len() implies f.subrange(1, f.len() - 1)[i] == data[i] by {
        law_data_frame(data, i);
    }
    assert(f.subrange(1, f.len() - 1) =~= data);
}

proof fn lemma_page_frame(pages: Seq<u16>)
    requires
        1 <= pages.len() <= 80,
    ensures
        is_page_frame(erase_bytes(pages), pages),
{
    reveal(is_page_frame);
    let f = erase_bytes(pages);
    law_erase_frame(pages, 0);
    assert forall|i: int| 0 <= i < pages.len() implies f[2 + 2 * i] * 256 + f[3 + 2 * i]
        == #[trigger] pages[i] by {
        law_erase_frame(pages, i);
    }
}

/// `Write Memory` sends 0x31 and its complement, the address and the data, and waits
/// for one byte after each; it succeeds only if each of them is 0x79.
pub proof fn law_write_on_wire(
    addr: u32,
    data: Seq<u8>,
    events: Seq<Event>,
    r: Result<Reply, ErrorView>,
)
    requires
        exchange(Op::Write { addr, data }, events, r),
        1 <= data.len() <= 256,
    ensures
        events.len() <= 6,
        events.len() > 0 ==> sends(events[0], seq![0x31u8, 0xCEu8]),
        events.len() > 1 ==> awaits(events[1], 1, "Write Memory command"@),
        events.len() > 2 ==> (events[2] matches Event::Write { bytes, .. } && is_address_frame(
            bytes,
            addr,
        )),
        events.len() > 3 ==> awaits(events[3], 1, "Write Memory address"@),
        events.len() > 4 ==> (events[4] matches Event::Write { bytes, .. } && is_data_frame(
            bytes,
            data,
        )),
        events.len() > 5 ==> awaits(events[5], 1, "Write Memory data"@),
        r is Ok ==> {
            &&& r == Ok::<_, ErrorView>(Reply::Done)
            &&& events.len() == 6
            &&& all_smooth(events)
            &&& gave(events[1], seq![0x79u8])
            &&& gave(events[3], seq![0x79u8])
            &&& gave(events[5], seq![0x79u8])
        },
{
    let script = write_script(addr, data);
    assert(script.len() == 6);
    assert(command_bytes(0x31) =~= seq![0x31u8, 0xCEu8]);
    law_address_frame(addr);
    lemma_data_frame(data);
    if events.len() > 0 {
        assert(made(script[0], events[0]));
    }
    if events.len() > 1 {
        assert(made(script[1], events[1]));
    }
    if events.len() > 2 {
        assert(made(script[2], events[2]));
    }
    if events.len() > 3 {
        assert(made(script[3], events[3]));
    }
    if events.len() > 4 {
        assert(made(script[4], events[4]));
    }
    if events.len() > 5 {
        assert(made(script[5], events[5]));
    }
    if r is Ok {
        lemma_smooth(script, events);
        assert(fault(script[1], events[1]) is None);
        assert(fault(script[3], events[3]) is None);
        assert(fault(script[5], events[5]) is None);
        lemma_ack(script, events, 1);
        lemma_ack(script, events, 3);
        lemma_ack(script, events, 5);
    }
}

/// `Read Memory` sends 0x11 and its complement, the address, and the length less one
/// and its complement, and waits for one byte after each. Only if each of them is 0x79
/// it succeeds, and what it gives is what the read that follows got, byte for byte.
pub proof fn law_read_on_wire(
    addr: u32,
    len: nat,
    events: Seq<Event>,
    r: Result<Reply, ErrorView>,
)
    requires
        exchange(Op::Read { addr, len }, events, r),
        1 <= len <= 256,
    ensures
        events.len() <= 7,
        events.len() > 0 ==> sends(events[0], seq![0x11u8, 0xEEu8]),
        events.len() > 1 ==> awaits(events[1], 1, "Read Memory command"@),
        events.len() > 2 ==> (events[2] matches Event::Write { bytes, .. } && is_address_frame(
            bytes,
            addr,
        )),
        events.len() > 3 ==> awaits(events[3], 1, "Read Memory address"@),
        events.len() > 4 ==> (events[4] matches Event::Write { bytes, .. } && bytes.len() == 2
            && bytes[0] + 1 == len && bytes[0] + bytes[1] == 255),
        events.len() > 5 ==> awaits(events[5], 1, "Read Memory length"@),
        events.len() > 6 ==> awaits(events[6], len as int, "Read Memory data"@),
        r matches Ok(reply) ==> {
            &&& events.len() == 7
            &&& all_smooth(events)
            &&& gave(events[1], seq![0x79u8])
            &&& gave(events[3], seq![0x79u8])
            &&& gave(events[5], seq![0x79u8])
            &&& reply matches Reply::Data { bytes } && gave(events[6], bytes) && bytes.len() == len
        },
{
    let script = read_script(addr, len);
    assert(script.len() == 7);
    assert(command_bytes(0x11) =~= seq![0x11u8, 0xEEu8]);
    law_address_frame(addr);
    if events.len() > 0 {
        assert(made(script[0], events[0]));
    }
    if events.len() > 1 {
        assert(made(script[1], events[1]));
    }
    if events.len() > 2 {
        assert(made(script[2], events[2]));
    }
    if events.len() > 3 {
        assert(made(script[3], events[3]));
    }
    if events.len() > 4 {
        assert(made(script[4], events[4]));
    }
    if events.len() > 5 {
        assert(made(script[5], events[5]));
    }
    if events.len() > 6 {
        assert(made(script[6], events[6]));
    }
    if r is Ok {
        lemma_smooth(script, events);
        assert(fault(script[1], events[1]) is None);
        assert(fault(script[3], events[3]) is None);
        assert(fault(script[5], events[5]) is None);
        assert(fault(script[6], events[6]) is None);
        lemma_ack(script, events, 1);
        lemma_ack(script, events, 3);
        lemma_ack(script, events, 5);
    }
}

/// Every byte of a read that succeeds is the byte that the last event got in its place.
pub proof fn law_read_bytes(
    addr: u32,
    len: nat,
    events: Seq<Event>,
    bytes: Seq<u8>,
    i: int,
)
    requires
        exchange(Op::Read { addr, len }, events, Ok(Reply::Data { bytes })),
        0 <= i < len,
    ensures
        events[6] matches Event::Read { outcome, .. } && outcome matches Ok(got) && got.len() == len
            && bytes.len() == len && bytes[i] == got[i],
{
    law_read_on_wire(addr, len, events, Ok(Reply::Data { bytes }));
}

/// `Go` sends 0x21 and its complement and the address, and waits for one byte after
/// each; it succeeds only if both are 0x79.
pub proof fn law_go_on_wire(addr: u32, events: Seq<Event>, r: Result<Reply, ErrorView>)
    requires
        exchange(Op::Go { addr }, events, r),
    ensures
        events.len() <= 4,
        events.len() > 0 ==> sends(events[0], seq![0x21u8, 0xDEu8]),
        events.len() > 1 ==> awaits(events[1], 1, "Go command"@),
        events.len() > 2 ==> (events[2] matches Event::Write { bytes, .. } && is_address_frame(
            bytes,
            addr,
        )),
        events.len() > 3 ==> awaits(events[3], 1, "Go address"@),
        r is Ok ==> {
            &&& r == Ok::<_, ErrorView>(Reply::Done)
            &&& events.len() == 4
            &&& all_smooth(events)
            &&& gave(events[1], seq![0x79u8])
            &&& gave(events[3], seq![0x79u8])
        },
{
    let script = go_script(addr);
    assert(script.len() == 4);
    assert(command_bytes(0x21) =~= seq![0x21u8, 0xDEu8]);
    law_address_frame(addr);
    if events.len() > 0 {
        assert(made(script[0], events[0]));
    }
    if events.len() > 1 {
        assert(made(script[1], events[1]));
    }
    if events.len() > 2 {
        assert(made(script[2], events[2]));
    }
    if events.len() > 3 {
        assert(made(script[3], events[3]));
    }
    if r is Ok {
        lemma_smooth(script, events);
        assert(fault(script[1], events[1]) is None);
        assert(fault(script[3], events[3]) is None);
        lemma_ack(script, events, 1);
        lemma_ack(script, events, 3);
    }
}

/// `Extended Erase` sends 0x44 and its complement and waits for one byte, overrides
/// the read timeout, sends the page list, waits for one byte and puts the timeout
/// back; it succeeds only if both bytes are 0x79.
pub proof fn law_erase_on_wire(
    pages: Seq<u16>,
    timeout: Duration,
    events: Seq<Event>,
    r: Result<Reply, ErrorView>,
)
    requires
        exchange(Op::Erase { pages, timeout }, events, r),
        1 <= pages.len() <= 80,
    ensures
        events.len() <= 6,
        events.len() > 0 ==> sends(events[0], seq![0x44u8, 0xBBu8]),
        events.len() > 1 ==> awaits(events[1], 1, "Extended Erase command"@),
        events.len() > 2 ==> (events[2] matches Event::SetTimeout { timeout: t, .. } && t
            == timeout),
        events.len() > 3 ==> {
            &&& events.len() > 4
            &&& events.last() is ResetTimeout
            &&& events[3] matches Event::Write { bytes, .. } && is_page_frame(bytes, pages)
        },
        events.len() > 5 ==> awaits(events[4], 1, "Extended Erase pages"@),
        r is Ok ==> {
            &&& r == Ok::<_, ErrorView>(Reply::Done)
            &&& events.len() == 6
            &&& all_smooth(events.take(5))
            &&& gave(events[1], seq![0x79u8])
            &&& gave(events[4], seq![0x79u8])
        },
{
    let head = erase_head_script(timeout);
    let list = erase_pages_script(pages);
    assert(head.len() == 3 && list.len() == 2);
    assert(command_bytes(0x44) =~= seq![0x44u8, 0xBBu8]);
    lemma_page_frame(pages);
    if r is Err && follows(head, events, unit(r)) {
        if events.len() > 0 {
            assert(made(head[0], events[0]));
        }
        if events.len() > 1 {
            assert(made(head[1], events[1]));
        }
        if events.len() > 2 {
            assert(made(head[2], events[2]));
        }
    } else {
        let first = events.take(3);
        let middle = events.subrange(3, events.len() - 1);
        assert(made(head[0], first[0]));
        assert(made(head[1], first[1]));
        assert(made(head[2], first[2]));
        assert(middle.len() > 0);
        assert(made(list[0], middle[0]));
        if middle.len() > 1 {
            assert(made(list[1], middle[1]));
        }
        if r is Ok {
            lemma_smooth(head, first);
            lemma_smooth(list, middle);
            assert(fault(head[1], first[1]) is None);
            assert(fault(list[1], middle[1]) is None);
            lemma_ack(head, first, 1);
            lemma_ack(list, middle, 1);
            assert(events.take(5) =~= first + middle);
            assert forall|i: int| 0 <= i < 5 implies smooth(#[trigger] events.take(5)[i]) by {
                if i < 3 {
                    assert(smooth(first[i]));
                } else {
                    assert(smooth(middle[i - 3]));
                }
            }
        }
    }
}

/// A reset is one event, and comes to what the event came to.
pub proof fn law_resets_on_wire(events: Seq<Event>, r: Result<Reply, ErrorView>)
    ensures
        exchange(Op::ResetIntoBootloader, events, r) ==> events.len() == 1 && (events[0] matches
            Event::ResetIntoBootloader { outcome } && match outcome {
            Ok(()) => r == Ok::<_, ErrorView>(Reply::Done),
            Err(e) => r == Err::<Reply, _>(e),
        }),
        exchange(Op::ResetIntoApp, events, r) ==> events.len() == 1 && (events[0] matches
            Event::ResetIntoApp { outcome } && match outcome {
            Ok(()) => r == Ok::<_, ErrorView>(Reply::Done),
            Err(e) => r == Err::<Reply, _>(e),
        }),
{
}

/// A page list, a block or a length that no frame can hold is refused before anything
/// is sent, with an error that says what is expected.
pub proof fn law_refused(op: Op, events: Seq<Event>, r: Result<Reply, ErrorView>)
    requires
        exchange(op, events, r),
    ensures
        op matches Op::Erase { pages, .. } && !(1 <= pages.len() <= 80) ==> events.len() == 0 && r
            == Err::<Reply, _>(
            ErrorView::InvalidArgument { context: "extended_erase_pages expects 1..=80 pages"@ },
        ),
        op matches Op::Write { data, .. } && !(1 <= data.len() <= 256) ==> events.len() == 0 && r
            == Err::<Reply, _>(
            ErrorView::InvalidArgument { context: "write_block expects 1..=256 bytes"@ },
        ),
        op matches Op::Read { len, .. } && !(1 <= len <= 256) ==> events.len() == 0 && r == Err::<
            Reply,
            _,
        >(ErrorView::InvalidArgument { context: "read_block expects 1..=256 bytes"@ }),
{
}

/// The arguments of the operation fit its frames.
pub open spec fn fits_frame(op: Op) -> bool {
    match op {
        Op::Erase { pages, .. } => 1 <= pages.len() <= 80,
        Op::Write { data, .. } => 1 <= data.len() <= 256,
        Op::Read { len, .. } => 1 <= len <= 256,
        _ => true,
    }
}

/// Whether event `i` of the operation waits for an acknowledgement, and at which
/// stage: of the command byte, or of what follows it.
pub open spec fn ack_stage(op: Op, i: int) -> Option<NackStage> {
    let command = if op is Init {
        2
    } else {
        1int
    };
    let later = match op {
        Op::GetId => i == 4,
        Op::Get => i == 5,
        Op::Erase { .. } => i == 4,
        Op::Write { .. } => i == 3 || i == 5,
        Op::Read { .. } => i == 3 || i == 5,
        Op::Go { .. } => i == 3,
        _ => false,
    };
    if op is ResetIntoBootloader || op is ResetIntoApp {
        None
    } else if i == command {
        Some(NackStage::Command)
    } else if later {
        Some(NackStage::Payload)
    } else {
        None
    }
}

/// The event passes: it went well and, where an acknowledgement is due, is one.
pub open spec fn passes(stage: Option<NackStage>, event: Event) -> bool {
    &&& smooth(event)
    &&& stage is Some ==> gave(event, seq![0x79u8])
}

/// The event is to blame for the error: it failed with it or, where an acknowledgement
/// is due, gave another byte. Of these 0x1F is a NACK of the stage.
pub open spec fn blames(stage: Option<NackStage>, event: Event, e: ErrorView) -> bool {
    ||| failed_with(event, e)
    ||| {
        &&& stage matches Some(s) && event matches Event::Read { context, outcome, .. }
            && outcome matches Ok(bytes) && bytes.len() == 1 && bytes[0] != 0x79 && (
        if bytes[0] == 0x1F {
            e == (ErrorView::Nack { context, stage: s })
        } else {
            e == (ErrorView::UnexpectedByte { context, got: bytes[0], expected: 0x79 })
        })
    }
}

/// The stage of a step that waits for an acknowledgement.
spec fn step_stage(step: Step) -> Option<NackStage> {
    match step {
        Step::Ack { stage, .. } => Some(stage),
        _ => None,
    }
}

proof fn lemma_passes(step: Step, event: Event)
    requires
        made(step, event),
        fault(step, event) is None,
    ensures
        passes(step_stage(step), event),
{
    if step is Ack {
        lemma_ack(seq![step], seq![event], 0);
    }
}

proof fn lemma_blames(step: Step, event: Event, e: ErrorView)
    requires
        made(step, event),
        fault(step, event) == Some(e),
    ensures
        blames(step_stage(step), event, e),
{
}

/// A run of a script that failed.
proof fn lemma_failed_run(op: Op, script: Seq<Step>, events: Seq<Event>, e: ErrorView)
    requires
        follows(script, events, Err(e)),
        forall|i: int|
            0 <= i < script.len() ==> step_stage(#[trigger] script[i]) == ack_stage(op, i),
    ensures
        events.len() > 0,
        forall|i: int|
            0 <= i < events.len() - 1 ==> passes(ack_stage(op, i), #[trigger] events[i]),
        blames(ack_stage(op, events.len() - 1), events.last(), e),
{
    assert forall|i: int| 0 <= i < events.len() - 1 implies passes(
        ack_stage(op, i),
        #[trigger] events[i],
    ) by {
        assert(made(script[i], events[i]));
        assert(fault(script[i], events[i]) is None);
        lemma_passes(script[i], events[i]);
        assert(step_stage(script[i]) == ack_stage(op, i));
    }
    let n = events.len() - 1;
    assert(made(script[n], events[n]));
    lemma_blames(script[n], events[n], e);
    assert(step_stage(script[n]) == ack_stage(op, n));
}

/// An operation fails only because of one event, the last but for putting a timeout
/// back, and with the error that this event stands for: everything before it passed.
/// So an operation in which every event passes succeeds.
pub proof fn law_one_event_to_blame(op: Op, events: Seq<Event>, e: ErrorView)
    requires
        exchange(op, events, Err(e)),
        fits_frame(op),
    ensures
        ({
            let n = if op is Erase && events.len() > 0 && events.last() is ResetTimeout {
                events.len() - 2
            } else {
                events.len() - 1
            };
            &&& n >= 0
            &&& forall|i: int| 0 <= i < n ==> passes(ack_stage(op, i), #[trigger] events[i])
            &&& blames(ack_stage(op, n), events[n], e)
        }),
{
    match op {
        Op::Init => lemma_failed_run(op, init_script(), events, e),
        Op::GetId => lemma_failed_run(
            op,
            get_id_script(received_byte(events, 2)),
            events,
            e,
        ),
        Op::Get => lemma_failed_run(
            op,
            get_script(received_byte(events, 2)),
            events,
            e,
        ),
        Op::Write { addr, data } => lemma_failed_run(op, write_script(addr, data), events, e),
        Op::Read { addr, len } => lemma_failed_run(op, read_script(addr, len), events, e),
        Op::Go { addr } => lemma_failed_run(op, go_script(addr), events, e),
        Op::Erase { pages, timeout } => lemma_failed_erase(pages, timeout, events, e),
        Op::ResetIntoBootloader => {},
        Op::ResetIntoApp => {},
    }
}

proof fn lemma_failed_erase(pages: Seq<u16>, timeout: Duration, events: Seq<Event>, e: ErrorView)
    requires
        erase_exchange(pages, timeout, events, Err(e)),
    ensures
        ({
            let op = Op::Erase { pages, timeout };
            let n = if events.len() > 0 && events.last() is ResetTimeout {
                events.len() - 2
            } else {
                events.len() - 1
            };
            &&& n >= 0
            &&& forall|i: int| 0 <= i < n ==> passes(ack_stage(op, i), #[trigger] events[i])
            &&& blames(ack_stage(op, n), events[n], e)
        }),
{
    let op = Op::Erase { pages, timeout };
    let head = erase_head_script(timeout);
    let list = erase_pages_script(pages);
    assert(head.len() == 3 && list.len() == 2);
    if follows(head, events, Err(e)) {
        lemma_failed_run(op, head, events, e);
        let n = events.len() - 1;
        assert(made(head[n], events[n]));
    } else {
        let first = events.take(3);
        let middle = events.subrange(3, events.len() - 1);
        let n = events.len() - 2;
        assert(middle.len() > 0);
        assert(events[n] == middle.last());
        assert forall|i: int| 0 <= i < n implies passes(ack_stage(op, i), #[trigger] events[i]) by {
            if i < 3 {
                assert(made(head[i], first[i]));
                assert(fault(head[i], first[i]) is None);
                lemma_passes(head[i], first[i]);
            } else {
                assert(made(list[i - 3], middle[i - 3]));
                assert(fault(list[i - 3], middle[i - 3]) is None);
                lemma_passes(list[i - 3], middle[i - 3]);
            }
        }
        assert(made(list[n - 3], middle[n - 3]));
        lemma_blames(list[n - 3], middle[n - 3], e);
    }
}

/// What a method of the engine returned is what the operation gave back: the id, the
/// version and the commands, the bytes, or the error.
pub proof fn law_replies(
    id: Result<u16, Error>,
    info: Result<(u8, Vec<u8>), Error>,
    data: Result<Vec<u8>, Error>,
    plain: Result<(), ErrorView>,
)
    ensures
        id matches Ok(v) ==> id_reply(id) == Ok::<_, ErrorView>(Reply::Id { id: v }),
        id matches Err(e) ==> id_reply(id) == Err::<Reply, _>(e@),
        info matches Ok((v, c)) ==> info_reply(info) == Ok::<_, ErrorView>(
            Reply::Info { version: v, commands: c@ },
        ),
        info matches Err(e) ==> info_reply(info) == Err::<Reply, _>(e@),
        data matches Ok(v) ==> data_reply(data) == Ok::<_, ErrorView>(Reply::Data { bytes: v@ }),
        data matches Err(e) ==> data_reply(data) == Err::<Reply, _>(e@),
        plain is Ok ==> done(plain) == Ok::<_, ErrorView>(Reply::Done),
        plain matches Err(e) ==> done(plain) == Err::<Reply, _>(e),
{
}

/// What an operation did is what the trace grew by, and nothing that was in the trace
/// before is lost.
pub proof fn law_performed(
    before: Seq<Event>,
    after: Seq<Event>,
    op: Op,
    r: Result<Reply, ErrorView>,
)
    requires
        performs(before, after, op, r),
    ensures
        exists|events: Seq<Event>| #[trigger] exchange(op, events, r) && after == before + events,
{
    let events = after.skip(before.len() as int);
    assert(after =~= after.take(before.len() as int) + events);
    assert(exchange(op, events, r) && after == before + events);
}

/// An event went well exactly if it failed with no error.
pub proof fn law_smooth(event: Event)
    ensures
        smooth(event) <==> forall|e: ErrorView| !failed_with(event, e),
{
    match event {
        Event::Write { outcome: Err(e), .. } => assert(failed_with(event, e)),
        Event::Read { outcome: Err(e), .. } => assert(failed_with(event, e)),
        Event::ClearInput { outcome: Err(e) } => assert(failed_with(event, e)),
        Event::SetTimeout { outcome: Err(e), .. } => assert(failed_with(event, e)),
        Event::ResetTimeout { outcome: Err(e) } => assert(failed_with(event, e)),
        Event::ResetIntoBootloader { outcome: Err(e) } => assert(failed_with(event, e)),
        Event::ResetIntoApp { outcome: Err(e) } => assert(failed_with(event, e)),
        _ => {},
    }
}

} // verus!
