//! AN3155 frames: the byte sequences that commands and their payloads are sent
//! as, and the reply that holds the product id.

use vstd::prelude::*;

verus! {

/// The XOR of all bytes.
pub open spec fn xor_all(bytes: Seq<u8>) -> u8
    decreases bytes.len(),
{
    if bytes.len() == 0 {
        0
    } else {
        xor_all(bytes.drop_last()) ^ bytes.last()
    }
}

/// A 16-bit value as two bytes, the high one first.
pub open spec fn be16(v: u16) -> Seq<u8> {
    seq![(v / 256) as u8, (v % 256) as u8]
}

/// A 32-bit value as four bytes, the highest first.
pub open spec fn be32(v: u32) -> Seq<u8> {
    seq![
        (v / 0x100_0000) as u8,
        (v / 0x1_0000 % 256) as u8,
        (v / 256 % 256) as u8,
        (v % 256) as u8,
    ]
}

/// A command byte and its complement.
pub open spec fn command_bytes(cmd: u8) -> Seq<u8> {
    seq![cmd, (255 - cmd) as u8]
}

/// The address, then the XOR of its bytes.
pub open spec fn address_bytes(addr: u32) -> Seq<u8> {
    be32(addr).push(xor_all(be32(addr)))
}

/// The length less one, the data, then the XOR of all that went before.
pub open spec fn data_bytes(data: Seq<u8>) -> Seq<u8> {
    let body = seq![(data.len() - 1) as u8] + data;
    body.push(xor_all(body))
}

/// Each page number as two bytes, in the order of the list.
pub open spec fn page_bytes(pages: Seq<u16>) -> Seq<u8> {
    Seq::new(2 * pages.len(), |i: int| be16(pages[i / 2])[i % 2])
}

/// The page count less one, the page numbers, then the XOR of all that went
/// before.
pub open spec fn erase_bytes(pages: Seq<u16>) -> Seq<u8> {
    let body = be16((pages.len() - 1) as u16) + page_bytes(pages);
    body.push(xor_all(body))
}

/// The product id in a `Get ID` payload: the first two bytes, the high one
/// first; of a single byte that byte; of none, zero.
pub open spec fn chip_id(payload: Seq<u8>) -> u16 {
    if payload.len() == 0 {
        0
    } else if payload.len() == 1 {
        payload[0] as u16
    } else {
        (payload[0] * 256 + payload[1]) as u16
    }
}

proof fn lemma_xor_zero(a: u8)
    ensures
        a ^ 0 == a,
        0u8 ^ a == a,
        a ^ a == 0,
{
    assert(a ^ 0 == a) by (bit_vector);
    assert(0u8 ^ a == a) by (bit_vector);
    assert(a ^ a == 0) by (bit_vector);
}

proof fn lemma_xor_push(s: Seq<u8>, b: u8)
    ensures
        xor_all(s.push(b)) == xor_all(s) ^ b,
{
    assert(s.push(b).drop_last() =~= s);
}

/// A frame that ends in the XOR of what goes before has XOR zero as a whole:
/// the receiver's checksum test.
pub proof fn law_checksum_cancels(body: Seq<u8>)
    ensures
        xor_all(body.push(xor_all(body))) == 0,
{
    lemma_xor_push(body, xor_all(body));
    lemma_xor_zero(xor_all(body));
}

/// Address, data and erase frames pass the receiver's checksum test, and a
/// command byte and its complement XOR to 0xFF.
pub proof fn law_frames_check(cmd: u8, addr: u32, data: Seq<u8>, pages: Seq<u16>)
    ensures
        xor_all(command_bytes(cmd)) == 0xFF,
        xor_all(address_bytes(addr)) == 0,
        xor_all(data_bytes(data)) == 0,
        xor_all(erase_bytes(pages)) == 0,
{
    law_checksum_cancels(be32(addr));
    law_checksum_cancels(seq![(data.len() - 1) as u8] + data);
    law_checksum_cancels(be16((pages.len() - 1) as u16) + page_bytes(pages));
    let c = command_bytes(cmd);
    lemma_xor_push(Seq::empty(), c[0]);
    lemma_xor_push(seq![c[0]], c[1]);
    assert(c =~= seq![c[0]].push(c[1]));
    assert(Seq::<u8>::empty().push(c[0]) =~= seq![c[0]]);
    lemma_xor_zero(cmd);
    assert(cmd ^ ((255 - cmd) as u8) == 0xFF) by (bit_vector);
}

/// The page numbers that a page list frame names: two bytes each, behind the
/// two bytes of the count.
pub open spec fn listed_pages(frame: Seq<u8>) -> Seq<u16> {
    Seq::new(
        (frame[0] * 256 + frame[1] + 1) as nat,
        |i: int| (frame[2 + 2 * i] * 256 + frame[3 + 2 * i]) as u16,
    )
}

/// A receiver reads back from an erase frame the pages that were to be erased,
/// in order.
pub proof fn law_erase_frame_lists_pages(pages: Seq<u16>)
    requires
        1 <= pages.len() <= 65536,
    ensures
        listed_pages(erase_bytes(pages)) == pages,
        erase_bytes(pages).len() == 2 * pages.len() + 3,
{
    let frame = erase_bytes(pages);
    let count = (pages.len() - 1) as u16;
    assert(frame[0] == be16(count)[0] && frame[1] == be16(count)[1]);
    lemma_be16(count);
    assert forall|i: int| 0 <= i < pages.len() implies #[trigger] listed_pages(frame)[i]
        == pages[i] by {
        lemma_listed_page(pages, i);
    }
    assert(listed_pages(frame) =~= pages);
}

proof fn lemma_be16(v: u16)
    ensures
        be16(v)[0] * 256 + be16(v)[1] == v,
{
}

proof fn lemma_listed_page(pages: Seq<u16>, i: int)
    requires
        0 <= i < pages.len(),
    ensures
        erase_bytes(pages)[2 + 2 * i] * 256 + erase_bytes(pages)[3 + 2 * i] == pages[i],
{
    let frame = erase_bytes(pages);
    let list = page_bytes(pages);
    assert(frame[2 + 2 * i] == list[2 * i]);
    assert(frame[3 + 2 * i] == list[2 * i + 1]);
    assert((2 * i) / 2 == i && (2 * i) % 2 == 0);
    assert((2 * i + 1) / 2 == i && (2 * i + 1) % 2 == 1);
    lemma_be16(pages[i]);
}

/// The page list of an erase, of at most 80 pages, is never taken for one of the
/// special codes, which begin with 0xFF and which the STM32L0 bootloader rejects.
pub proof fn law_never_a_special_erase(pages: Seq<u16>)
    requires
        1 <= pages.len() <= 80,
    ensures
        erase_bytes(pages)[0] != 0xFF,
{
}

/// AN3155 command frame: the byte followed by its complement.
pub fn cmd_frame(cmd: u8) -> (r: [u8; 2])
    ensures
        r@ == command_bytes(cmd),
{
    proof {
        assert(cmd ^ 0xFF == (255 - cmd) as u8) by (bit_vector);
    }
    let r = [cmd, cmd ^ 0xFF];
    assert(r@ =~= command_bytes(cmd));
    r
}

/// Address frame: 4 bytes MSB-first followed by their XOR checksum.
pub fn address_frame(addr: u32) -> (r: [u8; 5])
    ensures
        r@ == address_bytes(addr),
{
    let b0: u8 = (addr / 0x100_0000) as u8;
    let b1: u8 = (addr / 0x1_0000 % 256) as u8;
    let b2: u8 = (addr / 256 % 256) as u8;
    let b3: u8 = (addr % 256) as u8;
    let r = [b0, b1, b2, b3, b0 ^ b1 ^ b2 ^ b3];
    proof {
        let empty = Seq::<u8>::empty();
        lemma_xor_push(empty, b0);
        lemma_xor_push(empty.push(b0), b1);
        lemma_xor_push(empty.push(b0).push(b1), b2);
        lemma_xor_push(empty.push(b0).push(b1).push(b2), b3);
        lemma_xor_zero(b0);
        assert(be32(addr) =~= empty.push(b0).push(b1).push(b2).push(b3));
        assert(r@ =~= address_bytes(addr));
    }
    r
}

/// Write-Memory data frame: `N-1`, the data, then the checksum
/// (initialised to `N-1` and XORed with every data byte).
pub fn write_data_frame(data: &[u8]) -> (r: Vec<u8>)
    requires
        data@.len() > 0,
    ensures
        r@ == data_bytes(data@),
{
    let n: u8 = (data.len() - 1) as u8;
    let mut frame: Vec<u8> = Vec::new();
    frame.push(n);
    let mut cs: u8 = n;
    let mut i: usize = 0;
    proof {
        lemma_xor_push(Seq::empty(), n);
        lemma_xor_zero(n);
        assert(frame@ =~= Seq::<u8>::empty().push(n));
        assert(frame@ =~= seq![n] + data@.take(0));
    }
    while i < data.len()
        invariant
            i <= data@.len(),
            frame@ == seq![n] + data@.take(i as int),
            cs == xor_all(frame@),
        decreases data@.len() - i,
    {
        let ghost before = frame@;
        let b = data[i];
        cs = cs ^ b;
        frame.push(b);
        i += 1;
        proof {
            lemma_xor_push(before, b);
            assert(frame@ =~= seq![n] + data@.take(i as int));
        }
    }
    assert(data@.take(data@.len() as int) =~= data@);
    frame.push(cs);
    frame
}

/// Extended Erase page-list frame (the bytes after `44 BB`): a big-endian
/// page count (N = pages-1), each page number big-endian, then the XOR checksum.
/// The STM32L0 bootloader rejects the 0xFFFF mass-erase special code, so erase
/// is always done with an explicit page list.
pub fn erase_frame(pages: &[u16]) -> (r: Vec<u8>)
    requires
        pages@.len() > 0,
    ensures
        r@ == erase_bytes(pages@),
{
    let count: u16 = (pages.len() - 1) as u16;
    let mut f: Vec<u8> = Vec::new();
    f.push((count / 256) as u8);
    f.push((count % 256) as u8);
    let mut i: usize = 0;
    assert(f@ =~= be16(count) + page_bytes(pages@.take(0)));
    while i < pages.len()
        invariant
            i <= pages@.len(),
            f@ == be16(count) + page_bytes(pages@.take(i as int)),
        decreases pages@.len() - i,
    {
        let ghost before = f@;
        let p = pages[i];
        f.push((p / 256) as u8);
        f.push((p % 256) as u8);
        i += 1;
        proof {
            let next = pages@.take(i as int);
            assert forall|j: int| 0 <= j < 2 * i implies page_bytes(next)[j] == f@[2 + j] by {
                if j < 2 * (i - 1) {
                    assert(j / 2 < i - 1);
                    assert(page_bytes(next)[j] == page_bytes(pages@.take(i - 1))[j]);
                }
            }
            assert(f@ =~= be16(count) + page_bytes(next));
        }
    }
    assert(pages@.take(pages@.len() as int) =~= pages@);
    let cs: u8 = xor_of(f.as_slice());
    f.push(cs);
    f
}

/// The XOR of all bytes.
fn xor_of(bytes: &[u8]) -> (r: u8)
    ensures
        r == xor_all(bytes@),
{
    let mut acc: u8 = 0;
    let mut i: usize = 0;
    while i < bytes.len()
        invariant
            i <= bytes@.len(),
            acc == xor_all(bytes@.take(i as int)),
        decreases bytes@.len() - i,
    {
        acc = acc ^ bytes[i];
        i += 1;
        proof {
            lemma_xor_push(bytes@.take(i - 1), bytes@[i - 1]);
            assert(bytes@.take(i as int) =~= bytes@.take(i - 1).push(bytes@[i - 1]));
        }
    }
    assert(bytes@.take(bytes@.len() as int) =~= bytes@);
    acc
}

/// Parse the product id payload of a `Get ID` reply.
pub fn parse_chip_id(buf: &[u8]) -> (r: u16)
    ensures
        r == chip_id(buf@),
{
    match buf.len() {
        0 => 0,
        1 => buf[0] as u16,
        _ => buf[0] as u16 * 256 + buf[1] as u16,
    }
}

/// The XOR of nothing is zero, and one more byte is XORed in.
pub proof fn law_xor(bytes: Seq<u8>, b: u8)
    ensures
        xor_all(Seq::<u8>::empty()) == 0,
        xor_all(bytes.push(b)) == xor_all(bytes) ^ b,
{
    lemma_xor_push(bytes, b);
}

/// A command frame is the command byte and the byte that makes 0xFF with it.
pub proof fn law_command_frame(cmd: u8)
    ensures
        command_bytes(cmd).len() == 2,
        command_bytes(cmd)[0] == cmd,
        command_bytes(cmd)[0] + command_bytes(cmd)[1] == 0xFF,
{
}

/// A receiver that reads the first four bytes of an address frame as a number, the
/// highest byte first, gets the address. The fifth byte is the XOR of those four.
pub proof fn law_address_frame(addr: u32)
    ensures
        address_bytes(addr).len() == 5,
        address_bytes(addr)[0] * 0x100_0000 + address_bytes(addr)[1] * 0x1_0000
            + address_bytes(addr)[2] * 0x100 + address_bytes(addr)[3] == addr,
        address_bytes(addr)[4] == address_bytes(addr)[0] ^ address_bytes(addr)[1]
            ^ address_bytes(addr)[2] ^ address_bytes(addr)[3],
{
    let f = address_bytes(addr);
    let empty = Seq::<u8>::empty();
    lemma_xor_push(empty, f[0]);
    lemma_xor_push(empty.push(f[0]), f[1]);
    lemma_xor_push(empty.push(f[0]).push(f[1]), f[2]);
    lemma_xor_push(empty.push(f[0]).push(f[1]).push(f[2]), f[3]);
    lemma_xor_zero(f[0]);
    assert(be32(addr) =~= empty.push(f[0]).push(f[1]).push(f[2]).push(f[3]));
}

/// Frames of different addresses differ.
pub proof fn law_addresses_told_apart(a: u32, b: u32)
    requires
        address_bytes(a) == address_bytes(b),
    ensures
        a == b,
{
    law_address_frame(a);
    law_address_frame(b);
}

/// A receiver finds in a data frame the number of bytes less one, the bytes in
/// order, and a last byte with which the whole XORs to zero.
pub proof fn law_data_frame(data: Seq<u8>, i: int)
    requires
        1 <= data.len(),
        0 <= i < data.len(),
    ensures
        data_bytes(data).len() == data.len() + 2,
        data.len() <= 256 ==> data_bytes(data)[0] + 1 == data.len(),
        data_bytes(data)[1 + i] == data[i],
        xor_all(data_bytes(data)) == 0,
{
    law_checksum_cancels(seq![(data.len() - 1) as u8] + data);
}

proof fn lemma_erase_head(pages: Seq<u16>)
    requires
        1 <= pages.len(),
    ensures
        erase_bytes(pages).len() == 2 * pages.len() + 3,
        pages.len() <= 65536 ==> erase_bytes(pages)[0] * 256 + erase_bytes(pages)[1] + 1
            == pages.len(),
        xor_all(erase_bytes(pages)) == 0,
{
    let count = (pages.len() - 1) as u16;
    let frame = erase_bytes(pages);
    let list = page_bytes(pages);
    assert(list.len() == 2 * pages.len());
    assert(frame[0] == be16(count)[0] && frame[1] == be16(count)[1]);
    lemma_be16(count);
    law_checksum_cancels(be16(count) + list);
}

/// A receiver finds in an erase frame the number of pages less one, the page numbers
/// in order, two bytes each with the high one first, and a last byte with which the
/// whole XORs to zero.
pub proof fn law_erase_frame(pages: Seq<u16>, i: int)
    requires
        0 <= i < pages.len(),
    ensures
        erase_bytes(pages).len() == 2 * pages.len() + 3,
        pages.len() <= 65536 ==> erase_bytes(pages)[0] * 256 + erase_bytes(pages)[1] + 1
            == pages.len(),
        erase_bytes(pages)[2 + 2 * i] * 256 + erase_bytes(pages)[3 + 2 * i] == pages[i],
        xor_all(erase_bytes(pages)) == 0,
{
    lemma_erase_head(pages);
    lemma_listed_page(pages, i);
}

/// The product id is the number in the first two bytes of the payload, the high one
/// first, whatever follows; a shorter payload is the number itself, none is zero.
pub proof fn law_chip_id(payload: Seq<u8>)
    ensures
        payload.len() >= 2 ==> chip_id(payload) == payload[0] * 256 + payload[1],
        payload.len() == 1 ==> chip_id(payload) == payload[0],
        payload.len() == 0 ==> chip_id(payload) == 0,
{
}

} // verus!
