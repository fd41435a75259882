//! STM32L0 family target constants and helpers for the UART bootloader.
//!
//! These cover the STM32L0x1/L0x2/L0x3 line. The flash *size* varies across the
//! family (16–192 KiB), and the bootloader can't report it (Read Memory of the
//! factory region is rejected), so a full-chip erase walks up to the family
//! maximum and stops when the device NACKs an out-of-range page. The rest of
//! the geometry — 128-byte pages, the 0x0800_0000 base, 8-byte write alignment
//! — is uniform across STM32L0.

use vstd::prelude::*;

verus! {

/// UART bootloader baud rate. 115200 is the maximum specified by ST for the
/// USART bootloader (AN3155 / AN2606); the auto-baud detection tops out here.
pub const BAUD: u32 = 115_200;

/// Main flash memory base address — where firmware is written.
pub const FLASH_BASE: u32 = 0x0800_0000;

/// Largest flash in the STM32L0 family (the L07x/L08x density, 192 KiB). Used
/// as a coarse firmware bounds check and as the upper bound a full-chip erase
/// walks toward before the device NACKs the first out-of-range page.
pub const MAX_FLASH_SIZE: u32 = 192 * 1024;

/// Maximum payload per Write/Read Memory command.
pub const MAX_BLOCK: usize = 256;

/// Flash write alignment required by the L0/L1 bootloader (AN2606 Table 7).
pub const WRITE_ALIGN: usize = 8;

/// Flash page size on the STM32L0, uniform across the family (used for Extended
/// Erase page numbering).
pub const PAGE_SIZE: usize = 128;

/// Maximum pages per Extended Erase command.
pub const ERASE_CHUNK: usize = 80;

/// The flash densities of the family in pages: 16, 32, 64, 128 and 192 KiB.
pub const FLASH_DENSITIES_PAGES: [usize; 5] = [128, 256, 512, 1024, 1536];

/// Number of 128-byte flash pages spanning `bytes` of flash.
pub fn pages_in(bytes: u32) -> (r: usize)
    ensures
        r == bytes as int / PAGE_SIZE as int,
{
    bytes as usize / PAGE_SIZE
}

/// The name that belongs to a chip id.
pub open spec fn chip_name_text(id: u16) -> Seq<char> {
    if id == 0x457 {
        "STM32L01x/L02x"@
    } else if id == 0x425 {
        "STM32L031/L041"@
    } else if id == 0x417 {
        "STM32L05x/L06x"@
    } else if id == 0x447 {
        "STM32L07x/L08x (e.g. STM32L083CZ)"@
    } else {
        "unknown"@
    }
}

/// Friendly name for an STM32L0 bootloader chip id (`Get ID` value). These are
/// the STM32 product ids sent over UART — unrelated to any USB-bridge PID.
pub fn chip_name(id: u16) -> (r: &'static str)
    ensures
        r@ == chip_name_text(id),
{
    match id {
        0x457 => "STM32L01x/L02x",
        0x425 => "STM32L031/L041",
        0x417 => "STM32L05x/L06x",
        0x447 => "STM32L07x/L08x (e.g. STM32L083CZ)",
        _ => "unknown",
    }
}

/// Whether `id` is one of the product ids of the family.
pub open spec fn known(id: u16) -> bool {
    id == 0x457 || id == 0x425 || id == 0x417 || id == 0x447
}

/// A product id is one of the family exactly if it has a name.
pub proof fn law_known_has_name(id: u16)
    ensures
        known(id) <==> chip_name_text(id) != "unknown"@,
{
    reveal_strlit("unknown");
    reveal_strlit("STM32L01x/L02x");
    reveal_strlit("STM32L031/L041");
    reveal_strlit("STM32L05x/L06x");
    reveal_strlit("STM32L07x/L08x (e.g. STM32L083CZ)");
    if known(id) {
        assert(chip_name_text(id)[0] == 'S');
        assert("unknown"@[0] == 'u');
    }
}

/// Whether `id` is a recognized STM32L0-family product id (see [`chip_name`]).
pub fn is_known(id: u16) -> (r: bool)
    ensures
        r == known(id),
        r == (chip_name_text(id) != "unknown"@),
{
    proof {
        law_known_has_name(id);
    }
    id == 0x457 || id == 0x425 || id == 0x417 || id == 0x447
}

/// The largest flash, in bytes, that a chip with this id comes with; `None` for
/// an id outside the family.
pub open spec fn flash_limit(id: u16) -> Option<u32> {
    if id == 0x457 {
        Some(0x4000u32)
    } else if id == 0x425 {
        Some(0x8000u32)
    } else if id == 0x417 {
        Some(0x1_0000u32)
    } else if id == 0x447 {
        Some(MAX_FLASH_SIZE)
    } else {
        None
    }
}

/// The largest flash of the chip with product id `id`: 16 KiB (L01x/L02x),
/// 32 KiB (L031/L041), 64 KiB (L05x/L06x) or 192 KiB (L07x/L08x).
pub fn max_flash_size(id: u16) -> (r: Option<u32>)
    ensures
        r == flash_limit(id),
        r is Some <==> known(id),
{
    match id {
        0x457 => Some(16 * 1024),
        0x425 => Some(32 * 1024),
        0x417 => Some(64 * 1024),
        0x447 => Some(MAX_FLASH_SIZE),
        _ => None,
    }
}

/// Whether a page count is the full flash of some member of the family.
pub open spec fn is_density(pages: int) -> bool {
    exists|i: int|
        0 <= i < FLASH_DENSITIES_PAGES@.len() && #[trigger] FLASH_DENSITIES_PAGES@[i] == pages
}

/// The densities of the family are 16, 32, 64, 128 and 192 KiB.
pub proof fn law_densities(pages: int)
    ensures
        is_density(pages) <==> exists|kib: int|
            #![trigger kib * 1024]
            kib * 1024 == pages * PAGE_SIZE && (kib == 16 || kib == 32 || kib == 64 || kib == 128
                || kib == 192),
{
    let table = FLASH_DENSITIES_PAGES@;
    assert(table =~= seq![128usize, 256, 512, 1024, 1536]);
    assert(table[0] == 128 && table[1] == 256 && table[2] == 512 && table[3] == 1024 && table[4]
        == 1536);
    assert(16 * 1024 == 128 * PAGE_SIZE);
    assert(32 * 1024 == 256 * PAGE_SIZE);
    assert(64 * 1024 == 512 * PAGE_SIZE);
    assert(128 * 1024 == 1024 * PAGE_SIZE);
    assert(192 * 1024 == 1536 * PAGE_SIZE);
}

/// Whether `pages` is one of [`FLASH_DENSITIES_PAGES`].
pub fn is_valid_density_pages(pages: usize) -> (r: bool)
    ensures
        r == is_density(pages as int),
{
    let mut i: usize = 0;
    while i < 5
        invariant
            i <= 5,
            forall|j: int| 0 <= j < i ==> FLASH_DENSITIES_PAGES@[j] != pages,
        decreases 5 - i,
    {
        if FLASH_DENSITIES_PAGES[i] == pages {
            assert(FLASH_DENSITIES_PAGES@[i as int] == pages);
            return true;
        }
        i += 1;
    }
    false
}

/// The family is four product ids, each with a name of its own, and nothing else is
/// known.
pub proof fn law_family(a: u16, b: u16)
    ensures
        known(a) <==> a == 0x417 || a == 0x425 || a == 0x447 || a == 0x457,
        known(a) && known(b) && chip_name_text(a) == chip_name_text(b) ==> a == b,
        !known(a) ==> chip_name_text(a) == "unknown"@,
{
    reveal_strlit("unknown");
    reveal_strlit("STM32L01x/L02x");
    reveal_strlit("STM32L031/L041");
    reveal_strlit("STM32L05x/L06x");
    reveal_strlit("STM32L07x/L08x (e.g. STM32L083CZ)");
    let t = chip_name_text(a);
    let u = chip_name_text(b);
    assert(known(a) ==> t[7] == (if a == 0x425 {
        '3'
    } else if a == 0x457 {
        '1'
    } else if a == 0x417 {
        '5'
    } else {
        '7'
    }));
    assert(known(b) ==> u[7] == (if b == 0x425 {
        '3'
    } else if b == 0x457 {
        '1'
    } else if b == 0x417 {
        '5'
    } else {
        '7'
    }));
}

/// A chip of the family comes with 16, 32, 64 or 192 KiB of flash at most; of another
/// chip nothing is known.
pub proof fn law_flash_limits(id: u16)
    ensures
        id == 0x457 ==> flash_limit(id) == Some(0x4000u32),
        id == 0x425 ==> flash_limit(id) == Some(0x8000u32),
        id == 0x417 ==> flash_limit(id) == Some(0x1_0000u32),
        id == 0x447 ==> flash_limit(id) == Some(0x3_0000u32),
        id != 0x457 && id != 0x425 && id != 0x417 && id != 0x447 ==> flash_limit(id) is None,
{
}

/// A density is one of five page counts.
pub proof fn law_density_pages(pages: int)
    ensures
        is_density(pages) <==> pages == 128 || pages == 256 || pages == 512 || pages == 1024
            || pages == 1536,
{
    let table = FLASH_DENSITIES_PAGES@;
    assert(table =~= seq![128usize, 256, 512, 1024, 1536]);
    assert(table[0] == 128 && table[1] == 256 && table[2] == 512 && table[3] == 1024 && table[4]
        == 1536);
}

} // verus!
