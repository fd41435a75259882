//! The flash engine against a scripted device.

use std::time::Duration;

use jolt::bootloader::{Board, Bootloader, Transport, ACK, NACK};
use jolt::error::{Error, IoError, IoErrorKind, NackStage};
use jolt::flash::{
    check_firmware_len, connect, enter_and_identify, erase, erase_chip, erase_pages, flash, info,
    judge_boundary, no_progress, pad_block, pages_for_length, write_image, EntryStep, FlashOptions,
    NoProgress, Progress, ProgressSink, CONNECT_ATTEMPTS,
};
use jolt::scripted::{Reset, ScriptedTransport};
use jolt::target;

/// A sink that keeps what it is told, as text.
struct Recorder {
    events: Vec<String>,
}

impl Recorder {
    fn new() -> Self {
        Recorder { events: Vec::new() }
    }
}

impl ProgressSink for Recorder {
    fn report(&mut self, event: Progress) {
        self.events.push(format!("{event:?}"));
    }
}

fn options(erase: bool, verify: bool, run: bool, go: bool) -> FlashOptions {
    let mut opts = FlashOptions::default();
    opts.erase = erase;
    opts.verify = verify;
    opts.run = run;
    opts.go = go;
    opts
}

#[test]
fn pages_for_length_rounds_up_and_clamps() {
    let max_pages = target::pages_in(target::MAX_FLASH_SIZE);
    assert_eq!(pages_for_length(1, max_pages), 1);
    assert_eq!(pages_for_length(target::PAGE_SIZE, max_pages), 1);
    assert_eq!(pages_for_length(target::PAGE_SIZE + 1, max_pages), 2);
    assert_eq!(pages_for_length(3 * target::PAGE_SIZE, max_pages), 3);
    // never exceeds the connected device's page count
    assert_eq!(pages_for_length(usize::MAX, max_pages), max_pages);
    assert_eq!(pages_for_length(usize::MAX, 256), 256);
}

#[test]
fn pad_to_8_bytes() {
    assert_eq!(
        pad_block(&[1, 2, 3], 8),
        vec![1, 2, 3, 0xFF, 0xFF, 0xFF, 0xFF, 0xFF]
    );
    // already aligned -> unchanged
    let aligned: Vec<u8> = (0..16).collect();
    assert_eq!(pad_block(&aligned, 8), aligned);
    // exactly one over -> pads to next multiple
    assert_eq!(pad_block(&[0; 9], 8).len(), 16);
}

#[test]
fn pad_of_nothing_is_nothing() {
    assert!(pad_block(&[], 8).is_empty());
    assert!(pad_block(&[], 0).is_empty());
}

#[test]
fn chunking_covers_whole_image_with_aligned_addresses() {
    let fw: Vec<u8> = (0..600u32).map(|i| i as u8).collect();
    let mut addr = target::FLASH_BASE;
    let mut total = 0usize;
    for chunk in fw.chunks(target::MAX_BLOCK) {
        assert_eq!(
            addr % target::WRITE_ALIGN as u32,
            0,
            "address stays aligned"
        );
        let buf = pad_block(chunk, target::WRITE_ALIGN);
        assert!(buf.len() <= target::MAX_BLOCK);
        assert_eq!(buf.len() % target::WRITE_ALIGN, 0);
        addr = addr.wrapping_add(buf.len() as u32);
        total += chunk.len();
    }
    assert_eq!(total, fw.len());
}

/// erase_chip on a part whose flash ends part-way through a chunk (not on a
/// chunk boundary): chunk 0 (pages 0..80) ACKs, chunk 1 (80..160) is NACKed
/// because it runs past page 128 — the end of this test's 16 KiB part, so
/// pages 128..160 are out of range. The boundary chunk must be bisected and its
/// valid pages erased instead of dropped.
#[test]
fn erase_chip_bisects_boundary_chunk() {
    // Simulate a part with 128 pages (16 KiB). Pages 0..128 erase; >=128 NACK.
    let boundary = 128usize;
    let mut t = ScriptedTransport::new();
    // Reply to every Extended Erase: the transport decides ACK/NACK based on
    // the highest page in the list it was sent.
    t.set_erase_boundary(boundary);

    // id 0x457 is the Cat-1 (16 KiB) part, whose full density is 128 pages —
    // so this boundary is a valid full-flash stop, not a truncated erase.
    let mut bl = Bootloader::new(&mut t);
    let pages = erase_chip(&mut bl, 0x457, &mut NoProgress::new()).unwrap();
    assert_eq!(pages, boundary, "all in-range pages erased, none dropped");

    // The very first bytes on the wire are the Extended Erase command frame.
    assert_eq!(&t.written()[..2], &[0x44, 0xBB]);

    // Every page below the boundary must have been erased at least once.
    let erased = t.erased_pages();
    for p in 0..boundary as u16 {
        assert!(erased.contains(&p), "page {p} was never erased");
    }
    // No out-of-range page was erased.
    assert!(erased.iter().all(|&p| (p as usize) < boundary));
}

/// A NACK to the Extended Erase *command* byte (line corruption), distinct from a
/// page-list NACK, must NOT be read as "reached the flash boundary" — it
/// propagates as an error.
#[test]
fn erase_chip_command_nack_is_an_error_not_a_boundary() {
    let mut t = ScriptedTransport::new();
    // First chunk's command byte ACKs, its page list ACKs (chunk 0 done).
    // Second chunk: NACK the *command* byte.
    t.push_erase_chunk_ack(); // chunk 0 ok
    t.push_command_nack(); // chunk 1 command frame corrupted
    let mut bl = Bootloader::new(&mut t);
    let err = erase_chip(&mut bl, 0x447, &mut NoProgress::new()).unwrap_err();
    assert!(
        matches!(
            err,
            Error::Nack {
                stage: NackStage::Command,
                ..
            }
        ),
        "got {err:?}"
    );
}

/// A payload NACK also means a write-protected page, not just the end of
/// flash. If the erase stops on a page count that is not a real STM32L0
/// density, that is a truncated (partial) erase and must surface as an error
/// rather than a silent Ok reporting fewer pages than were requested.
#[test]
fn erase_chip_partial_erase_on_non_density_boundary() {
    // Boundary at page 200 (25 KiB) — not any STM32L0 density. Models a WRP
    // page at 200 on a part whose real flash is larger.
    let mut t = ScriptedTransport::new();
    t.set_erase_boundary(200);
    let mut bl = Bootloader::new(&mut t);
    let err = erase_chip(&mut bl, 0x447, &mut NoProgress::new()).unwrap_err();
    match err {
        Error::PartialErase { erased, id, .. } => {
            assert_eq!(erased, 200, "erase stopped at the WRP boundary");
            assert_eq!(id, 0x447);
        }
        other => panic!("expected PartialErase, got {other:?}"),
    }
}

/// A boundary that is a valid density but is larger than the identified
/// chip's flash (e.g. a 64 KiB stop reported for a 16 KiB part) is also a
/// truncated erase — the family cross-check must catch it.
#[test]
fn erase_chip_partial_erase_when_boundary_exceeds_chip_family() {
    // 512 pages == 64 KiB (a valid density), but chip 0x457 is a 16 KiB part.
    let mut t = ScriptedTransport::new();
    t.set_erase_boundary(512);
    let mut bl = Bootloader::new(&mut t);
    let err = erase_chip(&mut bl, 0x457, &mut NoProgress::new()).unwrap_err();
    assert!(
        matches!(err, Error::PartialErase { erased: 512, .. }),
        "got {err:?}"
    );
}

/// A full-density part (192 KiB, 1536 pages) never NACKs a page-list — the
/// erase walks to the family maximum and returns it, no PartialErase.
#[test]
fn erase_chip_full_density_reaches_maximum() {
    let max_pages = target::pages_in(target::MAX_FLASH_SIZE);
    let mut t = ScriptedTransport::new();
    t.set_erase_boundary(max_pages);
    let mut bl = Bootloader::new(&mut t);
    let pages = erase_chip(&mut bl, 0x447, &mut NoProgress::new()).unwrap();
    assert_eq!(pages, max_pages);
}

/// check_firmware_len rejects an empty image (nothing to flash) and one
/// larger than the family maximum, and accepts a normal image.
#[test]
fn check_firmware_len_rejects_empty_and_oversize() {
    assert!(matches!(
        check_firmware_len(0),
        Err(Error::InvalidArgument { .. })
    ));
    assert!(matches!(
        check_firmware_len(target::MAX_FLASH_SIZE as usize + 1),
        Err(Error::FirmwareTooLarge { .. })
    ));
    assert!(check_firmware_len(1).is_ok());
    assert!(check_firmware_len(target::MAX_FLASH_SIZE as usize).is_ok());
}

/// A length whose low 32 bits are small is still too large.
#[test]
fn check_firmware_len_is_not_truncated() {
    assert!(matches!(
        check_firmware_len(0x1_0000_0001),
        Err(Error::FirmwareTooLarge { size: 0x1_0000_0001, max: 196608, max_kib: 192 })
    ));
}

/// write_image verify reports VerifyMismatch at the correct absolute address when
/// the read-back differs from the image.
#[test]
fn verify_mismatch_reports_absolute_address() {
    let fw = vec![0xAAu8; 8];
    let mut t = ScriptedTransport::new();
    // erase footprint (1 page): command ACK + page-list ACK.
    t.push_erase_chunk_ack();
    // write one block: command ACK, address ACK, data ACK.
    t.push_ack(); // Write Memory command
    t.push_ack(); // Write Memory address
    t.push_ack(); // Write Memory data
    // verify read of 8 bytes: command ACK, address ACK, length ACK, then
    // 8 data bytes that differ at index 3.
    t.push_ack(); // Read Memory command
    t.push_ack(); // Read Memory address
    t.push_ack(); // Read Memory length
    let mut readback = fw.clone();
    readback[3] = 0x55; // mismatch at offset 3
    t.push_bytes(&readback);

    let mut bl = Bootloader::new(&mut t);
    let opts = FlashOptions::default();
    let err = write_image(&mut bl, &fw, &opts, &mut NoProgress::new()).unwrap_err();
    match err {
        Error::VerifyMismatch {
            address,
            got,
            expected,
        } => {
            assert_eq!(address, target::FLASH_BASE + 3);
            assert_eq!(got, 0x55);
            assert_eq!(expected, 0xAA);
        }
        other => panic!("expected VerifyMismatch, got {other:?}"),
    }
}

/// connect retries exactly CONNECT_ATTEMPTS times then fails with
/// BootloaderInit. Every init NACKs, so no attempt succeeds.
#[test]
fn connect_retries_then_gives_up() {
    let mut t = ScriptedTransport::new();
    for _ in 0..CONNECT_ATTEMPTS {
        t.push_nack(); // init read_ack sees NACK each attempt
    }
    let mut report = Recorder::new();
    let err = connect(&mut t, &mut report).unwrap_err();
    assert!(matches!(
        err,
        Error::BootloaderInit {
            attempts
        } if attempts == CONNECT_ATTEMPTS
    ));
    let resets = t.resets().len() as u32;
    let connects = report
        .events
        .iter()
        .filter(|e| e.starts_with("Connecting "))
        .count() as u32;
    assert_eq!(resets, CONNECT_ATTEMPTS, "reset attempted once per try");
    assert_eq!(connects, CONNECT_ATTEMPTS, "one Connecting event per try");
}

/// connect succeeds on the second attempt (first init NACKs, second ACKs).
#[test]
fn connect_succeeds_after_one_retry() {
    let mut t = ScriptedTransport::new();
    t.push_nack(); // attempt 1 init -> NACK
    t.push_ack(); // attempt 2 init -> ACK
    connect(&mut t, &mut NoProgress::new()).unwrap();
    let resets = t.resets().len() as u32;
    assert_eq!(resets, 2);
}

#[test]
fn connect_tells_each_failed_attempt() {
    let mut t = ScriptedTransport::new();
    t.push_nack();
    t.push_ack();
    let mut report = Recorder::new();
    connect(&mut t, &mut report).unwrap();
    assert_eq!(
        report.events,
        vec![
            "Connecting { attempt: 1, of: 5 }".to_string(),
            "ConnectError { attempt: 1, of: 5, error: \"bootloader replied NACK (0x1F) to \
             bootloader init (0x7F) (command stage)\" }"
                .to_string(),
            "Connecting { attempt: 2, of: 5 }".to_string(),
        ]
    );
}

#[test]
fn erase_pages_tells_each_chunk() {
    let mut t = ScriptedTransport::new();
    t.push_erase_chunk_ack();
    t.push_erase_chunk_ack();
    let mut report = Recorder::new();
    erase_pages(&mut Bootloader::new(&mut t), 81, &mut report).unwrap();
    assert_eq!(
        report.events,
        vec![
            "Erase { pages_done: 0, pages_total: 81 }".to_string(),
            "Erase { pages_done: 80, pages_total: 81 }".to_string(),
            "Erase { pages_done: 81, pages_total: 81 }".to_string(),
        ]
    );
    let timeout = Duration::from_secs(30);
    let back = Duration::from_millis(1000);
    assert_eq!(t.timeouts(), &[timeout, back, timeout, back]);
}

#[test]
fn erase_pages_of_none_sends_nothing() {
    let mut t = ScriptedTransport::new();
    erase_pages(&mut Bootloader::new(&mut t), 0, &mut NoProgress::new()).unwrap();
    assert!(t.written().is_empty());
}

/// Every boundary from the first chunk on is found exactly.
#[test]
fn erase_chip_finds_every_boundary() {
    for boundary in 80usize..=200 {
        let mut t = ScriptedTransport::new();
        t.set_erase_boundary(boundary);
        let r = erase_chip(&mut Bootloader::new(&mut t), 0x447, &mut NoProgress::new());
        if boundary == 128 {
            assert_eq!(r.unwrap(), 128);
        } else {
            assert!(matches!(r, Err(Error::PartialErase { erased, .. }) if erased == boundary));
        }
        let mut erased = t.erased_pages().to_vec();
        erased.sort();
        let all: Vec<u16> = (0..boundary as u16).collect();
        assert_eq!(erased, all);
    }
}

#[test]
fn erase_chip_reports_a_rejected_first_chunk() {
    let mut t = ScriptedTransport::new();
    t.set_erase_boundary(79);
    let err = erase_chip(&mut Bootloader::new(&mut t), 0x447, &mut NoProgress::new()).unwrap_err();
    assert!(err.is_payload_nack());
    assert!(t.erased_pages().is_empty());
}

#[test]
fn judge_boundary_knows_the_family() {
    assert_eq!(judge_boundary(128, 0x457).unwrap(), 128);
    assert_eq!(judge_boundary(256, 0x425).unwrap(), 256);
    assert_eq!(judge_boundary(512, 0x417).unwrap(), 512);
    assert_eq!(judge_boundary(1536, 0x447).unwrap(), 1536);
    assert_eq!(judge_boundary(1024, 0x999).unwrap(), 1024);
    assert!(matches!(
        judge_boundary(256, 0x457),
        Err(Error::PartialErase { erased: 256, kib: 32, id: 0x457 })
    ));
    assert!(matches!(
        judge_boundary(200, 0x999),
        Err(Error::PartialErase { erased: 200, kib: 25, id: 0x999 })
    ));
}

#[test]
fn flash_rejects_bad_images_untouched() {
    for fw in [Vec::new(), vec![0u8; target::MAX_FLASH_SIZE as usize + 1]] {
        let mut t = ScriptedTransport::new();
        let mut report = Recorder::new();
        flash(&mut t, &fw, &FlashOptions::default(), &mut report).unwrap_err();
        assert!(t.written().is_empty());
        assert!(t.resets().is_empty());
        assert!(report.events.is_empty());
    }
}

/// The replies of a flash operation of 8 bytes up to the end of the write.
fn script_flash(t: &mut ScriptedTransport) {
    t.push_ack(); // init
    t.push_bytes(&[ACK, 0x01, 0x04, 0x47, ACK]); // Get ID
    t.push_erase_chunk_ack();
    t.push_bytes(&[ACK, ACK, ACK]); // Write Memory
}

#[test]
fn flash_runs_the_whole_sequence() {
    let fw = [1u8, 2, 3, 4, 5];
    let mut t = ScriptedTransport::new();
    script_flash(&mut t);
    t.push_bytes(&[ACK, ACK, ACK]); // Read Memory
    t.push_bytes(&fw);
    let mut report = Recorder::new();
    flash(&mut t, &fw, &FlashOptions::default(), &mut report).unwrap();
    assert_eq!(t.resets(), &[Reset::IntoBootloader, Reset::IntoApp]);
    assert_eq!(
        report.events,
        vec![
            "Connecting { attempt: 1, of: 5 }".to_string(),
            "ChipIdentified { id: 1095 }".to_string(),
            "Erase { pages_done: 0, pages_total: 1 }".to_string(),
            "Erase { pages_done: 1, pages_total: 1 }".to_string(),
            "Write { bytes_done: 0, bytes_total: 5 }".to_string(),
            "Write { bytes_done: 5, bytes_total: 5 }".to_string(),
            "Verify { bytes_done: 0, bytes_total: 5 }".to_string(),
            "Verify { bytes_done: 5, bytes_total: 5 }".to_string(),
            "Starting".to_string(),
        ]
    );
    let expected: Vec<u8> = [
        vec![0x7F, 0x02, 0xFD],
        vec![0x44, 0xBB, 0x00, 0x00, 0x00, 0x00, 0x00],
        vec![0x31, 0xCE, 0x08, 0x00, 0x00, 0x00, 0x08],
        vec![0x07, 1, 2, 3, 4, 5, 0xFF, 0xFF, 0xFF, 0x07 ^ 1 ^ 2 ^ 3 ^ 4 ^ 5 ^ 0xFF],
        vec![0x11, 0xEE, 0x08, 0x00, 0x00, 0x00, 0x08, 0x04, 0xFB],
    ]
    .concat();
    assert_eq!(t.written(), &expected[..]);
}

#[test]
fn flash_with_go_does_not_reset_into_app() {
    let mut t = ScriptedTransport::new();
    script_flash(&mut t);
    t.push_bytes(&[ACK, ACK]); // Go
    flash(&mut t, &[9u8; 8], &options(true, false, true, true), &mut NoProgress::new()).unwrap();
    assert_eq!(t.resets(), &[Reset::IntoBootloader]);
    assert!(t.written().ends_with(&[0x21, 0xDE, 0x08, 0x00, 0x00, 0x00, 0x08]));
}

#[test]
fn flash_without_run_parks_in_the_bootloader() {
    let mut t = ScriptedTransport::new();
    script_flash(&mut t);
    let mut report = Recorder::new();
    flash(&mut t, &[9u8; 8], &options(true, false, false, true), &mut report).unwrap();
    assert_eq!(t.resets(), &[Reset::IntoBootloader]);
    assert!(!report.events.contains(&"Starting".to_string()));
}

#[test]
fn flash_without_erase_sends_no_erase() {
    let mut t = ScriptedTransport::new();
    t.push_ack();
    t.push_bytes(&[ACK, 0x01, 0x04, 0x47, ACK]);
    t.push_bytes(&[ACK, ACK, ACK]);
    flash(&mut t, &[9u8; 8], &options(false, false, false, false), &mut NoProgress::new()).unwrap();
    assert_eq!(&t.written()[3..5], &[0x31, 0xCE]);
}

#[test]
fn failed_identification_restores_the_app() {
    let mut t = ScriptedTransport::new();
    t.push_ack();
    t.push_nack(); // Get ID
    let err =
        flash(&mut t, &[9u8; 8], &FlashOptions::default(), &mut NoProgress::new()).unwrap_err();
    assert!(matches!(err, Error::Nack { stage: NackStage::Command, .. }));
    assert_eq!(t.resets(), &[Reset::IntoBootloader, Reset::IntoApp]);
}

#[test]
fn failed_write_stays_in_the_bootloader() {
    let mut t = ScriptedTransport::new();
    t.push_ack();
    t.push_bytes(&[ACK, 0x01, 0x04, 0x47, ACK]);
    t.push_erase_chunk_ack();
    t.push_bytes(&[ACK, ACK, NACK]); // Write Memory data rejected
    let err =
        flash(&mut t, &[9u8; 8], &FlashOptions::default(), &mut NoProgress::new()).unwrap_err();
    assert!(err.is_payload_nack());
    assert_eq!(t.resets(), &[Reset::IntoBootloader]);
}

#[test]
fn a_long_image_is_written_in_blocks() {
    let fw: Vec<u8> = (0..600u32).map(|i| i as u8).collect();
    let mut t = ScriptedTransport::new();
    t.push_bytes(&[ACK; 9]);
    let opts = options(false, false, false, false);
    let mut report = Recorder::new();
    write_image(&mut Bootloader::new(&mut t), &fw, &opts, &mut report).unwrap();
    assert_eq!(
        report.events,
        vec![
            "Write { bytes_done: 0, bytes_total: 600 }".to_string(),
            "Write { bytes_done: 256, bytes_total: 600 }".to_string(),
            "Write { bytes_done: 512, bytes_total: 600 }".to_string(),
            "Write { bytes_done: 600, bytes_total: 600 }".to_string(),
        ]
    );
    // two full blocks of 2 + 5 + 258 bytes, then 88 bytes at 0x0800_0200
    let last = &t.written()[2 * 265..];
    assert_eq!(&last[..8], &[0x31, 0xCE, 0x08, 0x00, 0x02, 0x00, 0x0A, 87]);
    assert_eq!(&last[8..96], &fw[512..]);
}

#[test]
fn an_image_beyond_the_flash_of_the_part_fails_in_the_erase() {
    let mut t = ScriptedTransport::new();
    t.set_erase_boundary(128);
    let opts = options(true, false, false, false);
    let mut bl = Bootloader::new(&mut t);
    let err = write_image(&mut bl, &[0u8; 128 * 128 + 1], &opts, &mut NoProgress::new()).unwrap_err();
    assert!(err.is_payload_nack());
    // the first chunk was erased, and nothing written
    assert_eq!(t.erased_pages().len(), 80);
}

#[test]
fn standalone_erase_ends_in_the_app() {
    let mut t = ScriptedTransport::new();
    t.push_ack();
    t.push_bytes(&[ACK, 0x01, 0x04, 0x47, ACK]);
    t.set_erase_boundary(1024);
    assert_eq!(erase(&mut t, &mut NoProgress::new()).unwrap(), 1024);
    assert_eq!(t.resets(), &[Reset::IntoBootloader, Reset::IntoApp]);
}

#[test]
fn truncated_erase_stays_in_the_bootloader() {
    let mut t = ScriptedTransport::new();
    t.push_ack();
    t.push_bytes(&[ACK, 0x01, 0x04, 0x57, ACK]);
    t.set_erase_boundary(100);
    let err = erase(&mut t, &mut NoProgress::new()).unwrap_err();
    assert!(matches!(err, Error::PartialErase { erased: 100, kib: 12, id: 0x457 }));
    assert_eq!(t.resets(), &[Reset::IntoBootloader]);
}

#[test]
fn enter_and_identify_tells_the_id() {
    let mut t = ScriptedTransport::new();
    t.push_ack();
    t.push_bytes(&[ACK, 0x01, 0x04, 0x25, ACK]);
    assert_eq!(enter_and_identify(&mut t, &mut NoProgress::new()).unwrap(), 0x425);
    assert_eq!(t.resets(), &[Reset::IntoBootloader]);
    assert_eq!(t.written(), &[0x7F, 0x02, 0xFD]);
}

#[test]
fn enter_and_identify_says_which_step_failed() {
    let mut t = ScriptedTransport::new();
    let e = enter_and_identify(&mut t, &mut NoProgress::new()).unwrap_err();
    assert_eq!(e.step, EntryStep::Connect);
    assert_eq!(e.step.context(), "entering bootloader");
    let mut t = ScriptedTransport::new();
    t.push_ack();
    let e = enter_and_identify(&mut t, &mut NoProgress::new()).unwrap_err();
    assert_eq!(e.step, EntryStep::GetId);
    assert_eq!(e.step.context(), "Get ID");
    assert_eq!(t.resets(), &[Reset::IntoBootloader]);
}

#[test]
fn info_reads_and_leaves_the_app_running() {
    let mut t = ScriptedTransport::new();
    t.push_ack();
    t.push_bytes(&[ACK, 0x01, 0x04, 0x47, ACK]); // Get ID
    t.push_bytes(&[ACK, 2, 0x31, 0x00, 0x02, ACK]); // Get
    let mut report = Recorder::new();
    let (reply, reset) = info(&mut t, &mut report).unwrap();
    assert_eq!(reply.unwrap(), (0x31, vec![0x00, 0x02]));
    assert!(reset.is_ok());
    assert_eq!(t.written(), &[0x7F, 0x02, 0xFD, 0x00, 0xFF]);
    assert_eq!(t.resets(), &[Reset::IntoBootloader, Reset::IntoApp]);
    assert_eq!(
        report.events,
        vec![
            "Connecting { attempt: 1, of: 5 }".to_string(),
            "ChipIdentified { id: 1095 }".to_string(),
        ]
    );
}

/// A failure of `Get` is no error: the application is reset into all the same.
#[test]
fn info_does_not_mind_a_failed_get() {
    let mut t = ScriptedTransport::new();
    t.push_ack();
    t.push_bytes(&[ACK, 0x01, 0x04, 0x47, ACK]);
    t.push_nack(); // Get
    let (reply, reset) = info(&mut t, &mut NoProgress::new()).unwrap();
    assert!(matches!(reply, Err(Error::Nack { stage: NackStage::Command, .. })));
    assert!(reset.is_ok());
    assert_eq!(t.resets(), &[Reset::IntoBootloader, Reset::IntoApp]);
}

#[test]
fn info_of_a_chip_without_id_stays_in_the_bootloader() {
    let mut t = ScriptedTransport::new();
    t.push_ack();
    let e = info(&mut t, &mut NoProgress::new()).unwrap_err();
    assert_eq!(e.step, EntryStep::GetId);
    assert_eq!(t.resets(), &[Reset::IntoBootloader]);
}

/// A board whose first `broken` resets into the bootloader fail.
struct Flaky {
    broken: usize,
    resets: usize,
    device: ScriptedTransport,
}

impl Flaky {
    fn new(broken: usize) -> Self {
        Flaky {
            broken,
            resets: 0,
            device: ScriptedTransport::new(),
        }
    }
}

impl Transport for Flaky {
    fn write_all(&mut self, buf: &[u8]) -> Result<(), Error> {
        self.device.write_all(buf)
    }
    fn read_exact_buf(&mut self, buf: &mut [u8], context: &str) -> Result<(), Error> {
        self.device.read_exact_buf(buf, context)
    }
    fn clear_input(&mut self) -> Result<(), Error> {
        self.device.clear_input()
    }
    fn set_timeout(&mut self, timeout: Duration) -> Result<(), Error> {
        self.device.set_timeout(timeout)
    }
    fn reset_timeout(&mut self) -> Result<(), Error> {
        self.device.reset_timeout()
    }
}

impl Board for Flaky {
    fn reset_into_bootloader(&mut self) -> Result<(), Error> {
        self.resets += 1;
        if self.resets <= self.broken {
            return Err(Error::Io(IoError {
                kind: IoErrorKind::Other,
                message: "no line".to_string(),
            }));
        }
        self.device.reset_into_bootloader()
    }
    fn reset_into_app(&mut self) -> Result<(), Error> {
        self.device.reset_into_app()
    }
}

/// A failed reset is a failed attempt like any other: it is told, and the next
/// attempt follows.
#[test]
fn a_failed_reset_is_retried() {
    let mut t = Flaky::new(1);
    t.device.push_ack();
    let mut report = Recorder::new();
    connect(&mut t, &mut report).unwrap();
    assert_eq!(
        report.events,
        vec![
            "Connecting { attempt: 1, of: 5 }".to_string(),
            "ConnectError { attempt: 1, of: 5, error: \"I/O error: no line\" }".to_string(),
            "Connecting { attempt: 2, of: 5 }".to_string(),
        ]
    );
    assert_eq!(t.resets, 2);
    // no handshake was made after the reset that failed
    assert_eq!(t.device.written(), &[0x7F]);
}

/// Only exhausting all attempts is an error, whatever they failed of.
#[test]
fn connect_gives_up_after_failed_resets_and_handshakes() {
    let mut t = Flaky::new(3);
    t.device.push_nack();
    t.device.push_nack();
    let mut report = Recorder::new();
    let err = connect(&mut t, &mut report).unwrap_err();
    assert!(matches!(err, Error::BootloaderInit { attempts: 5 }));
    assert_eq!(t.resets, 5);
    assert_eq!(report.events.len(), 10);
    assert_eq!(t.device.written(), &[0x7F, 0x7F]);

    let mut t = Flaky::new(5);
    let err = connect(&mut t, &mut NoProgress::new()).unwrap_err();
    assert!(matches!(err, Error::BootloaderInit { attempts: 5 }));
    assert!(t.device.written().is_empty());
}

#[test]
fn no_progress_takes_any_event() {
    no_progress(Progress::Starting);
    no_progress(Progress::ChipIdentified { id: 0x447 });
}

#[test]
fn default_options() {
    let opts = FlashOptions::default();
    assert!(opts.erase && opts.verify && opts.run && !opts.go);
}
