//! The protocol engine against a scripted device.

use std::time::Duration;

use jolt::bootloader::{Bootloader, Transport, ACK, NACK};
use jolt::error::{Error, NackStage};
use jolt::frame::{address_frame, cmd_frame, erase_frame, parse_chip_id, write_data_frame};
use jolt::scripted::{ScriptedTransport, DEFAULT_TIMEOUT_MARKER_MILLIS};

fn marker() -> Duration {
    Duration::from_millis(DEFAULT_TIMEOUT_MARKER_MILLIS)
}

#[test]
fn get_id_two_byte_reply() {
    // [ACK(cmd), len=1, 0x04, 0x47, ACK(final)] => 0x447
    let mut t = ScriptedTransport::new();
    t.push_bytes(&[ACK, 0x01, 0x04, 0x47, ACK]);
    let mut bl = Bootloader::new(&mut t);
    assert_eq!(bl.get_id().unwrap(), 0x447);
}

#[test]
fn get_id_one_byte_reply() {
    // len=0 => payload is 1 byte (n+1). Reply: [ACK, 0, 0x12, ACK] => 0x12.
    let mut t = ScriptedTransport::new();
    t.push_bytes(&[ACK, 0x00, 0x12, ACK]);
    let mut bl = Bootloader::new(&mut t);
    assert_eq!(bl.get_id().unwrap(), 0x12);
}

#[test]
fn read_ack_distinguishes_nack_and_garbage() {
    // NACK on the command frame -> Nack{stage: Command}.
    let mut t = ScriptedTransport::new();
    t.push_byte(0x1F);
    let mut bl = Bootloader::new(&mut t);
    let err = bl.get_id().unwrap_err();
    assert!(matches!(
        err,
        Error::Nack {
            stage: NackStage::Command,
            ..
        }
    ));

    // Garbage byte -> UnexpectedByte.
    let mut t = ScriptedTransport::new();
    t.push_byte(0xAB);
    let mut bl = Bootloader::new(&mut t);
    let err = bl.get_id().unwrap_err();
    assert!(matches!(
        err,
        Error::UnexpectedByte {
            got: 0xAB,
            expected: ACK,
            ..
        }
    ));
}

#[test]
fn extended_erase_restores_timeout_on_ok_and_err() {
    // OK path: set(erase_timeout) then reset(default).
    let mut t = ScriptedTransport::new();
    t.push_erase_chunk_ack();
    let erase_timeout = Duration::from_secs(30);
    {
        let mut bl = Bootloader::new(&mut t);
        bl.extended_erase_pages(&[0, 1, 2], erase_timeout).unwrap();
    }
    assert_eq!(t.timeouts(), &[erase_timeout, marker()]);

    // Err path (page-list NACK): timeout still restored.
    let mut t = ScriptedTransport::new();
    t.push_ack(); // command frame ACK
    t.push_nack(); // page-list NACK
    {
        let mut bl = Bootloader::new(&mut t);
        let err = bl
            .extended_erase_pages(&[0, 1, 2], erase_timeout)
            .unwrap_err();
        assert!(matches!(
            err,
            Error::Nack {
                stage: NackStage::Payload,
                ..
            }
        ));
    }
    assert_eq!(t.timeouts(), &[erase_timeout, marker()]);
}

#[test]
fn extended_erase_rejects_bad_page_counts() {
    let mut t = ScriptedTransport::new();
    let mut bl = Bootloader::new(&mut t);
    assert!(matches!(
        bl.extended_erase_pages(&[], Duration::from_secs(1)),
        Err(Error::InvalidArgument { .. })
    ));
    let too_many: Vec<u16> = (0..81).collect();
    assert!(matches!(
        bl.extended_erase_pages(&too_many, Duration::from_secs(1)),
        Err(Error::InvalidArgument { .. })
    ));
}

#[test]
fn write_and_read_block_reject_bad_lengths() {
    let mut t = ScriptedTransport::new();
    let mut bl = Bootloader::new(&mut t);
    assert!(matches!(
        bl.write_block(0, &[]),
        Err(Error::InvalidArgument { .. })
    ));
    assert!(matches!(
        bl.write_block(0, &[0u8; 257]),
        Err(Error::InvalidArgument { .. })
    ));
    assert!(matches!(
        bl.read_block(0, 0),
        Err(Error::InvalidArgument { .. })
    ));
    assert!(matches!(
        bl.read_block(0, 257),
        Err(Error::InvalidArgument { .. })
    ));
}

#[test]
fn cmd_frames_match_an3155() {
    assert_eq!(cmd_frame(0x00), [0x00, 0xFF]); // Get
    assert_eq!(cmd_frame(0x02), [0x02, 0xFD]); // Get ID
    assert_eq!(cmd_frame(0x11), [0x11, 0xEE]); // Read Memory
    assert_eq!(cmd_frame(0x21), [0x21, 0xDE]); // Go
    assert_eq!(cmd_frame(0x31), [0x31, 0xCE]); // Write Memory
    assert_eq!(cmd_frame(0x44), [0x44, 0xBB]); // Extended Erase
}

#[test]
fn address_frame_flash_base() {
    assert_eq!(address_frame(0x0800_0000), [0x08, 0x00, 0x00, 0x00, 0x08]);
    // checksum is the XOR fold of the four address bytes
    let f = address_frame(0x0800_1234);
    assert_eq!(f[4], f[0] ^ f[1] ^ f[2] ^ f[3]);
}

#[test]
fn write_data_frame_checksum() {
    let data = [0xAA, 0xBB, 0xCC, 0xDD];
    let f = write_data_frame(&data);
    let n = (data.len() - 1) as u8; // 3
    assert_eq!(f[0], n);
    assert_eq!(&f[1..5], &data);
    let expected_cs = n ^ 0xAA ^ 0xBB ^ 0xCC ^ 0xDD;
    assert_eq!(*f.last().unwrap(), expected_cs);
}

#[test]
fn parse_chip_id_l0() {
    // STM32L0x3 Get ID payload: 0x04 0x47
    assert_eq!(parse_chip_id(&[0x04, 0x47]), 0x447);
}

#[test]
fn erase_frame_format() {
    // pages [0,1,2]: count N=2 (0x0000,0x0002 hi/lo), then page numbers, then XOR
    let f = erase_frame(&[0, 1, 2]);
    assert_eq!(&f[..f.len() - 1], &[0x00, 0x02, 0, 0, 0, 1, 0, 2]);
    let cs = f[..f.len() - 1].iter().fold(0u8, |a, &b| a ^ b);
    assert_eq!(*f.last().unwrap(), cs);
}

#[test]
fn frames_xor_to_zero() {
    for frame in [
        address_frame(0x0800_ABCD).to_vec(),
        write_data_frame(&[1, 2, 3]),
        erase_frame(&[0x0123, 0x4567]),
    ] {
        assert_eq!(frame.iter().fold(0u8, |a, &b| a ^ b), 0);
    }
    assert_eq!(cmd_frame(0x5A)[0] ^ cmd_frame(0x5A)[1], 0xFF);
    assert_eq!(
        erase_frame(&[0x0123, 0x4567]),
        vec![0x00, 0x01, 0x01, 0x23, 0x45, 0x67, 0x01]
    );
}

#[test]
fn chip_id_of_odd_payloads() {
    assert_eq!(parse_chip_id(&[]), 0);
    assert_eq!(parse_chip_id(&[0x12]), 0x12);
    assert_eq!(parse_chip_id(&[0x04, 0x17, 0xFF]), 0x417);
}

#[test]
fn init_sends_7f() {
    let mut t = ScriptedTransport::new();
    t.push_ack();
    Bootloader::new(&mut t).init().unwrap();
    assert_eq!(t.written(), &[0x7F]);
}

#[test]
fn init_without_reply_times_out() {
    let mut t = ScriptedTransport::new();
    let err = Bootloader::new(&mut t).init().unwrap_err();
    assert!(matches!(&err, Error::Timeout { context } if context == "bootloader init (0x7F)"));
    assert_eq!(err.message(), "timed out waiting for bootloader init (0x7F)");
}

#[test]
fn get_reads_version_and_commands() {
    let mut t = ScriptedTransport::new();
    t.push_bytes(&[ACK, 3, 0x31, 0x00, 0x01, 0x02, ACK]);
    let (version, commands) = Bootloader::new(&mut t).get().unwrap();
    assert_eq!(version, 0x31);
    assert_eq!(commands, vec![0x00, 0x01, 0x02]);
    assert_eq!(t.written(), &[0x00, 0xFF]);
}

#[test]
fn get_final_nack_is_a_payload_nack() {
    let mut t = ScriptedTransport::new();
    t.push_bytes(&[ACK, 1, 0x31, 0x00, NACK]);
    let err = Bootloader::new(&mut t).get().unwrap_err();
    assert!(matches!(&err, Error::Nack { context, stage: NackStage::Payload } if context == "Get final ACK"));
}

#[test]
fn write_block_frames() {
    let mut t = ScriptedTransport::new();
    t.push_bytes(&[ACK, ACK, ACK]);
    Bootloader::new(&mut t)
        .write_block(0x0800_0100, &[0x01, 0x02])
        .unwrap();
    assert_eq!(
        t.written(),
        &[0x31, 0xCE, 0x08, 0x00, 0x01, 0x00, 0x09, 0x01, 0x01, 0x02, 0x02]
    );
}

#[test]
fn read_block_frames() {
    let mut t = ScriptedTransport::new();
    t.push_bytes(&[ACK, ACK, ACK, 0xDE, 0xAD]);
    let data = Bootloader::new(&mut t).read_block(0x0800_0000, 2).unwrap();
    assert_eq!(data, vec![0xDE, 0xAD]);
    assert_eq!(
        t.written(),
        &[0x11, 0xEE, 0x08, 0x00, 0x00, 0x00, 0x08, 0x01, 0xFE]
    );
}

#[test]
fn read_block_of_256_bytes_asks_for_ff() {
    let mut t = ScriptedTransport::new();
    t.push_bytes(&[ACK, ACK, ACK]);
    t.push_bytes(&[7u8; 256]);
    let data = Bootloader::new(&mut t).read_block(0, 256).unwrap();
    assert_eq!(data, vec![7u8; 256]);
    assert_eq!(&t.written()[7..], &[0xFF, 0x00]);
}

#[test]
fn go_frames() {
    let mut t = ScriptedTransport::new();
    t.push_bytes(&[ACK, ACK]);
    Bootloader::new(&mut t).go(0x0800_0000).unwrap();
    assert_eq!(t.written(), &[0x21, 0xDE, 0x08, 0x00, 0x00, 0x00, 0x08]);
}

#[test]
fn command_nack_leaves_the_timeout_alone() {
    let mut t = ScriptedTransport::new();
    t.push_command_nack();
    let err = Bootloader::new(&mut t)
        .extended_erase_pages(&[0], Duration::from_secs(30))
        .unwrap_err();
    assert!(matches!(err, Error::Nack { stage: NackStage::Command, .. }));
    assert!(t.timeouts().is_empty());
}

#[test]
fn simulated_device_erases_all_or_nothing() {
    let mut t = ScriptedTransport::new();
    t.set_erase_boundary(10);
    let timeout = Duration::from_secs(30);
    Bootloader::new(&mut t).extended_erase_pages(&[8, 9, 8], timeout).unwrap();
    assert_eq!(t.erased_pages(), &[8, 9]);
    let err = Bootloader::new(&mut t).extended_erase_pages(&[0, 10], timeout).unwrap_err();
    assert!(err.is_payload_nack());
    assert_eq!(t.erased_pages(), &[8, 9]);
}

/// Reads consume the queue in order; one that wants more than there is times out
/// and leaves nothing.
#[test]
fn scripted_reads_consume_the_queue_in_order() {
    let mut t = ScriptedTransport::new();
    t.push_bytes(&[1, 2, 3]);
    t.push_byte(4);
    let mut buf = [0u8; 3];
    t.read_exact_buf(&mut buf, "x").unwrap();
    assert_eq!(buf, [1, 2, 3]);
    assert!(matches!(
        t.read_exact_buf(&mut buf, "x"),
        Err(Error::Timeout { context }) if context == "x"
    ));
    t.push_byte(5);
    assert_eq!(t.read_byte("x").unwrap(), 5);
}

/// A page list that is shorter than its count says is rejected.
#[test]
fn scripted_device_rejects_a_short_page_list() {
    let mut t = ScriptedTransport::new();
    t.set_erase_boundary(10);
    t.write_all(&[0x44, 0xBB]).unwrap();
    assert_eq!(t.read_byte("x").unwrap(), ACK);
    t.write_all(&[0x00]).unwrap();
    assert_eq!(t.read_byte("x").unwrap(), NACK);
}
