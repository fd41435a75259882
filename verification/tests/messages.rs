//! Messages, names and what the subcommands decide.

use jolt::cli::{
    Cli, Command, FlashArgs, GlobalOpts, MonitorArgs, ParityArg, ResetArgs, DEFAULT_BAUDRATE,
    DEFAULT_DATABITS, DEFAULT_STOPBITS, MAX_DATABITS, MAX_STOPBITS, MIN_DATABITS, MIN_STOPBITS,
};
use jolt::commands::{
    bootloader_format, commands_line, erased_line, firmware_line, flash_options, frame_format, info_lines,
    is_verbose,
    monitor_banner, open_context, port_line, reset_target, resolve_port, version_line, DataBits,
    PortChoiceError, Render, Reporter, ResetTarget, StopBits,
};
use jolt::error::{Error, IoError, IoErrorKind, NackStage};
use jolt::flash::Progress;
use jolt::target;
use jolt::text::{push_decimal, push_hex, same_text, to_ascii_lowercase};

#[test]
fn error_messages() {
    let cases: Vec<(Error, &str)> = vec![
        (
            Error::Io(IoError {
                kind: IoErrorKind::Other,
                message: "boom".to_string(),
            }),
            "I/O error: boom",
        ),
        (Error::Serial("gone".to_string()), "serial port error: gone"),
        (
            Error::Nack {
                context: "Get ID command".to_string(),
                stage: NackStage::Command,
            },
            "bootloader replied NACK (0x1F) to Get ID command (command stage)",
        ),
        (
            Error::Nack {
                context: "Write Memory data".to_string(),
                stage: NackStage::Payload,
            },
            "bootloader replied NACK (0x1F) to Write Memory data (payload stage)",
        ),
        (
            Error::Timeout {
                context: "Get length".to_string(),
            },
            "timed out waiting for Get length",
        ),
        (
            Error::UnexpectedByte {
                context: "x".to_string(),
                got: 0x0A,
                expected: 0x79,
            },
            "unexpected byte while reading x: got 0x0A, expected 0x79",
        ),
        (
            Error::BootloaderInit { attempts: 5 },
            "could not enter the bootloader after 5 attempt(s) (no ACK to 0x7F init) — check the --device and the cable",
        ),
        (
            Error::VerifyMismatch {
                address: 0x0800_00AB,
                got: 0x55,
                expected: 0x0F,
            },
            "verify mismatch at 0x080000AB: flash=0x55, firmware=0x0F",
        ),
        (
            Error::PartialErase {
                erased: 200,
                kib: 25,
                id: 0x47,
            },
            "erase truncated after 200 page(s) (25 KiB) on chip 0x047: not a valid STM32L0 flash density — the remaining pages are likely write-protected, so the device is only partly erased",
        ),
        (
            Error::InvalidArgument { context: "c" },
            "invalid argument: c",
        ),
        (
            Error::FirmwareTooLarge {
                size: 200000,
                max: 196608,
                max_kib: 192,
            },
            "firmware is 200000 bytes, exceeding the 196608 byte (192 KiB) maximum for any STM32L0 device",
        ),
        (
            Error::FirmwareFormat {
                path: "a.hex".to_string(),
                ext: "hex".to_string(),
            },
            "a.hex looks like a .hex file; jolt flashes raw binaries. Convert it first, e.g.: arm-none-eabi-objcopy -O binary in.hex out.bin",
        ),
        (
            Error::FirmwareEmpty {
                path: "a.bin".to_string(),
            },
            "firmware file a.bin is empty",
        ),
        (
            Error::Disconnected { context: "reading" },
            "serial port disconnected while reading",
        ),
    ];
    for (error, text) in cases {
        assert_eq!(error.message(), text);
    }
    assert_eq!(NackStage::Command.name(), "command");
    assert_eq!(NackStage::Payload.name(), "payload");
}

#[test]
fn numbers_as_text() {
    let mut s = String::new();
    push_decimal(&mut s, 0);
    s.push(' ');
    push_decimal(&mut s, u64::MAX);
    s.push(' ');
    push_hex(&mut s, 0x2B, 1);
    s.push(' ');
    push_hex(&mut s, 0, 3);
    s.push(' ');
    push_hex(&mut s, 0xABCDEF, 0);
    assert_eq!(s, "0 18446744073709551615 2B 000 ABCDEF");
    assert_eq!(to_ascii_lowercase("HeX é Ä9Z"), "hex é Ä9z");
    assert!(same_text("abc", "abc"));
    assert!(!same_text("abc", "abd"));
    assert!(!same_text("abc", "ab"));
}

#[test]
fn chips() {
    assert_eq!(target::chip_name(0x457), "STM32L01x/L02x");
    assert_eq!(target::chip_name(0x425), "STM32L031/L041");
    assert_eq!(target::chip_name(0x417), "STM32L05x/L06x");
    assert_eq!(target::chip_name(0x447), "STM32L07x/L08x (e.g. STM32L083CZ)");
    assert_eq!(target::chip_name(0x448), "unknown");
    assert!(target::is_known(0x417));
    assert!(!target::is_known(0));
    assert_eq!(target::pages_in(target::MAX_FLASH_SIZE), 1536);
    assert_eq!(target::pages_in(129), 1);
    assert_eq!(target::max_flash_size(0x457), Some(16384));
    assert_eq!(target::max_flash_size(0x425), Some(32768));
    assert_eq!(target::max_flash_size(0x417), Some(65536));
    assert_eq!(target::max_flash_size(0x447), Some(196608));
    assert_eq!(target::max_flash_size(1), None);
    let densities: Vec<usize> = (0..2000).filter(|&p| target::is_valid_density_pages(p)).collect();
    assert_eq!(densities, vec![128, 256, 512, 1024, 1536]);
}

/// The actions as text.
fn shown(actions: Vec<Render>) -> Vec<String> {
    actions.iter().map(|a| format!("{a:?}")).collect()
}

#[test]
fn reporter_connecting() {
    let mut quiet = Reporter::new(false);
    let mut loud = Reporter::new(true);
    let first = Progress::Connecting { attempt: 1, of: 5 };
    let retry = Progress::Connecting { attempt: 2, of: 5 };
    let error = Progress::ConnectError {
        attempt: 1,
        of: 5,
        error: "no".to_string(),
    };
    assert_eq!(shown(quiet.handle(first.clone())), vec!["Line(\"Entering bootloader...\")"]);
    assert_eq!(shown(loud.handle(first)), vec!["Line(\"Entering bootloader...\")"]);
    assert!(quiet.handle(retry.clone()).is_empty());
    assert_eq!(shown(loud.handle(retry)), vec!["Line(\"  retry 2/5\")"]);
    assert!(quiet.handle(error.clone()).is_empty());
    assert_eq!(shown(loud.handle(error)), vec!["Warning(\"  init attempt 1/5: no\")"]);
}

#[test]
fn reporter_chip() {
    let mut r = Reporter::new(false);
    assert_eq!(
        shown(r.handle(Progress::ChipIdentified { id: 0x457 })),
        vec!["Line(\"Chip id : 0x457 (STM32L01x/L02x)\")"]
    );
    assert_eq!(
        shown(r.handle(Progress::ChipIdentified { id: 0x12 })),
        vec![
            "Line(\"Chip id : 0x012 (unknown)\")",
            "Warning(\"warning: 0x012 is not a recognized STM32L0 family id — continuing anyway\")",
        ]
    );
}

#[test]
fn reporter_bars() {
    let mut r = Reporter::new(false);
    assert_eq!(
        shown(r.handle(Progress::Erase {
            pages_done: 0,
            pages_total: 2
        })),
        vec![
            "StartBar { unit: Pages, total: 2, label: \"Erasing\" }",
            "SetLength(2)",
            "SetPosition(0)",
        ]
    );
    assert!(r.active);
    assert_eq!(
        shown(r.handle(Progress::Erase {
            pages_done: 2,
            pages_total: 2
        })),
        vec!["SetLength(2)", "SetPosition(2)", "FinishBar(\"Erased\")"]
    );
    assert!(!r.active);
    assert_eq!(
        shown(r.handle(Progress::Write {
            bytes_done: 3,
            bytes_total: 3
        })),
        vec![
            "StartBar { unit: Bytes, total: 3, label: \"Writing\" }",
            "SetPosition(3)",
            "FinishBar(\"Written\")",
        ]
    );
    assert_eq!(
        shown(r.handle(Progress::Verify {
            bytes_done: 0,
            bytes_total: 3
        })),
        vec![
            "StartBar { unit: Bytes, total: 3, label: \"Verifying\" }",
            "SetPosition(0)",
        ]
    );
    assert_eq!(
        shown(r.handle(Progress::Starting)),
        vec!["FinishBar(\"Done\")", "Line(\"Starting application...\")"]
    );
    assert_eq!(shown(r.handle(Progress::Starting)), vec!["Line(\"Starting application...\")"]);
    assert!(r.fail("FAILED").is_empty());
    r.handle(Progress::Verify {
        bytes_done: 1,
        bytes_total: 3,
    });
    assert_eq!(shown(r.fail("FAILED")), vec!["AbandonBar(\"FAILED\")"]);
    assert!(!r.active);
}

fn global(device: Option<&str>, verbose: u8) -> GlobalOpts {
    GlobalOpts {
        device: device.map(|d| d.to_string()),
        verbose,
    }
}

#[test]
fn choosing_a_port() {
    let one = vec!["a".to_string()];
    let two = vec!["a".to_string(), "b".to_string()];
    assert_eq!(resolve_port(&global(Some("c"), 0), &two).unwrap(), "c");
    assert_eq!(resolve_port(&global(None, 0), &one).unwrap(), "a");
    let none = resolve_port(&global(None, 0), &Vec::new()).unwrap_err();
    assert_eq!(none, PortChoiceError::NoPorts);
    assert_eq!(
        none.message(),
        "no serial ports found; connect the device or pass --device"
    );
    let many = resolve_port(&global(None, 0), &two).unwrap_err();
    assert_eq!(many, PortChoiceError::ManyPorts);
    assert_eq!(
        many.message(),
        "multiple serial ports found; pass --device (see `jolt devices`)"
    );
    assert!(!is_verbose(&global(None, 0)));
    assert!(is_verbose(&global(None, 2)));
}

#[test]
fn lines() {
    assert_eq!(port_line("/dev/x"), "Port    : /dev/x @ 115200 baud, 8E1");
    assert_eq!(open_context("/dev/x"), "failed to open serial port /dev/x");
    assert_eq!(firmware_line("a.bin", 1234), "Firmware: a.bin (1234 bytes)");
    assert_eq!(erased_line(1536), "Erased 192 KiB and reset into application.");
    assert_eq!(version_line(0x31), "BL ver  : 3.1");
    assert_eq!(version_line(0xFA), "BL ver  : 15.10");
    assert_eq!(commands_line(&[0x00, 0x11, 0xFF]), "Commands: 0x00 0x11 0xFF");
    assert_eq!(commands_line(&[]), "Commands: ");
    assert_eq!(
        info_lines(&Ok((0x31, vec![0x00, 0x44]))),
        vec!["BL ver  : 3.1", "Commands: 0x00 0x44"]
    );
    assert!(info_lines(&Err(Error::Disconnected { context: "c" })).is_empty());
}

#[test]
fn flash_arguments() {
    let mut args = FlashArgs {
        file: "a.bin".to_string(),
        no_erase: false,
        skip_verify: false,
        no_run: false,
        go: false,
    };
    let opts = flash_options(&args);
    assert!(opts.erase && opts.verify && opts.run && !opts.go);
    args.no_erase = true;
    args.skip_verify = true;
    args.no_run = true;
    args.go = true;
    let opts = flash_options(&args);
    assert!(!opts.erase && !opts.verify && !opts.run && opts.go);
}

#[test]
fn reset_arguments() {
    let boot = reset_target(&ResetArgs {
        bootloader: true,
        app: false,
    });
    assert_eq!(boot, ResetTarget::Bootloader);
    assert_eq!(boot.done_line(), "Reset into bootloader.");
    assert_eq!(boot.context(), "reset into bootloader");
    let app = reset_target(&ResetArgs {
        bootloader: false,
        app: false,
    });
    assert_eq!(app, ResetTarget::Application);
    assert_eq!(app.done_line(), "Reset into application.");
    assert_eq!(app.context(), "reset into application");
}

fn monitor(databits: u8, parity: ParityArg, stopbits: u8) -> MonitorArgs {
    MonitorArgs {
        baudrate: DEFAULT_BAUDRATE,
        databits,
        parity,
        stopbits,
        reset: false,
    }
}

#[test]
fn monitor_arguments() {
    let bits: Vec<DataBits> = (5..=8)
        .map(|b| frame_format(&monitor(b, ParityArg::NoParity, 1)).data_bits)
        .collect();
    assert_eq!(
        bits,
        vec![DataBits::Five, DataBits::Six, DataBits::Seven, DataBits::Eight]
    );
    let format = frame_format(&monitor(9, ParityArg::Odd, 2));
    assert_eq!(format.data_bits, DataBits::Eight);
    assert_eq!(format.parity, ParityArg::Odd);
    assert_eq!(format.stop_bits, StopBits::Two);
    assert_eq!(frame_format(&monitor(8, ParityArg::Even, 1)).stop_bits, StopBits::One);
    assert_eq!(bootloader_format(), frame_format(&monitor(8, ParityArg::Even, 1)));
    assert!((MIN_DATABITS..=MAX_DATABITS).contains(&DEFAULT_DATABITS));
    assert_eq!((MIN_DATABITS, MAX_DATABITS), (5, 8));
    assert!((MIN_STOPBITS..=MAX_STOPBITS).contains(&DEFAULT_STOPBITS));
    assert_eq!((MIN_STOPBITS, MAX_STOPBITS), (1, 2));
    assert_eq!(
        monitor_banner("/dev/x", &monitor(DEFAULT_DATABITS, ParityArg::NoParity, DEFAULT_STOPBITS)),
        "Monitoring /dev/x @ 115200 baud, 8N1 — press Ctrl-C to exit."
    );
    assert_eq!(
        monitor_banner("p", &monitor(7, ParityArg::Even, 2)),
        "Monitoring p @ 115200 baud, 7E2 — press Ctrl-C to exit."
    );
    assert_eq!(
        monitor_banner("p", &monitor(5, ParityArg::Odd, 1)),
        "Monitoring p @ 115200 baud, 5O1 — press Ctrl-C to exit."
    );
}

#[test]
fn a_command_line() {
    let cli = Cli {
        global: global(Some("/dev/x"), 1),
        command: Command::Devices,
    };
    assert!(matches!(cli.command, Command::Devices));
    assert_eq!(cli.global.device.as_deref(), Some("/dev/x"));
}
