//! Error types for the bootloader and serial layers.
//!
//! Every layer returns the typed [`Error`], so retry logic can tell a NACK from
//! a timeout. [`ErrorView`] is the mathematical value of an error, which the
//! contracts speak of, and [`error_text`] the message that it is shown with.

use vstd::prelude::*;

use crate::text::{decimal, hex, push_decimal, push_hex};

verus! {

/// Which phase of a two-step command handshake produced a NACK. AN3155 command
/// frames are acknowledged in two stages — first the command byte + complement,
/// then the command's payload — and the two mean very different things (a
/// command-byte NACK is usually line corruption; a payload NACK is the device
/// rejecting the request, e.g. an out-of-range Extended Erase page list). Retry
/// and boundary-detection logic must be able to tell them apart.
#[derive(Debug, Clone, Copy, PartialEq, Eq, Structural)]
pub enum NackStage {
    /// NACK to the command byte + complement frame (before any payload).
    Command,
    /// NACK to the command's payload (address, length, page list, data).
    Payload,
}

/// The word for a stage in messages.
pub open spec fn stage_text(stage: NackStage) -> Seq<char> {
    match stage {
        NackStage::Command => "command"@,
        NackStage::Payload => "payload"@,
    }
}

impl NackStage {
    /// The word for this stage in messages.
    pub fn name(&self) -> (r: &'static str)
        ensures
            r@ == stage_text(*self),
    {
        match self {
            NackStage::Command => "command",
            NackStage::Payload => "payload",
        }
    }
}

/// The kinds of operating-system failure that the serial logic tells apart.
#[derive(Debug, Clone, Copy, PartialEq, Eq, Structural)]
pub enum IoErrorKind {
    TimedOut,
    Interrupted,
    BrokenPipe,
    NotConnected,
    UnexpectedEof,
    NotFound,
    PermissionDenied,
    Other,
}

/// A failure reported by the operating system: its kind and its description.
#[derive(Debug)]
pub struct IoError {
    pub kind: IoErrorKind,
    pub message: String,
}

/// What can go wrong in the engine.
#[allow(inconsistent_fields)]
#[derive(Debug)]
pub enum Error {
    /// The operating system reported a failure.
    Io(IoError),
    /// The serial port driver reported a failure, described by the text.
    Serial(String),
    /// The bootloader answered NACK.
    Nack { context: String, stage: NackStage },
    /// No answer in time.
    Timeout { context: String },
    /// The bootloader answered with neither ACK nor NACK.
    UnexpectedByte { context: String, got: u8, expected: u8 },
    /// No attempt to enter the bootloader was acknowledged.
    BootloaderInit { attempts: u32 },
    /// The flash does not hold what was written.
    VerifyMismatch { address: u32, got: u8, expected: u8 },
    /// A full-chip erase stopped short of the end of flash.
    PartialErase { erased: usize, kib: usize, id: u16 },
    /// The caller passed an argument out of range.
    InvalidArgument { context: &'static str },
    /// The image is larger than any device of the family.
    FirmwareTooLarge { size: usize, max: u32, max_kib: u32 },
    /// The file is not a raw binary.
    FirmwareFormat { path: String, ext: String },
    /// The file holds nothing.
    FirmwareEmpty { path: String },
    /// The device went away.
    Disconnected { context: &'static str },
}

/// The value of an [`Error`].
#[verifier::ext_equal]
pub enum ErrorView {
    Io { kind: IoErrorKind, message: Seq<char> },
    Serial { message: Seq<char> },
    Nack { context: Seq<char>, stage: NackStage },
    Timeout { context: Seq<char> },
    UnexpectedByte { context: Seq<char>, got: u8, expected: u8 },
    BootloaderInit { attempts: u32 },
    VerifyMismatch { address: u32, got: u8, expected: u8 },
    PartialErase { erased: usize, kib: usize, id: u16 },
    InvalidArgument { context: Seq<char> },
    FirmwareTooLarge { size: usize, max: u32, max_kib: u32 },
    FirmwareFormat { path: Seq<char>, ext: Seq<char> },
    FirmwareEmpty { path: Seq<char> },
    Disconnected { context: Seq<char> },
}

impl View for Error {
    type V = ErrorView;

    open spec fn view(&self) -> ErrorView {
        match *self {
            Error::Io(e) => ErrorView::Io { kind: e.kind, message: e.message@ },
            Error::Serial(message) => ErrorView::Serial { message: message@ },
            Error::Nack { context, stage } => ErrorView::Nack { context: context@, stage },
            Error::Timeout { context } => ErrorView::Timeout { context: context@ },
            Error::UnexpectedByte { context, got, expected } => ErrorView::UnexpectedByte {
                context: context@,
                got,
                expected,
            },
            Error::BootloaderInit { attempts } => ErrorView::BootloaderInit { attempts },
            Error::VerifyMismatch { address, got, expected } => ErrorView::VerifyMismatch {
                address,
                got,
                expected,
            },
            Error::PartialErase { erased, kib, id } => ErrorView::PartialErase { erased, kib, id },
            Error::InvalidArgument { context } => ErrorView::InvalidArgument { context: context@ },
            Error::FirmwareTooLarge { size, max, max_kib } => ErrorView::FirmwareTooLarge {
                size,
                max,
                max_kib,
            },
            Error::FirmwareFormat { path, ext } => ErrorView::FirmwareFormat {
                path: path@,
                ext: ext@,
            },
            Error::FirmwareEmpty { path } => ErrorView::FirmwareEmpty { path: path@ },
            Error::Disconnected { context } => ErrorView::Disconnected { context: context@ },
        }
    }
}

/// The outcome of an operation with the error taken by its value.
pub open spec fn outcome<T>(r: Result<T, Error>) -> Result<T, ErrorView> {
    match r {
        Ok(v) => Ok(v),
        Err(e) => Err(e@),
    }
}

/// Whether an error is the device rejecting the payload of a command.
pub open spec fn is_payload_nack(e: ErrorView) -> bool {
    e matches ErrorView::Nack { stage, .. } && stage == NackStage::Payload
}

/// The message of an error.
pub open spec fn error_text(e: ErrorView) -> Seq<char> {
    match e {
        ErrorView::Io { kind, message } => "I/O error: "@ + message,
        ErrorView::Serial { message } => "serial port error: "@ + message,
        ErrorView::Nack { context, stage } => "bootloader replied NACK (0x1F) to "@ + context + " ("@
            + stage_text(stage) + " stage)"@,
        ErrorView::Timeout { context } => "timed out waiting for "@ + context,
        ErrorView::UnexpectedByte { context, got, expected } => "unexpected byte while reading "@
            + context + ": got 0x"@ + hex(got as nat, 2) + ", expected 0x"@ + hex(
            expected as nat,
            2,
        ),
        ErrorView::BootloaderInit { attempts } => "could not enter the bootloader after "@
            + decimal(attempts as nat)
            + " attempt(s) (no ACK to 0x7F init) — check the --device and the cable"@,
        ErrorView::VerifyMismatch { address, got, expected } => "verify mismatch at 0x"@ + hex(
            address as nat,
            8,
        ) + ": flash=0x"@ + hex(got as nat, 2) + ", firmware=0x"@ + hex(expected as nat, 2),
        ErrorView::PartialErase { erased, kib, id } => "erase truncated after "@ + decimal(
            erased as nat,
        ) + " page(s) ("@ + decimal(kib as nat) + " KiB) on chip 0x"@ + hex(id as nat, 3)
            + ": not a valid STM32L0 flash density — the remaining pages are likely write-protected, so the device is only partly erased"@,
        ErrorView::InvalidArgument { context } => "invalid argument: "@ + context,
        ErrorView::FirmwareTooLarge { size, max, max_kib } => "firmware is "@ + decimal(
            size as nat,
        ) + " bytes, exceeding the "@ + decimal(max as nat) + " byte ("@ + decimal(max_kib as nat)
            + " KiB) maximum for any STM32L0 device"@,
        ErrorView::FirmwareFormat { path, ext } => path + " looks like a ."@ + ext
            + " file; jolt flashes raw binaries. Convert it first, e.g.: arm-none-eabi-objcopy -O binary in."@
            + ext + " out.bin"@,
        ErrorView::FirmwareEmpty { path } => "firmware file "@ + path + " is empty"@,
        ErrorView::Disconnected { context } => "serial port disconnected while "@ + context,
    }
}

impl Error {
    /// Whether this is the device rejecting the payload of a command.
    pub fn is_payload_nack(&self) -> (r: bool)
        ensures
            r == is_payload_nack(self@),
    {
        match self {
            Error::Nack { stage: NackStage::Payload, .. } => true,
            _ => false,
        }
    }

    /// The message that describes this error.
    pub fn message(&self) -> (r: String)
        ensures
            r@ == error_text(self@),
    {
        let mut s = String::new();
        match self {
            Error::Io(e) => {
                s.append("I/O error: ");
                s.append(e.message.as_str());
            },
            Error::Serial(message) => {
                s.append("serial port error: ");
                s.append(message.as_str());
            },
            Error::Nack { context, stage } => {
                s.append("bootloader replied NACK (0x1F) to ");
                s.append(context.as_str());
                s.append(" (");
                s.append(stage.name());
                s.append(" stage)");
            },
            Error::Timeout { context } => {
                s.append("timed out waiting for ");
                s.append(context.as_str());
            },
            Error::UnexpectedByte { context, got, expected } => {
                s.append("unexpected byte while reading ");
                s.append(context.as_str());
                s.append(": got 0x");
                push_hex(&mut s, *got as u64, 2);
                s.append(", expected 0x");
                push_hex(&mut s, *expected as u64, 2);
            },
            Error::BootloaderInit { attempts } => {
                s.append("could not enter the bootloader after ");
                push_decimal(&mut s, *attempts as u64);
                s.append(" attempt(s) (no ACK to 0x7F init) — check the --device and the cable");
            },
            Error::VerifyMismatch { address, got, expected } => {
                s.append("verify mismatch at 0x");
                push_hex(&mut s, *address as u64, 8);
                s.append(": flash=0x");
                push_hex(&mut s, *got as u64, 2);
                s.append(", firmware=0x");
                push_hex(&mut s, *expected as u64, 2);
            },
            Error::PartialErase { erased, kib, id } => {
                s.append("erase truncated after ");
                push_decimal(&mut s, *erased as u64);
                s.append(" page(s) (");
                push_decimal(&mut s, *kib as u64);
                s.append(" KiB) on chip 0x");
                push_hex(&mut s, *id as u64, 3);
                s.append(
                    ": not a valid STM32L0 flash density — the remaining pages are likely write-protected, so the device is only partly erased",
                );
            },
            Error::InvalidArgument { context } => {
                s.append("invalid argument: ");
                s.append(context);
            },
            Error::FirmwareTooLarge { size, max, max_kib } => {
                s.append("firmware is ");
                push_decimal(&mut s, *size as u64);
                s.append(" bytes, exceeding the ");
                push_decimal(&mut s, *max as u64);
                s.append(" byte (");
                push_decimal(&mut s, *max_kib as u64);
                s.append(" KiB) maximum for any STM32L0 device");
            },
            Error::FirmwareFormat { path, ext } => {
                s.append(path.as_str());
                s.append(" looks like a .");
                s.append(ext.as_str());
                s.append(
                    " file; jolt flashes raw binaries. Convert it first, e.g.: arm-none-eabi-objcopy -O binary in.",
                );
                s.append(ext.as_str());
                s.append(" out.bin");
            },
            Error::FirmwareEmpty { path } => {
                s.append("firmware file ");
                s.append(path.as_str());
                s.append(" is empty");
            },
            Error::Disconnected { context } => {
                s.append("serial port disconnected while ");
                s.append(context);
            },
        }
        assert(s@ =~= error_text(self@));
        s
    }
}

/// An outcome keeps a success as it is, and of an error its value.
pub proof fn law_outcome<T>(v: T, e: Error)
    ensures
        outcome::<T>(Ok(v)) == Ok::<T, ErrorView>(v),
        outcome::<T>(Err(e)) == Err::<T, ErrorView>(e@),
{
}

/// The value of an error holds what the error holds, each thing in its place.
pub proof fn law_error_value(e: Error)
    ensures
        e matches Error::Io(io) ==> e@ == (ErrorView::Io { kind: io.kind, message: io.message@ }),
        e matches Error::Serial(message) ==> e@ == (ErrorView::Serial { message: message@ }),
        e matches Error::Nack { context, stage } ==> e@ == (ErrorView::Nack {
            context: context@,
            stage,
        }),
        e matches Error::Timeout { context } ==> e@ == (ErrorView::Timeout { context: context@ }),
        e matches Error::UnexpectedByte { context, got, expected } ==> e@ == (
        ErrorView::UnexpectedByte { context: context@, got, expected }),
        e matches Error::BootloaderInit { attempts } ==> e@ == (ErrorView::BootloaderInit {
            attempts,
        }),
        e matches Error::VerifyMismatch { address, got, expected } ==> e@ == (
        ErrorView::VerifyMismatch { address, got, expected }),
        e matches Error::PartialErase { erased, kib, id } ==> e@ == (ErrorView::PartialErase {
            erased,
            kib,
            id,
        }),
        e matches Error::InvalidArgument { context } ==> e@ == (ErrorView::InvalidArgument {
            context: context@,
        }),
        e matches Error::FirmwareTooLarge { size, max, max_kib } ==> e@ == (
        ErrorView::FirmwareTooLarge { size, max, max_kib }),
        e matches Error::FirmwareFormat { path, ext } ==> e@ == (ErrorView::FirmwareFormat {
            path: path@,
            ext: ext@,
        }),
        e matches Error::FirmwareEmpty { path } ==> e@ == (ErrorView::FirmwareEmpty {
            path: path@,
        }),
        e matches Error::Disconnected { context } ==> e@ == (ErrorView::Disconnected {
            context: context@,
        }),
{
}

/// Only a NACK to a payload is one: no other error, and no NACK to a command.
pub proof fn law_payload_nack(e: ErrorView)
    ensures
        is_payload_nack(e) <==> (e matches ErrorView::Nack { stage, .. } && stage
            == NackStage::Payload),
{
}

/// `part` stands in `text` at `at`.
pub open spec fn stands_at(text: Seq<char>, part: Seq<char>, at: int) -> bool {
    0 <= at && at + part.len() <= text.len() && text.subrange(at, at + part.len()) == part
}

/// The message of an error tells what the error holds: every context, path, extension
/// and number in it stands in the message, numbers in decimal, addresses, bytes and
/// product ids in hexadecimal, and what was got before what was expected.
pub proof fn law_message_tells_all(e: ErrorView)
    ensures
        e matches ErrorView::Io { message, .. } ==> stands_at(error_text(e), message, 11)
            && error_text(e).len() == 11 + message.len(),
        e matches ErrorView::Serial { message } ==> stands_at(error_text(e), message, 19)
            && error_text(e).len() == 19 + message.len(),
        e matches ErrorView::Nack { context, stage } ==> stands_at(error_text(e), context, 34)
            && stands_at(
            error_text(e),
            if stage == NackStage::Command {
                "command"@
            } else {
                "payload"@
            },
            36 + context.len() as int,
        ),
        e matches ErrorView::Timeout { context } ==> stands_at(error_text(e), context, 22)
            && error_text(e).len() == 22 + context.len(),
        e matches ErrorView::UnexpectedByte { context, got, expected } ==> stands_at(
            error_text(e),
            context,
            30,
        ) && stands_at(error_text(e), hex(got as nat, 2), 38 + context.len() as int) && stands_at(
            error_text(e),
            hex(expected as nat, 2),
            error_text(e).len() - hex(expected as nat, 2).len(),
        ),
        e matches ErrorView::BootloaderInit { attempts } ==> stands_at(
            error_text(e),
            decimal(attempts as nat),
            37,
        ),
        e matches ErrorView::VerifyMismatch { address, got, expected } ==> stands_at(
            error_text(e),
            hex(address as nat, 8),
            21,
        ) && stands_at(
            error_text(e),
            hex(got as nat, 2),
            21 + hex(address as nat, 8).len() as int + 10,
        ) && stands_at(
            error_text(e),
            hex(expected as nat, 2),
            error_text(e).len() - hex(expected as nat, 2).len(),
        ),
        e matches ErrorView::PartialErase { erased, kib, id } ==> stands_at(
            error_text(e),
            decimal(erased as nat),
            22,
        ) && stands_at(
            error_text(e),
            decimal(kib as nat),
            22 + decimal(erased as nat).len() as int + 10,
        ) && stands_at(
            error_text(e),
            hex(id as nat, 3),
            22 + decimal(erased as nat).len() as int + 10 + decimal(kib as nat).len() as int + 16,
        ),
        e matches ErrorView::InvalidArgument { context } ==> stands_at(error_text(e), context, 18)
            && error_text(e).len() == 18 + context.len(),
        e matches ErrorView::FirmwareTooLarge { size, max, max_kib } ==> stands_at(
            error_text(e),
            decimal(size as nat),
            12,
        ) && stands_at(
            error_text(e),
            decimal(max as nat),
            12 + decimal(size as nat).len() as int + 22,
        ) && stands_at(
            error_text(e),
            decimal(max_kib as nat),
            12 + decimal(size as nat).len() as int + 22 + decimal(max as nat).len() as int + 7,
        ),
        e matches ErrorView::FirmwareFormat { path, ext } ==> stands_at(error_text(e), path, 0)
            && stands_at(error_text(e), ext, 15 + path.len() as int),
        e matches ErrorView::FirmwareEmpty { path } ==> stands_at(error_text(e), path, 14),
        e matches ErrorView::Disconnected { context } ==> stands_at(error_text(e), context, 31)
            && error_text(e).len() == 31 + context.len(),
{
    reveal_strlit("I/O error: ");
    reveal_strlit("serial port error: ");
    reveal_strlit("bootloader replied NACK (0x1F) to ");
    reveal_strlit(" (");
    reveal_strlit("timed out waiting for ");
    reveal_strlit("unexpected byte while reading ");
    reveal_strlit(": got 0x");
    reveal_strlit(", expected 0x");
    reveal_strlit("could not enter the bootloader after ");
    reveal_strlit("verify mismatch at 0x");
    reveal_strlit(": flash=0x");
    reveal_strlit(", firmware=0x");
    reveal_strlit("erase truncated after ");
    reveal_strlit(" page(s) (");
    reveal_strlit(" KiB) on chip 0x");
    reveal_strlit("invalid argument: ");
    reveal_strlit("firmware is ");
    reveal_strlit(" bytes, exceeding the ");
    reveal_strlit(" byte (");
    reveal_strlit(" looks like a .");
    reveal_strlit("firmware file ");
    reveal_strlit("serial port disconnected while ");
    let t = error_text(e);
    match e {
        ErrorView::Io { message, .. } => {
            assert(t.subrange(11, t.len() as int) =~= message);
        },
        ErrorView::Serial { message } => {
            assert(t.subrange(19, t.len() as int) =~= message);
        },
        ErrorView::Nack { context, stage } => {
            let c = 34 + context.len() as int;
            let word = stage_text(stage);
            assert(t.subrange(34, c) =~= context);
            assert(t.subrange(c + 2, c + 2 + word.len()) =~= word);
        },
        ErrorView::Timeout { context } => {
            assert(t.subrange(22, t.len() as int) =~= context);
        },
        ErrorView::UnexpectedByte { context, got, expected } => {
            let c = 30 + context.len() as int;
            let g = hex(got as nat, 2);
            let x = hex(expected as nat, 2);
            assert(t.subrange(30, c) =~= context);
            assert(t.subrange(c + 8, c + 8 + g.len()) =~= g);
            assert(t.subrange(t.len() - x.len(), t.len() as int) =~= x);
        },
        ErrorView::BootloaderInit { attempts } => {
            let n = decimal(attempts as nat);
            assert(t.subrange(37, 37 + n.len() as int) =~= n);
        },
        ErrorView::VerifyMismatch { address, got, expected } => {
            let a = hex(address as nat, 8);
            let g = hex(got as nat, 2);
            let x = hex(expected as nat, 2);
            assert(t.subrange(21, 21 + a.len() as int) =~= a);
            assert(t.subrange(31 + a.len() as int, 31 + a.len() as int + g.len() as int) =~= g);
            assert(t.subrange(t.len() - x.len(), t.len() as int) =~= x);
        },
        ErrorView::PartialErase { erased, kib, id } => {
            let a = decimal(erased as nat);
            let b = decimal(kib as nat);
            let c = hex(id as nat, 3);
            let p = 32 + a.len() as int;
            assert(t.subrange(22, 22 + a.len() as int) =~= a);
            assert(t.subrange(p, p + b.len()) =~= b);
            assert(t.subrange(p + b.len() + 16, p + b.len() + 16 + c.len()) =~= c);
        },
        ErrorView::InvalidArgument { context } => {
            assert(t.subrange(18, t.len() as int) =~= context);
        },
        ErrorView::FirmwareTooLarge { size, max, max_kib } => {
            let a = decimal(size as nat);
            let b = decimal(max as nat);
            let c = decimal(max_kib as nat);
            let p = 34 + a.len() as int;
            assert(t.subrange(12, 12 + a.len() as int) =~= a);
            assert(t.subrange(p, p + b.len()) =~= b);
            assert(t.subrange(p + b.len() + 7, p + b.len() + 7 + c.len()) =~= c);
        },
        ErrorView::FirmwareFormat { path, ext } => {
            let p = path.len() as int;
            assert(t.subrange(0, p) =~= path);
            assert(t.subrange(p + 15, p + 15 + ext.len()) =~= ext);
        },
        ErrorView::FirmwareEmpty { path } => {
            assert(t.subrange(14, 14 + path.len() as int) =~= path);
        },
        ErrorView::Disconnected { context } => {
            assert(t.subrange(31, t.len() as int) =~= context);
        },
    }
}

/// The words of a message do not depend on what the error holds: of two errors of one
/// sort the messages begin with the same words, and are the same behind the last thing
/// that they tell.
pub proof fn law_message_words(e: ErrorView, f: ErrorView)
    ensures
        (e matches ErrorView::Io { .. } && f is Io) ==> error_text(e).take(11) == error_text(
            f,
        ).take(11),
        (e is Serial && f is Serial) ==> error_text(e).take(19) == error_text(f).take(19),
        (e is Nack && f is Nack) ==> error_text(e).take(34) == error_text(f).take(34),
        e matches ErrorView::Nack { context, stage } ==> error_text(e).skip(
            34 + context.len() as int,
        ) == " ("@ + (if stage == NackStage::Command {
            "command"@
        } else {
            "payload"@
        }) + " stage)"@,
        (e is Timeout && f is Timeout) ==> error_text(e).take(22) == error_text(f).take(22),
        (e is UnexpectedByte && f is UnexpectedByte) ==> error_text(e).take(30) == error_text(
            f,
        ).take(30),
        e matches ErrorView::UnexpectedByte { context, got, expected } ==> error_text(e).skip(
            30 + context.len() as int,
        ) == ": got 0x"@ + hex(got as nat, 2) + ", expected 0x"@ + hex(expected as nat, 2),
        e matches ErrorView::BootloaderInit { attempts: a } ==> (f matches
            ErrorView::BootloaderInit { attempts: b } ==> error_text(e).take(37) == error_text(
            f,
        ).take(37) && error_text(e).skip(37 + decimal(a as nat).len() as int) == error_text(f).skip(
            37 + decimal(b as nat).len() as int,
        )),
        (e is VerifyMismatch && f is VerifyMismatch) ==> error_text(e).take(21) == error_text(
            f,
        ).take(21),
        e matches ErrorView::VerifyMismatch { address, got, expected } ==> error_text(e).skip(21)
            == hex(address as nat, 8) + ": flash=0x"@ + hex(got as nat, 2) + ", firmware=0x"@ + hex(
            expected as nat,
            2,
        ),
        e matches ErrorView::PartialErase { erased, kib, id } ==> error_text(e).take(
            22 + decimal(erased as nat).len() as int + 26 + decimal(kib as nat).len() as int + hex(
                id as nat,
                3,
            ).len() as int,
        ) == "erase truncated after "@ + decimal(erased as nat) + " page(s) ("@ + decimal(
            kib as nat,
        ) + " KiB) on chip 0x"@ + hex(id as nat, 3),
        e matches ErrorView::PartialErase { erased: a, kib: b, id: c } ==> (f matches
            ErrorView::PartialErase { erased: x, kib: y, id: z } ==> error_text(e).skip(
            48 + decimal(a as nat).len() as int + decimal(b as nat).len() as int + hex(
                c as nat,
                3,
            ).len() as int,
        ) == error_text(f).skip(
            48 + decimal(x as nat).len() as int + decimal(y as nat).len() as int + hex(
                z as nat,
                3,
            ).len() as int,
        )),
        (e is InvalidArgument && f is InvalidArgument) ==> error_text(e).take(18) == error_text(
            f,
        ).take(18),
        e matches ErrorView::FirmwareTooLarge { size, max, max_kib } ==> error_text(e)
            == "firmware is "@ + decimal(size as nat) + " bytes, exceeding the "@ + decimal(
            max as nat,
        ) + " byte ("@ + decimal(max_kib as nat) + " KiB) maximum for any STM32L0 device"@,
        e matches ErrorView::FirmwareFormat { path, ext } ==> error_text(e).skip(
            path.len() as int,
        ) == " looks like a ."@ + ext
            + " file; jolt flashes raw binaries. Convert it first, e.g.: arm-none-eabi-objcopy -O binary in."@
            + ext + " out.bin"@,
        e matches ErrorView::FirmwareEmpty { path } ==> error_text(e) == "firmware file "@ + path
            + " is empty"@,
        (e is Disconnected && f is Disconnected) ==> error_text(e).take(31) == error_text(f).take(
            31,
        ),
{
    reveal_strlit("I/O error: ");
    reveal_strlit("serial port error: ");
    reveal_strlit("bootloader replied NACK (0x1F) to ");
    reveal_strlit("timed out waiting for ");
    reveal_strlit("unexpected byte while reading ");
    reveal_strlit("could not enter the bootloader after ");
    reveal_strlit("verify mismatch at 0x");
    reveal_strlit("erase truncated after ");
    reveal_strlit(" page(s) (");
    reveal_strlit(" KiB) on chip 0x");
    reveal_strlit("invalid argument: ");
    reveal_strlit("serial port disconnected while ");
}

} // verus!
