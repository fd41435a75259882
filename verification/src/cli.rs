//! Command-line interface definition: the commands, their options, and the
//! options' defaults and ranges.

use vstd::prelude::*;

verus! {

/// A whole command line.
#[derive(Debug)]
pub struct Cli {
    pub global: GlobalOpts,
    pub command: Command,
}

/// Options of every command.
#[derive(Debug)]
pub struct GlobalOpts {
    /// Serial device (default: the only one present, otherwise required)
    pub device: Option<String>,
    /// Verbose output (repeatable)
    pub verbose: u8,
}

/// What to do.
#[derive(Debug)]
pub enum Command {
    /// List connected serial devices
    Devices,
    /// Read bootloader info (chip id, version, supported commands) — read-only
    Info,
    /// Flash a raw firmware .bin file
    Flash(FlashArgs),
    /// Erase the entire flash
    Erase,
    /// Reset the device into the application or the bootloader
    Reset(ResetArgs),
    /// Open the serial device and print incoming data (serial monitor)
    Monitor(MonitorArgs),
}

/// Options of `flash`.
#[derive(Debug)]
pub struct FlashArgs {
    /// Path to the raw firmware .bin
    pub file: String,
    /// Skip erasing before writing
    pub no_erase: bool,
    /// Skip read-back verification
    pub skip_verify: bool,
    /// Do not reset/jump into the application after flashing
    pub no_run: bool,
    /// Use the bootloader Go command instead of a hardware reset to start the app
    pub go: bool,
}

/// Options of `reset`.
#[derive(Debug)]
pub struct ResetArgs {
    /// Reset into the system bootloader (default is the application)
    pub bootloader: bool,
    /// Reset into the application (default)
    pub app: bool,
}

/// Baud rate of the monitor, if none is given.
pub const DEFAULT_BAUDRATE: u32 = 115_200;

/// Data bits of the monitor, if none are given.
pub const DEFAULT_DATABITS: u8 = 8;

/// Fewest data bits that the monitor takes.
pub const MIN_DATABITS: u8 = 5;

/// Most data bits that the monitor takes.
pub const MAX_DATABITS: u8 = 8;

/// Stop bits of the monitor, if none are given.
pub const DEFAULT_STOPBITS: u8 = 1;

/// Fewest stop bits that the monitor takes.
pub const MIN_STOPBITS: u8 = 1;

/// Most stop bits that the monitor takes.
pub const MAX_STOPBITS: u8 = 2;

/// Options of `monitor`.
#[derive(Debug)]
pub struct MonitorArgs {
    /// Baud rate
    pub baudrate: u32,
    /// Data bits per frame (5–8)
    pub databits: u8,
    /// Parity
    pub parity: ParityArg,
    /// Stop bits (1 or 2)
    pub stopbits: u8,
    /// Pulse NRST into the application before monitoring (to catch boot output)
    pub reset: bool,
}

/// The parity of a frame.
#[derive(Clone, Copy, Debug, PartialEq, Eq, Structural)]
pub enum ParityArg {
    NoParity,
    Even,
    Odd,
}

} // verus!
