//! What the subcommands decide and say. The terminal and the serial port are not
//! touched here: a [`Reporter`] turns progress into [`Render`] actions, and the
//! other functions choose ports and formats and word the messages.

use vstd::prelude::*;

use crate::cli::{FlashArgs, GlobalOpts, MonitorArgs, ParityArg, ResetArgs};
use crate::error::{stands_at, Error};
use crate::flash::FlashOptions;
use crate::plan::{erase_phase, verify_phase, write_phase};
use crate::progress::{Progress, ProgressView};
use crate::session::Phase;
use crate::target::{chip_name, chip_name_text, is_known, known, law_family, BAUD, PAGE_SIZE};
use crate::text::{decimal, hex, push_decimal, push_hex};

verus! {

/// What a progress bar counts.
#[derive(Debug, Clone, Copy, PartialEq, Eq, Structural)]
pub enum BarUnit {
    Pages,
    Bytes,
}

/// One thing to show on the terminal.
#[derive(Debug)]
pub enum Render {
    /// A line on standard output.
    Line(String),
    /// A line on standard error.
    Warning(String),
    /// A new progress bar becomes the active one.
    StartBar { unit: BarUnit, total: usize, label: &'static str },
    /// The active bar counts up to this.
    SetLength(usize),
    /// The active bar stands at this.
    SetPosition(usize),
    /// The active bar is done, with a completion message.
    FinishBar(&'static str),
    /// The active bar is given up, with a failure message.
    AbandonBar(&'static str),
}

/// The value of a [`Render`] action.
#[verifier::ext_equal]
pub enum RenderView {
    Line { text: Seq<char> },
    Warning { text: Seq<char> },
    StartBar { unit: BarUnit, total: int, label: Seq<char> },
    SetLength { length: int },
    SetPosition { position: int },
    FinishBar { label: Seq<char> },
    AbandonBar { label: Seq<char> },
}

impl View for Render {
    type V = RenderView;

    open spec fn view(&self) -> RenderView {
        match *self {
            Render::Line(text) => RenderView::Line { text: text@ },
            Render::Warning(text) => RenderView::Warning { text: text@ },
            Render::StartBar { unit, total, label } => RenderView::StartBar {
                unit,
                total: total as int,
                label: label@,
            },
            Render::SetLength(length) => RenderView::SetLength { length: length as int },
            Render::SetPosition(position) => RenderView::SetPosition { position: position as int },
            Render::FinishBar(label) => RenderView::FinishBar { label: label@ },
            Render::AbandonBar(label) => RenderView::AbandonBar { label: label@ },
        }
    }
}

/// The values of the actions.
pub open spec fn views(actions: Seq<Render>) -> Seq<RenderView> {
    Seq::new(actions.len(), |i: int| actions[i]@)
}

/// A bar that is moved to `done` of `total`: it is started if there is none, and
/// finished once it is full.
pub open spec fn bar_moves(
    active: bool,
    unit: BarUnit,
    resized: bool,
    done: int,
    total: int,
    label: Seq<char>,
    finished: Seq<char>,
) -> Seq<RenderView> {
    let started = if active {
        Seq::empty()
    } else {
        seq![RenderView::StartBar { unit, total, label }]
    };
    let sized = if resized {
        seq![RenderView::SetLength { length: total }]
    } else {
        Seq::empty()
    };
    let moved = seq![RenderView::SetPosition { position: done }];
    let ended = if done == total {
        seq![RenderView::FinishBar { label: finished }]
    } else {
        Seq::empty()
    };
    started + sized + moved + ended
}

/// The line that names the chip.
pub open spec fn chip_line(id: u16) -> Seq<char> {
    "Chip id : 0x"@ + hex(id as nat, 3) + " ("@ + chip_name_text(id) + ")"@
}

/// What is shown for a progress event, where `active` says whether there is an
/// active bar.
pub open spec fn shown(verbose: bool, active: bool, event: ProgressView) -> Seq<RenderView> {
    match event {
        ProgressView::Connecting { attempt, of } => if attempt == 1 {
            seq![RenderView::Line { text: "Entering bootloader..."@ }]
        } else if verbose {
            seq![
                RenderView::Line {
                    text: "  retry "@ + decimal(attempt as nat) + "/"@ + decimal(of as nat),
                },
            ]
        } else {
            Seq::empty()
        },
        ProgressView::ConnectError { attempt, of, error } => if verbose {
            seq![
                RenderView::Warning {
                    text: "  init attempt "@ + decimal(attempt as nat) + "/"@ + decimal(of as nat)
                        + ": "@ + error,
                },
            ]
        } else {
            Seq::empty()
        },
        ProgressView::ChipIdentified { id } => {
            let line = seq![RenderView::Line { text: chip_line(id) }];
            if known(id) {
                line
            } else {
                line.push(
                    RenderView::Warning {
                        text: "warning: 0x"@ + hex(id as nat, 3)
                            + " is not a recognized STM32L0 family id — continuing anyway"@,
                    },
                )
            }
        },
        ProgressView::Erase { pages_done, pages_total } => bar_moves(
            active,
            BarUnit::Pages,
            true,
            pages_done,
            pages_total,
            "Erasing"@,
            "Erased"@,
        ),
        ProgressView::Write { bytes_done, bytes_total } => bar_moves(
            active,
            BarUnit::Bytes,
            false,
            bytes_done,
            bytes_total,
            "Writing"@,
            "Written"@,
        ),
        ProgressView::Verify { bytes_done, bytes_total } => bar_moves(
            active,
            BarUnit::Bytes,
            false,
            bytes_done,
            bytes_total,
            "Verifying"@,
            "Verified"@,
        ),
        ProgressView::Starting => {
            let ended = if active {
                seq![RenderView::FinishBar { label: "Done"@ }]
            } else {
                Seq::empty()
            };
            ended.push(RenderView::Line { text: "Starting application..."@ })
        },
    }
}

/// Whether a bar is active after a progress event.
pub open spec fn bar_after(active: bool, event: ProgressView) -> bool {
    match event {
        ProgressView::Erase { pages_done, pages_total } => pages_done != pages_total,
        ProgressView::Write { bytes_done, bytes_total } => bytes_done != bytes_total,
        ProgressView::Verify { bytes_done, bytes_total } => bytes_done != bytes_total,
        ProgressView::Starting => false,
        _ => active,
    }
}

/// Renders [`Progress`] events from the flash/erase engine as progress bars and
/// status lines. Knows whether there is a currently-active bar (erase, write, or
/// verify) and swaps it as the phases advance.
#[derive(Debug)]
pub struct Reporter {
    pub verbose: bool,
    pub active: bool,
}

/// `actions` grew by one whose value is `view`.
proof fn lemma_views_push(actions: Seq<Render>, action: Render)
    ensures
        views(actions.push(action)) == views(actions).push(action@),
{
    assert(views(actions.push(action)) =~= views(actions).push(action@));
}

/// Append an action.
fn show(actions: &mut Vec<Render>, action: Render)
    ensures
        views(final(actions)@) == views(old(actions)@).push(action@),
{
    proof {
        lemma_views_push(actions@, action);
    }
    actions.push(action);
}

impl Reporter {
    /// A reporter without an active bar.
    pub fn new(verbose: bool) -> (r: Self)
        ensures
            r.verbose == verbose,
            !r.active,
    {
        Reporter { verbose, active: false }
    }

    /// Finish and clear the active bar, if any, with a completion message.
    fn finish_active(&mut self, label: &'static str, actions: &mut Vec<Render>)
        ensures
            final(self).verbose == old(self).verbose,
            !final(self).active,
            views(final(actions)@) == views(old(actions)@) + if old(self).active {
                seq![RenderView::FinishBar { label: label@ }]
            } else {
                Seq::empty()
            },
    {
        if self.active {
            self.active = false;
            show(actions, Render::FinishBar(label));
        }
        assert(views(actions@) =~= views(old(actions)@) + if old(self).active {
            seq![RenderView::FinishBar { label: label@ }]
        } else {
            Seq::empty()
        });
    }

    /// Move the active bar, starting one if there is none.
    fn move_bar(
        &mut self,
        unit: BarUnit,
        resized: bool,
        done: usize,
        total: usize,
        label: &'static str,
        finished: &'static str,
    ) -> (r: Vec<Render>)
        ensures
            final(self).verbose == old(self).verbose,
            final(self).active == (done != total),
            views(r@) == bar_moves(
                old(self).active,
                unit,
                resized,
                done as int,
                total as int,
                label@,
                finished@,
            ),
    {
        let mut actions: Vec<Render> = Vec::new();
        assert(views(actions@) =~= Seq::<RenderView>::empty());
        if !self.active {
            self.active = true;
            show(&mut actions, Render::StartBar { unit, total, label });
        }
        if resized {
            show(&mut actions, Render::SetLength(total));
        }
        show(&mut actions, Render::SetPosition(done));
        if done == total {
            self.finish_active(finished, &mut actions);
        }
        assert(views(actions@) =~= bar_moves(
            old(self).active,
            unit,
            resized,
            done as int,
            total as int,
            label@,
            finished@,
        ));
        actions
    }

    /// What to show for an event.
    pub fn handle(&mut self, p: Progress) -> (r: Vec<Render>)
        ensures
            final(self).verbose == old(self).verbose,
            final(self).active == bar_after(old(self).active, p@),
            views(r@) == shown(old(self).verbose, old(self).active, p@),
    {
        let mut actions: Vec<Render> = Vec::new();
        assert(views(actions@) =~= Seq::<RenderView>::empty());
        let ghost event = p@;
        match p {
            Progress::Connecting { attempt, of } => {
                if attempt == 1 {
                    show(&mut actions, Render::Line("Entering bootloader...".to_string()));
                } else if self.verbose {
                    let mut line = String::new();
                    line.append("  retry ");
                    push_decimal(&mut line, attempt as u64);
                    line.append("/");
                    push_decimal(&mut line, of as u64);
                    assert(line@ =~= "  retry "@ + decimal(attempt as nat) + "/"@ + decimal(
                        of as nat,
                    ));
                    show(&mut actions, Render::Line(line));
                }
            },
            Progress::ConnectError { attempt, of, error } => {
                if self.verbose {
                    let mut line = String::new();
                    line.append("  init attempt ");
                    push_decimal(&mut line, attempt as u64);
                    line.append("/");
                    push_decimal(&mut line, of as u64);
                    line.append(": ");
                    line.append(error.as_str());
                    assert(line@ =~= "  init attempt "@ + decimal(attempt as nat) + "/"@ + decimal(
                        of as nat,
                    ) + ": "@ + error@);
                    show(&mut actions, Render::Warning(line));
                }
            },
            Progress::ChipIdentified { id } => {
                let mut line = String::new();
                line.append("Chip id : 0x");
                push_hex(&mut line, id as u64, 3);
                line.append(" (");
                line.append(chip_name(id));
                line.append(")");
                assert(line@ =~= chip_line(id));
                show(&mut actions, Render::Line(line));
                if !is_known(id) {
                    let mut warning = String::new();
                    warning.append("warning: 0x");
                    push_hex(&mut warning, id as u64, 3);
                    warning.append(" is not a recognized STM32L0 family id — continuing anyway");
                    assert(warning@ =~= "warning: 0x"@ + hex(id as nat, 3)
                        + " is not a recognized STM32L0 family id — continuing anyway"@);
                    show(&mut actions, Render::Warning(warning));
                }
            },
            Progress::Erase { pages_done, pages_total } => {
                return self.move_bar(
                    BarUnit::Pages,
                    true,
                    pages_done,
                    pages_total,
                    "Erasing",
                    "Erased",
                );
            },
            Progress::Write { bytes_done, bytes_total } => {
                return self.move_bar(
                    BarUnit::Bytes,
                    false,
                    bytes_done,
                    bytes_total,
                    "Writing",
                    "Written",
                );
            },
            Progress::Verify { bytes_done, bytes_total } => {
                return self.move_bar(
                    BarUnit::Bytes,
                    false,
                    bytes_done,
                    bytes_total,
                    "Verifying",
                    "Verified",
                );
            },
            Progress::Starting => {
                // Any write/verify bar has already finished at 100%.
                self.finish_active("Done", &mut actions);
                show(&mut actions, Render::Line("Starting application...".to_string()));
            },
        }
        assert(views(actions@) =~= shown(old(self).verbose, old(self).active, event));
        actions
    }

    /// Abandon the active bar with a failure message (call before returning an
    /// error so a half-drawn bar doesn't linger).
    pub fn fail(&mut self, label: &'static str) -> (r: Vec<Render>)
        ensures
            final(self).verbose == old(self).verbose,
            !final(self).active,
            views(r@) == if old(self).active {
                seq![RenderView::AbandonBar { label: label@ }]
            } else {
                Seq::<RenderView>::empty()
            },
    {
        let mut actions: Vec<Render> = Vec::new();
        assert(views(actions@) =~= Seq::<RenderView>::empty());
        if self.active {
            self.active = false;
            show(&mut actions, Render::AbandonBar(label));
        }
        assert(views(actions@) =~= if old(self).active {
            seq![RenderView::AbandonBar { label: label@ }]
        } else {
            Seq::<RenderView>::empty()
        });
        actions
    }
}

/// A phase that succeeds leaves no bar behind: the last that it tells is that all
/// is done.
pub proof fn law_no_bar_left(firmware: Seq<u8>, phase: Phase<()>, active: bool)
    requires
        phase.result is Ok,
        ({
            ||| erase_phase(firmware, phase)
            ||| write_phase(firmware, phase)
            ||| verify_phase(firmware, phase)
        }),
    ensures
        phase.told.len() > 0,
        !bar_after(active, phase.told.last()),
{
}

/// Why no port could be chosen.
#[derive(Debug, Clone, Copy, PartialEq, Eq, Structural)]
pub enum PortChoiceError {
    /// There is none.
    NoPorts,
    /// There are several.
    ManyPorts,
}

impl PortChoiceError {
    /// The message of this error.
    pub fn message(&self) -> (r: &'static str)
        ensures
            r@ == match *self {
                PortChoiceError::NoPorts =>
                    "no serial ports found; connect the device or pass --device"@,
                PortChoiceError::ManyPorts =>
                    "multiple serial ports found; pass --device (see `jolt devices`)"@,
            },
    {
        match self {
            PortChoiceError::NoPorts =>
                "no serial ports found; connect the device or pass --device",
            PortChoiceError::ManyPorts =>
                "multiple serial ports found; pass --device (see `jolt devices`)",
        }
    }
}

/// The port to use: the one that was asked for, else the only one present.
pub open spec fn chosen_port(
    device: Option<String>,
    ports: Seq<String>,
) -> Result<Seq<char>, PortChoiceError> {
    match device {
        Some(path) => Ok(path@),
        None => if ports.len() == 1 {
            Ok(ports[0]@)
        } else if ports.len() == 0 {
            Err(PortChoiceError::NoPorts)
        } else {
            Err(PortChoiceError::ManyPorts)
        },
    }
}

/// Resolve which serial port to use: explicit `--device`, else the only port
/// present, otherwise an error asking the user to pick one. `ports` are the ports
/// that are present; with `--device` they do not matter.
pub fn resolve_port(global: &GlobalOpts, ports: &Vec<String>) -> (r: Result<
    String,
    PortChoiceError,
>)
    ensures
        match r {
            Ok(path) => chosen_port(global.device, ports@) == Ok::<_, PortChoiceError>(path@),
            Err(e) => chosen_port(global.device, ports@) == Err::<Seq<char>, _>(e),
        },
{
    match &global.device {
        Some(path) => Ok(path.as_str().to_string()),
        None => {
            if ports.len() == 1 {
                Ok(ports[0].as_str().to_string())
            } else if ports.len() == 0 {
                Err(PortChoiceError::NoPorts)
            } else {
                Err(PortChoiceError::ManyPorts)
            }
        },
    }
}

/// Whether retries and their errors are shown.
pub fn is_verbose(global: &GlobalOpts) -> (r: bool)
    ensures
        r == (global.verbose > 0),
{
    global.verbose > 0
}

/// The line that says which port is opened for the bootloader.
pub fn port_line(path: &str) -> (r: String)
    ensures
        r@ == "Port    : "@ + path@ + " @ "@ + decimal(BAUD as nat) + " baud, 8E1"@,
{
    let mut line = String::new();
    line.append("Port    : ");
    line.append(path);
    line.append(" @ ");
    push_decimal(&mut line, BAUD as u64);
    line.append(" baud, 8E1");
    assert(line@ =~= "Port    : "@ + path@ + " @ "@ + decimal(BAUD as nat) + " baud, 8E1"@);
    line
}

/// What a port that does not open is reported with.
pub fn open_context(path: &str) -> (r: String)
    ensures
        r@ == "failed to open serial port "@ + path@,
{
    let mut line = String::new();
    line.append("failed to open serial port ");
    line.append(path);
    assert(line@ =~= "failed to open serial port "@ + path@);
    line
}

/// The options that the arguments of `flash` stand for.
pub fn flash_options(args: &FlashArgs) -> (r: FlashOptions)
    ensures
        r.erase == !args.no_erase,
        r.verify == !args.skip_verify,
        r.run == !args.no_run,
        r.go == args.go,
{
    FlashOptions {
        erase: !args.no_erase,
        verify: !args.skip_verify,
        run: !args.no_run,
        go: args.go,
    }
}

/// The line that says what is flashed.
pub fn firmware_line(file: &str, len: usize) -> (r: String)
    ensures
        r@ == "Firmware: "@ + file@ + " ("@ + decimal(len as nat) + " bytes)"@,
{
    let mut line = String::new();
    line.append("Firmware: ");
    line.append(file);
    line.append(" (");
    push_decimal(&mut line, len as u64);
    line.append(" bytes)");
    assert(line@ =~= "Firmware: "@ + file@ + " ("@ + decimal(len as nat) + " bytes)"@);
    line
}

/// The line that says how much was erased.
pub fn erased_line(pages: usize) -> (r: String)
    ensures
        r@ == "Erased "@ + decimal((pages * PAGE_SIZE / 1024) as nat)
            + " KiB and reset into application."@,
{
    let mut line = String::new();
    line.append("Erased ");
    assert(pages * PAGE_SIZE / 1024 == pages / 8);
    push_decimal(&mut line, (pages / 8) as u64);
    line.append(" KiB and reset into application.");
    assert(line@ =~= "Erased "@ + decimal((pages * PAGE_SIZE / 1024) as nat)
        + " KiB and reset into application."@);
    line
}

/// The line that gives the bootloader's version, one digit in each half of the
/// byte.
pub fn version_line(version: u8) -> (r: String)
    ensures
        r@ == "BL ver  : "@ + decimal((version / 16) as nat) + "."@ + decimal(
            (version % 16) as nat,
        ),
{
    let mut line = String::new();
    line.append("BL ver  : ");
    push_decimal(&mut line, (version / 16) as u64);
    line.append(".");
    push_decimal(&mut line, (version % 16) as u64);
    assert(line@ =~= "BL ver  : "@ + decimal((version / 16) as nat) + "."@ + decimal(
        (version % 16) as nat,
    ));
    line
}

/// Command bytes, each as `0xNN`, with a space between.
pub open spec fn command_list(cmds: Seq<u8>) -> Seq<char>
    decreases cmds.len(),
{
    if cmds.len() == 0 {
        Seq::empty()
    } else if cmds.len() == 1 {
        "0x"@ + hex(cmds[0] as nat, 2)
    } else {
        command_list(cmds.drop_last()) + " "@ + "0x"@ + hex(cmds.last() as nat, 2)
    }
}

/// The line that lists the supported commands.
pub fn commands_line(cmds: &[u8]) -> (r: String)
    ensures
        r@ == "Commands: "@ + command_list(cmds@),
{
    let mut line = String::new();
    line.append("Commands: ");
    let mut i: usize = 0;
    assert(line@ =~= "Commands: "@ + command_list(cmds@.take(0)));
    while i < cmds.len()
        invariant
            i <= cmds@.len(),
            line@ == "Commands: "@ + command_list(cmds@.take(i as int)),
        decreases cmds@.len() - i,
    {
        if i > 0 {
            line.append(" ");
        }
        line.append("0x");
        push_hex(&mut line, cmds[i] as u64, 2);
        i += 1;
        assert(cmds@.take(i as int).drop_last() =~= cmds@.take(i - 1));
        assert(line@ =~= "Commands: "@ + command_list(cmds@.take(i as int)));
    }
    assert(cmds@.take(cmds@.len() as int) =~= cmds@);
    line
}

/// What `Get` gave, as two lines; none if it failed.
pub open spec fn info_text(reply: Result<(u8, Vec<u8>), Error>) -> Seq<Seq<char>> {
    match reply {
        Ok((version, cmds)) => seq![
            "BL ver  : "@ + decimal((version / 16) as nat) + "."@ + decimal((version % 16) as nat),
            "Commands: "@ + command_list(cmds@),
        ],
        Err(_) => Seq::empty(),
    }
}

/// The lines that say what `Get` gave: the bootloader's version and commands. If it
/// failed there are none; that is not an error.
pub fn info_lines(reply: &Result<(u8, Vec<u8>), Error>) -> (r: Vec<String>)
    ensures
        r@.len() == info_text(*reply).len(),
        forall|i: int| 0 <= i < r@.len() ==> (#[trigger] r@[i])@ == info_text(*reply)[i],
{
    let mut lines: Vec<String> = Vec::new();
    if let Ok((version, cmds)) = reply {
        lines.push(version_line(*version));
        lines.push(commands_line(cmds.as_slice()));
    }
    lines
}

/// What a reset boots.
#[derive(Debug, Clone, Copy, PartialEq, Eq, Structural)]
pub enum ResetTarget {
    Bootloader,
    Application,
}

/// What the arguments of `reset` ask for: the bootloader if they name it, else the
/// application.
pub fn reset_target(args: &ResetArgs) -> (r: ResetTarget)
    ensures
        r == if args.bootloader {
            ResetTarget::Bootloader
        } else {
            ResetTarget::Application
        },
{
    if args.bootloader {
        ResetTarget::Bootloader
    } else {
        ResetTarget::Application
    }
}

impl ResetTarget {
    /// The line that says what was done.
    pub fn done_line(&self) -> (r: &'static str)
        ensures
            r@ == match *self {
                ResetTarget::Bootloader => "Reset into bootloader."@,
                ResetTarget::Application => "Reset into application."@,
            },
    {
        match self {
            ResetTarget::Bootloader => "Reset into bootloader.",
            ResetTarget::Application => "Reset into application.",
        }
    }

    /// What a failure is reported with.
    pub fn context(&self) -> (r: &'static str)
        ensures
            r@ == match *self {
                ResetTarget::Bootloader => "reset into bootloader"@,
                ResetTarget::Application => "reset into application"@,
            },
    {
        match self {
            ResetTarget::Bootloader => "reset into bootloader",
            ResetTarget::Application => "reset into application",
        }
    }
}

/// Data bits of a frame.
#[derive(Debug, Clone, Copy, PartialEq, Eq, Structural)]
pub enum DataBits {
    Five,
    Six,
    Seven,
    Eight,
}

/// Stop bits of a frame.
#[derive(Debug, Clone, Copy, PartialEq, Eq, Structural)]
pub enum StopBits {
    One,
    Two,
}

/// The frame format of a serial line.
#[derive(Debug, Clone, Copy, PartialEq, Eq, Structural)]
pub struct FrameFormat {
    pub data_bits: DataBits,
    pub parity: ParityArg,
    pub stop_bits: StopBits,
}

/// The frame format of the bootloader: 8 data bits, even parity, 1 stop bit.
pub fn bootloader_format() -> (r: FrameFormat)
    ensures
        r.data_bits == DataBits::Eight,
        r.parity == ParityArg::Even,
        r.stop_bits == StopBits::One,
{
    FrameFormat { data_bits: DataBits::Eight, parity: ParityArg::Even, stop_bits: StopBits::One }
}

/// How long the monitor waits for data at a time, in milliseconds: short, so that
/// the read loop stays responsive on an idle line.
pub const MONITOR_TIMEOUT_MILLIS: u64 = 100;

/// The frame format that the arguments of `monitor` ask for. Data bits out of
/// range stand for eight, stop bits out of range for one.
pub fn frame_format(args: &MonitorArgs) -> (r: FrameFormat)
    ensures
        r.data_bits == if args.databits == 5 {
            DataBits::Five
        } else if args.databits == 6 {
            DataBits::Six
        } else if args.databits == 7 {
            DataBits::Seven
        } else {
            DataBits::Eight
        },
        r.parity == args.parity,
        r.stop_bits == if args.stopbits == 2 {
            StopBits::Two
        } else {
            StopBits::One
        },
{
    let data_bits = match args.databits {
        5 => DataBits::Five,
        6 => DataBits::Six,
        7 => DataBits::Seven,
        _ => DataBits::Eight,
    };
    let stop_bits = match args.stopbits {
        2 => StopBits::Two,
        _ => StopBits::One,
    };
    FrameFormat { data_bits, parity: args.parity, stop_bits }
}

/// The letter that stands for a parity.
pub open spec fn parity_mark(parity: ParityArg) -> Seq<char> {
    match parity {
        ParityArg::NoParity => "N"@,
        ParityArg::Even => "E"@,
        ParityArg::Odd => "O"@,
    }
}

/// The letter that stands for a parity.
pub fn parity_letter(parity: ParityArg) -> (r: &'static str)
    ensures
        r@ == parity_mark(parity),
{
    match parity {
        ParityArg::NoParity => "N",
        ParityArg::Even => "E",
        ParityArg::Odd => "O",
    }
}

/// The banner of the monitor.
pub open spec fn banner_text(path: Seq<char>, args: MonitorArgs) -> Seq<char> {
    "Monitoring "@ + path + " @ "@ + decimal(args.baudrate as nat) + " baud, "@ + decimal(
        args.databits as nat,
    ) + parity_mark(args.parity) + decimal(args.stopbits as nat) + " — press Ctrl-C to exit."@
}

/// The banner of the monitor.
pub fn monitor_banner(path: &str, args: &MonitorArgs) -> (r: String)
    ensures
        r@ == banner_text(path@, *args),
{
    let mut line = String::new();
    line.append("Monitoring ");
    line.append(path);
    line.append(" @ ");
    push_decimal(&mut line, args.baudrate as u64);
    line.append(" baud, ");
    push_decimal(&mut line, args.databits as u64);
    line.append(parity_letter(args.parity));
    push_decimal(&mut line, args.stopbits as u64);
    line.append(" — press Ctrl-C to exit.");
    assert(line@ =~= banner_text(path@, *args));
    line
}

/// The value of an action holds what the action holds, each thing in its place.
pub proof fn law_render_value(a: Render)
    ensures
        a matches Render::Line(text) ==> a@ == (RenderView::Line { text: text@ }),
        a matches Render::Warning(text) ==> a@ == (RenderView::Warning { text: text@ }),
        a matches Render::StartBar { unit, total, label } ==> a@ == (RenderView::StartBar {
            unit,
            total: total as int,
            label: label@,
        }),
        a matches Render::SetLength(n) ==> a@ == (RenderView::SetLength { length: n as int }),
        a matches Render::SetPosition(n) ==> a@ == (RenderView::SetPosition { position: n as int }),
        a matches Render::FinishBar(label) ==> a@ == (RenderView::FinishBar { label: label@ }),
        a matches Render::AbandonBar(label) ==> a@ == (RenderView::AbandonBar { label: label@ }),
{
}

/// The values of the actions are as many, in the same order.
pub proof fn law_views(actions: Seq<Render>, i: int)
    requires
        0 <= i < actions.len(),
    ensures
        views(actions).len() == actions.len(),
        views(actions)[i] == actions[i]@,
{
}

/// What is shown for `done` of `total`: a bar of that length is started exactly if there
/// is none; the bar is set to `done`; and it is finished exactly if `done` is all.
pub open spec fn shows_bar(
    out: Seq<RenderView>,
    active: bool,
    unit: BarUnit,
    resized: bool,
    done: int,
    total: int,
    label: Seq<char>,
    finished: Seq<char>,
) -> bool {
    let a = if active {
        0int
    } else {
        1
    };
    let b = if resized {
        a + 1
    } else {
        a
    };
    &&& !active ==> out[0] == (RenderView::StartBar { unit, total, label })
    &&& resized ==> out[a] == (RenderView::SetLength { length: total })
    &&& out[b] == (RenderView::SetPosition { position: done })
    &&& done != total ==> out.len() == b + 1
    &&& done == total ==> out.len() == b + 2 && out[b + 1] == (RenderView::FinishBar {
        label: finished,
    })
}

/// The progress of erasing, writing and verifying moves a bar, in pages or in bytes,
/// whether or not the output is verbose.
pub proof fn law_bars(verbose: bool, active: bool, done: int, total: int)
    ensures
        shows_bar(
            shown(verbose, active, ProgressView::Erase { pages_done: done, pages_total: total }),
            active,
            BarUnit::Pages,
            true,
            done,
            total,
            "Erasing"@,
            "Erased"@,
        ),
        shows_bar(
            shown(verbose, active, ProgressView::Write { bytes_done: done, bytes_total: total }),
            active,
            BarUnit::Bytes,
            false,
            done,
            total,
            "Writing"@,
            "Written"@,
        ),
        shows_bar(
            shown(verbose, active, ProgressView::Verify { bytes_done: done, bytes_total: total }),
            active,
            BarUnit::Bytes,
            false,
            done,
            total,
            "Verifying"@,
            "Verified"@,
        ),
{
}

/// Whether the last action about a bar leaves one active.
pub open spec fn leaves_bar(active: bool, out: Seq<RenderView>) -> bool
    decreases out.len(),
{
    if out.len() == 0 {
        active
    } else {
        match out.last() {
            RenderView::StartBar { .. } => true,
            RenderView::FinishBar { .. } => false,
            RenderView::AbandonBar { .. } => false,
            _ => leaves_bar(active, out.drop_last()),
        }
    }
}

/// Whether the reporter takes a bar for active is what the actions that it gave leave: a
/// bar that was started or was there is, until it is finished.
pub proof fn law_bar_known(verbose: bool, active: bool, event: ProgressView)
    ensures
        bar_after(active, event) == leaves_bar(active, shown(verbose, active, event)),
{
    reveal_with_fuel(leaves_bar, 5);
    let out = shown(verbose, active, event);
    if out.len() > 0 {
        let d = out.drop_last();
        if d.len() > 0 {
            let e = d.drop_last();
            if e.len() > 0 {
                assert(e.drop_last().len() == e.len() - 1);
                assert(e.last() == out[e.len() - 1]);
            }
            assert(d.last() == out[d.len() - 1]);
        }
    }
}

/// The first attempt to connect is always shown; later ones, and errors, only in verbose
/// output, with their number, how many there can be, and the error.
pub proof fn law_attempts_shown(
    verbose: bool,
    active: bool,
    attempt: int,
    of: int,
    error: Seq<char>,
)
    requires
        0 <= attempt,
        0 <= of,
    ensures
        ({
            let out = shown(verbose, active, ProgressView::Connecting { attempt, of });
            &&& attempt == 1 ==> out == seq![RenderView::Line { text: "Entering bootloader..."@ }]
            &&& attempt != 1 && !verbose ==> out.len() == 0
            &&& attempt != 1 && verbose ==> out.len() == 1 && (out[0] matches RenderView::Line {
                text,
            } && stands_at(text, decimal(attempt as nat), 8) && stands_at(
                text,
                decimal(of as nat),
                9 + decimal(attempt as nat).len() as int,
            ) && text.len() == 9 + decimal(attempt as nat).len() + decimal(of as nat).len())
        }),
        ({
            let out = shown(verbose, active, ProgressView::ConnectError { attempt, of, error });
            let a = decimal(attempt as nat);
            let b = decimal(of as nat);
            &&& !verbose ==> out.len() == 0
            &&& verbose ==> out.len() == 1 && (out[0] matches RenderView::Warning { text }
                && stands_at(text, a, 15) && stands_at(text, b, 16 + a.len() as int) && stands_at(
                text,
                error,
                18 + a.len() as int + b.len() as int,
            ) && text.len() == 18 + a.len() + b.len() + error.len())
        }),
{
    reveal_strlit("  retry ");
    reveal_strlit("/");
    reveal_strlit("  init attempt ");
    reveal_strlit(": ");
    let a = decimal(attempt as nat);
    let b = decimal(of as nat);
    let n = a.len() as int;
    let m = b.len() as int;
    let t = "  retry "@ + a + "/"@ + b;
    assert(t.subrange(8, 8 + n) =~= a);
    assert(t.subrange(9 + n, 9 + n + m) =~= b);
    let u = "  init attempt "@ + a + "/"@ + b + ": "@ + error;
    assert(u.subrange(15, 15 + n) =~= a);
    assert(u.subrange(16 + n, 16 + n + m) =~= b);
    assert(u.subrange(18 + n + m, 18 + n + m + error.len()) =~= error);
}

/// A chip is always shown, with its id and its name. A warning with the id follows
/// exactly if the chip is not of the family.
pub proof fn law_chip_shown(verbose: bool, active: bool, id: u16)
    ensures
        ({
            let out = shown(verbose, active, ProgressView::ChipIdentified { id });
            let digits = hex(id as nat, 3);
            let family = id == 0x417 || id == 0x425 || id == 0x447 || id == 0x457;
            &&& out.len() == if family {
                1int
            } else {
                2
            }
            &&& out[0] matches RenderView::Line { text } && stands_at(text, digits, 12)
                && stands_at(text, chip_name_text(id), 14 + digits.len() as int) && text.len() == 15
                + digits.len() + chip_name_text(id).len()
            &&& !family ==> (out[1] matches RenderView::Warning { text } && stands_at(
                text,
                digits,
                11,
            ))
        }),
{
    reveal_strlit("Chip id : 0x");
    reveal_strlit(" (");
    reveal_strlit(")");
    reveal_strlit("warning: 0x");
    law_family(id, id);
    let digits = hex(id as nat, 3);
    let name = chip_name_text(id);
    let n = digits.len() as int;
    let t = chip_line(id);
    assert(t.subrange(12, 12 + n) =~= digits);
    assert(t.subrange(14 + n, 14 + n + name.len()) =~= name);
    let u = "warning: 0x"@ + digits + " is not a recognized STM32L0 family id — continuing anyway"@;
    assert(u.subrange(11, 11 + n) =~= digits);
}

/// The start of the application is shown as one line, after the active bar, if there is
/// one, is finished.
pub proof fn law_start_shown(verbose: bool, active: bool)
    ensures
        ({
            let out = shown(verbose, active, ProgressView::Starting);
            &&& out.last() == (RenderView::Line { text: "Starting application..."@ })
            &&& !active ==> out.len() == 1
            &&& active ==> out.len() == 2 && out[0] is FinishBar
        }),
{
}

/// A port that is asked for is taken, whatever is there. Without one, the only port that
/// is there is taken; none and several are told apart.
pub proof fn law_port_choice(asked: String, ports: Seq<String>)
    ensures
        chosen_port(Some(asked), ports) == Ok::<_, PortChoiceError>(asked@),
        ports.len() == 1 ==> chosen_port(None, ports) == Ok::<_, PortChoiceError>(ports[0]@),
        ports.len() == 0 ==> chosen_port(None, ports) == Err::<Seq<char>, _>(
            PortChoiceError::NoPorts,
        ),
        ports.len() > 1 ==> chosen_port(None, ports) == Err::<Seq<char>, _>(
            PortChoiceError::ManyPorts,
        ),
{
}

/// A byte takes two hexadecimal digits.
proof fn lemma_two_digits(b: u8)
    ensures
        hex(b as nat, 2).len() == 2,
{
    reveal_with_fuel(hex, 2);
}

/// In a list of commands each byte stands as `0x` and two hexadecimal digits, in order,
/// with a space between two of them and nothing else.
pub proof fn law_command_list(cmds: Seq<u8>, i: int)
    requires
        0 <= i < cmds.len(),
    ensures
        command_list(Seq::<u8>::empty()).len() == 0,
        command_list(cmds).len() == 5 * cmds.len() - 1,
        stands_at(command_list(cmds), "0x"@, 5 * i),
        stands_at(command_list(cmds), hex(cmds[i] as nat, 2), 5 * i + 2),
        i > 0 ==> command_list(cmds)[5 * i - 1] == ' ',
    decreases cmds.len(),
{
    reveal_strlit("0x");
    reveal_strlit(" ");
    let text = command_list(cmds);
    let n = cmds.len() as int;
    let last = hex(cmds.last() as nat, 2);
    lemma_two_digits(cmds.last());
    if n == 1 {
        assert(text.subrange(0, 2) =~= "0x"@);
        assert(text.subrange(2, 4) =~= last);
    } else {
        let head = cmds.drop_last();
        let before = command_list(head);
        law_command_list(head, 0);
        assert(before.len() == 5 * (n - 1) - 1);
        if i < n - 1 {
            law_command_list(head, i);
            lemma_two_digits(cmds[i]);
            assert(text.subrange(5 * i, 5 * i + 2) =~= before.subrange(5 * i, 5 * i + 2));
            assert(text.subrange(5 * i + 2, 5 * i + 4) =~= before.subrange(5 * i + 2, 5 * i + 4));
        } else {
            assert(text.subrange(5 * i, 5 * i + 2) =~= "0x"@);
            assert(text.subrange(5 * i + 2, 5 * i + 4) =~= last);
        }
    }
}

/// What `Get` gave is two lines: the version, its high and its low half in decimal with
/// a dot between, and the list of commands. A `Get` that failed gives none.
pub proof fn law_info_text(version: u8, cmds: Vec<u8>, e: Error)
    ensures
        ({
            let lines = info_text(Ok((version, cmds)));
            let high = decimal((version / 16) as nat);
            let low = decimal((version % 16) as nat);
            &&& lines.len() == 2
            &&& stands_at(lines[0], high, 10)
            &&& lines[0][10 + high.len() as int] == '.'
            &&& stands_at(lines[0], low, 11 + high.len() as int)
            &&& lines[0].len() == 11 + high.len() + low.len()
            &&& stands_at(lines[1], command_list(cmds@), 10)
            &&& lines[1].len() == 10 + command_list(cmds@).len()
        }),
        info_text(Err(e)).len() == 0,
{
    reveal_strlit("BL ver  : ");
    reveal_strlit(".");
    reveal_strlit("Commands: ");
    let lines = info_text(Ok((version, cmds)));
    let high = decimal((version / 16) as nat);
    let low = decimal((version % 16) as nat);
    let n = high.len() as int;
    assert(lines[0].subrange(10, 10 + n) =~= high);
    assert(lines[0].subrange(11 + n, 11 + n + low.len()) =~= low);
    let list = command_list(cmds@);
    assert(lines[1].subrange(10, 10 + list.len() as int) =~= list);
}

/// The banner of the monitor gives the port, the baud rate, and the frame as data bits,
/// the letter of the parity, and stop bits.
pub proof fn law_banner(path: Seq<char>, args: MonitorArgs)
    ensures
        ({
            let text = banner_text(path, args);
            let baud = decimal(args.baudrate as nat);
            let data = decimal(args.databits as nat);
            let stop = decimal(args.stopbits as nat);
            let b = 14 + path.len() as int;
            let d = b + baud.len() as int + 7;
            let p = d + data.len() as int;
            &&& stands_at(text, path, 11)
            &&& stands_at(text, baud, b)
            &&& stands_at(text, data, d)
            &&& text[p] == match args.parity {
                ParityArg::NoParity => 'N',
                ParityArg::Even => 'E',
                ParityArg::Odd => 'O',
            }
            &&& stands_at(text, stop, p + 1)
        }),
{
    reveal_strlit("Monitoring ");
    reveal_strlit(" @ ");
    reveal_strlit(" baud, ");
    reveal_strlit("N");
    reveal_strlit("E");
    reveal_strlit("O");
    let text = banner_text(path, args);
    let baud = decimal(args.baudrate as nat);
    let data = decimal(args.databits as nat);
    let stop = decimal(args.stopbits as nat);
    let b = 14 + path.len() as int;
    let d = b + baud.len() as int + 7;
    let p = d + data.len() as int;
    assert(text.subrange(11, 11 + path.len() as int) =~= path);
    assert(text.subrange(b, b + baud.len()) =~= baud);
    assert(text.subrange(d, d + data.len()) =~= data);
    assert(text.subrange(p + 1, p + 1 + stop.len()) =~= stop);
}

} // verus!
