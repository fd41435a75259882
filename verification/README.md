# jolt — STM32L0 UART programmer

jolt programs **STM32L0** microcontrollers (STM32L0x1 / L0x2 / L0x3) over a serial
port using the STM32 embedded **UART bootloader** (ST AN3155 protocol). It flashes,
erases, reads device info, and includes a serial monitor. The engine is verified
with Verus.

## Layout

- `src/` — the verified library.
  - `bootloader` — the protocol engine on a `Transport`. A transport keeps a ghost
    trace of everything done to it; the contract of each command says what it adds
    to the trace and what it makes of the replies.
  - `frame` — the byte frames of the protocol and their checksums.
  - `session`, `plan`, `chip`, `connection` — what the flash layer sets out to do:
    calls, phases and plans, and what is proved of them.
  - `flash`, `progress` — connect, erase, write, verify, run, and what is told
    meanwhile.
  - `port` — the RTS/DTR sequences, the read deadline and the timeout bookkeeping of
    a serial port, as decisions that do no I/O.
  - `firmware`, `target`, `error`, `text` — images, chips, errors and their wording.
  - `cli`, `commands` — the command line and what the subcommands decide and say.
  - `scripted` — a device in memory.
- `tests/` — the library on scripted devices and concrete values.
- `app/` — the `jolt` program: argument parsing, the serial port, the terminal.

## Usage

```
jolt <COMMAND> [OPTIONS]

Commands:
  devices  List connected serial devices
  info     Read bootloader info (chip id, version, commands) — read-only
  flash    Flash a raw firmware .bin file
  erase    Erase the entire flash (adapts to the device's density)
  reset    Reset the device into the application or the bootloader
  monitor  Open the serial device and print incoming data (serial monitor)

Global options:
  -d, --device <DEVICE>   Serial device (default: the only one present, else required)
  -v, --verbose           Verbose output (e.g. per-attempt bootloader-entry errors)
```

By default `flash` erases before writing, but only the pages the image spans; a
full-chip wipe is `erase`. `flash` accepts a raw `.bin` only, written at
`0x08000000`.
