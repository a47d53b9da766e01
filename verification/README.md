# updater-sdk

Host side of a small firmware-update protocol for bootloaders on I2C, UART,
SPI and two bare GPIO lines: frame codec, image rendering, sessions with
bounded retries, wire adapters, and the logic of a command-line tool. The
library is written in Verus: every function states in its contract what it
returns, and the proofs are checked with the code.

## Layout

| Where | What |
| --- | --- |
| `src/frame.rs`, `src/stream.rs`, `src/le.rs` | frames, CRC-8, the byte-stream scanner, little-endian fields |
| `src/image.rs` | app images: CRC-32, footer, pages, which pages have to be written |
| `src/transport.rs`, `src/session.rs`, `src/error.rs` | the transport seam and the commands over it |
| `src/adapters/` | the decisions of one exchange on each kind of wire |
| `src/wire.rs`, `src/cli.rs` | wires and poll budgets chosen by flags, small parsers |
| `src/hex.rs`, `src/ihex.rs`, `src/text.rs` | hex text, Intel HEX, texts of messages |
| `src/install.rs` | install targets: checking, template expansion, tool lookup |
| `src/device.rs`, `src/sim.rs` | the device side of the protocol as a model, and a simulator that follows it |
| `app/` | `updater-cli`: argument handling, device nodes, files and child processes |
| `tests/` | tests of the compiled library |

Public functions named `law_*` state what holds across functions: that
decoding undoes encoding, that a changed byte is never accepted, that an
update which reports success has put the image on the device, that an
unfinished one does not boot.

## What is trusted

Three functions of the standard library, declared in `src/text.rs`:
`String::push`, the `Debug` form of a string, and `std::str::from_utf8`.
A `Transport` that is written outside the verified code keeps no history of
its calls. What a session's contract says over it holds relative to a history
kept for it, one entry per call with the request, the receive buffer and the
result; in the same way, what it says of progress holds relative to a list of
the reports made.
