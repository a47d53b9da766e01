//! The logic of the command line: flags to wire, budgets, small parsers and
//! the texts that depend on them.

use vstd::prelude::*;
use vstd::string::*;

use crate::frame::ECHO_MAX;
use crate::hex::{decode_hex, hex_digit, HexError};
use crate::image::FOOTER_LEN;
use crate::session::DeviceInfo;
use crate::text::{
    chars_of, debug_str, is_whitespace, push_decimal, push_hex_prefixed,
};
use crate::wire::{is_supported_baud, PollBudget, TransportSpec, SUPPORTED_BAUDS};

verus! {

/// Worst-case erase time of one protocol page in milliseconds, from which the
/// budget of an erase is scaled.
pub const PER_PAGE_ERASE_WORST_MS: u32 = 10;

/// Which kind of wire the flags ask for.
#[derive(Debug, Clone, Copy, PartialEq, Eq)]
pub enum TransportKind {
    /// I2C bus.
    I2c,
    /// Serial port in raw mode.
    Uart,
    /// SPI device.
    Spi,
    /// Bit-banged 9600-baud UART on two GPIO lines.
    Gpio,
}

/// The flags that choose a wire. Each kind reads only its own. `S` is text.
#[derive(Debug)]
pub struct WireArgs<S = String> {
    /// Which kind.
    pub transport: TransportKind,
    /// I2C bus device node.
    pub bus: S,
    /// 7-bit I2C device address.
    pub addr: u16,
    /// Serial or SPI device node, if given.
    pub dev: Option<S>,
    /// Baud rate of the serial port.
    pub baud: u32,
    /// SPI clock in Hz.
    pub speed_hz: u32,
    /// GPIO character device.
    pub chip: S,
    /// GPIO line to transmit on, if given.
    pub pin_tx: Option<u32>,
    /// GPIO line to listen on, if given.
    pub pin_rx: Option<u32>,
}

impl View for WireArgs {
    type V = WireArgs<Seq<char>>;

    open spec fn view(&self) -> WireArgs<Seq<char>> {
        WireArgs {
            transport: self.transport,
            bus: self.bus@,
            addr: self.addr,
            dev: match self.dev {
                Some(d) => Some(d@),
                None => None,
            },
            baud: self.baud,
            speed_hz: self.speed_hz,
            chip: self.chip@,
            pin_tx: self.pin_tx,
            pin_rx: self.pin_rx,
        }
    }
}

/// The flags when none is given.
pub open spec fn default_wire_args() -> WireArgs<Seq<char>> {
    WireArgs {
        transport: TransportKind::I2c,
        bus: "/dev/i2c-1"@,
        addr: 0x20,
        dev: None,
        baud: 115_200,
        speed_hz: 100_000,
        chip: "/dev/gpiochip0"@,
        pin_tx: None,
        pin_rx: None,
    }
}

impl Default for WireArgs {
    fn default() -> (r: Self)
        ensures
            r@ == default_wire_args(),
    {
        WireArgs {
            transport: TransportKind::I2c,
            bus: "/dev/i2c-1".to_owned(),
            addr: 0x20,
            dev: None,
            baud: 115_200,
            speed_hz: 100_000,
            chip: "/dev/gpiochip0".to_owned(),
            pin_tx: None,
            pin_rx: None,
        }
    }
}

/// Why flags do not make a wire. `S` is text.
#[derive(Debug)]
pub enum SpecError<S = String> {
    /// The baud rate is not one of the supported ones.
    Baud { baud: u32 },
    /// A GPIO wire needs two lines.
    PinsMissing { chip: S },
    /// The two lines are the same.
    SamePins { pin: u32 },
}

impl View for SpecError {
    type V = SpecError<Seq<char>>;

    open spec fn view(&self) -> SpecError<Seq<char>> {
        match self {
            SpecError::Baud { baud } => SpecError::Baud { baud: *baud },
            SpecError::PinsMissing { chip } => SpecError::PinsMissing { chip: chip@ },
            SpecError::SamePins { pin } => SpecError::SamePins { pin: *pin },
        }
    }
}

/// The texts of a list of numbers.
pub open spec fn decimals(list: Seq<u32>) -> Seq<Seq<char>> {
    list.map_values(|n: u32| crate::text::decimal(n as nat))
}

/// What [`SpecError::message`] says.
pub open spec fn spec_error_message(e: SpecError<Seq<char>>) -> Seq<char> {
    match e {
        SpecError::Baud { baud } => "unsupported baud rate "@ + crate::text::decimal(baud as nat)
            + " (supported: "@ + crate::text::join(decimals(SUPPORTED_BAUDS@), ", "@) + ")"@,
        SpecError::PinsMissing { chip } => "--transport gpio needs both --pin-tx and --pin-rx (GPIO line offsets on "@
            + chip + ")"@,
        SpecError::SamePins { pin } => "--pin-tx and --pin-rx must be different lines (both are "@
            + crate::text::decimal(pin as nat) + ")"@,
    }
}

/// Appends the supported baud rates.
fn push_bauds(out: &mut String)
    ensures
        final(out)@ == old(out)@ + crate::text::join(decimals(SUPPORTED_BAUDS@), ", "@),
{
    let all: [u32; 6] = SUPPORTED_BAUDS;
    let ghost texts = decimals(SUPPORTED_BAUDS@);
    let mut i: usize = 0;
    proof {
        assert(texts.take(0) =~= Seq::<Seq<char>>::empty());
        assert(old(out)@ + Seq::<char>::empty() =~= old(out)@);
    }
    while i < 6
        invariant
            i <= 6,
            all == SUPPORTED_BAUDS,
            texts == decimals(SUPPORTED_BAUDS@),
            texts.len() == 6,
            out@ == old(out)@ + crate::text::join(texts.take(i as int), ", "@),
        decreases 6 - i,
    {
        let ghost head = texts.take(i + 1);
        proof {
            assert(head.drop_last() =~= texts.take(i as int));
            assert(head.last() == crate::text::decimal(all@[i as int] as nat));
        }
        if i > 0 {
            out.append(", ");
        }
        push_decimal(out, all[i] as u64);
        proof {
            assert(out@ =~= old(out)@ + crate::text::join(head, ", "@));
        }
        i = i + 1;
    }
    proof {
        assert(texts.take(6) =~= texts);
    }
}

impl SpecError {
    /// The error in words.
    pub fn message(&self) -> (r: String)
        ensures
            r@ == spec_error_message(self@),
    {
        let mut out = String::new();
        match self {
            SpecError::Baud { baud } => {
                out.append("unsupported baud rate ");
                push_decimal(&mut out, *baud as u64);
                out.append(" (supported: ");
                push_bauds(&mut out);
                out.append(")");
            },
            SpecError::PinsMissing { chip } => {
                out.append(
                    "--transport gpio needs both --pin-tx and --pin-rx (GPIO line offsets on ",
                );
                out.append(chip.as_str());
                out.append(")");
            },
            SpecError::SamePins { pin } => {
                out.append("--pin-tx and --pin-rx must be different lines (both are ");
                push_decimal(&mut out, *pin as u64);
                out.append(")");
            },
        }
        proof {
            assert(out@ =~= spec_error_message(self@));
        }
        out
    }
}

/// The node given, or the default one.
pub open spec fn dev_or(dev: Option<Seq<char>>, default: Seq<char>) -> Seq<char> {
    match dev {
        Some(d) => d,
        None => default,
    }
}

/// The wire that flags ask for.
pub open spec fn spec_of(a: WireArgs<Seq<char>>) -> Result<
    TransportSpec<Seq<char>>,
    SpecError<Seq<char>>,
> {
    match a.transport {
        TransportKind::I2c => Ok(TransportSpec::I2c { bus: a.bus, addr: a.addr }),
        TransportKind::Uart => if SUPPORTED_BAUDS@.contains(a.baud) {
            Ok(TransportSpec::Uart { dev: dev_or(a.dev, "/dev/ttyUSB0"@), baud: a.baud })
        } else {
            Err(SpecError::Baud { baud: a.baud })
        },
        TransportKind::Spi => Ok(
            TransportSpec::Spi { dev: dev_or(a.dev, "/dev/spidev0.0"@), speed_hz: a.speed_hz },
        ),
        TransportKind::Gpio => match (a.pin_tx, a.pin_rx) {
            (Some(pin_tx), Some(pin_rx)) => if pin_tx == pin_rx {
                Err(SpecError::SamePins { pin: pin_tx })
            } else {
                Ok(TransportSpec::Gpio { chip: a.chip, pin_tx, pin_rx })
            },
            _ => Err(SpecError::PinsMissing { chip: a.chip }),
        },
    }
}

/// The node given, or the default one.
fn node(dev: &Option<String>, default: &str) -> (r: String)
    ensures
        r@ == (match *dev {
            Some(d) => d@,
            None => default@,
        }),
{
    match dev {
        Some(d) => d.clone(),
        None => default.to_owned(),
    }
}

/// Resolves the flags into a wire.
///
/// # Errors
///
/// See [`SpecError`].
pub fn build_spec(args: &WireArgs) -> (r: Result<TransportSpec, SpecError>)
    ensures
        match spec_of(args@) {
            Ok(s) => r is Ok && r->Ok_0@ == s,
            Err(e) => r is Err && r->Err_0@ == e,
        },
{
    match args.transport {
        TransportKind::I2c => Ok(
            TransportSpec::I2c { bus: args.bus.clone(), addr: args.addr },
        ),
        TransportKind::Uart => {
            if !is_supported_baud(args.baud) {
                return Err(SpecError::Baud { baud: args.baud });
            }
            Ok(TransportSpec::Uart { dev: node(&args.dev, "/dev/ttyUSB0"), baud: args.baud })
        },
        TransportKind::Spi => Ok(
            TransportSpec::Spi {
                dev: node(&args.dev, "/dev/spidev0.0"),
                speed_hz: args.speed_hz,
            },
        ),
        TransportKind::Gpio => match (args.pin_tx, args.pin_rx) {
            (Some(pin_tx), Some(pin_rx)) => {
                if pin_tx == pin_rx {
                    return Err(SpecError::SamePins { pin: pin_tx });
                }
                Ok(TransportSpec::Gpio { chip: args.chip.clone(), pin_tx, pin_rx })
            },
            _ => Err(SpecError::PinsMissing { chip: args.chip.clone() }),
        },
    }
}

/// One line that says where a wire goes.
pub open spec fn description(s: TransportSpec<Seq<char>>) -> Seq<char> {
    match s {
        TransportSpec::I2c { bus, addr } => bus + " @ "@ + crate::text::hex_prefixed(addr as nat),
        TransportSpec::Uart { dev, baud } => dev + " @ "@ + crate::text::decimal(baud as nat)
            + " baud"@,
        TransportSpec::Spi { dev, speed_hz } => dev + " @ "@ + crate::text::decimal(
            speed_hz as nat,
        ) + " Hz"@,
        TransportSpec::Gpio { chip, pin_tx, pin_rx } => chip + " tx="@ + crate::text::decimal(
            pin_tx as nat,
        ) + " rx="@ + crate::text::decimal(pin_rx as nat) + " @ 9600 baud"@,
    }
}

/// One line that says where we are talking to, for progress messages.
pub fn describe(spec: &TransportSpec) -> (r: String)
    ensures
        r@ == description(spec@),
{
    match spec {
        TransportSpec::I2c { bus, addr } => {
            let mut out: String = bus.clone();
            out.append(" @ ");
            push_hex_prefixed(&mut out, *addr as u32);
            out
        },
        TransportSpec::Uart { dev, baud } => {
            let mut out: String = dev.clone();
            out.append(" @ ");
            push_decimal(&mut out, *baud as u64);
            out.append(" baud");
            out
        },
        TransportSpec::Spi { dev, speed_hz } => {
            let mut out: String = dev.clone();
            out.append(" @ ");
            push_decimal(&mut out, *speed_hz as u64);
            out.append(" Hz");
            out
        },
        TransportSpec::Gpio { chip, pin_tx, pin_rx } => {
            let mut out: String = chip.clone();
            out.append(" tx=");
            push_decimal(&mut out, *pin_tx as u64);
            out.append(" rx=");
            push_decimal(&mut out, *pin_rx as u64);
            out.append(" @ 9600 baud");
            out
        },
    }
}

/// Attempts that an erase of `app_pages` pages needs at a poll delay: its
/// worst-case time divided by the delay, rounded up. No delay counts as one
/// millisecond.
pub open spec fn erase_attempts_needed(app_pages: u16, delay_ms: u32) -> int {
    if delay_ms <= 1 {
        PER_PAGE_ERASE_WORST_MS * app_pages
    } else {
        (PER_PAGE_ERASE_WORST_MS * app_pages + delay_ms - 1) / (delay_ms as int)
    }
}

/// Poll attempts of an erase: enough for the worst-case erase time of all
/// pages at the configured delay, unless the flags already ask for more.
pub fn erase_poll_attempts(app_pages: u16, poll: PollBudget) -> (r: u32)
    ensures
        r == (if poll.attempts >= erase_attempts_needed(app_pages, poll.delay_ms) {
            poll.attempts as int
        } else {
            erase_attempts_needed(app_pages, poll.delay_ms)
        }),
{
    let delay: u32 = if poll.delay_ms < 1 {
        1
    } else {
        poll.delay_ms
    };
    let total: u32 = PER_PAGE_ERASE_WORST_MS * app_pages as u32;
    let sum: u64 = total as u64 + delay as u64 - 1;
    let needed64: u64 = sum / delay as u64;
    proof {
        let d = delay as int;
        assert(0 <= (total + d - 1) / d <= total) by (nonlinear_arith)
            requires
                d >= 1,
                0 <= total,
        ;
    }
    let needed: u32 = needed64 as u32;
    if poll.attempts >= needed {
        poll.attempts
    } else {
        needed
    }
}

/// The budget covers the erase: attempts times delay is at least the
/// worst-case time of all pages.
pub proof fn law_erase_budget_covers_the_erase(app_pages: u16, poll: PollBudget, attempts: int)
    requires
        attempts >= erase_attempts_needed(app_pages, poll.delay_ms),
    ensures
        attempts * crate::adapters::at_least_one(poll.delay_ms) >= PER_PAGE_ERASE_WORST_MS
            * app_pages,
{
    let d = crate::adapters::at_least_one(poll.delay_ms) as int;
    let total = PER_PAGE_ERASE_WORST_MS * app_pages;
    let needed = erase_attempts_needed(app_pages, poll.delay_ms);
    assert(needed * d >= total) by (nonlinear_arith)
        requires
            d >= 1,
            d == 1 ==> needed == total,
            d > 1 ==> needed == (total + d - 1) / d,
    ;
    assert(attempts * d >= needed * d) by (nonlinear_arith)
        requires
            attempts >= needed,
            d >= 1,
    ;
}

/// The flags that choose and tune a wire.
pub open spec fn transport_flags() -> Seq<Seq<char>> {
    seq![
        "--transport"@,
        "--bus"@,
        "--addr"@,
        "--dev"@,
        "--baud"@,
        "--speed-hz"@,
        "--chip"@,
        "--pin-tx"@,
        "--pin-rx"@,
        "--poll-attempts"@,
        "--poll-delay-ms"@,
    ]
}

/// How many flags choose and tune a wire.
pub const TRANSPORT_FLAGS: usize = 11;

/// Name of flag `i` among those that choose and tune a wire.
fn transport_flag(i: usize) -> (r: &'static str)
    requires
        i < TRANSPORT_FLAGS,
    ensures
        r@ == transport_flags()[i as int],
{
    match i {
        0 => "--transport",
        1 => "--bus",
        2 => "--addr",
        3 => "--dev",
        4 => "--baud",
        5 => "--speed-hz",
        6 => "--chip",
        7 => "--pin-tx",
        8 => "--pin-rx",
        9 => "--poll-attempts",
        _ => "--poll-delay-ms",
    }
}

/// The flags among the first `n` that were given.
pub open spec fn given_flags(given: Seq<bool>, n: int) -> Seq<Seq<char>>
    decreases n,
{
    if n <= 0 {
        seq![]
    } else if given[n - 1] {
        given_flags(given, n - 1).push(transport_flags()[n - 1])
    } else {
        given_flags(given, n - 1)
    }
}

/// `install` drives a debug adapter, never the updater wire: a transport flag
/// on it means that the two paths were muddled, so it is refused instead of
/// ignored. `given[i]` says whether flag `i` was on the command line, in the
/// order transport, bus, addr, dev, baud, speed-hz, chip, pin-tx, pin-rx,
/// poll-attempts, poll-delay-ms.
///
/// # Errors
///
/// Names every offending flag.
pub fn reject_transport_flags(given: &[bool; TRANSPORT_FLAGS]) -> (r: Result<(), String>)
    ensures
        ({
            let offenders = given_flags(given@, TRANSPORT_FLAGS as int);
            if offenders.len() == 0 {
                r is Ok
            } else {
                r is Err && r->Err_0@
                    == "install talks to a debug adapter (avrdude/probe-rs/...), never the updater wire — drop "@
                    + crate::text::join(offenders, ", "@)
            }
        }),
{
    let mut list = String::new();
    let mut any: bool = false;
    let mut i: usize = 0;
    while i < TRANSPORT_FLAGS
        invariant
            i <= TRANSPORT_FLAGS,
            any == (given_flags(given@, i as int).len() > 0),
            list@ == crate::text::join(given_flags(given@, i as int), ", "@),
        decreases TRANSPORT_FLAGS - i,
    {
        let ghost before = given_flags(given@, i as int);
        if given[i] {
            if any {
                list.append(", ");
            }
            list.append(transport_flag(i));
            any = true;
            proof {
                let after = given_flags(given@, i + 1);
                assert(after.drop_last() =~= before);
                assert(list@ =~= crate::text::join(after, ", "@));
            }
        }
        i = i + 1;
    }
    if !any {
        return Ok(());
    }
    let mut out: String = String::from_str(
        "install talks to a debug adapter (avrdude/probe-rs/...), never the updater wire — drop ",
    );
    out.append(list.as_str());
    Err(out)
}

/// The value of a digit in base `radix`.
pub open spec fn digit_in(c: char, radix: int) -> Option<int> {
    match crate::hex::digit_value(c) {
        Some(d) => if d < radix {
            Some(d as int)
        } else {
            None
        },
        None => None,
    }
}

/// The number that digits stand for.
pub open spec fn digits_value(s: Seq<char>, radix: int) -> Option<int>
    decreases s.len(),
{
    if s.len() == 0 {
        Some(0)
    } else {
        match (digits_value(s.drop_last(), radix), digit_in(s.last(), radix)) {
            (Some(v), Some(d)) => Some(v * radix + d),
            _ => None,
        }
    }
}

/// The 16-bit number that text stands for: at least one digit, perhaps behind
/// a plus sign.
pub open spec fn number(s: Seq<char>, radix: int) -> Option<int> {
    let digits = if s.len() > 0 && s[0] == '+' {
        s.skip(1)
    } else {
        s
    };
    match digits_value(digits, radix) {
        Some(v) => if digits.len() > 0 && v <= u16::MAX {
            Some(v)
        } else {
            None
        },
        None => None,
    }
}

/// More digits never make a number smaller.
proof fn lemma_digits_grow(s: Seq<char>, n: int, radix: int)
    requires
        0 <= n <= s.len(),
        radix >= 1,
        digits_value(s.take(n), radix) matches Some(v) ==> v >= 0,
    ensures
        digits_value(s.take(n), radix) is None ==> digits_value(s, radix) is None,
        digits_value(s, radix) matches Some(v) ==> v >= digits_value(s.take(n), radix)->0,
    decreases s.len(),
{
    if n == s.len() {
        assert(s.take(n) =~= s);
    } else {
        let head = s.drop_last();
        assert(head.take(n) =~= s.take(n));
        lemma_digits_grow(head, n, radix);
        if let Some(v) = digits_value(head, radix) {
            assert(v * radix >= v) by (nonlinear_arith)
                requires
                    v >= 0,
                    radix >= 1,
            ;
        }
    }
}

/// Reads `chars[from..]` as a 16-bit number in base `radix`.
fn read_number(chars: &Vec<char>, from: usize, radix: u32) -> (r: Option<u16>)
    requires
        from <= chars@.len(),
        radix == 10 || radix == 16,
    ensures
        match number(chars@.skip(from as int), radix as int) {
            Some(v) => r is Some && r->0 == v,
            None => r is None,
        },
{
    let ghost text = chars@.skip(from as int);
    let start: usize = if from < chars.len() && chars[from] == '+' {
        from + 1
    } else {
        from
    };
    let ghost digits = chars@.skip(start as int);
    proof {
        if start > from {
            assert(text.skip(1) =~= digits);
        }
    }
    if start == chars.len() {
        return None;
    }
    let mut value: u32 = 0;
    let mut i: usize = start;
    proof {
        assert(digits.take(0) =~= Seq::<char>::empty());
    }
    while i < chars.len()
        invariant
            start <= i <= chars@.len(),
            start < chars@.len(),
            radix == 10 || radix == 16,
            digits == chars@.skip(start as int),
            value <= u16::MAX,
            digits_value(digits.take(i - start), radix as int) == Some(value as int),
            number(text, radix as int) == (match digits_value(digits, radix as int) {
                Some(v) => if v <= u16::MAX {
                    Some(v)
                } else {
                    None
                },
                None => None,
            }),
            text == chars@.skip(from as int),
        decreases chars@.len() - i,
    {
        let ghost head = digits.take(i - start + 1);
        proof {
            assert(head.drop_last() =~= digits.take(i - start));
            assert(head.last() == chars@[i as int]);
        }
        match hex_digit(chars[i]) {
            None => {
                proof {
                    lemma_digits_grow(digits, i - start + 1, radix as int);
                }
                return None;
            },
            Some(d) => {
                if d as u32 >= radix {
                    proof {
                        lemma_digits_grow(digits, i - start + 1, radix as int);
                    }
                    return None;
                }
                value = value * radix + d as u32;
                if value > 0xFFFF {
                    proof {
                        lemma_digits_grow(digits, i - start + 1, radix as int);
                    }
                    return None;
                }
            },
        }
        i = i + 1;
    }
    proof {
        assert(digits.take(i - start) =~= digits);
    }
    Some(value as u16)
}

/// The number that an address argument stands for: hex behind `0x` or `0X`,
/// decimal otherwise.
pub open spec fn addr_value(s: Seq<char>) -> Option<int> {
    if s.len() >= 2 && s[0] == '0' && (s[1] == 'x' || s[1] == 'X') {
        number(s.skip(2), 16)
    } else {
        number(s, 10)
    }
}

/// Parses a 7-bit I2C address, decimal or hex behind `0x`.
///
/// # Errors
///
/// Says so if the text is no 16-bit number, or if the number is wider than
/// seven bits.
pub fn parse_addr(s: &str) -> (r: Result<u16, String>)
    ensures
        match addr_value(s@) {
            None => r is Err && r->Err_0@ == "not a number: "@ + crate::text::debug_text(s@),
            Some(v) => if v > 0x7F {
                r is Err && r->Err_0@ == crate::text::hex_prefixed(v as nat)
                    + " is not a 7-bit I2C address"@
            } else {
                r is Ok && r->Ok_0 == v
            },
        },
{
    let chars: Vec<char> = chars_of(s);
    let prefixed: bool = chars.len() >= 2 && chars[0] == '0' && (chars[1] == 'x' || chars[1]
        == 'X');
    let value: Option<u16> = if prefixed {
        read_number(&chars, 2, 16)
    } else {
        proof {
            assert(chars@.skip(0) =~= s@);
        }
        read_number(&chars, 0, 10)
    };
    match value {
        None => {
            let mut out = String::from_str("not a number: ");
            out.append(debug_str(s).as_str());
            Err(out)
        },
        Some(v) => {
            if v > 0x7F {
                let mut out = String::new();
                push_hex_prefixed(&mut out, v as u32);
                out.append(" is not a 7-bit I2C address");
                proof {
                    assert(out@ =~= crate::text::hex_prefixed(v as nat)
                        + " is not a 7-bit I2C address"@);
                }
                Err(out)
            } else {
                Ok(v)
            }
        },
    }
}

/// Text without any of its white space.
pub open spec fn compact(s: Seq<char>) -> Seq<char>
    decreases s.len(),
{
    if s.len() == 0 {
        seq![]
    } else if crate::text::whitespace(s.last()) {
        compact(s.drop_last())
    } else {
        compact(s.drop_last()).push(s.last())
    }
}

/// Parses bytes in hex; white space between the digits does not matter.
///
/// # Errors
///
/// As [`decode_hex`], for the text without white space.
pub fn parse_hex_bytes(s: &str) -> (r: Result<Vec<u8>, HexError>)
    ensures
        match crate::hex::decoded(compact(s@)) {
            Ok(bytes) => r is Ok && r->Ok_0@ == bytes,
            Err(e) => r is Err && r->Err_0@ == e,
        },
        r is Ok <==> crate::hex::is_hex_text(compact(s@)),
        r matches Ok(bytes) ==> bytes@ == crate::hex::hex_bytes(compact(s@)),
{
    let chars: Vec<char> = chars_of(s);
    let mut clean = String::new();
    let mut i: usize = 0;
    proof {
        assert(s@.take(0) =~= Seq::<char>::empty());
    }
    while i < chars.len()
        invariant
            i <= chars@.len(),
            chars@ == s@,
            clean@ == compact(s@.take(i as int)),
        decreases chars@.len() - i,
    {
        proof {
            assert(s@.take(i + 1).drop_last() =~= s@.take(i as int));
        }
        if !is_whitespace(chars[i]) {
            clean.push(chars[i]);
        }
        i = i + 1;
    }
    proof {
        assert(s@.take(i as int) =~= s@);
    }
    decode_hex(clean.as_str())
}

/// Why an echo payload is not accepted.
#[derive(Debug)]
pub enum EchoDataError<H = HexError> {
    /// It is not in hex.
    Digits(H),
    /// It is empty or too long.
    Length {
        /// Bytes given.
        given: usize,
    },
}

impl View for EchoDataError {
    type V = EchoDataError<crate::hex::HexErrorSpec>;

    open spec fn view(&self) -> EchoDataError<crate::hex::HexErrorSpec> {
        match self {
            EchoDataError::Digits(e) => EchoDataError::Digits(e@),
            EchoDataError::Length { given } => EchoDataError::Length { given: *given },
        }
    }
}

/// What [`EchoDataError::message`] says.
pub open spec fn echo_data_message(e: EchoDataError<crate::hex::HexErrorSpec>) -> Seq<char> {
    match e {
        EchoDataError::Digits(e) => "--data must be hex digits: "@ + crate::hex::message_of(
            e,
            "invalid hex byte "@,
        ),
        EchoDataError::Length { given } => "--data must be 1..=16 bytes ("@
            + crate::text::decimal(given as nat) + " given)"@,
    }
}

impl EchoDataError {
    /// The error in words.
    pub fn message(&self) -> (r: String)
        ensures
            r@ == echo_data_message(self@),
    {
        let mut out = String::new();
        match self {
            EchoDataError::Digits(e) => {
                out.append("--data must be hex digits: ");
                out.append(e.message("invalid hex byte ").as_str());
            },
            EchoDataError::Length { given } => {
                out.append("--data must be 1..=16 bytes (");
                push_decimal(&mut out, *given as u64);
                out.append(" given)");
            },
        }
        proof {
            assert(out@ =~= echo_data_message(self@));
        }
        out
    }
}

/// What an echo payload comes to.
pub open spec fn echo_data(s: Seq<char>) -> Result<
    Seq<u8>,
    EchoDataError<crate::hex::HexErrorSpec>,
> {
    match crate::hex::decoded(compact(s)) {
        Err(e) => Err(EchoDataError::Digits(e)),
        Ok(bytes) => if 1 <= bytes.len() <= ECHO_MAX {
            Ok(bytes)
        } else {
            Err(EchoDataError::Length { given: bytes.len() as usize })
        },
    }
}

/// Parses the payload of an echo: one to sixteen bytes in hex.
///
/// # Errors
///
/// See [`EchoDataError`].
pub fn parse_echo_data(s: &str) -> (r: Result<Vec<u8>, EchoDataError>)
    ensures
        match echo_data(s@) {
            Ok(bytes) => r is Ok && r->Ok_0@ == bytes,
            Err(e) => r is Err && r->Err_0@ == e,
        },
{
    match parse_hex_bytes(s) {
        Err(e) => Err(EchoDataError::Digits(e)),
        Ok(bytes) => {
            if bytes.len() == 0 || bytes.len() > ECHO_MAX {
                Err(EchoDataError::Length { given: bytes.len() })
            } else {
                Ok(bytes)
            }
        },
    }
}

/// Whether a file name extension says Intel HEX, in any mix of cases.
pub open spec fn says_hex(ext: Seq<char>) -> bool {
    &&& ext.len() == 3
    &&& ext[0] == 'h' || ext[0] == 'H'
    &&& ext[1] == 'e' || ext[1] == 'E'
    &&& ext[2] == 'x' || ext[2] == 'X'
}

/// Is a file with this extension Intel HEX? Anything else is a raw binary.
pub fn is_hex_extension(ext: Option<&str>) -> (r: bool)
    ensures
        r == (ext matches Some(e) && says_hex(e@)),
{
    match ext {
        None => false,
        Some(e) => {
            let c: Vec<char> = chars_of(e);
            c.len() == 3 && (c[0] == 'h' || c[0] == 'H') && (c[1] == 'e' || c[1] == 'E') && (c[2]
                == 'x' || c[2] == 'X')
        },
    }
}

impl DeviceInfo {
    /// Bytes in the app region.
    pub fn region_bytes(&self) -> (r: u32)
        ensures
            r == self.page_size * self.app_pages,
    {
        proof {
            assert(0 <= self.page_size * self.app_pages <= 0xFFFF * 0xFFFF) by (nonlinear_arith)
                requires
                    0 <= self.page_size <= 0xFFFF,
                    0 <= self.app_pages <= 0xFFFF,
            ;
        }
        self.page_size as u32 * self.app_pages as u32
    }

    /// Bytes of the app region that the footer leaves for an application.
    pub fn usable_bytes(&self) -> (r: u32)
        ensures
            r == (if self.page_size * self.app_pages >= FOOTER_LEN {
                self.page_size * self.app_pages - FOOTER_LEN
            } else {
                0
            }),
    {
        let region: u32 = self.region_bytes();
        if region >= FOOTER_LEN as u32 {
            region - FOOTER_LEN as u32
        } else {
            0
        }
    }
}

/// Digits in the order of their values, in both cases.
proof fn lemma_digit_in(c: char, radix: int)
    requires
        radix == 10 || radix == 16,
    ensures
        radix == 10 && "0123456789"@.contains(c) ==> digit_in(c, radix) == Some(
            "0123456789"@.index_of(c),
        ) && "0123456789"@.len() == 10,
        radix == 16 && "0123456789abcdef"@.contains(c) ==> digit_in(c, radix) == Some(
            "0123456789abcdef"@.index_of(c),
        ) && "0123456789abcdef"@.len() == 16,
{
    reveal_strlit("0123456789");
    reveal_strlit("0123456789abcdef");
    if "0123456789"@.contains(c) {
        let i = "0123456789"@.index_of(c);
        assert("0123456789"@[i] == c);
    }
    if "0123456789abcdef"@.contains(c) {
        let i = "0123456789abcdef"@.index_of(c);
        assert("0123456789abcdef"@[i] == c);
    }
}

/// Digits have the value that they read as.
proof fn lemma_digits_read(s: Seq<char>, radix: int)
    requires
        radix == 10 ==> forall|i: int|
            0 <= i < s.len() ==> "0123456789"@.contains(#[trigger] s[i]),
        radix == 16 ==> forall|i: int|
            0 <= i < s.len() ==> "0123456789abcdef"@.contains(#[trigger] s[i]),
        radix == 10 || radix == 16,
    ensures
        radix == 10 ==> digits_value(s, radix) == Some(
            crate::text::read_number(s, "0123456789"@),
        ),
        radix == 16 ==> digits_value(s, radix) == Some(
            crate::text::read_number(s, "0123456789abcdef"@),
        ),
    decreases s.len(),
{
    if s.len() > 0 {
        lemma_digits_read(s.drop_last(), radix);
        assert(s.last() == s[s.len() - 1]);
        lemma_digit_in(s.last(), radix);
    }
}

/// An address reads back as it is written, in base ten and behind `0x` in base
/// sixteen, as long as it fits 16 bits.
pub proof fn law_address_reads_back(n: nat)
    ensures
        addr_value(crate::text::decimal(n)) == (if n <= 0xFFFF {
            Some(n as int)
        } else {
            None
        }),
        addr_value("0x"@ + crate::text::hex(n)) == (if n <= 0xFFFF {
            Some(n as int)
        } else {
            None
        }),
        addr_value("0X"@ + crate::text::hex(n)) == addr_value("0x"@ + crate::text::hex(n)),
        addr_value("+"@ + crate::text::decimal(n)) == addr_value(crate::text::decimal(n)),
{
    reveal_strlit("0x");
    reveal_strlit("0X");
    reveal_strlit("+");
    reveal_strlit("0123456789");
    reveal_strlit("0123456789abcdef");
    let d = crate::text::decimal(n);
    let h = crate::text::hex(n);
    crate::text::law_decimal_reads_back(n);
    crate::text::law_hex_number_reads_back(n);
    lemma_digits_read(d, 10);
    lemma_digits_read(h, 16);
    assert("0123456789"@.contains(d[0]));
    assert("0123456789abcdef"@.contains(h[0]));
    assert(("0x"@ + h).skip(2) =~= h);
    assert(("0X"@ + h).skip(2) =~= h);
    assert(("+"@ + d).skip(1) =~= d);
    if d.len() >= 2 {
        assert("0123456789"@.contains(d[1]));
    }
}

/// Text that holds anything but digits is no address.
pub proof fn law_address_is_digits(s: Seq<char>, k: int)
    requires
        0 <= k < s.len(),
        !("0123456789abcdefABCDEF"@.contains(s[k])),
        !(k <= 1 && (s[k] == 'x' || s[k] == 'X')),
        s[k] != '+',
    ensures
        addr_value(s) is None,
{
    reveal_strlit("0123456789abcdefABCDEF");
    let t = "0123456789abcdefABCDEF"@;
    assert(crate::hex::digit_value(s[k]) is None) by {
        if crate::hex::digit_value(s[k]) is Some {
            let v = crate::hex::digit_value(s[k])->0 as int;
            assert(t[v] == s[k] || t[v + 6] == s[k]);
        }
    }
    let h = s.skip(2);
    if s.len() >= 2 && s[0] == '0' && (s[1] == 'x' || s[1] == 'X') {
        assert(k >= 2) by {
            assert(t[0] == '0');
        }
        assert(h[k - 2] == s[k]);
        if h.len() > 0 && h[0] == '+' {
            assert(h.skip(1)[k - 3] == s[k]);
            lemma_no_digits(h.skip(1), k - 3, 16);
        } else {
            lemma_no_digits(h, k - 2, 16);
        }
    } else if s[0] == '+' {
        assert(s.skip(1)[k - 1] == s[k]);
        lemma_no_digits(s.skip(1), k - 1, 10);
    } else {
        lemma_no_digits(s, k, 10);
    }
}

/// One character that is no digit is enough.
proof fn lemma_no_digits(s: Seq<char>, k: int, radix: int)
    requires
        0 <= k < s.len(),
        digit_in(s[k], radix) is None,
    ensures
        digits_value(s, radix) is None,
    decreases s.len(),
{
    if k < s.len() - 1 {
        lemma_no_digits(s.drop_last(), k, radix);
    }
}

/// White space is left out wherever it stands and nothing else is: what is
/// left of two texts one behind the other is what is left of each.
pub proof fn law_compacting(a: Seq<char>, b: Seq<char>, c: char)
    ensures
        compact(a + b) == compact(a) + compact(b),
        compact(seq![c]) == (if crate::text::whitespace(c) {
            seq![]
        } else {
            seq![c]
        }),
    decreases b.len(),
{
    assert(seq![c].drop_last() =~= seq![]);
    assert(compact(seq![c].drop_last()) =~= seq![]);
    if b.len() == 0 {
        assert(a + b =~= a);
        assert(compact(a) + compact(b) =~= compact(a));
    } else {
        law_compacting(a, b.drop_last(), c);
        assert((a + b).drop_last() =~= a + b.drop_last());
        assert(compact(a + b) =~= compact(a) + compact(b));
    }
}

/// An echo payload is accepted if and only if what is left without white space
/// is hex for one to sixteen bytes; these are the payload. Hex for any other
/// number is told that number.
pub proof fn law_echo_data(s: Seq<char>, bytes: Seq<u8>)
    ensures
        echo_data(s) == Ok::<Seq<u8>, EchoDataError<crate::hex::HexErrorSpec>>(bytes) <==> 1
            <= bytes.len() <= 16 && crate::hex::decoded(compact(s)) == Ok::<
            Seq<u8>,
            crate::hex::HexErrorSpec,
        >(bytes),
        crate::hex::decoded(compact(s)) == Ok::<Seq<u8>, crate::hex::HexErrorSpec>(bytes) && (
        bytes.len() == 0 || bytes.len() > 16) && bytes.len() <= usize::MAX ==> (echo_data(
            s,
        ) matches Err(EchoDataError::Length { given }) && given == bytes.len()),
{
}

/// The attempts that an erase gets are enough for ten milliseconds per page,
/// and one fewer would not be.
pub proof fn law_erase_attempts_are_tight(app_pages: u16, delay_ms: u32)
    ensures
        ({
            let n = erase_attempts_needed(app_pages, delay_ms);
            let d = if delay_ms == 0 {
                1
            } else {
                delay_ms as int
            };
            &&& n * d >= 10 * app_pages
            &&& n > 0 ==> (n - 1) * d < 10 * app_pages
            &&& n >= 0
        }),
{
    let d: int = if delay_ms == 0 {
        1
    } else {
        delay_ms as int
    };
    let t: int = 10 * app_pages;
    if delay_ms > 1 {
        let x = t + d - 1;
        let n = x / d;
        vstd::arithmetic::div_mod::lemma_fundamental_div_mod(x, d);
        assert(0 <= x % d < d);
        assert(d * n == n * d && (n - 1) * d == n * d - d) by (nonlinear_arith);
        assert(n >= 0) by (nonlinear_arith)
            requires
                n == x / d,
                x >= 0,
                d > 0,
        ;
    } else {
        assert(t * d == t && (t - 1) * d == t - 1) by (nonlinear_arith)
            requires
                d == 1,
        ;
    }
}

/// The flags that were given are listed, no others, and in the fixed order.
pub proof fn law_given_flags_are_listed(given: Seq<bool>, n: int, k: int)
    requires
        0 <= n <= 11,
        0 <= k < n,
    ensures
        given[k] <==> given_flags(given, n).contains(transport_flags()[k]),
        forall|a: int, b: int|
            0 <= a < b < given_flags(given, n).len() ==> transport_flags().index_of(
                #[trigger] given_flags(given, n)[a],
            ) < transport_flags().index_of(#[trigger] given_flags(given, n)[b]),
{
    lemma_given_flags(given, n);
    let list = given_flags(given, n);
    let all = transport_flags();
    if given[k] {
        let a = choose|a: int| 0 <= a < list.len() && list[a] == all[k];
        assert(list.contains(all[k]));
    }
    if list.contains(all[k]) {
        let a = choose|a: int| 0 <= a < list.len() && list[a] == all[k];
        assert(all.index_of(list[a]) == k) by {
            lemma_flags_differ(k);
        }
    }
}

/// No two flags are the same.
proof fn lemma_flags_differ(k: int)
    requires
        0 <= k < 11,
    ensures
        transport_flags().index_of(transport_flags()[k]) == k,
        transport_flags().len() == 11,
{
    reveal_strlit("--transport");
    reveal_strlit("--bus");
    reveal_strlit("--addr");
    reveal_strlit("--dev");
    reveal_strlit("--baud");
    reveal_strlit("--speed-hz");
    reveal_strlit("--chip");
    reveal_strlit("--pin-tx");
    reveal_strlit("--pin-rx");
    reveal_strlit("--poll-attempts");
    reveal_strlit("--poll-delay-ms");
    let all = transport_flags();
    let i = all.index_of(all[k]);
    assert(all.contains(all[k]));
    assert(0 <= i < 11 && all[i] == all[k]);
    assert(all[i].len() == all[k].len());
    assert(all[i][2] == all[k][2]);
    assert(all[i][3] == all[k][3]);
    if all[k].len() == 8 {
        assert(all[i][6] == all[k][6]);
    }
    if i != k {
        assert(all[i][7] == all[k][7]);
    }
}

/// Where each of the listed flags comes from.
proof fn lemma_given_flags(given: Seq<bool>, n: int)
    requires
        0 <= n <= 11,
    ensures
        forall|k: int|
            0 <= k < n && given[k] ==> exists|a: int|
                0 <= a < given_flags(given, n).len() && given_flags(given, n)[a]
                    == #[trigger] transport_flags()[k],
        forall|a: int|
            0 <= a < given_flags(given, n).len() ==> {
                let i = transport_flags().index_of(#[trigger] given_flags(given, n)[a]);
                0 <= i < n && given[i]
            },
        forall|a: int, b: int|
            0 <= a < b < given_flags(given, n).len() ==> transport_flags().index_of(
                #[trigger] given_flags(given, n)[a],
            ) < transport_flags().index_of(#[trigger] given_flags(given, n)[b]),
    decreases n,
{
    if n > 0 {
        let head = given_flags(given, n - 1);
        let list = given_flags(given, n);
        let all = transport_flags();
        lemma_given_flags(given, n - 1);
        lemma_flags_differ(n - 1);
        assert forall|k: int| 0 <= k < n && given[k] implies exists|a: int|
            0 <= a < list.len() && list[a] == #[trigger] all[k] by {
            if k < n - 1 {
                let a = choose|a: int| 0 <= a < head.len() && head[a] == all[k];
                assert(list[a] == head[a]);
            } else {
                assert(list[list.len() - 1] == all[k]);
            }
        }
        assert forall|a: int| 0 <= a < list.len() implies {
            let i = all.index_of(#[trigger] list[a]);
            0 <= i < n && given[i]
        } by {
            if a < head.len() {
                assert(list[a] == head[a]);
            }
        }
        assert forall|a: int, b: int| 0 <= a < b < list.len() implies all.index_of(
            #[trigger] list[a],
        ) < all.index_of(#[trigger] list[b]) by {
            assert(list[a] == head[a]);
            if b < head.len() {
                assert(list[b] == head[b]);
            }
        }
    }
}

/// Which wire flags ask for: that of the transport they name, with its own
/// settings and no others; only an unusual baud rate and lines that are not
/// two different ones are refused.
pub proof fn law_wire_of_flags(a: WireArgs<Seq<char>>)
    ensures
        a.transport is I2c ==> (spec_of(a) matches Ok(TransportSpec::I2c { bus, addr }) && bus
            == a.bus && addr == a.addr),
        a.transport is Uart ==> {
            let known = a.baud == 9600 || a.baud == 19200 || a.baud == 38400 || a.baud == 57600
                || a.baud == 115200 || a.baud == 230400;
            &&& known ==> (spec_of(a) matches Ok(TransportSpec::Uart { dev, baud }) && baud == a.baud
                && dev == a.dev.unwrap_or("/dev/ttyUSB0"@))
            &&& !known ==> (spec_of(a) matches Err(SpecError::Baud { baud }) && baud == a.baud)
        },
        a.transport is Spi ==> (spec_of(a) matches Ok(TransportSpec::Spi { dev, speed_hz })
            && speed_hz == a.speed_hz && dev == a.dev.unwrap_or("/dev/spidev0.0"@)),
        a.transport is Gpio ==> {
            &&& (a.pin_tx is None || a.pin_rx is None) ==> (spec_of(a) matches Err(
                SpecError::PinsMissing { chip },
            ) && chip == a.chip)
            &&& (a.pin_tx is Some && a.pin_tx == a.pin_rx) ==> (spec_of(a) matches Err(
                SpecError::SamePins { pin },
            ) && Some(pin) == a.pin_tx)
            &&& (a.pin_tx is Some && a.pin_rx is Some && a.pin_tx != a.pin_rx) ==> (spec_of(
                a,
            ) matches Ok(TransportSpec::Gpio { chip, pin_tx, pin_rx }) && chip == a.chip && Some(
                pin_tx,
            ) == a.pin_tx && Some(pin_rx) == a.pin_rx)
        },
{
    let l = SUPPORTED_BAUDS@;
    assert(l[0] == 9600 && l[1] == 19200 && l[2] == 38400 && l[3] == 57600 && l[4] == 115200
        && l[5] == 230400);
    if l.contains(a.baud) {
        let i = choose|i: int| 0 <= i < l.len() && l[i] == a.baud;
        assert(0 <= i < 6);
    }
}

/// A description says the number that tells its wire from others of the kind:
/// the speed in base ten, and the address in base sixteen.
pub proof fn law_descriptions_say_the_numbers(
    name: Seq<char>,
    addr: u8,
    n: u32,
    pin_tx: u32,
    pin_rx: u32,
)
    ensures
        crate::text::says_number(
            description(TransportSpec::Uart { dev: name, baud: n }),
            name + " @ "@,
            n as int,
            " baud"@,
        ),
        crate::text::says_number(
            description(TransportSpec::Spi { dev: name, speed_hz: n }),
            name + " @ "@,
            n as int,
            " Hz"@,
        ),
        crate::text::says_number(
            description(TransportSpec::Gpio { chip: name, pin_tx, pin_rx }),
            name + " tx="@,
            pin_tx as int,
            " rx="@ + crate::text::decimal(pin_rx as nat) + " @ 9600 baud"@,
        ),
{
    crate::text::lemma_says_number(
        description(TransportSpec::Uart { dev: name, baud: n }),
        name + " @ "@,
        n as nat,
        " baud"@,
    );
    crate::text::lemma_says_number(
        description(TransportSpec::Spi { dev: name, speed_hz: n }),
        name + " @ "@,
        n as nat,
        " Hz"@,
    );
    let back = " rx="@ + crate::text::decimal(pin_rx as nat) + " @ 9600 baud"@;
    let gpio = description(TransportSpec::Gpio { chip: name, pin_tx, pin_rx });
    assert(gpio =~= name + " tx="@ + crate::text::decimal(pin_tx as nat) + back);
    crate::text::lemma_says_number(gpio, name + " tx="@, pin_tx as nat, back);
}

/// Intel HEX is what the three letters of `hex` say, each in either case.
pub proof fn law_hex_in_any_case(ext: Seq<char>)
    ensures
        says_hex(ext) <==> ext.len() == "hex"@.len() && forall|i: int|
            0 <= i < ext.len() ==> (#[trigger] ext[i]) == "hex"@[i] || ext[i] == "HEX"@[i],
{
    reveal_strlit("hex");
    reveal_strlit("HEX");
    if says_hex(ext) {
        assert forall|i: int| 0 <= i < ext.len() implies (#[trigger] ext[i]) == "hex"@[i] || ext[i]
            == "HEX"@[i] by {
            assert(i == 0 || i == 1 || i == 2);
        }
    }
}

} // verus!
