//! Soft UART: bit-banged 9600-baud 8N1 on two pins.
//!
//! A UART receiver has no clock line; every sample time derives from the
//! falling edge of the start bit. The edge is found by sampling every poll
//! interval; 1.5 bit times later is the centre of data bit 0, each further
//! bit one bit time later, least significant first, and the stop bit at 9.5
//! bit times. A byte whose stop bit reads low is dropped after a bounded wait
//! for the line to return to mark, so that a break never cascades into
//! phantom start bits.
//!
//! The poll interval is also the latency of the edge detection: keep it well
//! under half a bit time.

use vstd::prelude::*;
use vstd::string::*;

use crate::adapters::{Bound, Counter, DEFAULT_SCAN_LIMIT};
use crate::stream::{RxScanner, Scan, SYNC};
use crate::text::push_decimal;

verus! {

/// Nominal 9600-baud bit time in nanoseconds.
pub const SOFTUART_BIT_NS: u32 = 104_167;

/// Half a bit time.
pub const HALF_BIT_NS: u32 = SOFTUART_BIT_NS / 2;

/// Start-bit edge to the centre of data bit 0.
pub const BIT_1_5_NS: u32 = SOFTUART_BIT_NS + HALF_BIT_NS;

/// Default start-edge poll budget: with the default interval a window of
/// about one second. An erase of a large region needs a wider one.
pub const DEFAULT_SOFTUART_POLL_ATTEMPTS: u32 = 500_000;

/// Default sampling interval while idle: 2 us.
pub const DEFAULT_SOFTUART_POLL_INTERVAL_NS: u32 = 2_000;

/// Samples spent at most on waiting for mark after a framing error.
pub const MARK_SAMPLES: u8 = 20;

/// What went wrong on the pins.
#[derive(Debug, Clone, Copy, PartialEq, Eq)]
pub enum SoftUartTransportError<TE, RE> {
    /// Driving the TX pin failed.
    Tx(TE),
    /// Sampling the RX pin failed.
    Rx(RE),
    /// The poll budget ran out with the line idle.
    Exhausted {
        /// Number of idle samples taken.
        attempts: u32,
    },
    /// The scan budget ran out: bytes keep arriving but no valid frame.
    Desync {
        /// Bytes without a frame, framing errors among them.
        scanned: u32,
    },
}

/// What [`SoftUartTransportError::message`] says, given the pin's own error.
pub open spec fn message_of<TE, RE>(
    e: SoftUartTransportError<TE, RE>,
    pin: Seq<char>,
) -> Seq<char> {
    match e {
        SoftUartTransportError::Tx(_) => "softuart tx pin failed: "@ + pin,
        SoftUartTransportError::Rx(_) => "softuart rx pin failed: "@ + pin,
        SoftUartTransportError::Exhausted { attempts } => "line stayed idle for "@
            + crate::text::decimal(attempts as nat)
            + " sample(s) — is the device in the bootloader? if this was erase/flash, it may still be erasing — widen the poll budget (`with_poll`)"@,
        SoftUartTransportError::Desync { scanned } => "no valid frame in "@
            + crate::text::decimal(scanned as nat)
            + " received byte(s) — noise, or wrong pins?"@,
    }
}

impl<TE, RE> SoftUartTransportError<TE, RE> {
    /// The error in words; `pin` is the rendered error of the pin that it
    /// carries, if any.
    pub fn message(&self, pin: &str) -> (r: String)
        ensures
            r@ == message_of(*self, pin@),
    {
        let mut out = String::new();
        match self {
            SoftUartTransportError::Tx(_) => {
                out.append("softuart tx pin failed: ");
                out.append(pin);
            },
            SoftUartTransportError::Rx(_) => {
                out.append("softuart rx pin failed: ");
                out.append(pin);
            },
            SoftUartTransportError::Exhausted { attempts } => {
                out.append("line stayed idle for ");
                push_decimal(&mut out, *attempts as u64);
                out.append(
                    " sample(s) — is the device in the bootloader? if this was erase/flash, it may still be erasing — widen the poll budget (`with_poll`)",
                );
            },
            SoftUartTransportError::Desync { scanned } => {
                out.append("no valid frame in ");
                push_decimal(&mut out, *scanned as u64);
                out.append(" received byte(s) — noise, or wrong pins?");
            },
        }
        proof {
            assert(out@ =~= message_of(*self, pin@));
        }
        out
    }
}

/// The budgets of a soft UART adapter.
pub ghost struct SoftUartBudget {
    /// Idle samples at most.
    pub poll_attempts: u32,
    /// Nanoseconds between two idle samples.
    pub poll_interval_ns: u32,
    /// Bytes without a frame at most.
    pub scan_limit: u32,
}

/// The two pins, the delay that all timing rests on, and the budgets.
#[derive(Debug)]
pub struct SoftUartTransport<Tx, Rx, D> {
    tx: Tx,
    rx: Rx,
    delay: D,
    poll_attempts: Bound,
    poll_interval_ns: u32,
    scan_limit: Bound,
}

impl<Tx, Rx, D> SoftUartTransport<Tx, Rx, D> {
    /// The TX pin.
    pub closed spec fn tx(self) -> Tx {
        self.tx
    }

    /// The RX pin.
    pub closed spec fn rx(self) -> Rx {
        self.rx
    }

    /// The delay.
    pub closed spec fn delay(self) -> D {
        self.delay
    }

    /// The budgets.
    pub closed spec fn budget(self) -> SoftUartBudget {
        SoftUartBudget {
            poll_attempts: self.poll_attempts.value(),
            poll_interval_ns: self.poll_interval_ns,
            scan_limit: self.scan_limit.value(),
        }
    }

    /// Wraps the pins and the delay with the default budgets. Configure TX as
    /// output-high and RX as an input before.
    pub fn new(tx: Tx, rx: Rx, delay: D) -> (r: Self)
        ensures
            r.tx() == tx,
            r.rx() == rx,
            r.delay() == delay,
            r.budget() == (SoftUartBudget {
                poll_attempts: DEFAULT_SOFTUART_POLL_ATTEMPTS,
                poll_interval_ns: DEFAULT_SOFTUART_POLL_INTERVAL_NS,
                scan_limit: DEFAULT_SCAN_LIMIT,
            }),
    {
        SoftUartTransport {
            tx,
            rx,
            delay,
            poll_attempts: Bound::new(DEFAULT_SOFTUART_POLL_ATTEMPTS),
            poll_interval_ns: DEFAULT_SOFTUART_POLL_INTERVAL_NS,
            scan_limit: Bound::new(DEFAULT_SCAN_LIMIT),
        }
    }

    /// Overrides the idle poll budget: up to `attempts` samples (at least
    /// one), `interval_ns` apart.
    #[must_use]
    pub fn with_poll(self, attempts: u32, interval_ns: u32) -> (r: Self)
        ensures
            r.tx() == self.tx(),
            r.rx() == self.rx(),
            r.delay() == self.delay(),
            r.budget() == (SoftUartBudget {
                poll_attempts: crate::adapters::at_least_one(attempts),
                poll_interval_ns: interval_ns,
                ..self.budget()
            }),
    {
        let mut t: Self = self;
        t.set_poll(attempts, interval_ns);
        t
    }

    /// Re-tunes the poll budget on a live transport, with the same floor as
    /// [`SoftUartTransport::with_poll`].
    pub fn set_poll(&mut self, attempts: u32, interval_ns: u32)
        ensures
            final(self).tx() == old(self).tx(),
            final(self).rx() == old(self).rx(),
            final(self).delay() == old(self).delay(),
            final(self).budget() == (SoftUartBudget {
                poll_attempts: crate::adapters::at_least_one(attempts),
                poll_interval_ns: interval_ns,
                ..old(self).budget()
            }),
    {
        self.poll_attempts = Bound::new(attempts);
        self.poll_interval_ns = interval_ns;
    }

    /// Overrides the babble bound: bytes without a frame tolerated per
    /// request (at least one).
    #[must_use]
    pub fn with_scan_limit(self, bytes: u32) -> (r: Self)
        ensures
            r.tx() == self.tx(),
            r.rx() == self.rx(),
            r.delay() == self.delay(),
            r.budget() == (SoftUartBudget {
                scan_limit: crate::adapters::at_least_one(bytes),
                ..self.budget()
            }),
    {
        let mut t: Self = self;
        t.scan_limit = Bound::new(bytes);
        t
    }

    /// Takes the pins and the delay back.
    pub fn release(self) -> (r: (Tx, Rx, D))
        ensures
            r.0 == self.tx(),
            r.1 == self.rx(),
            r.2 == self.delay(),
    {
        (self.tx, self.rx, self.delay)
    }

    /// The pins and the delay, to perform an exchange with.
    pub fn parts(&mut self) -> (r: (&mut Tx, &mut Rx, &mut D))
        ensures
            *r.0 == old(self).tx(),
            *r.1 == old(self).rx(),
            *r.2 == old(self).delay(),
            final(self).tx() == *final(r.0),
            final(self).rx() == *final(r.1),
            final(self).delay() == *final(r.2),
            final(self).budget() == old(self).budget(),
    {
        (&mut self.tx, &mut self.rx, &mut self.delay)
    }

    /// The receiving half of one exchange, from its first sample on.
    pub fn receiver(&self) -> (r: SoftUartReceiver)
        ensures
            r.budget() == self.budget(),
            r@ == (SoftUartState {
                phase: RxPhase::Idle,
                scan: crate::stream::ScanState::Hunting,
                attempts: 0,
                junk: 0,
            }),
    {
        SoftUartReceiver {
            phase: RxPhase::Idle,
            scanner: RxScanner::new(),
            attempts: Counter::new(self.poll_attempts),
            junk: Counter::new(self.scan_limit),
            poll_interval_ns: self.poll_interval_ns,
        }
    }
}

/// One byte on the line, bit by bit: start bit, eight data bits from the
/// least significant on, stop bit. A level is `true` for mark.
pub open spec fn byte_levels(byte: u8) -> Seq<bool> {
    Seq::new(
        10,
        |k: int|
            if k == 0 {
                false
            } else if k == 9 {
                true
            } else {
                data_bit(byte, (k - 1) as u8)
            },
    )
}

/// Data bit `i` of a byte.
pub open spec fn data_bit(byte: u8, i: u8) -> bool {
    (byte >> i) & 1 != 0
}

/// A request on the line, bit by bit: one bit of mark, so that the start edge
/// is clean, then the sync byte and the frame back to back.
pub open spec fn request_levels(req: Seq<u8>) -> Seq<bool> {
    let bytes = seq![SYNC] + req;
    Seq::new(
        1 + 10 * bytes.len(),
        |k: int|
            if k == 0 {
                true
            } else {
                byte_levels(bytes[(k - 1) / 10])[(k - 1) % 10]
            },
    )
}

/// The level to drive during bit `k` of a request, each for one bit time;
/// `None` after the last.
pub fn request_level(req: &[u8], k: usize) -> (r: Option<bool>)
    ensures
        r == (if k < request_levels(req@).len() {
            Some(request_levels(req@)[k as int])
        } else {
            None
        }),
{
    if k == 0 {
        return Some(true);
    }
    let at: usize = (k - 1) / 10;
    let bit: usize = (k - 1) % 10;
    if at > req.len() {
        return None;
    }
    let byte: u8 = if at == 0 {
        SYNC
    } else {
        req[at - 1]
    };
    proof {
        assert(byte == (seq![SYNC] + req@)[at as int]);
        assert(byte_levels(byte)[bit as int] == request_levels(req@)[k as int]);
    }
    if bit == 0 {
        Some(false)
    } else if bit == 9 {
        Some(true)
    } else {
        let shift: u8 = (bit - 1) as u8;
        Some((byte >> shift) & 1 != 0)
    }
}

/// What a sample of the RX pin is taken for.
#[derive(Debug, Clone, Copy, PartialEq, Eq)]
pub enum RxPhase {
    /// Waiting for a start edge.
    Idle,
    /// Reading a data bit.
    Data {
        /// Number of the bit.
        bit: u8,
        /// The bits read so far.
        byte: u8,
    },
    /// Reading the stop bit of a byte.
    Stop {
        /// The byte read.
        byte: u8,
    },
    /// Waiting for mark after a framing error.
    Mark {
        /// Samples left for that.
        left: u8,
    },
}

/// Where the receiving half of an exchange stands.
pub ghost struct SoftUartState {
    /// What the next sample is taken for.
    pub phase: RxPhase,
    /// What the scanner is doing.
    pub scan: crate::stream::ScanState,
    /// Idle samples so far.
    pub attempts: int,
    /// Bytes without a frame so far.
    pub junk: int,
}

/// What to do after a sample.
#[derive(Debug, PartialEq, Eq)]
pub struct RxStep<TE, RE> {
    /// Nanoseconds to wait first, if any.
    pub delay_ns: Option<u32>,
    /// Then: `None` to sample again, the length of the frame that is at the
    /// front of the receive buffer, or the error to give up with.
    pub outcome: Result<Option<usize>, SoftUartTransportError<TE, RE>>,
}

/// What a sample comes to.
pub ghost struct Sampled<TE, RE> {
    pub state: SoftUartState,
    pub buf: Seq<u8>,
    pub step: RxStep<TE, RE>,
}

/// Sampling goes on after that delay.
pub open spec fn go_on<TE, RE>(delay_ns: Option<u32>) -> RxStep<TE, RE> {
    RxStep { delay_ns, outcome: Ok(None) }
}

/// A byte without a frame: hunting for the next start edge, or giving up
/// once there were too many.
pub open spec fn junk_byte<TE, RE>(
    budget: SoftUartBudget,
    state: SoftUartState,
    buf: Seq<u8>,
    delay_ns: Option<u32>,
) -> Sampled<TE, RE> {
    Sampled {
        state: SoftUartState {
            phase: RxPhase::Idle,
            junk: crate::adapters::spent(state.junk, budget.scan_limit),
            ..state
        },
        buf,
        step: RxStep {
            delay_ns,
            outcome: if state.junk + 1 < budget.scan_limit {
                Ok(None)
            } else {
                Err(SoftUartTransportError::Desync { scanned: budget.scan_limit })
            },
        },
    }
}

/// A byte with a good stop bit.
pub open spec fn good_byte<TE, RE>(
    budget: SoftUartBudget,
    state: SoftUartState,
    byte: u8,
    buf: Seq<u8>,
) -> Sampled<TE, RE> {
    let p = crate::stream::pushed(state.scan, byte, buf);
    let next = SoftUartState { phase: RxPhase::Idle, scan: p.state, ..state };
    match p.scan {
        Scan::Done { len } => Sampled {
            state: next,
            buf: p.buf,
            step: RxStep { delay_ns: None, outcome: Ok(Some(len)) },
        },
        Scan::Frame => Sampled { state: next, buf: p.buf, step: go_on(None) },
        _ => junk_byte(budget, next, p.buf, None),
    }
}

/// What sampling the level `high` comes to.
pub open spec fn sampled<TE, RE>(
    budget: SoftUartBudget,
    state: SoftUartState,
    high: bool,
    buf: Seq<u8>,
) -> Sampled<TE, RE> {
    match state.phase {
        RxPhase::Idle => if high {
            Sampled {
                state: SoftUartState {
                    attempts: crate::adapters::spent(state.attempts, budget.poll_attempts),
                    ..state
                },
                buf,
                step: if state.attempts + 1 < budget.poll_attempts {
                    go_on(Some(budget.poll_interval_ns))
                } else {
                    RxStep {
                        delay_ns: None,
                        outcome: Err(
                            SoftUartTransportError::Exhausted { attempts: budget.poll_attempts },
                        ),
                    }
                },
            }
        } else {
            Sampled {
                state: SoftUartState { phase: RxPhase::Data { bit: 0, byte: 0 }, ..state },
                buf,
                step: go_on(Some(BIT_1_5_NS)),
            }
        },
        RxPhase::Data { bit, byte } => {
            let read = with_bit(byte, bit, high);
            Sampled {
                state: SoftUartState {
                    phase: if bit < 7 {
                        RxPhase::Data { bit: (bit + 1) as u8, byte: read }
                    } else {
                        RxPhase::Stop { byte: read }
                    },
                    ..state
                },
                buf,
                step: go_on(Some(SOFTUART_BIT_NS)),
            }
        },
        RxPhase::Stop { byte } => if high {
            good_byte(budget, state, byte, buf)
        } else {
            Sampled {
                state: SoftUartState { phase: RxPhase::Mark { left: MARK_SAMPLES }, ..state },
                buf,
                step: go_on(None),
            }
        },
        RxPhase::Mark { left } => if high {
            junk_byte(budget, state, buf, None)
        } else if left > 1 {
            Sampled {
                state: SoftUartState { phase: RxPhase::Mark { left: (left - 1) as u8 }, ..state },
                buf,
                step: go_on(Some(HALF_BIT_NS)),
            }
        } else {
            junk_byte(budget, state, buf, Some(HALF_BIT_NS))
        },
    }
}

/// A byte with one more data bit read.
pub open spec fn with_bit(byte: u8, bit: u8, high: bool) -> u8 {
    if high {
        byte | (1u8 << bit)
    } else {
        byte
    }
}

/// Decides after each sample of one exchange what comes next.
#[derive(Debug)]
pub struct SoftUartReceiver {
    phase: RxPhase,
    scanner: RxScanner,
    attempts: Counter,
    junk: Counter,
    poll_interval_ns: u32,
}

impl View for SoftUartReceiver {
    type V = SoftUartState;

    closed spec fn view(&self) -> SoftUartState {
        SoftUartState {
            phase: self.phase,
            scan: self.scanner@,
            attempts: self.attempts.count() as int,
            junk: self.junk.count() as int,
        }
    }
}

impl SoftUartReceiver {
    /// The budgets.
    pub closed spec fn budget(self) -> SoftUartBudget {
        SoftUartBudget {
            poll_attempts: self.attempts.limit(),
            poll_interval_ns: self.poll_interval_ns,
            scan_limit: self.junk.limit(),
        }
    }

    /// Counts a byte without a frame.
    fn junk<TE, RE>(&mut self, delay_ns: Option<u32>) -> (r: RxStep<TE, RE>)
        ensures
            final(self).budget() == old(self).budget(),
            forall|buf: Seq<u8>| #[trigger]
                junk_byte::<TE, RE>(old(self).budget(), old(self)@, buf, delay_ns) == (Sampled {
                    state: final(self)@,
                    buf,
                    step: r,
                }),
    {
        self.phase = RxPhase::Idle;
        let outcome: Result<Option<usize>, SoftUartTransportError<TE, RE>> =
            match self.junk.spend() {
            None => Ok(None),
            Some(scanned) => Err(SoftUartTransportError::Desync { scanned }),
        };
        RxStep { delay_ns, outcome }
    }

    /// Takes one sample of the RX pin; frame bytes land at the front of
    /// `rsp`.
    ///
    /// The outcome is [`SoftUartTransportError::Exhausted`] once the poll
    /// budget is spent on idle samples, and
    /// [`SoftUartTransportError::Desync`] once the scan limit is reached by
    /// bytes without a frame.
    pub fn sample<TE, RE>(&mut self, high: bool, rsp: &mut [u8]) -> (r: RxStep<TE, RE>)
        ensures
            final(self).budget() == old(self).budget(),
            (Sampled { state: final(self)@, buf: final(rsp)@, step: r }) == sampled::<TE, RE>(
                old(self).budget(),
                old(self)@,
                high,
                old(rsp)@,
            ),
    {
        match self.phase {
            RxPhase::Idle => {
                if high {
                    match self.attempts.spend() {
                        None => RxStep {
                            delay_ns: Some(self.poll_interval_ns),
                            outcome: Ok(None),
                        },
                        Some(attempts) => RxStep {
                            delay_ns: None,
                            outcome: Err(SoftUartTransportError::Exhausted { attempts }),
                        },
                    }
                } else {
                    self.phase = RxPhase::Data { bit: 0, byte: 0 };
                    RxStep { delay_ns: Some(BIT_1_5_NS), outcome: Ok(None) }
                }
            },
            RxPhase::Data { bit, byte } => {
                let read: u8 = if high && bit < 8 {
                    byte | (1u8 << bit)
                } else {
                    byte
                };
                proof {
                    assert(bit >= 8 ==> byte | (1u8 << bit) == byte) by (bit_vector);
                }
                if bit < 7 {
                    self.phase = RxPhase::Data { bit: bit + 1, byte: read };
                } else {
                    self.phase = RxPhase::Stop { byte: read };
                }
                RxStep { delay_ns: Some(SOFTUART_BIT_NS), outcome: Ok(None) }
            },
            RxPhase::Stop { byte } => {
                if high {
                    self.phase = RxPhase::Idle;
                    let scan: Scan = self.scanner.push(byte, rsp);
                    match scan {
                        Scan::Done { len } => RxStep { delay_ns: None, outcome: Ok(Some(len)) },
                        Scan::Frame => RxStep { delay_ns: None, outcome: Ok(None) },
                        _ => self.junk(None),
                    }
                } else {
                    self.phase = RxPhase::Mark { left: MARK_SAMPLES };
                    RxStep { delay_ns: None, outcome: Ok(None) }
                }
            },
            RxPhase::Mark { left } => {
                if high {
                    self.junk(None)
                } else if left > 1 {
                    self.phase = RxPhase::Mark { left: left - 1 };
                    RxStep { delay_ns: Some(HALF_BIT_NS), outcome: Ok(None) }
                } else {
                    self.junk(Some(HALF_BIT_NS))
                }
            },
        }
    }
}

/// What a row of samples comes to, up to the one that ends the exchange.
pub open spec fn samples<TE, RE>(
    budget: SoftUartBudget,
    state: SoftUartState,
    levels: Seq<bool>,
    buf: Seq<u8>,
) -> Sampled<TE, RE>
    decreases levels.len(),
{
    if levels.len() == 0 {
        Sampled { state, buf, step: go_on(None) }
    } else {
        let first = sampled::<TE, RE>(budget, state, levels[0], buf);
        if levels.len() == 1 || first.step.outcome != Ok::<
            Option<usize>,
            SoftUartTransportError<TE, RE>,
        >(None) {
            first
        } else {
            samples(budget, first.state, levels.skip(1), first.buf)
        }
    }
}

/// The data bits of a byte from bit `bit` on, and its stop bit.
proof fn lemma_data_bits<TE, RE>(
    budget: SoftUartBudget,
    state: SoftUartState,
    byte: u8,
    bit: u8,
    buf: Seq<u8>,
)
    requires
        bit < 8,
        state.phase == (RxPhase::Data { bit, byte: low_bits(byte, bit) }),
    ensures
        samples::<TE, RE>(budget, state, byte_levels(byte).skip(bit + 1), buf) == good_byte::<
            TE,
            RE,
        >(budget, SoftUartState { phase: RxPhase::Stop { byte }, ..state }, byte, buf),
    decreases 8 - bit,
{
    let levels = byte_levels(byte).skip(bit + 1);
    let read = with_bit(low_bits(byte, bit), bit, data_bit(byte, bit));
    assert(levels[0] == data_bit(byte, bit));
    assert(levels.skip(1) =~= byte_levels(byte).skip(bit + 2));
    let first = sampled::<TE, RE>(budget, state, levels[0], buf);
    if bit < 7 {
        assert(read == low_bits(byte, (bit + 1) as u8)) by (bit_vector)
            requires
                bit < 7,
                read == with_bit(low_bits(byte, bit), bit, data_bit(byte, bit)),
        ;
        lemma_data_bits::<TE, RE>(budget, first.state, byte, (bit + 1) as u8, buf);
    } else {
        assert(read == byte) by (bit_vector)
            requires
                bit == 7,
                read == with_bit(low_bits(byte, bit), bit, data_bit(byte, bit)),
        ;
        assert(levels.skip(1)[0] == true);
        assert(levels.skip(1).len() == 1);
    }
}

/// The `n` least significant bits of a byte.
pub open spec fn low_bits(byte: u8, n: u8) -> u8 {
    byte & ((1u8 << n) - 1) as u8
}

/// What is driven for a byte reads back as that byte: a receiver that waits
/// for a start edge and then samples the ten levels of `byte` has received
/// `byte` with a good stop bit.
pub proof fn law_levels_read_back<TE, RE>(
    budget: SoftUartBudget,
    state: SoftUartState,
    byte: u8,
    buf: Seq<u8>,
)
    requires
        state.phase == RxPhase::Idle,
    ensures
        samples::<TE, RE>(budget, state, byte_levels(byte), buf) == good_byte::<TE, RE>(
            budget,
            state,
            byte,
            buf,
        ),
{
    let levels = byte_levels(byte);
    assert(levels[0] == false);
    let first = sampled::<TE, RE>(budget, state, levels[0], buf);
    assert(low_bits(byte, 0) == 0) by (bit_vector);
    lemma_data_bits::<TE, RE>(budget, first.state, byte, 0, buf);
}

/// A line that stays low after a framing error holds the receiver up for a
/// bounded number of samples; then it hunts for a start edge again, with one
/// more byte counted as junk.
pub proof fn law_wait_for_mark_is_bounded<TE, RE>(
    budget: SoftUartBudget,
    state: SoftUartState,
    left: u8,
    buf: Seq<u8>,
)
    requires
        state.phase == (RxPhase::Mark { left }),
        1 <= left <= MARK_SAMPLES,
    ensures
        samples::<TE, RE>(budget, state, Seq::new(left as nat, |i: int| false), buf)
            == junk_byte::<TE, RE>(budget, state, buf, Some(HALF_BIT_NS)),
    decreases left,
{
    let lows = Seq::new(left as nat, |i: int| false);
    if left > 1 {
        let first = sampled::<TE, RE>(budget, state, lows[0], buf);
        assert(lows.skip(1) =~= Seq::new((left - 1) as nat, |i: int| false));
        law_wait_for_mark_is_bounded::<TE, RE>(budget, first.state, (left - 1) as u8, buf);
    }
}

/// A byte on the line: space for the start bit, then its eight bits from the
/// ones place on, and mark for the stop bit.
pub proof fn law_byte_on_the_line(byte: u8)
    ensures
        byte_levels(byte).len() == 10,
        !byte_levels(byte)[0],
        byte_levels(byte)[1] <==> byte % 2 == 1,
        byte_levels(byte)[2] <==> byte / 2 % 2 == 1,
        byte_levels(byte)[3] <==> byte / 4 % 2 == 1,
        byte_levels(byte)[4] <==> byte / 8 % 2 == 1,
        byte_levels(byte)[5] <==> byte / 16 % 2 == 1,
        byte_levels(byte)[6] <==> byte / 32 % 2 == 1,
        byte_levels(byte)[7] <==> byte / 64 % 2 == 1,
        byte_levels(byte)[8] <==> byte / 128 == 1,
        byte_levels(byte)[9],
{
    assert((byte >> 0u8) & 1 == byte % 2 && (byte >> 1u8) & 1 == (byte / 2) % 2 && (byte >> 2u8) & 1
        == (byte / 4) % 2 && (byte >> 3u8) & 1 == (byte / 8) % 2 && (byte >> 4u8) & 1 == (byte
        / 16) % 2 && (byte >> 5u8) & 1 == (byte / 32) % 2 && (byte >> 6u8) & 1 == (byte / 64) % 2
        && (byte >> 7u8) & 1 == byte / 128) by (bit_vector);
}

/// A request on the line: one bit of mark, then ten bits for each byte, the
/// sync byte first and the frame behind it in its order.
pub proof fn law_request_on_the_line(req: Seq<u8>, j: int, k: int)
    requires
        0 <= j <= req.len(),
        0 <= k < 10,
    ensures
        request_levels(req).len() == 11 + 10 * req.len(),
        request_levels(req)[0],
        request_levels(req)[1 + 10 * j + k] == byte_levels(
            if j == 0 {
                0x7Eu8
            } else {
                req[j - 1]
            },
        )[k],
{
    assert((10 * j + k) / 10 == j && (10 * j + k) % 10 == k);
}

/// When the line is sampled: a bit and a half behind a start edge, a bit
/// behind each data bit, at 9600 baud; the poll interval behind an idle
/// sample, and half a bit while a missing stop bit is waited for.
pub proof fn law_sampling_times<TE, RE>(
    budget: SoftUartBudget,
    state: SoftUartState,
    high: bool,
    buf: Seq<u8>,
)
    ensures
        state.phase == RxPhase::Idle && !high ==> sampled::<TE, RE>(
            budget,
            state,
            high,
            buf,
        ).step.delay_ns == Some(156_250u32),
        state.phase is Data ==> sampled::<TE, RE>(budget, state, high, buf).step.delay_ns == Some(
            104_167u32,
        ),
        state.phase is Mark && !high ==> sampled::<TE, RE>(budget, state, high, buf).step.delay_ns
            == Some(52_083u32),
        state.phase is Mark && high ==> sampled::<TE, RE>(
            budget,
            state,
            high,
            buf,
        ).step.delay_ns is None,
        state.phase is Stop ==> sampled::<TE, RE>(budget, state, high, buf).step.delay_ns is None,
{
}

/// Samples of an idle line are counted one by one. As many as the poll
/// attempts end the exchange; behind each one before that the poll interval is
/// waited.
pub proof fn law_idle_line_is_given_up<TE, RE>(
    budget: SoftUartBudget,
    state: SoftUartState,
    n: nat,
    buf: Seq<u8>,
)
    requires
        state.phase == RxPhase::Idle,
        state.attempts >= 0,
        n >= 1,
        state.attempts + n <= budget.poll_attempts,
    ensures
        ({
            let s = samples::<TE, RE>(budget, state, Seq::new(n, |i: int| true), buf);
            &&& s.buf == buf
            &&& s.state == (SoftUartState { attempts: state.attempts + n, ..state })
            &&& state.attempts + n < budget.poll_attempts ==> s.step.delay_ns == Some(
                budget.poll_interval_ns,
            ) && s.step.outcome == Ok::<Option<usize>, SoftUartTransportError<TE, RE>>(None)
            &&& state.attempts + n == budget.poll_attempts ==> s.step.delay_ns is None
                && s.step.outcome == Err::<Option<usize>, SoftUartTransportError<TE, RE>>(
                SoftUartTransportError::Exhausted { attempts: budget.poll_attempts },
            )
        }),
    decreases n,
{
    let levels = Seq::new(n, |i: int| true);
    let first = sampled::<TE, RE>(budget, state, true, buf);
    if n > 1 {
        law_idle_line_is_given_up::<TE, RE>(budget, first.state, (n - 1) as nat, buf);
        assert(levels.skip(1) =~= Seq::new((n - 1) as nat, |i: int| true));
    }
}

} // verus!
