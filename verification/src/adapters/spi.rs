//! SPI: sync byte and request in one transaction, then idle bytes are
//! clocked and scanned.
//!
//! The device shifts out `0x00` while idle or busy and lags by one byte, so
//! stale bytes precede the sync; both are skipped by the stream scanner.
//! Two delays shape the exchange: the poll interval after a byte without a
//! frame, bounded by the attempt budget, and the pacing between the bytes of
//! a frame, which is the device's time to compute the next one.

use vstd::prelude::*;
use vstd::string::*;

use crate::adapters::{Bound, Counter, DEFAULT_POLL_ATTEMPTS, DEFAULT_POLL_INTERVAL_NS};
use crate::stream::{RxScanner, Scan};
use crate::text::push_decimal;

verus! {

/// Default gap between the bytes of a frame: 50 us.
pub const DEFAULT_SPI_BYTE_INTERVAL_NS: u32 = 50_000;

/// What went wrong on the bus.
#[derive(Debug, Clone, Copy, PartialEq, Eq)]
pub enum SpiTransportError<E> {
    /// The request transaction failed.
    Write(E),
    /// A response-scan read failed.
    Read(E),
    /// The poll budget ran out without a valid response frame.
    Exhausted {
        /// Number of bytes without a frame clocked.
        attempts: u32,
    },
}

/// What [`SpiTransportError::message`] says, given the kind of bus error.
pub open spec fn message_of<E>(e: SpiTransportError<E>, kind: Seq<char>) -> Seq<char> {
    match e {
        SpiTransportError::Write(_) => "spi write failed: "@ + kind,
        SpiTransportError::Read(_) => "spi read failed: "@ + kind,
        SpiTransportError::Exhausted { attempts } => "no response within "@
            + crate::text::decimal(attempts as nat)
            + " clocked byte(s) — is the device in the bootloader? if this was erase/flash, it may still be erasing — widen the poll budget (`with_poll`)"@,
    }
}

impl<E> SpiTransportError<E> {
    /// The error in words; `kind` is the rendered kind of the bus error that
    /// it carries, if any.
    pub fn message(&self, kind: &str) -> (r: String)
        ensures
            r@ == message_of(*self, kind@),
    {
        let mut out = String::new();
        match self {
            SpiTransportError::Write(_) => {
                out.append("spi write failed: ");
                out.append(kind);
            },
            SpiTransportError::Read(_) => {
                out.append("spi read failed: ");
                out.append(kind);
            },
            SpiTransportError::Exhausted { attempts } => {
                out.append("no response within ");
                push_decimal(&mut out, *attempts as u64);
                out.append(
                    " clocked byte(s) — is the device in the bootloader? if this was erase/flash, it may still be erasing — widen the poll budget (`with_poll`)",
                );
            },
        }
        proof {
            assert(out@ =~= message_of(*self, kind@));
        }
        out
    }
}

/// The budgets of an SPI adapter.
pub ghost struct SpiBudget {
    /// Bytes without a frame at most.
    pub poll_attempts: u32,
    /// Nanoseconds after a byte without a frame.
    pub poll_interval_ns: u32,
    /// Nanoseconds after a byte of a frame.
    pub byte_interval_ns: u32,
}

/// An SPI device (a bus and its chip select), the delay, and the budgets.
#[derive(Debug)]
pub struct SpiTransport<S, D> {
    spi: S,
    delay: D,
    poll_attempts: Bound,
    poll_interval_ns: u32,
    byte_interval_ns: u32,
}

impl<S, D> SpiTransport<S, D> {
    /// The device.
    pub closed spec fn spi(self) -> S {
        self.spi
    }

    /// The delay.
    pub closed spec fn delay(self) -> D {
        self.delay
    }

    /// The budgets.
    pub closed spec fn budget(self) -> SpiBudget {
        SpiBudget {
            poll_attempts: self.poll_attempts.value(),
            poll_interval_ns: self.poll_interval_ns,
            byte_interval_ns: self.byte_interval_ns,
        }
    }

    /// Wraps an SPI device, with `delay` for the poll and pacing gaps and the
    /// default budgets.
    pub fn new(spi: S, delay: D) -> (r: Self)
        ensures
            r.spi() == spi,
            r.delay() == delay,
            r.budget() == (SpiBudget {
                poll_attempts: DEFAULT_POLL_ATTEMPTS,
                poll_interval_ns: DEFAULT_POLL_INTERVAL_NS,
                byte_interval_ns: DEFAULT_SPI_BYTE_INTERVAL_NS,
            }),
    {
        SpiTransport {
            spi,
            delay,
            poll_attempts: Bound::new(DEFAULT_POLL_ATTEMPTS),
            poll_interval_ns: DEFAULT_POLL_INTERVAL_NS,
            byte_interval_ns: DEFAULT_SPI_BYTE_INTERVAL_NS,
        }
    }

    /// Overrides the poll budget: up to `attempts` bytes without a frame (at
    /// least one), `interval_ns` apart.
    #[must_use]
    pub fn with_poll(self, attempts: u32, interval_ns: u32) -> (r: Self)
        ensures
            r.spi() == self.spi(),
            r.delay() == self.delay(),
            r.budget() == (SpiBudget {
                poll_attempts: crate::adapters::at_least_one(attempts),
                poll_interval_ns: interval_ns,
                ..self.budget()
            }),
    {
        let mut t: Self = self;
        t.set_poll(attempts, interval_ns);
        t
    }

    /// Re-tunes the poll budget on a live transport, with the same floor as
    /// [`SpiTransport::with_poll`].
    pub fn set_poll(&mut self, attempts: u32, interval_ns: u32)
        ensures
            final(self).spi() == old(self).spi(),
            final(self).delay() == old(self).delay(),
            final(self).budget() == (SpiBudget {
                poll_attempts: crate::adapters::at_least_one(attempts),
                poll_interval_ns: interval_ns,
                ..old(self).budget()
            }),
    {
        self.poll_attempts = Bound::new(attempts);
        self.poll_interval_ns = interval_ns;
    }

    /// Overrides the pacing gap between the bytes of a frame.
    #[must_use]
    pub fn with_pacing(self, byte_interval_ns: u32) -> (r: Self)
        ensures
            r.spi() == self.spi(),
            r.delay() == self.delay(),
            r.budget() == (SpiBudget { byte_interval_ns, ..self.budget() }),
    {
        let mut t: Self = self;
        t.byte_interval_ns = byte_interval_ns;
        t
    }

    /// Takes the device and the delay back.
    pub fn release(self) -> (r: (S, D))
        ensures
            r.0 == self.spi(),
            r.1 == self.delay(),
    {
        (self.spi, self.delay)
    }

    /// The device and the delay, to perform an exchange with.
    pub fn parts(&mut self) -> (r: (&mut S, &mut D))
        ensures
            *r.0 == old(self).spi(),
            *r.1 == old(self).delay(),
            final(self).spi() == *final(r.0),
            final(self).delay() == *final(r.1),
            final(self).budget() == old(self).budget(),
    {
        (&mut self.spi, &mut self.delay)
    }

    /// The receiving half of one exchange, from its first byte on.
    pub fn receiver(&self) -> (r: SpiReceiver)
        ensures
            r.budget() == self.budget(),
            r@ == (SpiState { scan: crate::stream::ScanState::Hunting, attempts: 0 }),
    {
        SpiReceiver {
            scanner: RxScanner::new(),
            attempts: Counter::new(self.poll_attempts),
            poll_interval_ns: self.poll_interval_ns,
            byte_interval_ns: self.byte_interval_ns,
        }
    }
}

/// Where the receiving half of an exchange stands.
pub ghost struct SpiState {
    /// What the scanner is doing.
    pub scan: crate::stream::ScanState,
    /// Bytes without a frame so far.
    pub attempts: int,
}

/// What to do after a byte.
#[derive(Debug, Clone, Copy, PartialEq, Eq)]
pub enum SpiStep {
    /// Wait, then clock another byte.
    Wait {
        /// Nanoseconds to wait.
        ns: u32,
    },
    /// A frame of `len` bytes is at the front of the receive buffer.
    Done {
        /// Frame length in bytes.
        len: usize,
    },
}

/// What a clocked byte comes to.
pub ghost struct SpiClocked {
    pub state: SpiState,
    pub buf: Seq<u8>,
    /// The next step, or the count of bytes at giving up.
    pub next: Result<SpiStep, u32>,
}

/// What clocking `byte` in comes to: a byte of a frame is paced, any other
/// one is a poll attempt.
pub open spec fn clocked(
    budget: SpiBudget,
    state: SpiState,
    byte: u8,
    buf: Seq<u8>,
) -> SpiClocked {
    let p = crate::stream::pushed(state.scan, byte, buf);
    let next = SpiState { scan: p.state, ..state };
    match p.scan {
        Scan::Done { len } => SpiClocked { state: next, buf: p.buf, next: Ok(SpiStep::Done { len }) },
        Scan::Frame => SpiClocked {
            state: next,
            buf: p.buf,
            next: Ok(SpiStep::Wait { ns: budget.byte_interval_ns }),
        },
        _ => SpiClocked {
            state: SpiState {
                attempts: crate::adapters::spent(state.attempts, budget.poll_attempts),
                ..next
            },
            buf: p.buf,
            next: if state.attempts + 1 < budget.poll_attempts {
                Ok(SpiStep::Wait { ns: budget.poll_interval_ns })
            } else {
                Err(budget.poll_attempts)
            },
        },
    }
}

/// Decides after each clocked byte of one exchange what comes next.
#[derive(Debug)]
pub struct SpiReceiver {
    scanner: RxScanner,
    attempts: Counter,
    poll_interval_ns: u32,
    byte_interval_ns: u32,
}

impl View for SpiReceiver {
    type V = SpiState;

    closed spec fn view(&self) -> SpiState {
        SpiState { scan: self.scanner@, attempts: self.attempts.count() as int }
    }
}

impl SpiReceiver {
    /// The budgets.
    pub closed spec fn budget(self) -> SpiBudget {
        SpiBudget {
            poll_attempts: self.attempts.limit(),
            poll_interval_ns: self.poll_interval_ns,
            byte_interval_ns: self.byte_interval_ns,
        }
    }

    /// Takes one byte clocked in; frame bytes land at the front of `rsp`.
    ///
    /// # Errors
    ///
    /// [`SpiTransportError::Exhausted`] once the poll budget is spent on
    /// bytes without a frame.
    pub fn received<E>(&mut self, byte: u8, rsp: &mut [u8]) -> (r: Result<
        SpiStep,
        SpiTransportError<E>,
    >)
        ensures
            final(self).budget() == old(self).budget(),
            ({
                let c = clocked(old(self).budget(), old(self)@, byte, old(rsp)@);
                &&& final(self)@ == c.state
                &&& final(rsp)@ == c.buf
                &&& r == match c.next {
                    Ok(step) => Ok::<SpiStep, SpiTransportError<E>>(step),
                    Err(attempts) => Err(SpiTransportError::Exhausted { attempts }),
                }
            }),
    {
        let scan: Scan = self.scanner.push(byte, rsp);
        match scan {
            Scan::Done { len } => Ok(SpiStep::Done { len }),
            Scan::Frame => Ok(SpiStep::Wait { ns: self.byte_interval_ns }),
            _ => match self.attempts.spend() {
                None => Ok(SpiStep::Wait { ns: self.poll_interval_ns }),
                Some(attempts) => Err(SpiTransportError::Exhausted { attempts }),
            },
        }
    }
}

/// What `n` idle bytes in a row come to, the last of them at the end.
pub open spec fn idle_bytes(budget: SpiBudget, state: SpiState, n: nat, buf: Seq<u8>) -> SpiClocked
    decreases n,
{
    if n <= 1 {
        clocked(budget, state, 0xFF, buf)
    } else {
        clocked(budget, idle_bytes(budget, state, (n - 1) as nat, buf).state, 0xFF, buf)
    }
}

/// Idle bytes are counted one by one. As many as the poll attempts end the
/// exchange; behind each one before that the poll interval is waited.
pub proof fn law_idle_bytes_are_given_up(budget: SpiBudget, state: SpiState, n: nat, buf: Seq<u8>)
    requires
        state.scan == crate::stream::ScanState::Hunting,
        state.attempts == 0,
        1 <= n <= budget.poll_attempts,
    ensures
        ({
            let c = idle_bytes(budget, state, n, buf);
            &&& c.state.scan == crate::stream::ScanState::Hunting
            &&& c.state.attempts == n
            &&& c.buf == buf
            &&& n < budget.poll_attempts ==> c.next == Ok::<SpiStep, u32>(
                SpiStep::Wait { ns: budget.poll_interval_ns },
            )
            &&& n == budget.poll_attempts ==> c.next == Err::<SpiStep, u32>(budget.poll_attempts)
        }),
    decreases n,
{
    if n > 1 {
        law_idle_bytes_are_given_up(budget, state, (n - 1) as nat, buf);
    }
}

/// A byte of a frame is never a poll attempt: the byte interval is waited
/// behind it, and the one that completes the frame ends the exchange.
pub proof fn law_frame_bytes_are_paced(
    budget: SpiBudget,
    state: SpiState,
    byte: u8,
    buf: Seq<u8>,
)
    ensures
        ({
            let c = clocked(budget, state, byte, buf);
            let p = crate::stream::pushed(state.scan, byte, buf);
            &&& c.state.scan == p.state
            &&& c.buf == p.buf
            &&& p.scan == Scan::Frame ==> c.state.attempts == state.attempts && c.next == Ok::<
                SpiStep,
                u32,
            >(SpiStep::Wait { ns: budget.byte_interval_ns })
            &&& p.scan matches Scan::Done { len } ==> c.next == Ok::<SpiStep, u32>(
                SpiStep::Done { len },
            )
        }),
{
}

} // verus!
