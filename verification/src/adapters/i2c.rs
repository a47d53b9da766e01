//! I2C: write the request, then poll-read the response.
//!
//! The response is read in one fixed-length read of the whole receive
//! buffer, because the master must pick a read length before the device has
//! said how long its response is; the device pads with `0xFF`. While the
//! device is busy it does not acknowledge its address, so the read is
//! repeated a bounded number of times.

use vstd::prelude::*;
use vstd::string::*;

use crate::adapters::{Bound, Counter, DEFAULT_POLL_ATTEMPTS, DEFAULT_POLL_INTERVAL_NS};
use crate::text::push_decimal;

verus! {

/// What went wrong on the bus.
#[derive(Debug, Clone, Copy, PartialEq, Eq)]
pub enum I2cTransportError<E> {
    /// The request write failed.
    Write(E),
    /// Every poll read failed.
    Exhausted {
        /// Number of read attempts made.
        attempts: u32,
        /// The bus error from the final attempt.
        last: E,
    },
}

/// What [`I2cTransportError::message`] says, given the kind of bus error.
pub open spec fn message_of<E>(e: I2cTransportError<E>, kind: Seq<char>) -> Seq<char> {
    match e {
        I2cTransportError::Write(_) => "i2c write failed: "@ + kind,
        I2cTransportError::Exhausted { attempts, .. } => "device did not answer within "@
            + crate::text::decimal(attempts as nat)
            + " poll attempt(s) — is it in the bootloader, at this address? if this was erase/flash, the device may still be erasing — widen the poll budget (`with_poll`); last i2c error: "@
            + kind,
    }
}

impl<E> I2cTransportError<E> {
    /// The error in words; `kind` is the rendered kind of the bus error that
    /// it carries.
    pub fn message(&self, kind: &str) -> (r: String)
        ensures
            r@ == message_of(*self, kind@),
    {
        let mut out = String::new();
        match self {
            I2cTransportError::Write(_) => {
                out.append("i2c write failed: ");
            },
            I2cTransportError::Exhausted { attempts, .. } => {
                out.append("device did not answer within ");
                push_decimal(&mut out, *attempts as u64);
                out.append(
                    " poll attempt(s) — is it in the bootloader, at this address? if this was erase/flash, the device may still be erasing — widen the poll budget (`with_poll`); last i2c error: ",
                );
            },
        }
        out.append(kind);
        proof {
            assert(out@ =~= message_of(*self, kind@));
        }
        out
    }
}

/// A blocking I2C bus, the delay used between polls, and the poll budget.
#[derive(Debug)]
pub struct I2cTransport<I2C, D> {
    i2c: I2C,
    delay: D,
    addr: u8,
    poll_attempts: Bound,
    poll_interval_ns: u32,
}

impl<I2C, D> I2cTransport<I2C, D> {
    /// The bus.
    pub closed spec fn i2c(self) -> I2C {
        self.i2c
    }

    /// The delay.
    pub closed spec fn delay(self) -> D {
        self.delay
    }

    /// The 7-bit device address.
    pub closed spec fn addr(self) -> u8 {
        self.addr
    }

    /// Reads per response at most.
    pub closed spec fn poll_attempts(self) -> u32 {
        self.poll_attempts.value()
    }

    /// Nanoseconds between two reads.
    pub closed spec fn poll_interval_ns(self) -> u32 {
        self.poll_interval_ns
    }

    /// Wraps `i2c` for the 7-bit device address `addr`, with `delay` between
    /// poll attempts and the default poll budget.
    pub fn new(i2c: I2C, delay: D, addr: u8) -> (r: Self)
        ensures
            r.i2c() == i2c,
            r.delay() == delay,
            r.addr() == addr,
            r.poll_attempts() == DEFAULT_POLL_ATTEMPTS,
            r.poll_interval_ns() == DEFAULT_POLL_INTERVAL_NS,
    {
        I2cTransport {
            i2c,
            delay,
            addr,
            poll_attempts: Bound::new(DEFAULT_POLL_ATTEMPTS),
            poll_interval_ns: DEFAULT_POLL_INTERVAL_NS,
        }
    }

    /// Overrides the poll budget: up to `attempts` reads (at least one),
    /// `interval_ns` apart.
    #[must_use]
    pub fn with_poll(self, attempts: u32, interval_ns: u32) -> (r: Self)
        ensures
            r.i2c() == self.i2c(),
            r.delay() == self.delay(),
            r.addr() == self.addr(),
            r.poll_attempts() == crate::adapters::at_least_one(attempts),
            r.poll_interval_ns() == interval_ns,
    {
        let mut t: Self = self;
        t.set_poll(attempts, interval_ns);
        t
    }

    /// Re-tunes the poll budget on a live transport, with the same floor as
    /// [`I2cTransport::with_poll`].
    pub fn set_poll(&mut self, attempts: u32, interval_ns: u32)
        ensures
            final(self).i2c() == old(self).i2c(),
            final(self).delay() == old(self).delay(),
            final(self).addr() == old(self).addr(),
            final(self).poll_attempts() == crate::adapters::at_least_one(attempts),
            final(self).poll_interval_ns() == interval_ns,
    {
        self.poll_attempts = Bound::new(attempts);
        self.poll_interval_ns = interval_ns;
    }

    /// Takes the bus and the delay back.
    pub fn release(self) -> (r: (I2C, D))
        ensures
            r.0 == self.i2c(),
            r.1 == self.delay(),
    {
        (self.i2c, self.delay)
    }

    /// The device address.
    pub fn address(&self) -> (r: u8)
        ensures
            r == self.addr(),
    {
        self.addr
    }

    /// The bus and the delay, to perform an exchange with.
    pub fn parts(&mut self) -> (r: (&mut I2C, &mut D))
        ensures
            *r.0 == old(self).i2c(),
            *r.1 == old(self).delay(),
            final(self).i2c() == *final(r.0),
            final(self).delay() == *final(r.1),
            final(self).addr() == old(self).addr(),
            final(self).poll_attempts() == old(self).poll_attempts(),
            final(self).poll_interval_ns() == old(self).poll_interval_ns(),
    {
        (&mut self.i2c, &mut self.delay)
    }

    /// The polling of one exchange, from its first read on.
    pub fn poll(&self) -> (r: I2cPoll)
        ensures
            r.attempts() == 0,
            r.limit() == self.poll_attempts(),
            r.interval_ns() == self.poll_interval_ns(),
    {
        I2cPoll {
            attempts: Counter::new(self.poll_attempts),
            interval_ns: self.poll_interval_ns,
        }
    }
}

/// Decides after each failed read of one exchange whether to read again. A
/// read that succeeds fills the whole receive buffer and ends the exchange.
#[derive(Debug)]
pub struct I2cPoll {
    attempts: Counter,
    interval_ns: u32,
}

impl I2cPoll {
    /// Reads that failed so far.
    pub closed spec fn attempts(self) -> u32 {
        self.attempts.count()
    }

    /// Reads at most.
    pub closed spec fn limit(self) -> u32 {
        self.attempts.limit()
    }

    /// Nanoseconds to wait between two reads.
    pub closed spec fn interval_ns(self) -> u32 {
        self.interval_ns
    }

    /// The polling of one exchange: up to `attempts` reads (at least one),
    /// `interval_ns` apart.
    pub fn new(attempts: u32, interval_ns: u32) -> (r: Self)
        ensures
            r.attempts() == 0,
            r.limit() == crate::adapters::at_least_one(attempts),
            r.interval_ns() == interval_ns,
    {
        I2cPoll { attempts: Counter::new(Bound::new(attempts)), interval_ns }
    }

    /// Takes the error of a failed read: `Ok` with the nanoseconds to wait
    /// before the next read, or the error to give up with once the budget is
    /// spent.
    pub fn read_failed<E>(&mut self, error: E) -> (r: Result<u32, I2cTransportError<E>>)
        ensures
            final(self).limit() == old(self).limit(),
            final(self).interval_ns() == old(self).interval_ns(),
            final(self).attempts() == crate::adapters::spent(
                old(self).attempts() as int,
                old(self).limit(),
            ),
            r == (if old(self).attempts() + 1 < old(self).limit() {
                Ok::<u32, I2cTransportError<E>>(old(self).interval_ns())
            } else {
                Err::<u32, I2cTransportError<E>>(
                    (I2cTransportError::Exhausted { attempts: old(self).limit(), last: error }),
                )
            }),
    {
        match self.attempts.spend() {
            None => Ok(self.interval_ns),
            Some(attempts) => Err(I2cTransportError::Exhausted { attempts, last: error }),
        }
    }
}

} // verus!
