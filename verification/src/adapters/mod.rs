//! Adapters that turn a bus, a byte stream or a pair of pins into a
//! [`crate::Transport`].
//!
//! Each adapter holds its bus objects and its budgets, and hands out a
//! machine that makes every decision of one exchange: how long to wait, when
//! to read again, when a response is complete and when to give up. Whoever
//! owns the bus performs what the machine asks for and tells it what came
//! back.
//!
//! * [`I2cTransport`]: one write, then bounded fixed-length poll reads.
//! * [`UartTransport`]: a byte stream, scanned for sync and frame.
//! * [`SpiTransport`]: idle bytes are clocked until the response starts.
//! * [`SoftUartTransport`]: two pins and a delay, 9600-baud 8N1.

use vstd::prelude::*;

pub mod i2c;
pub mod softuart;
pub mod spi;
pub mod uart;

pub use i2c::{I2cPoll, I2cTransport, I2cTransportError};
pub use softuart::{
    request_level, RxStep, SoftUartReceiver, SoftUartTransport, SoftUartTransportError,
    DEFAULT_SOFTUART_POLL_ATTEMPTS, DEFAULT_SOFTUART_POLL_INTERVAL_NS, SOFTUART_BIT_NS,
};
pub use spi::{
    SpiReceiver, SpiStep, SpiTransport, SpiTransportError, DEFAULT_SPI_BYTE_INTERVAL_NS,
};
pub use uart::{UartReceiver, UartStep, UartTransport, UartTransportError, READ_CHUNK};

verus! {

/// Default poll budget: attempts per response wait.
pub const DEFAULT_POLL_ATTEMPTS: u32 = 200;

/// Default delay between poll attempts: 5 ms, with the default budget a
/// window of about one second. An erase of a large region needs a wider one.
pub const DEFAULT_POLL_INTERVAL_NS: u32 = 5_000_000;

/// Default babble bound for the stream adapters: events without a frame
/// tolerated per request before the line is declared desynchronized.
pub const DEFAULT_SCAN_LIMIT: u32 = 4096;

/// A budget is never less than one.
pub open spec fn at_least_one(n: u32) -> u32 {
    if n < 1 {
        1
    } else {
        n
    }
}

/// A bound that is at least one.
#[derive(Debug, Clone, Copy)]
pub(crate) struct Bound {
    n: u32,
}

impl Bound {
    /// The bound.
    pub(crate) closed spec fn value(self) -> u32 {
        self.n
    }

    #[verifier::type_invariant]
    spec fn inv(self) -> bool {
        self.n >= 1
    }

    /// A bound of `n`, or of one where that is zero.
    pub(crate) fn new(n: u32) -> (r: Self)
        ensures
            r.value() == at_least_one(n),
    {
        if n < 1 {
            Bound { n: 1 }
        } else {
            Bound { n }
        }
    }

    /// The bound.
    pub(crate) fn get(&self) -> (r: u32)
        ensures
            r == self.value(),
            r >= 1,
    {
        proof {
            use_type_invariant(self);
        }
        self.n
    }
}

/// Counts events up to a bound.
#[derive(Debug)]
pub(crate) struct Counter {
    n: u32,
    limit: u32,
}

impl Counter {
    /// Events counted so far.
    pub(crate) closed spec fn count(self) -> u32 {
        self.n
    }

    /// The bound.
    pub(crate) closed spec fn limit(self) -> u32 {
        self.limit
    }

    #[verifier::type_invariant]
    spec fn inv(self) -> bool {
        self.n <= self.limit
    }

    /// A counter at zero.
    pub(crate) fn new(bound: Bound) -> (r: Self)
        ensures
            r.count() == 0,
            r.limit() == bound.value(),
    {
        Counter { n: 0, limit: bound.get() }
    }

    /// Counts one event; the bound itself once it is reached.
    pub(crate) fn spend(&mut self) -> (r: Option<u32>)
        ensures
            final(self).limit() == old(self).limit(),
            final(self).count() == spent(old(self).count() as int, old(self).limit()),
            r == (if old(self).count() + 1 < old(self).limit() {
                None::<u32>
            } else {
                Some(old(self).limit())
            }),
    {
        proof {
            use_type_invariant(&*self);
        }
        if self.limit - self.n > 1 {
            self.n = self.n + 1;
            None
        } else {
            self.n = self.limit;
            Some(self.limit)
        }
    }
}

/// The count after one more event, which stops at the bound.
pub open spec fn spent(count: int, limit: u32) -> int {
    if count + 1 < limit {
        count + 1
    } else {
        limit as int
    }
}

/// The count after `events` events, from zero.
pub open spec fn spent_after(events: nat, limit: u32) -> int
    decreases events,
{
    if events == 0 {
        0
    } else {
        spent(spent_after((events - 1) as nat, limit), limit)
    }
}

/// A budget is used up by exactly as many events as it has: the count is that
/// of the events up to the bound, so the event that gives up is the one whose
/// number is the bound, never an earlier or a later one.
pub proof fn law_budget_is_exact(events: nat, limit: u32)
    requires
        limit >= 1,
        events <= limit,
    ensures
        spent_after(events, limit) == events,
        events < limit ==> (spent_after(events, limit) + 1 < limit <==> events + 1 < limit),
    decreases events,
{
    if events > 0 {
        law_budget_is_exact((events - 1) as nat, limit);
    }
}

/// A budget of zero counts as one, and any other as itself.
pub proof fn law_budget_is_never_zero(n: u32)
    ensures
        n == 0 ==> at_least_one(n) == 1,
        n > 0 ==> at_least_one(n) == n,
{
}

/// A count goes up by one with each event until it is at its bound, and then
/// stays there.
pub proof fn law_count_stops_at_the_bound(events: nat, limit: u32)
    requires
        limit >= 1,
    ensures
        spent_after(events, limit) == (if events < limit {
            events as int
        } else {
            limit as int
        }),
    decreases events,
{
    if events > 0 {
        law_count_stops_at_the_bound((events - 1) as nat, limit);
    }
}

} // verus!
