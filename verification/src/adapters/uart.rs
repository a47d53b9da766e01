//! UART: a byte stream (hardware UART, USB-CDC, RS-485).
//!
//! The request leaves as sync byte and frame; the response is found by
//! scanning the received bytes, so noise before or between frames is
//! tolerated and a corrupt response is dropped in favour of what follows.
//!
//! Ports with a receive timeout report "nothing yet" as a read of no bytes;
//! that is one poll attempt of a bounded number.

use vstd::prelude::*;
use vstd::string::*;

use crate::adapters::{
    Bound, Counter, DEFAULT_POLL_ATTEMPTS, DEFAULT_POLL_INTERVAL_NS, DEFAULT_SCAN_LIMIT,
};
use crate::stream::{RxScanner, Scan};
use crate::text::push_decimal;

verus! {

/// Bytes asked for in one read of the port.
pub const READ_CHUNK: usize = 32;

/// What went wrong on the stream.
#[derive(Debug, Clone, Copy, PartialEq, Eq)]
pub enum UartTransportError<E> {
    /// Sending the request failed.
    Write(E),
    /// A read failed.
    Read(E),
    /// The poll budget ran out with the device silent.
    Exhausted {
        /// Number of idle reads made.
        attempts: u32,
    },
    /// The scan budget ran out: the line babbles but no valid frame arrived.
    Desync {
        /// Bytes without a frame discarded before giving up.
        scanned: u32,
    },
}

/// What [`UartTransportError::message`] says, given the port's own error.
pub open spec fn message_of<E>(e: UartTransportError<E>, port: Seq<char>) -> Seq<char> {
    match e {
        UartTransportError::Write(_) => "uart write failed: "@ + port,
        UartTransportError::Read(_) => "uart read failed: "@ + port,
        UartTransportError::Exhausted { attempts } => "device sent nothing within "@
            + crate::text::decimal(attempts as nat)
            + " poll attempt(s) — is it in the bootloader? if this was erase/flash, it may still be erasing — widen the poll budget (`with_poll`)"@,
        UartTransportError::Desync { scanned } => "no valid frame in "@ + crate::text::decimal(
            scanned as nat,
        ) + " scanned byte(s) — wrong baud rate or wrong port?"@,
    }
}

impl<E> UartTransportError<E> {
    /// The error in words; `port` is the rendered error of the port that it
    /// carries, if any.
    pub fn message(&self, port: &str) -> (r: String)
        ensures
            r@ == message_of(*self, port@),
    {
        let mut out = String::new();
        match self {
            UartTransportError::Write(_) => {
                out.append("uart write failed: ");
                out.append(port);
            },
            UartTransportError::Read(_) => {
                out.append("uart read failed: ");
                out.append(port);
            },
            UartTransportError::Exhausted { attempts } => {
                out.append("device sent nothing within ");
                push_decimal(&mut out, *attempts as u64);
                out.append(
                    " poll attempt(s) — is it in the bootloader? if this was erase/flash, it may still be erasing — widen the poll budget (`with_poll`)",
                );
            },
            UartTransportError::Desync { scanned } => {
                out.append("no valid frame in ");
                push_decimal(&mut out, *scanned as u64);
                out.append(" scanned byte(s) — wrong baud rate or wrong port?");
            },
        }
        proof {
            assert(out@ =~= message_of(*self, port@));
        }
        out
    }
}

/// A serial port, the delay used between idle polls, and the budgets.
#[derive(Debug)]
pub struct UartTransport<T, D> {
    io: T,
    delay: D,
    poll_attempts: Bound,
    poll_interval_ns: u32,
    scan_limit: Bound,
}

impl<T, D> UartTransport<T, D> {
    /// The port.
    pub closed spec fn io(self) -> T {
        self.io
    }

    /// The delay.
    pub closed spec fn delay(self) -> D {
        self.delay
    }

    /// The budgets.
    pub closed spec fn budget(self) -> UartBudget {
        UartBudget {
            poll_attempts: self.poll_attempts.value(),
            poll_interval_ns: self.poll_interval_ns,
            scan_limit: self.scan_limit.value(),
        }
    }

    /// Wraps a serial port, with `delay` between idle polls and the default
    /// budgets.
    pub fn new(io: T, delay: D) -> (r: Self)
        ensures
            r.io() == io,
            r.delay() == delay,
            r.budget() == (UartBudget {
                poll_attempts: DEFAULT_POLL_ATTEMPTS,
                poll_interval_ns: DEFAULT_POLL_INTERVAL_NS,
                scan_limit: DEFAULT_SCAN_LIMIT,
            }),
    {
        UartTransport {
            io,
            delay,
            poll_attempts: Bound::new(DEFAULT_POLL_ATTEMPTS),
            poll_interval_ns: DEFAULT_POLL_INTERVAL_NS,
            scan_limit: Bound::new(DEFAULT_SCAN_LIMIT),
        }
    }

    /// Overrides the poll budget: up to `attempts` idle reads (at least one),
    /// `interval_ns` apart.
    #[must_use]
    pub fn with_poll(self, attempts: u32, interval_ns: u32) -> (r: Self)
        ensures
            r.io() == self.io(),
            r.delay() == self.delay(),
            r.budget() == self.budget().polled(attempts, interval_ns),
    {
        let mut t: Self = self;
        t.set_poll(attempts, interval_ns);
        t
    }

    /// Re-tunes the poll budget on a live transport, with the same floor as
    /// [`UartTransport::with_poll`].
    pub fn set_poll(&mut self, attempts: u32, interval_ns: u32)
        ensures
            final(self).io() == old(self).io(),
            final(self).delay() == old(self).delay(),
            final(self).budget() == old(self).budget().polled(attempts, interval_ns),
    {
        self.poll_attempts = Bound::new(attempts);
        self.poll_interval_ns = interval_ns;
    }

    /// Overrides the babble bound: bytes without a frame tolerated per
    /// request (at least one).
    #[must_use]
    pub fn with_scan_limit(self, bytes: u32) -> (r: Self)
        ensures
            r.io() == self.io(),
            r.delay() == self.delay(),
            r.budget() == (UartBudget {
                scan_limit: crate::adapters::at_least_one(bytes),
                ..self.budget()
            }),
    {
        let mut t: Self = self;
        t.scan_limit = Bound::new(bytes);
        t
    }

    /// Takes the port and the delay back.
    pub fn release(self) -> (r: (T, D))
        ensures
            r.0 == self.io(),
            r.1 == self.delay(),
    {
        (self.io, self.delay)
    }

    /// The port and the delay, to perform an exchange with.
    pub fn parts(&mut self) -> (r: (&mut T, &mut D))
        ensures
            *r.0 == old(self).io(),
            *r.1 == old(self).delay(),
            final(self).io() == *final(r.0),
            final(self).delay() == *final(r.1),
            final(self).budget() == old(self).budget(),
    {
        (&mut self.io, &mut self.delay)
    }

    /// The receiving half of one exchange, from its first read on.
    pub fn receiver(&self) -> (r: UartReceiver)
        ensures
            r.budget() == self.budget(),
            r@ == (UartState {
                scan: crate::stream::ScanState::Hunting,
                attempts: 0,
                junk: 0,
            }),
    {
        UartReceiver {
            scanner: RxScanner::new(),
            attempts: Counter::new(self.poll_attempts),
            junk: Counter::new(self.scan_limit),
            interval_ns: self.poll_interval_ns,
        }
    }
}

/// The budgets of a UART adapter.
pub ghost struct UartBudget {
    /// Idle reads at most.
    pub poll_attempts: u32,
    /// Nanoseconds after an idle read.
    pub poll_interval_ns: u32,
    /// Bytes without a frame at most.
    pub scan_limit: u32,
}

impl UartBudget {
    /// The budgets with another poll budget.
    pub open spec fn polled(self, attempts: u32, interval_ns: u32) -> UartBudget {
        UartBudget {
            poll_attempts: crate::adapters::at_least_one(attempts),
            poll_interval_ns: interval_ns,
            ..self
        }
    }
}

/// Where the receiving half of an exchange stands.
pub ghost struct UartState {
    /// What the scanner is doing.
    pub scan: crate::stream::ScanState,
    /// Idle reads so far.
    pub attempts: int,
    /// Bytes without a frame so far.
    pub junk: int,
}

/// What to do after a read.
#[derive(Debug, Clone, Copy, PartialEq, Eq)]
pub enum UartStep {
    /// Read again.
    Read,
    /// Wait, then read again.
    Wait {
        /// Nanoseconds to wait.
        ns: u32,
    },
    /// A frame of `len` bytes is at the front of the receive buffer.
    Done {
        /// Frame length in bytes.
        len: usize,
    },
}

/// What scanning some bytes comes to. `end` is the length of the frame found
/// or the count of bytes discarded at giving up, and `None` while neither is
/// the case.
pub ghost struct UartScan {
    pub state: UartState,
    pub buf: Seq<u8>,
    pub end: Option<Result<usize, u32>>,
}

/// What scanning one byte comes to.
pub open spec fn scan_byte(
    state: UartState,
    byte: u8,
    buf: Seq<u8>,
    scan_limit: u32,
) -> UartScan {
    let p = crate::stream::pushed(state.scan, byte, buf);
    let next = UartState { scan: p.state, ..state };
    match p.scan {
        Scan::Done { len } => UartScan { state: next, buf: p.buf, end: Some(Ok(len)) },
        Scan::Frame => UartScan { state: next, buf: p.buf, end: None },
        _ => UartScan {
            state: UartState { junk: crate::adapters::spent(state.junk, scan_limit), ..next },
            buf: p.buf,
            end: if state.junk + 1 < scan_limit {
                None
            } else {
                Some(Err(scan_limit))
            },
        },
    }
}

/// What scanning `bytes` comes to: one byte after the other, up to the one
/// that ends it.
pub open spec fn scan_bytes(
    state: UartState,
    bytes: Seq<u8>,
    buf: Seq<u8>,
    scan_limit: u32,
) -> UartScan
    decreases bytes.len(),
{
    if bytes.len() == 0 {
        UartScan { state, buf, end: None }
    } else {
        let first = scan_byte(state, bytes[0], buf, scan_limit);
        if first.end is Some {
            first
        } else {
            scan_bytes(first.state, bytes.skip(1), first.buf, scan_limit)
        }
    }
}

/// Decides after each read of one exchange what comes next.
#[derive(Debug)]
pub struct UartReceiver {
    scanner: RxScanner,
    attempts: Counter,
    junk: Counter,
    interval_ns: u32,
}

impl View for UartReceiver {
    type V = UartState;

    closed spec fn view(&self) -> UartState {
        UartState {
            scan: self.scanner@,
            attempts: self.attempts.count() as int,
            junk: self.junk.count() as int,
        }
    }
}

/// The bytes that a read brought: what the port counted, cut at the end of
/// the chunk.
pub open spec fn bytes_read(chunk: Seq<u8>, n: usize) -> Seq<u8> {
    chunk.take(if n <= chunk.len() {
        n as int
    } else {
        chunk.len() as int
    })
}

impl UartReceiver {
    /// The budgets.
    pub closed spec fn budget(self) -> UartBudget {
        UartBudget {
            poll_attempts: self.attempts.limit(),
            poll_interval_ns: self.interval_ns,
            scan_limit: self.junk.limit(),
        }
    }

    /// Takes a read that the port says brought `n` bytes to the front of
    /// `chunk`; frame bytes land at the front of `rsp`.
    ///
    /// # Errors
    ///
    /// [`UartTransportError::Exhausted`] once the poll budget is spent on
    /// reads without a byte; [`UartTransportError::Desync`] once the scan
    /// limit is reached by bytes without a frame.
    pub fn received<E>(&mut self, chunk: &[u8], n: usize, rsp: &mut [u8]) -> (r: Result<
        UartStep,
        UartTransportError<E>,
    >)
        ensures
            final(self).budget() == old(self).budget(),
            n == 0 ==> final(rsp)@ == old(rsp)@ && final(self)@ == (UartState {
                attempts: crate::adapters::spent(
                    old(self)@.attempts,
                    old(self).budget().poll_attempts,
                ),
                ..old(self)@
            }) && r == (if old(self)@.attempts + 1 < old(self).budget().poll_attempts {
                Ok::<UartStep, UartTransportError<E>>(
                    (UartStep::Wait { ns: old(self).budget().poll_interval_ns }),
                )
            } else {
                Err::<UartStep, UartTransportError<E>>(
                    (UartTransportError::Exhausted {
                        attempts: old(self).budget().poll_attempts,
                    }),
                )
            }),
            n > 0 ==> ({
                let s = scan_bytes(
                    old(self)@,
                    bytes_read(chunk@, n),
                    old(rsp)@,
                    old(self).budget().scan_limit,
                );
                &&& final(self)@ == s.state
                &&& final(rsp)@ == s.buf
                &&& r == match s.end {
                    None => Ok::<UartStep, UartTransportError<E>>(UartStep::Read),
                    Some(Ok(len)) => Ok(UartStep::Done { len }),
                    Some(Err(scanned)) => Err(UartTransportError::Desync { scanned }),
                }
            }),
    {
        if n == 0 {
            return match self.attempts.spend() {
                None => Ok(UartStep::Wait { ns: self.interval_ns }),
                Some(attempts) => Err(UartTransportError::Exhausted { attempts }),
            };
        }
        let count: usize = if n <= chunk.len() {
            n
        } else {
            chunk.len()
        };
        let ghost all = bytes_read(chunk@, n);
        let ghost whole = scan_bytes(self@, all, rsp@, self.junk.limit());
        let mut i: usize = 0;
        proof {
            assert(all.skip(0) =~= all);
        }
        while i < count
            invariant
                n > 0,
                i <= count <= chunk@.len(),
                all == bytes_read(chunk@, n),
                all.len() == count,
                self.budget() == old(self).budget(),
                self.junk.limit() == old(self).budget().scan_limit,
                whole == scan_bytes(
                    old(self)@,
                    all,
                    old(rsp)@,
                    old(self).budget().scan_limit,
                ),
                whole == scan_bytes(self@, all.skip(i as int), rsp@, self.junk.limit()),
            decreases count - i,
        {
            let byte: u8 = chunk[i];
            proof {
                assert(all.skip(i as int)[0] == byte);
                assert(all.skip(i as int).skip(1) =~= all.skip(i + 1));
            }
            let scan: Scan = self.scanner.push(byte, rsp);
            match scan {
                Scan::Done { len } => {
                    return Ok(UartStep::Done { len });
                },
                Scan::Frame => {},
                _ => {
                    if let Some(scanned) = self.junk.spend() {
                        return Err(UartTransportError::Desync { scanned });
                    }
                },
            }
            i = i + 1;
        }
        Ok(UartStep::Read)
    }
}

/// How the stream was cut into reads does not matter: scanning `a` and then
/// `b` is scanning `a ++ b`, up to the byte that ends it.
pub proof fn law_chunking_does_not_matter(
    state: UartState,
    a: Seq<u8>,
    b: Seq<u8>,
    buf: Seq<u8>,
    scan_limit: u32,
)
    ensures
        scan_bytes(state, a + b, buf, scan_limit) == ({
            let s = scan_bytes(state, a, buf, scan_limit);
            if s.end is Some {
                s
            } else {
                scan_bytes(s.state, b, s.buf, scan_limit)
            }
        }),
    decreases a.len(),
{
    if a.len() == 0 {
        assert(a + b =~= b);
    } else {
        let first = scan_byte(state, a[0], buf, scan_limit);
        assert((a + b)[0] == a[0]);
        assert((a + b).skip(1) =~= a.skip(1) + b);
        if first.end is None {
            law_chunking_does_not_matter(first.state, a.skip(1), b, first.buf, scan_limit);
        }
    }
}

/// A run of the scanner on which no byte is junk and only the last completes,
/// in terms of the receiver.
proof fn lemma_frame_run(
    state: UartState,
    bytes: Seq<u8>,
    buf: Seq<u8>,
    scan_limit: u32,
    len: usize,
)
    requires
        bytes.len() > 0,
        ({
            let r = crate::stream::run(state.scan, bytes, buf);
            r.scans == Seq::new((bytes.len() - 1) as nat, |i: int| Scan::Frame).push(
                Scan::Done { len },
            )
        }),
    ensures
        scan_bytes(state, bytes, buf, scan_limit) == (UartScan {
            state: UartState { scan: crate::stream::run(state.scan, bytes, buf).state, ..state },
            buf: crate::stream::run(state.scan, bytes, buf).buf,
            end: Some(Ok(len)),
        }),
    decreases bytes.len(),
{
    let head = seq![bytes[0]];
    let tail = bytes.skip(1);
    assert(bytes =~= head + tail);
    crate::stream::law_runs_compose(state.scan, head, tail, buf);
    let p = crate::stream::pushed(state.scan, bytes[0], buf);
    assert(head.drop_last() =~= Seq::<u8>::empty());
    let one = crate::stream::run(state.scan, head, buf);
    assert(crate::stream::run(state.scan, head.drop_last(), buf).state == state.scan);
    assert(one.scans =~= seq![p.scan]);
    assert(one.state == p.state && one.buf == p.buf);
    let rest = crate::stream::run(p.state, tail, p.buf);
    let all = crate::stream::run(state.scan, bytes, buf);
    assert(all.scans == seq![p.scan] + rest.scans);
    assert(all.scans[0] == p.scan);
    lemma_run_len(p.state, tail, p.buf);
    if bytes.len() == 1 {
        assert(p.scan == Scan::Done { len });
        assert(tail =~= Seq::<u8>::empty());
    } else {
        assert(p.scan == Scan::Frame);
        assert(rest.scans =~= all.scans.skip(1));
        assert(rest.scans =~= Seq::new((tail.len() - 1) as nat, |i: int| Scan::Frame).push(
            Scan::Done { len },
        ));
        let next = UartState { scan: p.state, ..state };
        lemma_frame_run(next, tail, p.buf, scan_limit, len);
    }
}

/// A run has one outcome per byte.
proof fn lemma_run_len(state: crate::stream::ScanState, bytes: Seq<u8>, buf: Seq<u8>)
    ensures
        crate::stream::run(state, bytes, buf).scans.len() == bytes.len(),
    decreases bytes.len(),
{
    if bytes.len() > 0 {
        lemma_run_len(state, bytes.drop_last(), buf);
    }
}

/// Garbage without a sync counts byte by byte.
proof fn lemma_garbage(state: UartState, garbage: Seq<u8>, buf: Seq<u8>, scan_limit: u32)
    requires
        state.scan == crate::stream::ScanState::Hunting,
        !garbage.contains(crate::stream::SYNC),
        state.junk + garbage.len() < scan_limit,
    ensures
        scan_bytes(state, garbage, buf, scan_limit) == (UartScan {
            state: UartState { junk: state.junk + garbage.len(), ..state },
            buf,
            end: None,
        }),
    decreases garbage.len(),
{
    if garbage.len() > 0 {
        let tail = garbage.skip(1);
        assert(garbage.contains(garbage[0]));
        assert(garbage[0] != crate::stream::SYNC);
        assert(!tail.contains(crate::stream::SYNC)) by {
            if tail.contains(crate::stream::SYNC) {
                let i = choose|i: int| 0 <= i < tail.len() && tail[i] == crate::stream::SYNC;
                assert(garbage[i + 1] == crate::stream::SYNC);
            }
        }
        let next = UartState { junk: state.junk + 1, ..state };
        lemma_garbage(next, tail, buf, scan_limit);
    }
}

/// A response is found behind garbage shorter than the scan limit: the
/// receiver ends with the frame's length, and the frame is at the front of
/// the receive buffer.
pub proof fn law_response_is_found(
    state: UartState,
    garbage: Seq<u8>,
    f: Seq<u8>,
    buf: Seq<u8>,
    scan_limit: u32,
)
    requires
        state.scan == crate::stream::ScanState::Hunting,
        !garbage.contains(crate::stream::SYNC),
        state.junk + garbage.len() < scan_limit,
        crate::frame::is_frame(f),
        f.len() <= buf.len(),
    ensures
        ({
            let s = scan_bytes(
                state,
                garbage + (seq![crate::stream::SYNC] + f),
                buf,
                scan_limit,
            );
            &&& s.end == Some(Ok::<usize, u32>(f.len() as usize))
            &&& s.buf == f + buf.skip(f.len() as int)
        }),
{
    let framed = seq![crate::stream::SYNC] + f;
    lemma_garbage(state, garbage, buf, scan_limit);
    law_chunking_does_not_matter(state, garbage, framed, buf, scan_limit);
    crate::stream::law_sync_then_frame_is_accepted(f, buf);
    let after = UartState { junk: state.junk + garbage.len(), ..state };
    assert((framed.len() - 1) as nat == f.len());
    lemma_frame_run(after, framed, buf, scan_limit, f.len() as usize);
}

/// Bytes without a sync are counted one by one. As many as the scan limit end
/// the exchange, and fewer do not; a frame in between is not needed for that.
pub proof fn law_garbage_is_given_up(
    state: UartState,
    garbage: Seq<u8>,
    buf: Seq<u8>,
    scan_limit: u32,
)
    requires
        state.scan == crate::stream::ScanState::Hunting,
        !garbage.contains(0x7Eu8),
        0 <= state.junk < scan_limit,
    ensures
        ({
            let s = scan_bytes(state, garbage, buf, scan_limit);
            &&& s.buf == buf
            &&& s.state.attempts == state.attempts
            &&& state.junk + garbage.len() < scan_limit ==> s.end is None && s.state.junk
                == state.junk + garbage.len()
            &&& state.junk + garbage.len() >= scan_limit ==> s.end == Some(
                Err::<usize, u32>(scan_limit),
            )
        }),
    decreases garbage.len(),
{
    if garbage.len() > 0 {
        assert(garbage.contains(garbage[0]));
        let first = scan_byte(state, garbage[0], buf, scan_limit);
        let tail = garbage.skip(1);
        if first.end is None {
            assert(!tail.contains(0x7Eu8)) by {
                if tail.contains(0x7Eu8) {
                    let i = choose|i: int| 0 <= i < tail.len() && tail[i] == 0x7Eu8;
                    assert(garbage[i + 1] == 0x7Eu8);
                }
            }
            law_garbage_is_given_up(first.state, tail, buf, scan_limit);
        }
    }
}

/// A read brings what the port counted, from the front of the chunk and never
/// more than it.
pub proof fn law_bytes_read(chunk: Seq<u8>, n: usize)
    ensures
        n <= chunk.len() ==> bytes_read(chunk, n).len() == n,
        n > chunk.len() ==> bytes_read(chunk, n).len() == chunk.len(),
        forall|i: int|
            0 <= i < bytes_read(chunk, n).len() ==> #[trigger] bytes_read(chunk, n)[i] == chunk[i],
{
}

} // verus!
