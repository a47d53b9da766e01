//! What the command line knows of the wires: which one to open, the poll
//! budgets on it, and the rules of its operating-system backends.

use vstd::prelude::*;
use vstd::string::*;

use crate::adapters::{
    SoftUartTransport, SpiTransport, UartTransport, DEFAULT_SOFTUART_POLL_INTERVAL_NS,
};
use crate::frame::CMD_ERASE_APP;
use crate::text::push_decimal;

verus! {

/// Response poll budget, straight from the flags.
#[derive(Debug, Clone, Copy, PartialEq, Eq)]
pub struct PollBudget {
    /// Polls at most.
    pub attempts: u32,
    /// Milliseconds between two polls.
    pub delay_ms: u32,
}

/// The budget when no flag asks for another: sized for the short commands,
/// which a device answers within milliseconds.
impl Default for PollBudget {
    fn default() -> (r: Self)
        ensures
            r.attempts == 100,
            r.delay_ms == 10,
    {
        PollBudget { attempts: 100, delay_ms: 10 }
    }
}

/// Which wire to open, fully resolved from the flags. `S` is text.
#[derive(Debug, PartialEq, Eq)]
pub enum TransportSpec<S = String> {
    /// An I2C bus and the 7-bit address on it.
    I2c { bus: S, addr: u16 },
    /// A serial port and its rate.
    Uart { dev: S, baud: u32 },
    /// An SPI device and its clock.
    Spi { dev: S, speed_hz: u32 },
    /// A GPIO chip and two of its lines.
    Gpio { chip: S, pin_tx: u32, pin_rx: u32 },
}

impl View for TransportSpec {
    type V = TransportSpec<Seq<char>>;

    open spec fn view(&self) -> TransportSpec<Seq<char>> {
        match self {
            TransportSpec::I2c { bus, addr } => TransportSpec::I2c { bus: bus@, addr: *addr },
            TransportSpec::Uart { dev, baud } => TransportSpec::Uart { dev: dev@, baud: *baud },
            TransportSpec::Spi { dev, speed_hz } => TransportSpec::Spi {
                dev: dev@,
                speed_hz: *speed_hz,
            },
            TransportSpec::Gpio { chip, pin_tx, pin_rx } => TransportSpec::Gpio {
                chip: chip@,
                pin_tx: *pin_tx,
                pin_rx: *pin_rx,
            },
        }
    }
}

/// Baud rates that a serial port can be set to.
pub const SUPPORTED_BAUDS: [u32; 6] = [9_600, 19_200, 38_400, 57_600, 115_200, 230_400];

/// Can a serial port be set to this rate?
pub fn is_supported_baud(baud: u32) -> (r: bool)
    ensures
        r == SUPPORTED_BAUDS@.contains(baud),
{
    let all: [u32; 6] = SUPPORTED_BAUDS;
    let mut i: usize = 0;
    while i < 6
        invariant
            i <= 6,
            all == SUPPORTED_BAUDS,
            forall|j: int| 0 <= j < i ==> all@[j] != baud,
        decreases 6 - i,
    {
        if all[i] == baud {
            return true;
        }
        i = i + 1;
    }
    false
}

/// The budget policy of a wire: every exchange runs with the base budget,
/// except that erase requests alone may run with more attempts, because the
/// device erases the whole region inside that one exchange.
#[derive(Debug)]
pub struct DynTransport {
    base: PollBudget,
    erase_attempts: u32,
}

/// Which budgets to set around one exchange.
#[derive(Debug, Clone, Copy, PartialEq, Eq)]
pub struct ExchangeBudget {
    /// Set before the request.
    pub before: Option<PollBudget>,
    /// Set after it, whatever it returned.
    pub after: Option<PollBudget>,
}

/// The budget in force once `change` has been made.
pub open spec fn in_force(now: PollBudget, change: Option<PollBudget>) -> PollBudget {
    match change {
        Some(b) => b,
        None => now,
    }
}

impl DynTransport {
    /// The budget of every exchange but a raised erase.
    pub closed spec fn base_budget(self) -> PollBudget {
        self.base
    }

    /// Attempts of an erase.
    pub closed spec fn erase_attempts(self) -> u32 {
        self.erase_attempts
    }

    #[verifier::type_invariant]
    spec fn inv(self) -> bool {
        self.erase_attempts >= self.base.attempts
    }

    /// A policy with no raised budget.
    pub fn new(base: PollBudget) -> (r: Self)
        ensures
            r.base_budget() == base,
            r.erase_attempts() == base.attempts,
    {
        DynTransport { base, erase_attempts: base.attempts }
    }

    /// Raises the attempts used for erase requests only, never below the base
    /// budget.
    pub fn set_erase_attempts(&mut self, attempts: u32)
        ensures
            final(self).base_budget() == old(self).base_budget(),
            final(self).erase_attempts() == (if attempts > old(self).base_budget().attempts {
                attempts
            } else {
                old(self).base_budget().attempts
            }),
    {
        if attempts > self.base.attempts {
            self.erase_attempts = attempts;
        } else {
            self.erase_attempts = self.base.attempts;
        }
    }

    /// Which budgets to set around the exchange of `req`. The command byte
    /// leads every request frame, so this is exact.
    pub fn budget_for(&self, req: &[u8]) -> (r: ExchangeBudget)
        ensures
            r == exchange_budget(self.base_budget(), self.erase_attempts(), req@),
            in_force(self.base_budget(), r.before).attempts >= self.base_budget().attempts,
    {
        proof {
            use_type_invariant(self);
        }
        if req.len() > 0 && req[0] == CMD_ERASE_APP && self.erase_attempts > self.base.attempts {
            ExchangeBudget {
                before: Some(
                    PollBudget { attempts: self.erase_attempts, delay_ms: self.base.delay_ms },
                ),
                after: Some(self.base),
            }
        } else {
            ExchangeBudget { before: None, after: None }
        }
    }
}

/// The budgets around the exchange of `req`: more attempts for an erase, and
/// the base budget again behind it.
pub open spec fn exchange_budget(
    base: PollBudget,
    erase_attempts: u32,
    req: Seq<u8>,
) -> ExchangeBudget {
    if req.len() > 0 && req[0] == CMD_ERASE_APP && erase_attempts > base.attempts {
        ExchangeBudget {
            before: Some(PollBudget { attempts: erase_attempts, ..base }),
            after: Some(base),
        }
    } else {
        ExchangeBudget { before: None, after: None }
    }
}

/// A wire that is on the base budget before an exchange is on it again after;
/// in between an erase has its own attempts and everything else the base
/// budget.
pub proof fn law_base_budget_is_restored(base: PollBudget, erase_attempts: u32, req: Seq<u8>)
    requires
        erase_attempts >= base.attempts,
    ensures
        ({
            let b = exchange_budget(base, erase_attempts, req);
            let during = in_force(base, b.before);
            &&& in_force(during, b.after) == base
            &&& during.delay_ms == base.delay_ms
            &&& during.attempts == (if req.len() > 0 && req[0] == CMD_ERASE_APP {
                erase_attempts
            } else {
                base.attempts
            })
        }),
{
}

/// Milliseconds in nanoseconds, as far as those fit.
pub open spec fn ms_in_ns(ms: u32) -> u32 {
    if ms * 1_000_000 > u32::MAX {
        u32::MAX
    } else {
        (ms * 1_000_000) as u32
    }
}

/// Milliseconds in nanoseconds, as far as those fit.
fn ns_of(ms: u32) -> (r: u32)
    ensures
        r == ms_in_ns(ms),
{
    if ms > 4_294 {
        u32::MAX
    } else {
        ms * 1_000_000
    }
}

impl<T, D> UartTransport<T, D> {
    /// Takes a budget from the flags.
    pub fn set_poll_budget(&mut self, poll: PollBudget)
        ensures
            final(self).io() == old(self).io(),
            final(self).delay() == old(self).delay(),
            final(self).budget() == old(self).budget().polled(
                poll.attempts,
                ms_in_ns(poll.delay_ms),
            ),
    {
        self.set_poll(poll.attempts, ns_of(poll.delay_ms));
    }
}

impl<S, D> SpiTransport<S, D> {
    /// Takes a budget from the flags.
    pub fn set_poll_budget(&mut self, poll: PollBudget)
        ensures
            final(self).spi() == old(self).spi(),
            final(self).delay() == old(self).delay(),
            final(self).budget() == (crate::adapters::spi::SpiBudget {
                poll_attempts: crate::adapters::at_least_one(poll.attempts),
                poll_interval_ns: ms_in_ns(poll.delay_ms),
                ..old(self).budget()
            }),
    {
        self.set_poll(poll.attempts, ns_of(poll.delay_ms));
    }
}

/// How many samples at the default interval make up the wait that a budget
/// asks for: at least one, and as far as they fit.
pub open spec fn samples_for(poll: PollBudget) -> u32 {
    let total_ns = crate::adapters::at_least_one(poll.attempts) * poll.delay_ms * 1_000_000;
    let samples = total_ns / DEFAULT_SOFTUART_POLL_INTERVAL_NS as int;
    if samples < 1 {
        1
    } else if samples > u32::MAX {
        u32::MAX
    } else {
        samples as u32
    }
}

impl<Tx, Rx, D> SoftUartTransport<Tx, Rx, D> {
    /// Takes a budget from the flags. The poll interval here is the sampling
    /// granularity, which has to stay far below half a bit time, so the
    /// budget is converted: the same total wait, sampled at the default
    /// interval.
    pub fn set_poll_budget(&mut self, poll: PollBudget)
        ensures
            final(self).tx() == old(self).tx(),
            final(self).rx() == old(self).rx(),
            final(self).delay() == old(self).delay(),
            final(self).budget() == (crate::adapters::softuart::SoftUartBudget {
                poll_attempts: samples_for(poll),
                poll_interval_ns: DEFAULT_SOFTUART_POLL_INTERVAL_NS,
                ..old(self).budget()
            }),
    {
        let attempts: u32 = if poll.attempts < 1 {
            1
        } else {
            poll.attempts
        };
        proof {
            assert(attempts * poll.delay_ms <= 0xFFFF_FFFF * 0xFFFF_FFFF) by (nonlinear_arith)
                requires
                    0 <= attempts <= 0xFFFF_FFFF,
                    0 <= poll.delay_ms <= 0xFFFF_FFFF,
            ;
            assert(0 <= attempts * poll.delay_ms) by (nonlinear_arith);
        }
        let wait_ms: u64 = attempts as u64 * poll.delay_ms as u64;
        let samples: u32 = if wait_ms < 1 {
            1
        } else if wait_ms > 8_589_934 {
            u32::MAX
        } else {
            (wait_ms * 500) as u32
        };
        self.set_poll(samples, DEFAULT_SOFTUART_POLL_INTERVAL_NS);
    }
}

/// Is a delay long enough to sleep through? Shorter ones are spun, because
/// the wakeup of a sleep is too late for bit timing.
pub fn sleeps(ns: u32) -> (r: bool)
    ensures
        r == (ns >= 1_000_000),
{
    ns >= 1_000_000
}

/// What went wrong on an I2C device node.
#[derive(Debug)]
pub enum LinuxI2cError<E> {
    /// Opening it failed.
    Open(E),
    /// The request write failed.
    Write(E),
    /// Every poll read failed.
    Exhausted {
        /// Number of read attempts made.
        attempts: u32,
        /// The error from the final attempt.
        last: E,
    },
}

/// What [`LinuxI2cError::message`] says, given the node's own error.
pub open spec fn linux_i2c_message<E>(e: LinuxI2cError<E>, node: Seq<char>) -> Seq<char> {
    match e {
        LinuxI2cError::Open(_) => "cannot open i2c device: "@ + node,
        LinuxI2cError::Write(_) => "i2c write failed: "@ + node,
        LinuxI2cError::Exhausted { attempts, .. } => "device did not answer within "@
            + crate::text::decimal(attempts as nat)
            + " poll attempts (is it in the bootloader, at this address? if this was erase/flash, the device may still be erasing — raise --poll-attempts): "@
            + node,
    }
}

impl<E> LinuxI2cError<E> {
    /// The error in words; `node` is the rendered error that it carries.
    pub fn message(&self, node: &str) -> (r: String)
        ensures
            r@ == linux_i2c_message(*self, node@),
    {
        let mut out = String::new();
        match self {
            LinuxI2cError::Open(_) => {
                out.append("cannot open i2c device: ");
            },
            LinuxI2cError::Write(_) => {
                out.append("i2c write failed: ");
            },
            LinuxI2cError::Exhausted { attempts, .. } => {
                out.append("device did not answer within ");
                push_decimal(&mut out, *attempts as u64);
                out.append(
                    " poll attempts (is it in the bootloader, at this address? if this was erase/flash, the device may still be erasing — raise --poll-attempts): ",
                );
            },
        }
        out.append(node);
        proof {
            assert(out@ =~= linux_i2c_message(*self, node@));
        }
        out
    }
}

/// What went wrong on an SPI device node.
#[derive(Debug)]
pub enum SpiError<E> {
    /// A transfer failed.
    Io(E),
    /// A transaction has a shape that the node cannot express.
    Unsupported(&'static str),
}

/// What [`SpiError::message`] says, given the node's own error.
pub open spec fn spi_message<E>(e: SpiError<E>, node: Seq<char>) -> Seq<char> {
    match e {
        SpiError::Io(_) => "spidev transfer failed: "@ + node,
        SpiError::Unsupported(what) => "spidev backend cannot do this: "@ + what@,
    }
}

impl<E> SpiError<E> {
    /// The error in words; `node` is the rendered error that it carries, if
    /// any.
    pub fn message(&self, node: &str) -> (r: String)
        ensures
            r@ == spi_message(*self, node@),
    {
        let mut out = String::new();
        match self {
            SpiError::Io(_) => {
                out.append("spidev transfer failed: ");
                out.append(node);
            },
            SpiError::Unsupported(what) => {
                out.append("spidev backend cannot do this: ");
                out.append(what);
            },
        }
        proof {
            assert(out@ =~= spi_message(*self, node@));
        }
        out
    }
}

/// One operation of an SPI transaction, by its shape.
#[derive(Debug, Clone, Copy, PartialEq, Eq)]
pub enum SpiOp {
    /// Bytes in.
    Read,
    /// Bytes out.
    Write,
    /// Bytes both ways, from one buffer into another.
    Transfer {
        /// Length of the receive buffer.
        read: usize,
        /// Length of the transmit buffer.
        write: usize,
    },
    /// Bytes both ways in one buffer.
    TransferInPlace,
    /// A pause.
    DelayNs,
}

/// One transfer that the node is told to make.
#[derive(Debug, Clone, Copy, PartialEq, Eq)]
pub enum SpiMove {
    /// Bytes in.
    Read,
    /// Bytes out.
    Write,
    /// Bytes both ways, from one buffer into another.
    Transfer,
    /// Bytes both ways in one buffer, out of a snapshot of it.
    InPlace {
        /// Number of the snapshot, in the order of such operations.
        copy: usize,
    },
}

/// Why the node cannot express an operation; `None` where it can.
pub open spec fn unsupported(op: SpiOp) -> Option<Seq<char>> {
    match op {
        SpiOp::DelayNs => Some("a delay inside one chip-select assertion"@),
        SpiOp::Transfer { read, write } => if read != write {
            Some("Transfer with different read/write lengths"@)
        } else {
            None
        },
        _ => None,
    }
}

/// How many operations work in place.
pub open spec fn in_place_count(ops: Seq<SpiOp>) -> nat
    decreases ops.len(),
{
    if ops.len() == 0 {
        0
    } else {
        in_place_count(ops.drop_last()) + (if ops.last() is TransferInPlace {
            1nat
        } else {
            0
        })
    }
}

/// What operation `i` is told to the node as.
pub open spec fn move_of(ops: Seq<SpiOp>, i: int) -> SpiMove {
    match ops[i] {
        SpiOp::Read => SpiMove::Read,
        SpiOp::Write => SpiMove::Write,
        SpiOp::TransferInPlace => SpiMove::InPlace { copy: in_place_count(ops.take(i)) as usize },
        _ => SpiMove::Transfer,
    }
}

/// Screens a transaction for the shapes that the node cannot express, and
/// says which transfer each operation becomes.
///
/// # Errors
///
/// [`SpiError::Unsupported`] for the first operation that it cannot express;
/// nothing is transferred then.
pub fn screen<E>(ops: &Vec<SpiOp>) -> (r: Result<Vec<SpiMove>, SpiError<E>>)
    ensures
        match r {
            Ok(moves) => {
                &&& moves@.len() == ops@.len()
                &&& forall|i: int|
                    0 <= i < ops@.len() ==> unsupported(#[trigger] ops@[i]) is None && moves@[i]
                        == move_of(ops@, i)
            },
            Err(e) => exists|i: int|
                0 <= i < ops@.len() && (e matches SpiError::Unsupported(what) && unsupported(
                    #[trigger] ops@[i],
                ) == Some(what@)) && forall|j: int|
                    0 <= j < i ==> unsupported(#[trigger] ops@[j]) is None,
        },
{
    let mut moves: Vec<SpiMove> = Vec::new();
    let mut copies: usize = 0;
    let mut i: usize = 0;
    proof {
        assert(ops@.take(0) =~= Seq::<SpiOp>::empty());
    }
    while i < ops.len()
        invariant
            i <= ops@.len(),
            moves@.len() == i,
            copies == in_place_count(ops@.take(i as int)),
            copies <= i,
            forall|j: int|
                0 <= j < i ==> unsupported(#[trigger] ops@[j]) is None && moves@[j] == move_of(
                    ops@,
                    j,
                ),
        decreases ops@.len() - i,
    {
        proof {
            assert(ops@.take(i + 1).drop_last() =~= ops@.take(i as int));
            assert(unsupported(ops@[i as int]) == unsupported(ops@[i as int]));
        }
        let step: SpiMove = match ops[i] {
            SpiOp::DelayNs => {
                return Err(SpiError::Unsupported("a delay inside one chip-select assertion"));
            },
            SpiOp::Transfer { read, write } => {
                if read != write {
                    return Err(
                        SpiError::Unsupported("Transfer with different read/write lengths"),
                    );
                }
                SpiMove::Transfer
            },
            SpiOp::TransferInPlace => {
                copies = copies + 1;
                SpiMove::InPlace { copy: copies - 1 }
            },
            SpiOp::Read => SpiMove::Read,
            SpiOp::Write => SpiMove::Write,
        };
        moves.push(step);
        i = i + 1;
    }
    Ok(moves)
}

/// A wait in nanoseconds is a million times the one in milliseconds, up to the
/// longest that 32 bits can say.
pub proof fn law_longest_wait(ms: u32)
    ensures
        ms <= 4294 ==> ms_in_ns(ms) == ms * 1_000_000,
        ms > 4294 ==> ms_in_ns(ms) == 0xFFFF_FFFF,
{
}

/// The samples of a budget wait as long as the budget asks for: 2000
/// nanoseconds each, five hundred to a millisecond, at least one, and as many
/// as 32 bits can count.
pub proof fn law_samples_make_up_the_wait(poll: PollBudget)
    ensures
        ({
            let attempts = if poll.attempts == 0 {
                1
            } else {
                poll.attempts as int
            };
            let wanted = 500 * (attempts * poll.delay_ms);
            &&& 1 <= wanted <= 0xFFFF_FFFF ==> samples_for(poll) == wanted
            &&& wanted < 1 ==> samples_for(poll) == 1
            &&& wanted > 0xFFFF_FFFF ==> samples_for(poll) == 0xFFFF_FFFF
        }),
{
}

/// Each operation of a bus transaction is told to the node as what it is;
/// those in place have scratch copies numbered from zero in their order.
pub proof fn law_copies_are_numbered(ops: Seq<SpiOp>, i: int, j: int)
    requires
        0 <= i < j < ops.len(),
    ensures
        ops[i] is TransferInPlace && ops[j] is TransferInPlace ==> in_place_count(ops.take(i))
            < in_place_count(ops.take(j)),
        (forall|k: int| i < k < j ==> !((#[trigger] ops[k]) is TransferInPlace))
            && ops[i] is TransferInPlace ==> in_place_count(ops.take(j)) == in_place_count(
            ops.take(i),
        ) + 1,
        in_place_count(ops.take(0)) == 0,
    decreases j - i,
{
    assert(ops.take(j).drop_last() =~= ops.take(j - 1));
    assert(ops.take(j).last() == ops[j - 1]);
    if i < j - 1 {
        lemma_copies_between(ops, i, j - 1);
    }
}

/// Copies are counted up, by those in place.
proof fn lemma_copies_between(ops: Seq<SpiOp>, i: int, j: int)
    requires
        0 <= i < j < ops.len(),
    ensures
        in_place_count(ops.take(j)) >= in_place_count(ops.take(i)) + (if ops[i] is TransferInPlace {
            1nat
        } else {
            0
        }),
        (forall|k: int| i < k < j ==> !((#[trigger] ops[k]) is TransferInPlace))
            && ops[i] is TransferInPlace ==> in_place_count(ops.take(j)) == in_place_count(
            ops.take(i),
        ) + 1,
    decreases j - i,
{
    assert(ops.take(j).drop_last() =~= ops.take(j - 1));
    assert(ops.take(j).last() == ops[j - 1]);
    if i < j - 1 {
        lemma_copies_between(ops, i, j - 1);
    }
}

/// The node can do every operation but a delay and a transfer that reads
/// another number of bytes than it writes.
pub proof fn law_what_the_node_can_do(op: SpiOp)
    ensures
        unsupported(op) is Some <==> op is DelayNs || (op matches SpiOp::Transfer { read, write }
            && read != write),
{
}

} // verus!
