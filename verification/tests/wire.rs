//! Budgets and rules of the wires.

use std::cell::RefCell;
use std::rc::Rc;

use updater_sdk::adapters::{
    SoftUartTransport, SoftUartTransportError, SpiStep, SpiTransport, SpiTransportError, UartStep,
    UartTransport, UartTransportError,
};
use updater_sdk::frame::{CMD_ERASE_APP, CMD_INFO};
use updater_sdk::wire::{
    is_supported_baud, screen, sleeps, DynTransport, LinuxI2cError, PollBudget, SpiError, SpiMove,
    SpiOp, SUPPORTED_BAUDS,
};
use updater_sdk::Transport;

/// Records the attempt budget in force at each request.
struct FakeBackend {
    seen: Rc<RefCell<Vec<u32>>>,
    attempts: u32,
}

impl Transport for FakeBackend {
    type Err = ();

    fn request(&mut self, _req: &[u8], _rsp: &mut [u8]) -> Result<usize, Self::Err> {
        self.seen.borrow_mut().push(self.attempts);
        Ok(0)
    }
}

impl FakeBackend {
    fn set_poll_budget(&mut self, poll: PollBudget) {
        self.attempts = poll.attempts.max(1);
    }
}

/// A backend under the budget policy.
struct Wire {
    inner: FakeBackend,
    policy: DynTransport,
}

impl Wire {
    fn set_erase_attempts(&mut self, attempts: u32) {
        self.policy.set_erase_attempts(attempts);
    }

    fn request(&mut self, req: &[u8], rsp: &mut [u8]) -> Result<usize, ()> {
        let budget = self.policy.budget_for(req);
        if let Some(b) = budget.before {
            self.inner.set_poll_budget(b);
        }
        let out = self.inner.request(req, rsp);
        if let Some(b) = budget.after {
            self.inner.set_poll_budget(b);
        }
        out
    }
}

fn dyn_over_fake(base: PollBudget) -> (Wire, Rc<RefCell<Vec<u32>>>) {
    let seen = Rc::new(RefCell::new(Vec::new()));
    let mut inner = FakeBackend { seen: Rc::clone(&seen), attempts: 0 };
    inner.set_poll_budget(base);
    (Wire { inner, policy: DynTransport::new(base) }, seen)
}

#[test]
fn only_erase_requests_run_with_the_raised_budget() {
    let (mut t, seen) = dyn_over_fake(PollBudget { attempts: 100, delay_ms: 10 });
    t.set_erase_attempts(480);
    let mut rsp = [0u8; 4];
    t.request(&[CMD_ERASE_APP, 0, 0], &mut rsp).unwrap();
    t.request(&[CMD_INFO, 0, 0], &mut rsp).unwrap();
    t.request(&[CMD_ERASE_APP, 0, 0], &mut rsp).unwrap();
    assert_eq!(
        *seen.borrow(),
        vec![480, 100, 480],
        "erase gets the raised budget; everything else keeps the base"
    );
}

#[test]
fn erase_budget_never_drops_below_the_base() {
    let (mut t, seen) = dyn_over_fake(PollBudget { attempts: 1000, delay_ms: 10 });
    t.set_erase_attempts(5); // geometry asked for less than the user did
    let mut rsp = [0u8; 4];
    t.request(&[CMD_ERASE_APP, 0, 0], &mut rsp).unwrap();
    assert_eq!(*seen.borrow(), vec![1000], "--poll-attempts wins when larger");
}

/// Law: whatever an exchange is, the base budget is in force afterwards.
#[test]
fn the_base_budget_is_in_force_between_exchanges() {
    let base = PollBudget { attempts: 3, delay_ms: 2 };
    let mut policy = DynTransport::new(base);
    for attempts in [0, 3, 4, 900] {
        policy.set_erase_attempts(attempts);
        for req in [&[][..], &[CMD_ERASE_APP], &[CMD_ERASE_APP, 4], &[CMD_INFO, 0, 0x15]] {
            let b = policy.budget_for(req);
            let during = b.before.unwrap_or(base);
            assert_eq!(b.after.unwrap_or(during), base);
            let raised = req.first() == Some(&CMD_ERASE_APP) && attempts > 3;
            assert_eq!(during, PollBudget { attempts: if raised { attempts } else { 3 }, ..base });
        }
    }
}

#[test]
fn flag_budgets_reach_the_stream_adapters() {
    let mut rsp = [0u8; 16];
    let mut uart = UartTransport::new((), ());
    uart.set_poll_budget(PollBudget { attempts: 2, delay_ms: 7 });
    let mut rx = uart.receiver();
    let first: Result<UartStep, UartTransportError<()>> = rx.received(&[0; 4], 0, &mut rsp);
    assert_eq!(first, Ok(UartStep::Wait { ns: 7_000_000 }));
    let second: Result<UartStep, UartTransportError<()>> = rx.received(&[0; 4], 0, &mut rsp);
    assert_eq!(second, Err(UartTransportError::Exhausted { attempts: 2 }));

    let mut spi = SpiTransport::new((), ());
    spi.set_poll_budget(PollBudget { attempts: 2, delay_ms: u32::MAX });
    let mut rx = spi.receiver();
    let first: Result<SpiStep, SpiTransportError<()>> = rx.received(0, &mut rsp);
    assert_eq!(first, Ok(SpiStep::Wait { ns: u32::MAX }));
    let second: Result<SpiStep, SpiTransportError<()>> = rx.received(0, &mut rsp);
    assert_eq!(second, Err(SpiTransportError::Exhausted { attempts: 2 }));
}

#[test]
fn softuart_budget_keeps_the_total_wait() {
    // 3 attempts x 1 ms, sampled every 2 us: 3 000 000 / 2 000 samples.
    let mut rsp = [0u8; 16];
    let mut soft = SoftUartTransport::new((), (), ());
    soft.set_poll_budget(PollBudget { attempts: 3, delay_ms: 1 });
    let mut rx = soft.receiver();
    let mut samples = 0u32;
    loop {
        samples += 1;
        let step = rx.sample::<(), ()>(true, &mut rsp);
        match step.outcome {
            Ok(None) => assert_eq!(step.delay_ns, Some(2_000)),
            Err(SoftUartTransportError::Exhausted { attempts }) => {
                assert_eq!(attempts, samples);
                break;
            }
            other => panic!("unexpected {other:?}"),
        }
    }
    assert_eq!(samples, 1500);
}

#[test]
fn only_the_listed_rates_are_supported() {
    for baud in SUPPORTED_BAUDS {
        assert!(is_supported_baud(baud));
        assert!(!is_supported_baud(baud + 1));
    }
    assert!(!is_supported_baud(0));
}

#[test]
fn long_delays_sleep_and_short_ones_spin() {
    assert!(!sleeps(0));
    assert!(!sleeps(999_999));
    assert!(sleeps(1_000_000));
}

#[test]
fn device_node_errors_are_worded() {
    assert_eq!(
        LinuxI2cError::Open(()).message("no such file"),
        "cannot open i2c device: no such file"
    );
    assert_eq!(LinuxI2cError::Write(()).message("nack"), "i2c write failed: nack");
    let e = LinuxI2cError::Exhausted { attempts: 17, last: () }.message("nack");
    assert!(e.contains("17") && e.contains("nack"), "{e}");
    assert_eq!(SpiError::Io(()).message("busy"), "spidev transfer failed: busy");
    let e: SpiError<()> = SpiError::Unsupported("mid-transaction delay");
    assert_eq!(e.message(""), "spidev backend cannot do this: mid-transaction delay");
}

#[test]
fn spi_operations_are_screened_before_any_transfer() {
    let ops = vec![
        SpiOp::Write,
        SpiOp::TransferInPlace,
        SpiOp::Read,
        SpiOp::Transfer { read: 4, write: 4 },
        SpiOp::TransferInPlace,
    ];
    let moves: Result<Vec<SpiMove>, SpiError<()>> = screen(&ops);
    assert_eq!(
        moves.unwrap(),
        vec![
            SpiMove::Write,
            SpiMove::InPlace { copy: 0 },
            SpiMove::Read,
            SpiMove::Transfer,
            SpiMove::InPlace { copy: 1 },
        ]
    );

    let uneven: Result<Vec<SpiMove>, SpiError<()>> =
        screen(&vec![SpiOp::Write, SpiOp::Transfer { read: 3, write: 4 }, SpiOp::DelayNs]);
    assert_eq!(
        uneven.unwrap_err().message(""),
        "spidev backend cannot do this: Transfer with different read/write lengths"
    );
    let delay: Result<Vec<SpiMove>, SpiError<()>> = screen(&vec![SpiOp::Read, SpiOp::DelayNs]);
    assert_eq!(
        delay.unwrap_err().message(""),
        "spidev backend cannot do this: a delay inside one chip-select assertion"
    );
}
