//! The logic of the command line.

use updater_sdk::cli::{
    build_spec, describe, erase_poll_attempts, is_hex_extension, parse_addr, parse_echo_data,
    parse_hex_bytes, reject_transport_flags, EchoDataError, SpecError, TransportKind, WireArgs,
    PER_PAGE_ERASE_WORST_MS, TRANSPORT_FLAGS,
};
use updater_sdk::hex::HexError;
use updater_sdk::wire::{PollBudget, TransportSpec};
use updater_sdk::DeviceInfo;

/// The transport flags, in the order in which they are reported.
const FLAGS: [&str; TRANSPORT_FLAGS] = [
    "--transport", "--bus", "--addr", "--dev", "--baud", "--speed-hz", "--chip", "--pin-tx",
    "--pin-rx", "--poll-attempts", "--poll-delay-ms",
];

/// The flags of a command line over their defaults.
fn parse(args: &[&str]) -> WireArgs {
    let mut w = WireArgs::default();
    let mut it = args.iter();
    while let Some(&arg) = it.next() {
        if !arg.starts_with("--") {
            continue;
        }
        let v = *it.next().expect("every flag takes a value");
        match arg {
            "--transport" => {
                w.transport = match v {
                    "i2c" => TransportKind::I2c,
                    "uart" => TransportKind::Uart,
                    "spi" => TransportKind::Spi,
                    "gpio" => TransportKind::Gpio,
                    _ => panic!("unknown transport {v}"),
                }
            }
            "--bus" => w.bus = v.into(),
            "--addr" => w.addr = parse_addr(v).unwrap(),
            "--dev" => w.dev = Some(v.into()),
            "--baud" => w.baud = v.parse().unwrap(),
            "--speed-hz" => w.speed_hz = v.parse().unwrap(),
            "--chip" => w.chip = v.into(),
            "--pin-tx" => w.pin_tx = Some(v.parse().unwrap()),
            "--pin-rx" => w.pin_rx = Some(v.parse().unwrap()),
            _ => panic!("unknown flag {arg}"),
        }
    }
    w
}

/// Which of the transport flags a command line gives.
fn given(args: &[&str]) -> [bool; TRANSPORT_FLAGS] {
    FLAGS.map(|flag| args.contains(&flag))
}

#[test]
fn addr_parser_accepts_hex_and_decimal_rejects_wide() {
    assert_eq!(parse_addr("0x20").unwrap(), 0x20);
    assert_eq!(parse_addr("32").unwrap(), 32);
    assert!(parse_addr("0x80").is_err());
    assert!(parse_addr("nope").is_err());
}

#[test]
fn hex_bytes_parser() {
    assert_eq!(parse_hex_bytes("DEad be ef").unwrap(), vec![0xDE, 0xAD, 0xBE, 0xEF]);
    assert!(parse_hex_bytes("ABC").is_err());
    assert!(parse_hex_bytes("ZZ").is_err());
}

// -- arg -> spec mapping (the part that must work without hardware) --

#[test]
fn default_spec_is_i2c_with_bus_and_addr() {
    let cli = parse(&["updater-cli", "info"]);
    assert_eq!(
        build_spec(&cli).unwrap(),
        TransportSpec::I2c { bus: "/dev/i2c-1".into(), addr: 0x20 }
    );
    let poll = PollBudget::default();
    assert_eq!((poll.attempts, poll.delay_ms), (100, 10));
}

// -- poll budget resolution ---------------------------------------------

#[test]
fn erase_attempts_scale_with_the_device_geometry() {
    let base = PollBudget { attempts: 100, delay_ms: 10 };
    // AVR64EA28: 480 pages x 10 ms / 10 ms poll = 480 attempts (~5 s).
    assert_eq!(erase_poll_attempts(480, base), 480);
    // RP2350: 8192 pages -> 8192 attempts x 10 ms ~= 82 s.
    assert_eq!(erase_poll_attempts(8192, base), 8192);
    // Rounding is upward: 480 pages x 10 ms at 7 ms polls = ceil(685.7).
    assert_eq!(erase_poll_attempts(480, PollBudget { attempts: 1, delay_ms: 7 }), 686);
    // A zero delay must not divide by zero.
    assert_eq!(erase_poll_attempts(480, PollBudget { attempts: 1, delay_ms: 0 }), 4800);
}

#[test]
fn user_poll_attempts_win_when_larger() {
    // 12000 x 10 ms for worst-case dirty flash — the explicit flag must not
    // be scaled down.
    let base = PollBudget { attempts: 12_000, delay_ms: 10 };
    assert_eq!(erase_poll_attempts(8192, base), 12_000);
}

// -- install x transport flags -----------------------------------------

#[test]
fn install_rejects_transport_flags_wherever_they_sit() {
    let before: &[&str] = &[
        "updater-cli", "--transport", "uart", "install", "--target", "t", "--image", "x",
    ];
    let after: &[&str] =
        &["updater-cli", "install", "--bus", "/dev/i2c-9", "--target", "t", "--image", "x"];
    for (args, flag) in [(before, "--transport"), (after, "--bus")] {
        let err = reject_transport_flags(&given(args)).unwrap_err();
        assert!(err.contains(flag), "must name the offender {flag}: {err}");
        assert!(err.contains("debug adapter"), "must explain why: {err}");
    }
}

#[test]
fn install_without_transport_flags_passes_the_gate() {
    let args = ["updater-cli", "install", "--target", "t", "--image", "x"];
    assert!(reject_transport_flags(&given(&args)).is_ok());
}

#[test]
fn i2c_spec_honors_bus_and_addr_flags() {
    let cli = parse(&["updater-cli", "--bus", "/dev/i2c-7", "--addr", "0x11", "info"]);
    assert_eq!(
        build_spec(&cli).unwrap(),
        TransportSpec::I2c { bus: "/dev/i2c-7".into(), addr: 0x11 }
    );
}

#[test]
fn uart_spec_defaults_dev_and_baud() {
    let cli = parse(&["updater-cli", "--transport", "uart", "info"]);
    assert_eq!(
        build_spec(&cli).unwrap(),
        TransportSpec::Uart { dev: "/dev/ttyUSB0".into(), baud: 115_200 }
    );
}

#[test]
fn uart_spec_honors_dev_and_baud() {
    let cli = parse(&[
        "updater-cli", "--transport", "uart", "--dev", "/dev/ttyACM3", "--baud", "57600",
        "info",
    ]);
    assert_eq!(
        build_spec(&cli).unwrap(),
        TransportSpec::Uart { dev: "/dev/ttyACM3".into(), baud: 57_600 }
    );
}

#[test]
fn uart_spec_rejects_unsupported_baud_naming_the_supported_set() {
    let cli = parse(&["updater-cli", "--transport", "uart", "--baud", "12345", "info"]);
    let err = build_spec(&cli).unwrap_err().message();
    assert!(err.contains("12345"), "message must name the offender: {err}");
    assert!(err.contains("115200"), "message must list supported rates: {err}");
}

#[test]
fn spi_spec_defaults_dev_and_speed() {
    let cli = parse(&["updater-cli", "--transport", "spi", "info"]);
    assert_eq!(
        build_spec(&cli).unwrap(),
        TransportSpec::Spi { dev: "/dev/spidev0.0".into(), speed_hz: 100_000 }
    );
}

#[test]
fn spi_spec_honors_dev_and_speed() {
    let cli = parse(&[
        "updater-cli", "--transport", "spi", "--dev", "/dev/spidev1.2", "--speed-hz",
        "250000", "info",
    ]);
    assert_eq!(
        build_spec(&cli).unwrap(),
        TransportSpec::Spi { dev: "/dev/spidev1.2".into(), speed_hz: 250_000 }
    );
}

#[test]
fn gpio_spec_requires_both_pins() {
    let cli = parse(&["updater-cli", "--transport", "gpio", "info"]);
    let err = build_spec(&cli).unwrap_err().message();
    assert!(err.contains("--pin-tx"), "must tell the user what is missing: {err}");

    let cli = parse(&["updater-cli", "--transport", "gpio", "--pin-tx", "4", "info"]);
    let err = build_spec(&cli).unwrap_err().message();
    assert!(err.contains("--pin-rx"), "must name the missing pin: {err}");
}

#[test]
fn gpio_spec_rejects_equal_pins() {
    let cli = parse(&[
        "updater-cli", "--transport", "gpio", "--pin-tx", "4", "--pin-rx", "4", "info",
    ]);
    assert!(build_spec(&cli).is_err(), "tx and rx on one line cannot work");
}

#[test]
fn gpio_spec_builds_with_chip_and_pins() {
    let cli = parse(&[
        "updater-cli", "--transport", "gpio", "--chip", "/dev/gpiochip2", "--pin-tx", "17",
        "--pin-rx", "27", "info",
    ]);
    assert_eq!(
        build_spec(&cli).unwrap(),
        TransportSpec::Gpio { chip: "/dev/gpiochip2".into(), pin_tx: 17, pin_rx: 27 }
    );
}

#[test]
fn describe_names_the_wire() {
    assert_eq!(
        describe(&TransportSpec::I2c { bus: "/dev/i2c-1".into(), addr: 0x20 }),
        "/dev/i2c-1 @ 0x20"
    );
    assert!(describe(&TransportSpec::Uart { dev: "/dev/ttyUSB0".into(), baud: 115_200 })
        .contains("115200"));
}

// -- exact texts and the remaining flags ---------------------------------

#[test]
fn spec_errors_are_typed_and_worded() {
    let e = build_spec(&parse(&["x", "--transport", "uart", "--baud", "12345"])).unwrap_err();
    assert!(matches!(e, SpecError::Baud { baud: 12_345 }));
    assert_eq!(
        e.message(),
        "unsupported baud rate 12345 (supported: 9600, 19200, 38400, 57600, 115200, 230400)"
    );
    let e = build_spec(&parse(&["x", "--transport", "gpio", "--pin-rx", "4"])).unwrap_err();
    assert_eq!(
        e.message(),
        "--transport gpio needs both --pin-tx and --pin-rx (GPIO line offsets on /dev/gpiochip0)"
    );
    let e = build_spec(&parse(&["x", "--transport", "gpio", "--pin-tx", "4", "--pin-rx", "4"]))
        .unwrap_err();
    assert!(matches!(e, SpecError::SamePins { pin: 4 }));
    assert_eq!(e.message(), "--pin-tx and --pin-rx must be different lines (both are 4)");
}

#[test]
fn every_wire_is_described() {
    assert_eq!(
        describe(&TransportSpec::I2c { bus: "b".into(), addr: 0x7 }),
        "b @ 0x07"
    );
    assert_eq!(
        describe(&TransportSpec::Uart { dev: "/dev/ttyUSB0".into(), baud: 9600 }),
        "/dev/ttyUSB0 @ 9600 baud"
    );
    assert_eq!(
        describe(&TransportSpec::Spi { dev: "/dev/spidev0.0".into(), speed_hz: 100_000 }),
        "/dev/spidev0.0 @ 100000 Hz"
    );
    assert_eq!(
        describe(&TransportSpec::Gpio { chip: "c".into(), pin_tx: 0, pin_rx: 27 }),
        "c tx=0 rx=27 @ 9600 baud"
    );
}

#[test]
fn every_offending_flag_is_named_in_order() {
    let err = reject_transport_flags(&[true; TRANSPORT_FLAGS]).unwrap_err();
    assert!(err.ends_with(&format!("drop {}", FLAGS.join(", "))), "{err}");
    for (i, flag) in FLAGS.iter().enumerate() {
        let mut one = [false; TRANSPORT_FLAGS];
        one[i] = true;
        assert!(reject_transport_flags(&one).unwrap_err().ends_with(&format!("drop {flag}")));
    }
}

#[test]
fn address_edges() {
    assert_eq!(parse_addr("0x7f"), Ok(0x7F));
    assert_eq!(parse_addr("0x7F"), Ok(0x7F));
    assert_eq!(parse_addr("127"), Ok(127));
    assert_eq!(parse_addr("+32"), Ok(32));
    assert_eq!(parse_addr("0"), Ok(0));
    assert!(parse_addr("128").is_err());
    assert!(parse_addr("0x").is_err());
    assert!(parse_addr("").is_err());
    assert!(parse_addr("99999999999999999999").is_err());
}

#[test]
fn echo_data_is_one_to_sixteen_bytes() {
    assert_eq!(parse_echo_data("00").unwrap(), vec![0]);
    assert_eq!(parse_echo_data(&"aB".repeat(16)).unwrap(), vec![0xAB; 16]);
    let e = parse_echo_data("").unwrap_err();
    assert!(matches!(e, EchoDataError::Length { given: 0 }));
    assert_eq!(e.message(), "--data must be 1..=16 bytes (0 given)");
    let e = parse_echo_data(&"00".repeat(17)).unwrap_err();
    assert_eq!(e.message(), "--data must be 1..=16 bytes (17 given)");
    let e = parse_echo_data("0").unwrap_err();
    assert!(matches!(e, EchoDataError::Digits(HexError::Odd)));
    assert!(e.message().starts_with("--data must be hex digits"), "{}", e.message());
    assert!(matches!(parse_echo_data("0g"), Err(EchoDataError::Digits(HexError::NotHex(_)))));
}

#[test]
fn only_the_hex_extension_is_intel_hex() {
    assert!(is_hex_extension(Some("hex")));
    assert!(is_hex_extension(Some("HeX")));
    assert!(!is_hex_extension(Some("bin")));
    assert!(!is_hex_extension(Some("hexx")));
    assert!(!is_hex_extension(Some("")));
    assert!(!is_hex_extension(None));
}

#[test]
fn region_sizes_of_a_device() {
    let mut info = DeviceInfo {
        proto: 1,
        bl_version: 1,
        device_id: *b"SIM0",
        page_size: 128,
        app_pages: 32,
        app_valid: false,
    };
    assert_eq!((info.region_bytes(), info.usable_bytes()), (4096, 4080));
    info.page_size = 3;
    info.app_pages = 5;
    assert_eq!((info.region_bytes(), info.usable_bytes()), (15, 0));
    info.page_size = u16::MAX;
    info.app_pages = u16::MAX;
    assert_eq!(info.region_bytes(), 4_294_836_225);
}

/// Law: the budget of an erase covers the erase.
#[test]
fn erase_budget_covers_the_erase() {
    for pages in [0u16, 1, 33, 480, u16::MAX] {
        for delay_ms in [1u32, 3, 7, 10, 1000] {
            let poll = PollBudget { attempts: 5, delay_ms };
            let n = erase_poll_attempts(pages, poll);
            assert!(n >= 5);
            assert!(
                u64::from(n) * u64::from(delay_ms)
                    >= u64::from(pages) * u64::from(PER_PAGE_ERASE_WORST_MS)
            );
        }
    }
}
