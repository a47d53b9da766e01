//! The words of every error, and the inputs that give each one.

use updater_sdk::adapters::{
    I2cTransportError, SoftUartTransportError, SpiTransportError, UartTransportError,
};
use updater_sdk::cli::parse_hex_bytes;
use updater_sdk::frame::{
    st_name, ST_BAD_CMD, ST_BAD_CRC, ST_BAD_FRAME, ST_BAD_MAGIC, ST_NOT_ERASED, ST_NO_APP, ST_OK,
    ST_OUT_OF_RANGE,
};
use updater_sdk::hex::{decode_hex, HexError};
use updater_sdk::ihex::{parse, IhexError};
use updater_sdk::sim::StreamError;
use updater_sdk::Error;

#[test]
fn session_errors_in_words() {
    let m = |e: Error<()>| e.message("bus stall");
    assert_eq!(m(Error::Transport(())), "transport error: bus stall");
    assert_eq!(m(Error::BadFrame), "malformed frame (length or CRC-8 mismatch)");
    assert_eq!(
        m(Error::Device(ST_BAD_CRC)),
        format!("device reported status 0x05 ({})", st_name(ST_BAD_CRC))
    );
    assert_eq!(
        m(Error::Device(0xAB)),
        format!("device reported status 0xab ({})", st_name(0xAB))
    );
    assert_eq!(m(Error::PayloadTooLarge { len: 300 }), "payload of 300 bytes exceeds the frame limit");
    assert_eq!(m(Error::BufferTooSmall { needed: 5 }), "output buffer too small, need 5 bytes");
    assert_eq!(
        m(Error::ImageTooLarge { len: 49, capacity: 48 }),
        "image of 49 bytes exceeds region capacity of 48 bytes"
    );
    assert_eq!(
        m(Error::BadGeometry { page_size: 0, app_pages: 65_535 }),
        "unusable geometry: page_size 0, app_pages 65535"
    );
    assert_eq!(m(Error::PageOutOfRange { index: 9 }), "page index 9 out of range");
    assert_eq!(m(Error::ProtocolVersion { device: 2 }), "unsupported device protocol version 2");
}

#[test]
fn every_status_has_its_own_name() {
    let all = [
        ST_OK, ST_BAD_FRAME, ST_BAD_CMD, ST_NOT_ERASED, ST_OUT_OF_RANGE, ST_BAD_CRC, ST_BAD_MAGIC,
        ST_NO_APP, 0x08,
    ];
    for (i, &a) in all.iter().enumerate() {
        for &b in &all[i + 1..] {
            assert_ne!(st_name(a), st_name(b));
        }
    }
    assert_eq!(st_name(0x08), st_name(0xFF));
}

#[test]
fn widening_keeps_every_error() {
    let all: [Error; 8] = [
        Error::BadFrame,
        Error::Device(3),
        Error::PayloadTooLarge { len: 1 },
        Error::BufferTooSmall { needed: 2 },
        Error::ImageTooLarge { len: 3, capacity: 4 },
        Error::BadGeometry { page_size: 5, app_pages: 6 },
        Error::PageOutOfRange { index: 7 },
        Error::ProtocolVersion { device: 8 },
    ];
    for e in all {
        let wide: Error<u8> = e.widen();
        assert_eq!(wide.message(""), e.message(""));
    }
}

#[test]
fn adapter_errors_in_words() {
    assert_eq!(I2cTransportError::Write(()).message("no ack"), "i2c write failed: no ack");
    assert_eq!(
        I2cTransportError::Exhausted { attempts: 7, last: () }.message("no ack"),
        "device did not answer within 7 poll attempt(s) \u{2014} is it in the bootloader, at this \
         address? if this was erase/flash, the device may still be erasing \u{2014} widen the poll \
         budget (`with_poll`); last i2c error: no ack"
    );
    assert_eq!(SpiTransportError::Write(()).message("x"), "spi write failed: x");
    assert_eq!(SpiTransportError::Read(()).message("x"), "spi read failed: x");
    assert_eq!(
        SpiTransportError::<()>::Exhausted { attempts: 12 }.message("x"),
        "no response within 12 clocked byte(s) \u{2014} is the device in the bootloader? if this \
         was erase/flash, it may still be erasing \u{2014} widen the poll budget (`with_poll`)"
    );
    assert_eq!(UartTransportError::Write(()).message("x"), "uart write failed: x");
    assert_eq!(UartTransportError::Read(()).message("x"), "uart read failed: x");
    assert_eq!(
        UartTransportError::<()>::Exhausted { attempts: 9 }.message("x"),
        "device sent nothing within 9 poll attempt(s) \u{2014} is it in the bootloader? if this \
         was erase/flash, it may still be erasing \u{2014} widen the poll budget (`with_poll`)"
    );
    assert_eq!(
        UartTransportError::<()>::Desync { scanned: 77 }.message("x"),
        "no valid frame in 77 scanned byte(s) \u{2014} wrong baud rate or wrong port?"
    );
    assert_eq!(SoftUartTransportError::<(), ()>::Tx(()).message("x"), "softuart tx pin failed: x");
    assert_eq!(SoftUartTransportError::<(), ()>::Rx(()).message("x"), "softuart rx pin failed: x");
    assert_eq!(
        SoftUartTransportError::<(), ()>::Exhausted { attempts: 3 }.message("x"),
        "line stayed idle for 3 sample(s) \u{2014} is the device in the bootloader? if this was \
         erase/flash, it may still be erasing \u{2014} widen the poll budget (`with_poll`)"
    );
    assert_eq!(
        SoftUartTransportError::<(), ()>::Desync { scanned: 4096 }.message("x"),
        "no valid frame in 4096 received byte(s) \u{2014} noise, or wrong pins?"
    );
    assert_eq!(StreamError.message(), "no valid frame in the response stream");
}

#[test]
fn hex_errors_are_typed_and_worded() {
    assert_eq!(decode_hex("").unwrap(), Vec::<u8>::new());
    assert_eq!(decode_hex("00fFA5").unwrap(), vec![0x00, 0xFF, 0xA5]);
    let e = decode_hex("abc").unwrap_err();
    assert!(matches!(e, HexError::Odd));
    assert_eq!(e.message(""), "odd number of hex digits");
    let e = decode_hex("00z\"").unwrap_err();
    assert!(matches!(e, HexError::NotHex(_)));
    assert_eq!(e.message("invalid hex digits "), "invalid hex digits \"z\\\"\"");
    // A two-byte character that lies across two pairs.
    let e = decode_hex("0\u{e9}0").unwrap_err();
    let expected = std::str::from_utf8(&[b'0', 0xC3]).unwrap_err().to_string();
    assert!(matches!(e, HexError::NotUtf8(_)));
    assert_eq!(e.message(""), expected);
    // A two-byte character that is one pair.
    assert!(matches!(decode_hex("\u{e9}"), Err(HexError::NotHex(_))));
    // No sign, and no other character, stands for a digit.
    for text in ["+a", "a+", "-a", "+4", " 4", "0x", "gg", "4\u{ff14}\u{ff14}a"] {
        assert!(decode_hex(text).is_err(), "{text:?}");
    }
    assert!(matches!(decode_hex("+a"), Err(HexError::NotHex(_))));
    assert!(parse(":+0000001FF").is_err());
    assert!(parse_hex_bytes("+4").is_err());
}

#[test]
fn intel_hex_errors_are_typed_and_worded() {
    let m = |text: &str| parse(text).unwrap_err().message();
    assert!(matches!(parse(""), Err(IhexError::MissingEof)));
    assert_eq!(m("\n \n"), "missing EOF record (:00000001FF)");
    assert_eq!(m(":00000001FF\n\n:00000001FF\n"), "line 3: record after EOF record");
    assert_eq!(m("x"), "line 1: record does not start with ':'");
    assert_eq!(m(":0"), "line 1: odd number of hex digits");
    assert_eq!(m(":zz"), "line 1: invalid hex digits \"zz\"");
    assert!(matches!(parse(":000000"), Err(IhexError::TooShort { line: 1, len: 3 })));
    assert_eq!(m(":000000"), "line 1: record too short (3 bytes, need at least 5)");
    assert_eq!(m(":00000001"), "line 1: record too short (missing checksum)");
    assert!(matches!(
        parse(":0500000000FB"),
        Err(IhexError::Length { line: 1, declared: 5, carried: 1 })
    ));
    assert_eq!(
        m("\n:0500000000FB"),
        "line 2: length field says 5 data byte(s) but record carries 1"
    );
    assert_eq!(m(":0000000100"), "line 1: checksum mismatch");
    assert_eq!(
        m(":020000040800F2"),
        "line 1: extended address record (type 0x04) is not supported \u{2014} the updater image \
         must fit 16-bit addresses starting at 0"
    );
    assert_eq!(m(":0000000AF6"), "line 1: unsupported record type 0x0a");
}

#[test]
fn intel_hex_reaches_the_last_address() {
    // One byte at 0xFFFF: everything below is filler.
    let out = parse(":01FFFF0055AC\n:00000001FF").unwrap();
    assert_eq!(out.len(), 0x10000);
    assert_eq!(out[0xFFFF], 0x55);
    assert!(out[..0xFFFF].iter().all(|&b| b == 0xFF));
    // Later records win where two overlap.
    assert_eq!(
        parse(":020000001122CB\n:0100010033CB\n:00000001FF").unwrap(),
        vec![0x11, 0x33]
    );
}
