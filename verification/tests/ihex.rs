//! The Intel HEX reader.

use updater_sdk::ihex::parse;

const GOLDEN: &str = ":04000000DEADBEEFC4\n:00000001FF\n";

#[test]
fn golden_tiny_hex() {
    assert_eq!(parse(GOLDEN).unwrap(), vec![0xDE, 0xAD, 0xBE, 0xEF]);
}

#[test]
fn gaps_are_filled_with_ff_and_records_may_be_unordered() {
    // 2 bytes at 0x0004, then 2 bytes at 0x0000.
    let text = ":020004001122C7\n:02000000334487\n:00000001FF\n";
    let out = parse(text).unwrap();
    assert_eq!(out, vec![0x33, 0x44, 0xFF, 0xFF, 0x11, 0x22]);
}

#[test]
fn bad_checksum_names_the_line() {
    let text = ":04000000DEADBEEFC5\n:00000001FF\n";
    let err = parse(text).unwrap_err().message();
    assert!(err.contains("checksum"), "{err}");
    assert!(err.contains("line 1"), "{err}");
}

#[test]
fn extended_address_records_are_rejected_with_line_number() {
    for (rec, ty) in [(":020000021000EC", "0x02"), (":020000040800F2", "0x04")] {
        let text = format!(":04000000DEADBEEFC4\n{rec}\n:00000001FF\n");
        let err = parse(&text).unwrap_err().message();
        assert!(err.contains("extended address"), "{err}");
        assert!(err.contains("line 2"), "{err}");
        assert!(err.contains(ty), "{err}");
    }
}

#[test]
fn other_record_types_are_rejected() {
    // Type 03 (start segment address), checksum-correct.
    let text = ":0400000300003800C1\n:00000001FF\n";
    let err = parse(text).unwrap_err().message();
    assert!(err.contains("line 1"), "{err}");
    assert!(err.contains("0x03"), "{err}");
}

#[test]
fn structural_defects_are_rejected() {
    // Missing EOF record.
    assert!(parse(":04000000DEADBEEFC4\n").is_err());
    // Data after EOF.
    assert!(parse(":00000001FF\n:04000000DEADBEEFC4\n").is_err());
    // Missing colon.
    assert!(parse("04000000DEADBEEFC4\n:00000001FF\n").is_err());
    // Odd number of hex digits.
    assert!(parse(":04000000DEADBEEFC\n:00000001FF\n").is_err());
    // Non-hex characters.
    assert!(parse(":04000000DEADBEEFZZ\n:00000001FF\n").is_err());
    // Record shorter than ll aaaa tt cc.
    assert!(parse(":0400\n:00000001FF\n").is_err());
    // Length byte inconsistent with record size.
    assert!(parse(":05000000DEADBEEFC3\n:00000001FF\n").is_err());
    // Empty input.
    assert!(parse("").is_err());
}

#[test]
fn blank_lines_and_crlf_are_tolerated() {
    let text = ":04000000DEADBEEFC4\r\n\r\n:00000001FF\r\n";
    assert_eq!(parse(text).unwrap(), vec![0xDE, 0xAD, 0xBE, 0xEF]);
}
