use clawlight_firmware::trigger::{parse_dec, parse_hex, parse_trigger};

#[test]
fn parse_dec_plain_number() {
    assert_eq!(parse_dec(b"123"), Some(123));
    assert_eq!(parse_dec(b"0"), Some(0));
    assert_eq!(parse_dec(b"007"), Some(7));
}

#[test]
fn parse_dec_limits() {
    assert_eq!(parse_dec(b"4294967295"), Some(u32::MAX));
    assert_eq!(parse_dec(b"4294967296"), None);
    assert_eq!(parse_dec(b"99999999999"), None);
}

#[test]
fn parse_dec_rejects_non_digits() {
    assert_eq!(parse_dec(b""), None);
    assert_eq!(parse_dec(b"12a"), None);
    assert_eq!(parse_dec(b"+1"), None);
    assert_eq!(parse_dec(b" 1"), None);
    assert_eq!(parse_dec(b"1/"), None);
    assert_eq!(parse_dec(b"1:"), None);
}

#[test]
fn parse_hex_both_cases() {
    assert_eq!(parse_hex(b"cbf43926"), Some(0xCBF4_3926));
    assert_eq!(parse_hex(b"DEADbeef"), Some(0xDEAD_BEEF));
    assert_eq!(parse_hex(b"0"), Some(0));
    assert_eq!(parse_hex(b"ffffffff"), Some(u32::MAX));
}

#[test]
fn parse_hex_rejects() {
    assert_eq!(parse_hex(b""), None);
    assert_eq!(parse_hex(b"100000000"), None);
    assert_eq!(parse_hex(b"0x1"), None);
    assert_eq!(parse_hex(b"g"), None);
    assert_eq!(parse_hex(b"12 "), None);
}

#[test]
fn parse_trigger_splits_length_and_crc() {
    assert_eq!(parse_trigger(b"1024:cbf43926"), Some((1024, 0xCBF4_3926)));
    assert_eq!(parse_trigger(b"0:0"), Some((0, 0)));
}

#[test]
fn parse_trigger_rejects_malformed() {
    assert_eq!(parse_trigger(b"1024"), None);
    assert_eq!(parse_trigger(b":ff"), None);
    assert_eq!(parse_trigger(b"10:"), None);
    assert_eq!(parse_trigger(b"1:2:3"), None);
    assert_eq!(parse_trigger(b"x:ff"), None);
    assert_eq!(parse_trigger(b""), None);
}

const SAMPLES: [u32; 8] = [0, 1, 9, 10, 255, 4096, 0x00ab_cdef, u32::MAX];

#[test]
fn host_formats_read_back() {
    for &n in SAMPLES.iter() {
        assert_eq!(parse_dec(n.to_string().as_bytes()), Some(n));
        assert_eq!(parse_hex(format!("{:08x}", n).as_bytes()), Some(n));
        assert_eq!(parse_hex(format!("{:X}", n).as_bytes()), Some(n));
        for &c in SAMPLES.iter() {
            assert_eq!(parse_trigger(format!("{}:{:08x}", n, c).as_bytes()), Some((n, c)));
        }
    }
}
