use clawlight_firmware::crc::{crc32_update, CRC32_INIT};

#[test]
fn crc32_check_value() {
    // The standard CRC-32 check value of "123456789".
    assert_eq!(crc32_update(CRC32_INIT, b"123456789") ^ CRC32_INIT, 0xCBF4_3926);
}

#[test]
fn crc32_of_known_strings() {
    assert_eq!(crc32_update(CRC32_INIT, b"") ^ CRC32_INIT, 0);
    assert_eq!(crc32_update(CRC32_INIT, b"a") ^ CRC32_INIT, 0xE8B7_BE43);
    assert_eq!(
        crc32_update(CRC32_INIT, b"The quick brown fox jumps over the lazy dog") ^ CRC32_INIT,
        0x414F_A339
    );
}

#[test]
fn crc32_empty_data_keeps_running_value() {
    assert_eq!(crc32_update(0x1234_5678, b""), 0x1234_5678);
}

#[test]
fn crc32_fed_in_pieces_matches_whole() {
    let data: Vec<u8> = (0..10_000u32).map(|i| (i * 31 % 251) as u8).collect();
    let whole = crc32_update(CRC32_INIT, &data);
    let mut running = CRC32_INIT;
    for chunk in data.chunks(4096) {
        running = crc32_update(running, chunk);
    }
    assert_eq!(running, whole);
    let split = crc32_update(crc32_update(CRC32_INIT, &data[..3]), &data[3..]);
    assert_eq!(split, whole);
}
