use sadak_fs::checksum::{calculate_crc32c, checksum_data, init_crc32c_table};

#[test]
fn crc32c_of_nothing_is_zero() {
    assert_eq!(checksum_data(b""), 0);
}

#[test]
fn crc32c_check_value() {
    assert_eq!(checksum_data(b"123456789"), 0xE306_9283);
}

#[test]
fn crc32c_of_zero_bytes() {
    assert_eq!(checksum_data(&[0u8; 32]), 0x8A91_36AA);
}

#[test]
fn crc32c_of_one_bytes() {
    assert_eq!(checksum_data(&[0xFFu8; 32]), 0x62A8_AB43);
}

#[test]
fn crc32c_of_ascending_bytes() {
    let data: Vec<u8> = (0u8..32).collect();
    assert_eq!(checksum_data(&data), 0x46DD_794E);
}

#[test]
fn crc32c_continues_from_a_prefix() {
    let head = calculate_crc32c(b"12345", 0);
    assert_eq!(calculate_crc32c(b"6789", head), 0xE306_9283);
    assert_eq!(calculate_crc32c(b"", head), head);
}

#[test]
fn crc32c_splits_anywhere() {
    let data: Vec<u8> = (0..200u32).map(|i| (i * 7 + 3) as u8).collect();
    let whole = checksum_data(&data);
    for cut in 0..data.len() {
        let head = calculate_crc32c(&data[..cut], 0);
        assert_eq!(calculate_crc32c(&data[cut..], head), whole);
    }
}

#[test]
fn crc32c_table_entries() {
    let table = init_crc32c_table();
    assert_eq!(table[0], 0x0000_0000);
    assert_eq!(table[1], 0xF26B_8303);
    assert_eq!(table[2], 0xE13B_70F7);
    assert_eq!(table[128], 0x82F6_3B78);
    assert_eq!(table[255], 0xAD7D_5351);
}

#[test]
fn crc32c_depends_on_every_byte() {
    let mut data = vec![0u8; 4096];
    let before = checksum_data(&data);
    data[4095] ^= 1;
    assert_ne!(checksum_data(&data), before);
}
