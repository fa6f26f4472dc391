use png_decoder::crc::CrcCalculator;

fn checksum(bytes: &[u8]) -> u32 {
    let mut crc = CrcCalculator::new();
    crc.update(bytes);
    crc.get_crc()
}

#[test]
fn crc_test() {
    let mut crc = CrcCalculator::new();
    crc.update(&*b"IEND");
    let result = crc.get_crc();
    println!("Result: {}", result);
}

#[test]
fn crc_of_end_chunk_tag() {
    assert_eq!(checksum(b"IEND"), 0xae42_6082);
}

#[test]
fn crc_of_check_string() {
    assert_eq!(checksum(b"123456789"), 0xcbf4_3926);
}

#[test]
fn crc_of_nothing_is_zero() {
    assert_eq!(checksum(b""), 0);
    assert_eq!(CrcCalculator::new().get_crc(), 0);
}

#[test]
fn crc_agrees_with_crc32fast() {
    let mut message: Vec<u8> = Vec::new();
    let mut seed: u32 = 0x1234_5678;
    for round in 0..300 {
        assert_eq!(checksum(&message), crc32fast::hash(&message), "length {}", round);
        seed ^= seed << 13;
        seed ^= seed >> 17;
        seed ^= seed << 5;
        message.push((seed >> 11) as u8);
    }
}

#[test]
fn crc_agrees_with_crc32fast_on_every_single_byte() {
    for byte in 0..=255u8 {
        assert_eq!(checksum(&[byte]), crc32fast::hash(&[byte]));
    }
}

#[test]
fn crc_update_in_pieces_equals_update_at_once() {
    let message = b"The quick brown fox jumps over the lazy dog";
    for cut in 0..=message.len() {
        let mut crc = CrcCalculator::new();
        crc.update(&message[..cut]);
        crc.update(&message[cut..]);
        assert_eq!(crc.get_crc(), 0x414f_a339);
    }
}

#[test]
fn crc_update_byte_equals_update() {
    let message = b"IHDR\x00\x00\x00\x02";
    let mut bytewise = CrcCalculator::new();
    for byte in message.iter() {
        bytewise.update_byte(*byte);
    }
    assert_eq!(bytewise.get_crc(), checksum(message));
}

#[test]
fn crc_lookup_table_entries() {
    assert_eq!(CrcCalculator::lookup(0), 0);
    assert_eq!(CrcCalculator::lookup(1), 0x7707_3096);
    assert_eq!(CrcCalculator::lookup(128), 0xedb8_8320);
    assert_eq!(CrcCalculator::lookup(255), 0x2d02_ef8d);
}

#[test]
fn crc_changes_with_every_single_bit() {
    let message = b"IDAT\x78\x01\x01\x02\x00\xfd\xff";
    let good = checksum(message);
    for at in 0..message.len() {
        for bit in 0..8 {
            let mut bad = message.to_vec();
            bad[at] ^= 1 << bit;
            assert_ne!(checksum(&bad), good, "byte {} bit {}", at, bit);
        }
    }
}
