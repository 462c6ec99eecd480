use image_converter::algorithms::crc::{calculate_crc_32, validate_crc_32};

#[test]
fn crc_of_check_string() {
    assert_eq!(calculate_crc_32(&b"123456789".to_vec()), 0xCBF4_3926);
}

#[test]
fn crc_of_empty_input() {
    assert_eq!(calculate_crc_32(&Vec::new()), 0);
}

#[test]
fn crc_validation() {
    let data = b"IEND".to_vec();
    assert!(validate_crc_32(&data, vec![0xAE, 0x42, 0x60, 0x82]));
    assert!(!validate_crc_32(&data, vec![0xAE, 0x42, 0x60, 0x83]));
}

use image_converter::image_converter::crc::{bits_of_bytes, calculate_crc, get_bit, xor};

#[test]
fn bits_are_read_from_the_top() {
    assert_eq!(get_bit(0b1000_0001, 7), '1');
    assert_eq!(get_bit(0b1000_0001, 6), '0');
    assert_eq!(get_bit(0b1000_0001, 0), '1');
    assert_eq!(bits_of_bytes(&vec![0x61, 0x01]), "0110000100000001");
    assert_eq!(bits_of_bytes(&Vec::new()), "");
}

#[test]
fn digit_xor() {
    assert_eq!(xor('1', '1'), '0');
    assert_eq!(xor('1', '0'), '1');
    assert_eq!(xor('0', '1'), '1');
    assert_eq!(xor('0', '0'), '0');
}

#[test]
fn polynomial_remainders() {
    assert_eq!(calculate_crc(String::new()), 0);
    assert_eq!(calculate_crc(String::from("1")), 0x04C1_1DB7);
    assert_eq!(calculate_crc(String::from("01100001")), 0xA864_DB20);
    assert_eq!(calculate_crc(bits_of_bytes(&b"123456789".to_vec())), 0x89A1_897F);
}
