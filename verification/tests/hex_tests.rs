use rust_link::hex::{bytes_to_hex, hex_char};

#[test]
fn serial_number_from_unique_id() {
    let uid = [0xAB, 0xCD, 0xEF, 0x12, 0x34, 0x56];
    let mut out = [0u8; 12];
    let s = bytes_to_hex(&uid, &mut out).unwrap();
    assert_eq!(s, "ABCDEF123456");
}

#[test]
fn hex_leaves_the_rest_of_the_buffer() {
    let mut out = [b'x'; 6];
    let s = bytes_to_hex(&[0x0f, 0xa0], &mut out).unwrap();
    assert_eq!(s, "0FA0");
    assert_eq!(&out, b"0FA0xx");
}

#[test]
fn hex_refuses_a_short_buffer() {
    let mut out = [7u8; 3];
    assert_eq!(bytes_to_hex(&[1, 2], &mut out), Err(()));
    assert_eq!(out, [7, 7, 7]);
}

#[test]
fn hex_of_nothing_is_empty() {
    let mut out = [0u8; 0];
    assert_eq!(bytes_to_hex(&[], &mut out), Ok(""));
}

#[test]
fn hex_digits_and_out_of_range() {
    assert_eq!(hex_char(0), b'0');
    assert_eq!(hex_char(9), b'9');
    assert_eq!(hex_char(10), b'A');
    assert_eq!(hex_char(15), b'F');
    assert_eq!(hex_char(16), b'?');
    assert_eq!(hex_char(255), b'?');
}

#[test]
fn hex_of_joined_bytes_is_joined_hex() {
    let mut o1 = [0u8; 4];
    let mut o2 = [0u8; 2];
    let mut o3 = [0u8; 6];
    let s1 = bytes_to_hex(&[0x12, 0xAB], &mut o1).unwrap().to_owned();
    let s2 = bytes_to_hex(&[0xCD], &mut o2).unwrap();
    let s = bytes_to_hex(&[0x12, 0xAB, 0xCD], &mut o3).unwrap();
    assert_eq!(s, s1 + s2);
}
