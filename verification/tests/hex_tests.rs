use range_downloader::hex::{HexError, ToHex};

fn encode_string(data: &[u8]) -> String {
    char::encode(&data.to_vec()).into_iter().collect()
}

#[test]
fn test_single_byte() {
    let data = [0x4F];
    let hex: String = encode_string(&data);
    assert_eq!(hex, "4f");
}

#[test]
fn test_multiple_bytes() {
    let data = [0xAB, 0xCD, 0xEF];
    let hex: String = encode_string(&data);
    assert_eq!(hex, "abcdef");
}

#[test]
fn test_empty() {
    let data: [u8; 0] = [];
    let hex: String = encode_string(&data);
    assert_eq!(hex, "");
}

#[test]
fn test_all_nibbles() {
    let data = [0x01, 0x23, 0x45, 0x67, 0x89, 0xAB, 0xCD, 0xEF];
    let hex: String = encode_string(&data);
    assert_eq!(hex, "0123456789abcdef");
}

#[test]
fn lib_test_single_byte() {
    let data = [0x4F];
    let hex: String = encode_string(&data);
    assert_eq!(hex, "4f");
}

#[test]
fn lib_test_multiple_bytes() {
    let data = [0xAB, 0xCD, 0xEF];
    let hex: String = encode_string(&data);
    assert_eq!(hex, "abcdef");
}

#[test]
fn lib_test_empty() {
    let data: [u8; 0] = [];
    let hex: String = encode_string(&data);
    assert_eq!(hex, "");
}

#[test]
fn lib_test_all_nibbles() {
    let data = [0x01, 0x23, 0x45, 0x67, 0x89, 0xAB, 0xCD, 0xEF];
    let hex: String = encode_string(&data);
    assert_eq!(hex, "0123456789abcdef");
}

#[test]
fn simple_solution_test_single_byte() {
    let data = [0x4F];
    let hex: String = encode_string(&data);
    assert_eq!(hex, "4f");
}

#[test]
fn simple_solution_test_multiple_bytes() {
    let data = [0xAB, 0xCD, 0xEF];
    let hex: String = encode_string(&data);
    assert_eq!(hex, "abcdef");
}

#[test]
fn simple_solution_test_empty() {
    let data: [u8; 0] = [];
    let hex: String = encode_string(&data);
    assert_eq!(hex, "");
}

#[test]
fn simple_solution_test_all_nibbles() {
    let data = [0x01, 0x23, 0x45, 0x67, 0x89, 0xAB, 0xCD, 0xEF];
    let hex: String = encode_string(&data);
    assert_eq!(hex, "0123456789abcdef");
}

#[test]
fn test_to_hex_digits() {
    assert_eq!(char::to_hex(0), Ok('0'));
    assert_eq!(char::to_hex(9), Ok('9'));
    assert_eq!(char::to_hex(10), Ok('a'));
    assert_eq!(char::to_hex(15), Ok('f'));
    assert_eq!(char::to_hex(16), Err(HexError::OutOfBounds));
}
