use framelog::checksum::{calculate, validate};
use framelog::frame::{read_u32_be, u32_to_be};
use framelog::recovery::RecoveryManager;

fn frame_for(payload: &[u8], code: u32) -> Vec<u8> {
    let mut out = u32_to_be(payload.len() as u32);
    out.extend_from_slice(&u32_to_be(code));
    out.extend_from_slice(payload);
    out
}

#[test]
fn crc_known_value() {
    // The classic CRC-32 (IEEE) check value.
    assert_eq!(calculate(b"123456789"), 0xCBF43926);
}

#[test]
fn crc_empty_payload() {
    assert_eq!(calculate(b""), 0);
}

#[test]
fn validate_accepts_own_code() {
    for payload in [&b""[..], b"a", b"hello world", b"\x00\xff\x10"] {
        assert!(validate(payload, calculate(payload)));
    }
}

#[test]
fn validate_detects_bit_flip() {
    let payload = b"durable log record";
    let code = calculate(payload);
    for bit in 0..8 {
        let mut mutated = payload.to_vec();
        mutated[3] ^= 1 << bit;
        assert!(!validate(&mutated, code));
    }
}

#[test]
fn validate_rejects_wrong_code() {
    let payload = b"abc";
    let code = calculate(payload);
    assert!(!validate(payload, code.wrapping_add(1)));
}

#[test]
fn be_u32_round_trip() {
    for x in [0u32, 1, 255, 256, 0xDEADBEEF, u32::MAX] {
        let bytes = u32_to_be(x);
        assert_eq!(bytes.len(), 4);
        assert_eq!(read_u32_be(&bytes, 0), x);
    }
    assert_eq!(u32_to_be(0x01020304), vec![1, 2, 3, 4]);
}

#[test]
fn scan_empty_region_recovers_zero() {
    let region = vec![0u8; 64];
    assert_eq!(RecoveryManager::scan_and_repair(&region), 0);
}

#[test]
fn scan_region_shorter_than_header_recovers_zero() {
    let region = vec![7u8; 7];
    assert_eq!(RecoveryManager::scan_and_repair(&region), 0);
}

#[test]
fn scan_single_frame_round_trip() {
    let payload = b"hello";
    let region = frame_for(payload, calculate(payload));
    assert_eq!(RecoveryManager::scan_and_repair(&region), 8 + payload.len());
}

#[test]
fn scan_two_valid_frames() {
    let mut region = frame_for(b"abc", calculate(b"abc"));
    region.extend_from_slice(&frame_for(b"defg", calculate(b"defg")));
    assert_eq!(RecoveryManager::scan_and_repair(&region), (8 + 3) + (8 + 4));
}

#[test]
fn scan_corrupt_second_frame_truncates() {
    let mut region = frame_for(b"abc", calculate(b"abc"));
    let wrong = calculate(b"xyz").wrapping_add(1);
    region.extend_from_slice(&frame_for(b"xyz", wrong));
    assert_eq!(RecoveryManager::scan_and_repair(&region), 8 + 3);
}

#[test]
fn scan_corrupt_payload_truncates() {
    let mut region = frame_for(b"abc", calculate(b"abc"));
    let mut bad = frame_for(b"xyz", calculate(b"xyz"));
    bad[8] ^= 0x01;
    region.extend_from_slice(&bad);
    assert_eq!(RecoveryManager::scan_and_repair(&region), 8 + 3);
}

#[test]
fn scan_incomplete_trailing_frame() {
    let mut region = frame_for(b"abc", calculate(b"abc"));
    region.extend_from_slice(&[0x99, 0x98, 0x97, 0x96, 0x95]);
    assert_eq!(RecoveryManager::scan_and_repair(&region), 8 + 3);
}

#[test]
fn scan_zero_length_sentinel_stops() {
    let mut region = frame_for(b"abc", calculate(b"abc"));
    region.extend_from_slice(&[0u8; 16]);
    assert_eq!(RecoveryManager::scan_and_repair(&region), 8 + 3);
}

#[test]
fn scan_truncated_payload_stops() {
    // A header that promises more payload than the region holds.
    let mut region = frame_for(b"abc", calculate(b"abc"));
    region.extend_from_slice(&u32_to_be(100));
    region.extend_from_slice(&u32_to_be(calculate(b"unused")));
    region.extend_from_slice(&[1, 2, 3]);
    assert_eq!(RecoveryManager::scan_and_repair(&region), 8 + 3);
}
