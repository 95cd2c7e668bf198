//! Request numbers, capability bits and node names.
use ink2tex::evdev::{eviocgabs, eviocgbit, eviocgname, test_bit, ABS_X, EV_KEY};

#[test]
fn ioctl_request_encoding_matches_c_macros() {
    assert_eq!(eviocgname(256), 0x8100_4506);
    assert_eq!(eviocgbit(EV_KEY as u32, 96), 0x8060_4521);
    assert_eq!(eviocgabs(ABS_X as u32), 0x8018_4540);
}


#[test]
fn test_bit_reads_little_endian_bitmask() {
    let bits = [0b0000_0010u8, 0b0000_0001u8];
    assert!(!test_bit(&bits, 0));
    assert!(test_bit(&bits, 1));
    assert!(test_bit(&bits, 8));
    assert!(!test_bit(&bits, 9));
    assert!(!test_bit(&bits, 999));
}
