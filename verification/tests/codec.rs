//! Tests of the fixed-width integer wire codec.

use mril_transfer_protocol::utils::{u8_bytes_to_usize, usize_to_u8_bytes};

struct Pair {
    pub number: usize,
    pub bytes: Vec<u8>,
}

impl Pair {
    pub fn new(number: usize, bytes: Vec<u8>) -> Self {
        Self { number, bytes }
    }
}

#[test]
fn conversion_to_bytes() {
    let tests: Vec<Pair> = vec![
        Pair::new(6598656 as usize, vec![176, 100, 0, 0]),
        Pair::new(9458456 as usize, vec![83, 144, 0, 24]),
        Pair::new(3904954 as usize, vec![149, 59, 0, 186]),
    ];

    for test in tests {
        let bytes = usize_to_u8_bytes(test.number, 4);
        assert_eq!(bytes.to_vec(), test.bytes);
    }
}

#[test]
fn conversion_to_number() {
    let tests: Vec<Pair> = vec![
        Pair::new(6598656 as usize, vec![176, 100, 0, 0]),
        Pair::new(9458456 as usize, vec![83, 144, 0, 24]),
        Pair::new(3904954 as usize, vec![149, 59, 0, 186]),
    ];

    for test in tests {
        let bytes = usize_to_u8_bytes(test.number, 4);
        assert_eq!(bytes.to_vec(), test.bytes);
        assert_eq!(u8_bytes_to_usize(&bytes), test.number);
    }
}

#[test]
fn big_numbers() {
    let tests: Vec<Pair> = vec![
        Pair::new(usize::pow(2, 16) - 1, vec![255, 0, 0, 255]),
        Pair::new(usize::pow(2, 24) - 1, vec![255, 255, 0, 255]),
        Pair::new(usize::pow(2, 32) - 1, vec![255, 255, 255, 255]),
    ];

    for test in tests {
        let bytes = usize_to_u8_bytes(test.number, 4);
        assert_eq!(bytes.to_vec(), test.bytes);
        assert_eq!(u8_bytes_to_usize(&bytes), test.number);
    }
}

#[test]
fn literal_vectors() {
    assert_eq!(usize_to_u8_bytes(7000, 2), vec![27, 88]);
    assert_eq!(u8_bytes_to_usize(&vec![27, 88]), 7000);
    // The weight of byte 0 is 256, so a value below 256 sits entirely in
    // the final byte.
    assert_eq!(usize_to_u8_bytes(100, 2), vec![0, 100]);
    assert_eq!(u8_bytes_to_usize(&vec![0, 100]), 100);
    assert_eq!(u8_bytes_to_usize(&vec![176, 100, 0, 0]), 6598656);
}

#[test]
fn round_trip_small_widths() {
    for n in 0..=65535usize {
        let bytes = usize_to_u8_bytes(n, 2);
        assert_eq!(bytes.len(), 2);
        assert_eq!(u8_bytes_to_usize(&bytes), n);
    }
}

#[test]
fn round_trip_width_three() {
    for n in [0usize, 1, 255, 256, 4095, 65535, 65536, 16711935, 16777215] {
        let bytes = usize_to_u8_bytes(n, 3);
        assert_eq!(bytes.len(), 3);
        assert_eq!(u8_bytes_to_usize(&bytes), n);
    }
}
