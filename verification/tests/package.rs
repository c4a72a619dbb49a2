//! Tests of the package codec and the meta identifier.

use mril_transfer_protocol::errors::TransferError;
use mril_transfer_protocol::package::package_uuid::{
    new_uuid, read_item_number, ENCRYPTION_ENCRYPTED, ENCRYPTION_UNENCRYPTED, TYPE_MARKER_PACKAGE,
};
use mril_transfer_protocol::package::{Package, PackageSize};
use mril_transfer_protocol::utils::usize_to_u8_bytes;

#[test]
fn transfer_package() {
    // Data set up by the client to send to the server.
    let data = "Hello I'm the client, and this is a friendly package";
    let meta_uuid = new_uuid(1, vec![0], TYPE_MARKER_PACKAGE, ENCRYPTION_UNENCRYPTED);
    let package = Package::new(data.as_bytes().to_vec(), meta_uuid.clone());

    let buffer = package.clone().to_buffer();

    // Read on the server side.
    let (client_package, consumed) = Package::from_buffer(&buffer, 0)
        .expect("expected to write data to the server");

    assert_eq!(package.meta_uuid, client_package.meta_uuid);
    assert_eq!(package.data, client_package.data);
    assert_eq!(consumed, buffer.len());
}

#[test]
fn meta_uuid_layout() {
    let uuid = new_uuid(258, vec![1, 2, 3], TYPE_MARKER_PACKAGE, ENCRYPTION_ENCRYPTED);
    assert_eq!(uuid.len(), 16);
    // Bytes 3-6 hold the item number in the fixed-width layout of width 4.
    assert_eq!(&uuid[3..7], &usize_to_u8_bytes(258, 4)[..]);
    assert_eq!(&uuid[3..7], &[1, 0, 0, 2]);
    // Byte 7 is reserved.
    assert_eq!(uuid[7], 0);
    // Bytes 8-13 hold the free bytes, padded with zeroes.
    assert_eq!(&uuid[8..14], &[1, 2, 3, 0, 0, 0]);
    assert_eq!(uuid[14], TYPE_MARKER_PACKAGE);
    assert_eq!(uuid[15], ENCRYPTION_ENCRYPTED);
    assert_eq!(read_item_number(&uuid), 258);
}

#[test]
fn meta_uuid_truncates_free_bytes() {
    let uuid = new_uuid(1, vec![9; 10], TYPE_MARKER_PACKAGE, ENCRYPTION_UNENCRYPTED);
    assert_eq!(&uuid[8..14], &[9, 9, 9, 9, 9, 9]);
    assert_eq!(uuid[14], TYPE_MARKER_PACKAGE);
    assert_eq!(uuid[15], ENCRYPTION_UNENCRYPTED);
}

#[test]
fn package_frame_layout() {
    let meta_uuid = new_uuid(5, vec![], TYPE_MARKER_PACKAGE, ENCRYPTION_UNENCRYPTED);
    let payload: Vec<u8> = (0..300).map(|i| (i % 256) as u8).collect();
    let package = Package::new(payload.clone(), meta_uuid.clone());
    let buffer = package.to_buffer();
    assert_eq!(buffer.len(), 16 + 3 + 300);
    assert_eq!(&buffer[0..16], &meta_uuid[..]);
    // The payload length, 300, in the three-byte fixed-width layout.
    assert_eq!(&buffer[16..19], &usize_to_u8_bytes(300, 3)[..]);
    assert_eq!(&buffer[19..], &payload[..]);
}

#[test]
fn package_round_trip() {
    for len in [0usize, 1, 15, 16, 255, 4096] {
        let meta_uuid = new_uuid(7, vec![4, 5], TYPE_MARKER_PACKAGE, ENCRYPTION_UNENCRYPTED);
        let payload: Vec<u8> = (0..len).map(|i| (i * 7 % 256) as u8).collect();
        let package = Package::new(payload, meta_uuid);
        let buffer = package.clone().to_buffer();
        let (read_back, consumed) = Package::from_buffer(&buffer, 0).unwrap();
        assert_eq!(read_back.meta_uuid, package.meta_uuid);
        assert_eq!(read_back.data, package.data);
        assert_eq!(consumed, buffer.len());
    }
}

#[test]
fn package_short_read() {
    // Too short for the frame header.
    let buffer: Vec<u8> = vec![0; 18];
    assert_eq!(
        Package::from_buffer(&buffer, 0).unwrap_err(),
        TransferError::ShortRead
    );
    // A header that promises more payload than is there.
    let meta_uuid = new_uuid(1, vec![], TYPE_MARKER_PACKAGE, ENCRYPTION_UNENCRYPTED);
    let package = Package::new(vec![1, 2, 3, 4], meta_uuid);
    let mut buffer = package.to_buffer();
    buffer.pop();
    assert_eq!(
        Package::from_buffer(&buffer, 0).unwrap_err(),
        TransferError::ShortRead
    );
}

#[test]
fn package_size_limits() {
    assert_eq!(PackageSize::TINY.get_value(), 15);
    assert_eq!(PackageSize::SMALL.get_value(), 255);
    assert_eq!(PackageSize::MEDIUM.get_value(), 4095);
    assert_eq!(PackageSize::LARGE.get_value(), 65535);
    assert_eq!(PackageSize::MAX.get_value(), 16777215);
    assert_eq!(PackageSize::default(), PackageSize::MEDIUM);
}
