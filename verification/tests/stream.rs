//! Tests of the chunking/streaming engine: splitting, the stream wire
//! format, progress reports, and the receive-side error policy.

use mril_transfer_protocol::errors::TransferError;
use mril_transfer_protocol::package::package_uuid::{
    new_uuid, ENCRYPTION_UNENCRYPTED, TYPE_MARKER_PACKAGE,
};
use mril_transfer_protocol::package::packages::{
    data_to_vec_data, packages_to_wire, PackageReportSpeed, Packages, PackagesBatchSize, Receiver,
};
use mril_transfer_protocol::package::{Package, PackageSize};

fn sample_payload(len: usize) -> Vec<u8> {
    (0..len).map(|i| ((i * 31 + 7) % 256) as u8).collect()
}

#[test]
fn chunking_splits_and_reassembles() {
    // A remainder chunk.
    let chunks = data_to_vec_data((0..10u8).collect(), 4);
    assert_eq!(chunks, vec![vec![0, 1, 2, 3], vec![4, 5, 6, 7], vec![8, 9]]);
    // An exact multiple: the final chunk is full, never empty.
    let chunks = data_to_vec_data((0..8u8).collect(), 4);
    assert_eq!(chunks, vec![vec![0, 1, 2, 3], vec![4, 5, 6, 7]]);
    // An empty payload has no chunks.
    let chunks = data_to_vec_data(Vec::new(), 4);
    assert_eq!(chunks.len(), 0);
    // A payload below the limit is one chunk.
    let chunks = data_to_vec_data(vec![5, 6], 4);
    assert_eq!(chunks, vec![vec![5, 6]]);
    // Concatenation reproduces the payload.
    let payload = sample_payload(1001);
    let chunks = data_to_vec_data(payload.clone(), 15);
    assert_eq!(chunks.len(), (1001 + 14) / 15);
    assert_eq!(chunks.concat(), payload);
}

#[test]
fn full_stream_round_trip_all_combinations() {
    let sizes = [
        PackageSize::TINY,
        PackageSize::SMALL,
        PackageSize::MEDIUM,
        PackageSize::LARGE,
        PackageSize::MAX,
    ];
    let batches = [
        PackagesBatchSize::TINY,
        PackagesBatchSize::SMALL,
        PackagesBatchSize::MEDIUM,
        PackagesBatchSize::LARGE,
        PackagesBatchSize::MAX,
    ];
    let speeds = [
        PackageReportSpeed::FASTEST,
        PackageReportSpeed::FAST,
        PackageReportSpeed::STEADY,
        PackageReportSpeed::SLOW,
        PackageReportSpeed::SLOWEST,
    ];
    for payload in [Vec::new(), sample_payload(1), sample_payload(500)] {
        for size in &sizes {
            for batch in &batches {
                for speed in &speeds {
                    let mut packages = Packages::new(payload.clone());
                    packages.set_package_size(size.clone());
                    packages.set_batch_size(*batch);
                    packages.set_report_speed(*speed);
                    let mut transport: Vec<u8> = Vec::new();
                    packages.write_to(&mut transport);
                    let received = Packages::read_from(&transport).unwrap();
                    assert_eq!(received.data, payload);
                }
            }
        }
    }
}

#[test]
fn stream_wire_layout() {
    let mut packages = Packages::new(vec![1, 2, 3, 4, 5]);
    packages.set_package_size(PackageSize::TINY);
    packages.set_batch_size(PackagesBatchSize::LARGE);
    let mut transport: Vec<u8> = Vec::new();
    packages.write_to(&mut transport);
    // One byte of batch code, one 19-byte frame header, the payload, one
    // continuation byte.
    assert_eq!(transport.len(), 1 + 19 + 5 + 1);
    assert_eq!(transport[0], 64);
    assert_eq!(&transport[20..25], &[1, 2, 3, 4, 5]);
    // A single package closes the stream at once.
    assert_eq!(transport[25], 0);
}

#[test]
fn stream_continuation_bytes() {
    // Forty bytes at the 15-byte limit: chunks of 15, 15 and 10, so two
    // frames announce more with a `1` and the last closes with a `0`.
    let mut packages = Packages::new(sample_payload(40));
    packages.set_package_size(PackageSize::TINY);
    let mut transport: Vec<u8> = Vec::new();
    packages.write_to(&mut transport);
    assert_eq!(transport.len(), 1 + (19 + 15 + 1) * 2 + (19 + 10 + 1));
    assert_eq!(transport[1 + 19 + 15], 1);
    assert_eq!(transport[1 + (19 + 15 + 1) + 19 + 15], 1);
    assert_eq!(*transport.last().unwrap(), 0);
}

#[test]
fn empty_transfer_is_one_code_byte() {
    let packages = Packages::new(Vec::new());
    let mut transport: Vec<u8> = Vec::new();
    let reports = packages.write_to(&mut transport);
    assert_eq!(transport, vec![16]);
    assert_eq!(reports.len(), 0);
    let received = Packages::read_from(&transport).unwrap();
    assert_eq!(received.data, Vec::<u8>::new());
}

#[test]
fn report_throttling_steady() {
    // 1500 bytes at the 15-byte limit: exactly 100 packages.  The steady
    // speed reports every ceil(0.05 * 100) = 5 packages, so the loop
    // reports 20 times, and one mandatory trailing report follows.
    let mut packages = Packages::new(sample_payload(1500));
    packages.set_package_size(PackageSize::TINY);
    packages.set_report_speed(PackageReportSpeed::STEADY);
    packages.listen_reports();
    let mut transport: Vec<u8> = Vec::new();
    let reports = packages.write_to(&mut transport);
    assert_eq!(reports.len(), 21);
    for (k, report) in reports.iter().take(20).enumerate() {
        assert_eq!(report.sent, (k + 1) * 5);
        assert_eq!(report.total, 100);
        assert_eq!(report.bytes_sent, (k + 1) * 5 * 15);
        assert_eq!(report.total_bytes, 1500);
    }
    assert_eq!(reports[20].sent, 100);
    assert_eq!(reports[20].bytes_sent, 1500);
}

#[test]
fn report_throttling_fastest() {
    // 7 packages at the fastest speed: a report after every package, plus
    // the trailing one.
    let mut packages = Packages::new(sample_payload(7 * 15));
    packages.set_package_size(PackageSize::TINY);
    packages.set_report_speed(PackageReportSpeed::FASTEST);
    packages.listen_reports();
    let mut transport: Vec<u8> = Vec::new();
    let reports = packages.write_to(&mut transport);
    assert_eq!(reports.len(), 8);
    assert_eq!(reports[6].sent, 7);
    assert_eq!(reports[6].bytes_sent, 105);
    assert_eq!(reports[7].sent, 7);
}

#[test]
fn report_throttling_uneven_total() {
    // 27 packages at the steady speed: the interval is ceil(27/20) = 2,
    // which does not divide 27, so the loop reports floor(27/2) = 13
    // times; with the trailing report, 14.
    let mut packages = Packages::new(sample_payload(27 * 15));
    packages.set_package_size(PackageSize::TINY);
    packages.set_report_speed(PackageReportSpeed::STEADY);
    packages.listen_reports();
    let mut transport: Vec<u8> = Vec::new();
    let reports = packages.write_to(&mut transport);
    assert_eq!(reports.len(), 14);
    assert_eq!(reports[12].sent, 26);
    assert_eq!(reports[13].sent, 27);
}

#[test]
fn reports_silent_without_listener() {
    let mut packages = Packages::new(sample_payload(100));
    packages.set_package_size(PackageSize::TINY);
    let mut transport: Vec<u8> = Vec::new();
    let reports = packages.write_to(&mut transport);
    assert_eq!(reports.len(), 0);
}

#[test]
fn apply_multiplier_values() {
    assert_eq!(PackageReportSpeed::FASTEST.apply_multiplier(100), 1);
    assert_eq!(PackageReportSpeed::FAST.apply_multiplier(100), 1);
    assert_eq!(PackageReportSpeed::STEADY.apply_multiplier(100), 5);
    assert_eq!(PackageReportSpeed::SLOW.apply_multiplier(100), 10);
    assert_eq!(PackageReportSpeed::SLOWEST.apply_multiplier(100), 15);
    assert_eq!(PackageReportSpeed::STEADY.apply_multiplier(27), 2);
    assert_eq!(PackageReportSpeed::FAST.apply_multiplier(50), 1);
    // The interval is clamped to at least one, also for no packages.
    assert_eq!(PackageReportSpeed::STEADY.apply_multiplier(0), 1);
    assert_eq!(PackageReportSpeed::SLOWEST.apply_multiplier(0), 1);
}

#[test]
fn batch_size_codes() {
    assert_eq!(PackagesBatchSize::TINY.to_value(), 1);
    assert_eq!(PackagesBatchSize::SMALL.to_value(), 4);
    assert_eq!(PackagesBatchSize::MEDIUM.to_value(), 16);
    assert_eq!(PackagesBatchSize::LARGE.to_value(), 64);
    assert_eq!(PackagesBatchSize::MAX.to_value(), 255);
    for code in [1u8, 4, 16, 64, 255] {
        assert_eq!(PackagesBatchSize::from_value(code).unwrap().to_value(), code);
    }
    assert_eq!(PackagesBatchSize::from_value(0), Err(()));
    assert_eq!(PackagesBatchSize::from_value(2), Err(()));
    assert_eq!(PackagesBatchSize::from_value(128), Err(()));
}

#[test]
fn invalid_batch_code_rejected_before_frames() {
    // A stream whose leading byte is not one of the five codes is
    // rejected before any package frame is read, whatever follows.
    let mut packages = Packages::new(sample_payload(30));
    packages.set_package_size(PackageSize::TINY);
    let mut transport: Vec<u8> = Vec::new();
    packages.write_to(&mut transport);
    transport[0] = 7;
    assert_eq!(
        Packages::read_from(&transport).unwrap_err(),
        TransferError::InvalidBatchCode
    );
    // Even with garbage instead of frames behind it.
    let wire = vec![3u8, 250, 250, 250];
    assert_eq!(
        Packages::read_from(&wire).unwrap_err(),
        TransferError::InvalidBatchCode
    );
}

#[test]
fn short_read_on_truncated_stream() {
    assert_eq!(
        Packages::read_from(&Vec::new()).unwrap_err(),
        TransferError::ShortRead
    );
    let mut packages = Packages::new(sample_payload(40));
    packages.set_package_size(PackageSize::TINY);
    let mut transport: Vec<u8> = Vec::new();
    packages.write_to(&mut transport);
    for cut in [1usize, 10, 25] {
        let truncated: Vec<u8> = transport[..transport.len() - cut].to_vec();
        assert_eq!(
            Packages::read_from(&truncated).unwrap_err(),
            TransferError::ShortRead
        );
    }
}

#[test]
fn trailing_bytes_after_final_frame_rejected() {
    let mut packages = Packages::new(sample_payload(10));
    packages.set_package_size(PackageSize::TINY);
    let mut transport: Vec<u8> = Vec::new();
    packages.write_to(&mut transport);
    transport.push(42);
    assert_eq!(
        Packages::read_from(&transport).unwrap_err(),
        TransferError::ShortRead
    );
}

#[test]
fn oversized_package_rejected_as_configuration_error() {
    let meta_uuid = new_uuid(1, vec![], TYPE_MARKER_PACKAGE, ENCRYPTION_UNENCRYPTED);
    let package = Package::new(sample_payload(16), meta_uuid);
    let result = packages_to_wire(
        &vec![package],
        &PackageSize::TINY,
        &PackagesBatchSize::MEDIUM,
    );
    assert_eq!(result.unwrap_err(), TransferError::PayloadTooLarge);
}

#[test]
fn caller_built_packages_round_trip() {
    let first = Package::new(
        sample_payload(15),
        new_uuid(1, vec![], TYPE_MARKER_PACKAGE, ENCRYPTION_UNENCRYPTED),
    );
    let second = Package::new(
        sample_payload(4),
        new_uuid(2, vec![], TYPE_MARKER_PACKAGE, ENCRYPTION_UNENCRYPTED),
    );
    let wire = packages_to_wire(
        &vec![first, second],
        &PackageSize::TINY,
        &PackagesBatchSize::SMALL,
    )
    .unwrap();
    assert_eq!(wire[0], 4);
    let received = Packages::read_from(&wire).unwrap();
    let mut expected = sample_payload(15);
    expected.extend(sample_payload(4));
    assert_eq!(received.data, expected);
}

#[test]
fn receiver_drives_exact_reads() {
    let payload = sample_payload(40);
    let mut packages = Packages::new(payload.clone());
    packages.set_package_size(PackageSize::TINY);
    let mut transport: Vec<u8> = Vec::new();
    packages.write_to(&mut transport);

    // Feed the receiver exactly what it asks for, as a socket reader
    // would, and let it decide where every frame ends.
    let mut receiver = Receiver::new();
    let mut pos = 0usize;
    while receiver.next_read() > 0 {
        let wanted = receiver.next_read();
        let bytes = transport[pos..pos + wanted].to_vec();
        pos += wanted;
        receiver.feed(bytes).unwrap();
    }
    assert!(receiver.is_done());
    assert_eq!(pos, transport.len());
    let received = receiver.finish().unwrap();
    assert_eq!(received.data, payload);
}

#[test]
fn receiver_rejects_invalid_code_first() {
    let mut receiver = Receiver::new();
    assert_eq!(receiver.next_read(), 1);
    assert_eq!(
        receiver.feed(vec![9]).unwrap_err(),
        TransferError::InvalidBatchCode
    );
}
