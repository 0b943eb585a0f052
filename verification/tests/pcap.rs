use bytes::Bytes;
use stream_merge::packet_stream::PacketStream;
use stream_merge::pcap::{nanosecond_header, CaptureError, NextPacket, Packets};
use stream_merge::tournament_tree::Tree;

const HDR_LE_USEC: [u8; 24] = [
    0xD4, 0xC3, 0xB2, 0xA1, 0x02, 0x00, 0x04, 0x00, 0x00, 0x00, 0x00, 0x00, 0x00, 0x00, 0x00,
    0x00, 0x00, 0x00, 0x04, 0x00, 0x01, 0x00, 0x00, 0x00,
];
const HDR_LE_NSEC: [u8; 24] = [
    0x4D, 0x3C, 0xB2, 0xA1, 0x02, 0x00, 0x04, 0x00, 0x00, 0x00, 0x00, 0x00, 0x00, 0x00, 0x00,
    0x00, 0x00, 0x00, 0x04, 0x00, 0x01, 0x00, 0x00, 0x00,
];
const HDR_BE_USEC: [u8; 24] = [
    0xA1, 0xB2, 0xC3, 0xD4, 0x00, 0x02, 0x00, 0x04, 0x00, 0x00, 0x00, 0x00, 0x00, 0x00, 0x00,
    0x00, 0x00, 0x04, 0x00, 0x00, 0x00, 0x00, 0x00, 0x01,
];
const HDR_BE_NSEC: [u8; 24] = [
    0xA1, 0xB2, 0x3C, 0x4D, 0x00, 0x02, 0x00, 0x04, 0x00, 0x00, 0x00, 0x00, 0x00, 0x00, 0x00,
    0x00, 0x00, 0x04, 0x00, 0x00, 0x00, 0x00, 0x00, 0x01,
];

fn record(ts_sec: u32, ts_frac: u32, payload: &[u8], big_endian: bool) -> Vec<u8> {
    let caplen = payload.len() as u32;
    let mut bytes = Vec::new();
    for field in [ts_sec, ts_frac, caplen, caplen] {
        if big_endian {
            bytes.extend_from_slice(&field.to_be_bytes());
        } else {
            bytes.extend_from_slice(&field.to_le_bytes());
        }
    }
    bytes.extend_from_slice(payload);
    bytes
}

fn expect_packet(next: NextPacket) -> (u64, Bytes) {
    match next {
        NextPacket::Packet(ts, frame) => (ts, frame),
        other => panic!("expected a packet, got {:?}", other),
    }
}

fn expect_failed(next: NextPacket) -> CaptureError {
    match next {
        NextPacket::Failed(error) => error,
        other => panic!("expected a failure, got {:?}", other),
    }
}

/// Parses a whole capture that is held in memory.
fn packets_of(file: &[u8]) -> Vec<(u64, Bytes)> {
    let mut packets = Packets::new(1024 * 64, &file[..24]).unwrap();
    packets.feed(&file[24..]);
    packets.end_of_input();
    let mut parsed = Vec::new();
    loop {
        match packets.poll_next() {
            NextPacket::Packet(ts, frame) => parsed.push((ts, frame)),
            NextPacket::Done => return parsed,
            other => panic!("capture does not parse: {:?}", other),
        }
    }
}

#[test]
fn microsecond_file_counts_in_thousands_of_nanoseconds() {
    let mut packets = Packets::new(64, &HDR_LE_USEC).unwrap();
    let rec = record(1, 500, b"abc", false);
    packets.feed(&rec);
    let (ts, frame) = expect_packet(packets.poll_next());
    assert_eq!(ts, 1_000_500_000);
    assert_eq!(&frame[..], &rec[..]);
}

#[test]
fn nanosecond_file_counts_in_nanoseconds() {
    let mut packets = Packets::new(64, &HDR_LE_NSEC).unwrap();
    let rec = record(1, 600_000, b"abc", false);
    packets.feed(&rec);
    let (ts, frame) = expect_packet(packets.poll_next());
    assert_eq!(ts, 1_000_600_000);
    assert_eq!(&frame[..], &rec[..]);
}

#[test]
fn big_endian_microsecond_file() {
    let mut packets = Packets::new(64, &HDR_BE_USEC).unwrap();
    let rec = record(0x0102_0304, 0x0000_0102, b"payload", true);
    packets.feed(&rec);
    let (ts, frame) = expect_packet(packets.poll_next());
    assert_eq!(ts, 0x0102_0304u64 * 1_000_000_000 + 0x0102 * 1000);
    assert_eq!(&frame[..], &rec[..]);
}

#[test]
fn big_endian_nanosecond_file() {
    let mut packets = Packets::new(64, &HDR_BE_NSEC).unwrap();
    let rec = record(7, 999_999_999, &[0u8; 300], true);
    packets.feed(&rec);
    let (ts, frame) = expect_packet(packets.poll_next());
    assert_eq!(ts, 7_999_999_999);
    assert_eq!(frame.len(), 316);
    assert_eq!(&frame[..], &rec[..]);
}

#[test]
fn byte_order_of_the_file_decides_how_a_record_is_read() {
    // the same bytes, read lowest byte first and highest byte first
    let rec = [0, 0, 0, 1, 0, 0, 0, 2, 0, 0, 0, 0, 0, 0, 0, 0];
    let mut little = Packets::new(64, &HDR_LE_NSEC).unwrap();
    little.feed(&rec);
    assert_eq!(expect_packet(little.poll_next()).0, 0x0100_0000 * 1_000_000_000 + 0x0200_0000);
    let mut big = Packets::new(64, &HDR_BE_NSEC).unwrap();
    big.feed(&rec);
    assert_eq!(expect_packet(big.poll_next()).0, 1_000_000_002);
}

#[test]
fn largest_timestamp_fits() {
    let mut packets = Packets::new(64, &HDR_LE_USEC).unwrap();
    packets.feed(&record(u32::MAX, u32::MAX, b"", false));
    let (ts, _) = expect_packet(packets.poll_next());
    assert_eq!(ts, 4_294_967_295 * 1_000_000_000 + 4_294_967_295 * 1000);
    assert!(ts < u64::MAX);
}

#[test]
fn unknown_magic_is_refused() {
    let mut header = HDR_LE_USEC;
    header[0] = 0x0A;
    assert_eq!(Packets::new(64, &header).err(), Some(CaptureError::HeaderNotRecognized));
    // the magic of the pcapng format
    let pcapng = [0x0A, 0x0D, 0x0D, 0x0A, 0, 0, 0, 0];
    assert_eq!(Packets::new(64, &pcapng).err(), Some(CaptureError::HeaderNotRecognized));
    assert_eq!(Packets::new(64, &[0u8; 24]).err(), Some(CaptureError::HeaderNotRecognized));
}

#[test]
fn short_header_is_incomplete() {
    assert_eq!(Packets::new(64, &[]).err(), Some(CaptureError::Incomplete));
    assert_eq!(Packets::new(64, &HDR_LE_USEC[..3]).err(), Some(CaptureError::Incomplete));
    assert_eq!(Packets::new(64, &HDR_LE_USEC[..4]).err(), Some(CaptureError::Incomplete));
    assert_eq!(Packets::new(64, &HDR_BE_NSEC[..23]).err(), Some(CaptureError::Incomplete));
    assert!(Packets::new(64, &HDR_BE_NSEC[..24]).is_ok());
}

#[test]
fn bytes_after_the_header_are_buffered() {
    let mut file = HDR_LE_NSEC.to_vec();
    let rec = record(3, 4, b"xyz", false);
    file.extend_from_slice(&rec);
    let mut packets = Packets::new(0, &file).unwrap();
    let (ts, frame) = expect_packet(packets.poll_next());
    assert_eq!(ts, 3_000_000_004);
    assert_eq!(&frame[..], &rec[..]);
    assert!(matches!(packets.poll_next(), NextPacket::Pending));
}

#[test]
fn partial_record_waits_for_more_input() {
    let mut packets = Packets::new(64, &HDR_LE_NSEC).unwrap();
    assert!(matches!(packets.poll_next(), NextPacket::Pending));
    let rec = record(9, 1, b"0123456789", false);
    packets.feed(&rec[..7]);
    assert!(matches!(packets.poll_next(), NextPacket::Pending));
    packets.feed(&rec[7..16]);
    // the header of the record is whole, its payload is not
    assert!(matches!(packets.poll_next(), NextPacket::Pending));
    packets.feed(&rec[16..25]);
    assert!(matches!(packets.poll_next(), NextPacket::Pending));
    packets.feed(&rec[25..]);
    let (ts, frame) = expect_packet(packets.poll_next());
    assert_eq!(ts, 9_000_000_001);
    assert_eq!(&frame[..], &rec[..]);
    assert!(matches!(packets.poll_next(), NextPacket::Pending));
}

#[test]
fn records_come_out_one_by_one_as_they_stand() {
    let mut packets = Packets::new(64, &HDR_LE_USEC).unwrap();
    let first = record(1, 1, b"first", false);
    let second = record(1, 2, b"", false);
    let third = record(2, 0, b"third one", false);
    let mut all = first.clone();
    all.extend_from_slice(&second);
    all.extend_from_slice(&third);
    packets.feed(&all);
    packets.end_of_input();
    let (ts, frame) = expect_packet(packets.poll_next());
    assert_eq!((ts, &frame[..]), (1_000_001_000, &first[..]));
    let (ts, frame) = expect_packet(packets.poll_next());
    assert_eq!((ts, &frame[..]), (1_000_002_000, &second[..]));
    assert_eq!(frame.len(), 16);
    let (ts, frame) = expect_packet(packets.poll_next());
    assert_eq!((ts, &frame[..]), (2_000_000_000, &third[..]));
    assert!(matches!(packets.poll_next(), NextPacket::Done));
    assert!(matches!(packets.poll_next(), NextPacket::Done));
}

#[test]
fn end_of_input_without_packets_is_done() {
    let mut packets = Packets::new(64, &HDR_LE_USEC).unwrap();
    packets.end_of_input();
    assert!(matches!(packets.poll_next(), NextPacket::Done));
}

#[test]
fn end_of_input_inside_a_record_is_one_error() {
    let mut packets = Packets::new(64, &HDR_LE_USEC).unwrap();
    let whole = record(1, 1, b"whole", false);
    let cut = record(2, 2, b"cut short", false);
    packets.feed(&whole);
    packets.feed(&cut[..20]);
    packets.end_of_input();
    let (ts, _) = expect_packet(packets.poll_next());
    assert_eq!(ts, 1_000_001_000);
    assert_eq!(expect_failed(packets.poll_next()), CaptureError::Incomplete);
    assert!(matches!(packets.poll_next(), NextPacket::Done));
}

#[test]
fn written_header_is_a_little_endian_nanosecond_header() {
    let header = nanosecond_header();
    assert_eq!(header, HDR_LE_NSEC);
    let mut packets = Packets::new(64, &header).unwrap();
    packets.feed(&record(1, 600_000, b"", false));
    assert_eq!(expect_packet(packets.poll_next()).0, 1_000_600_000);
}

#[test]
fn mixed_precision_orders_by_nanoseconds() {
    let mut micro = HDR_LE_USEC.to_vec();
    let micro_record = record(1, 500, b"micro", false);
    micro.extend_from_slice(&micro_record);
    let mut nano = HDR_LE_NSEC.to_vec();
    let nano_record = record(1, 600_000, b"nano", false);
    nano.extend_from_slice(&nano_record);

    // the nanosecond file stands first, the microsecond packet comes first
    let inputs = vec![
        PacketStream::new(packets_of(&nano)),
        PacketStream::new(packets_of(&micro)),
    ];
    let mut tree = Tree::new(inputs);
    let first = tree.pop().unwrap();
    assert_eq!(first.0, 1_000_500_000);
    assert_eq!(&first.1[..], &micro_record[..]);
    let second = tree.pop().unwrap();
    assert_eq!(second.0, 1_000_600_000);
    assert_eq!(&second.1[..], &nano_record[..]);
    assert!(tree.pop().is_none());
}

#[test]
fn thirteen_files_merge_into_one_ordered_capture() {
    // file i holds 10 * i packets, stamped 0, 1, 2, ... seconds and nanoseconds
    let files: Vec<Vec<u8>> = (0..13u32)
        .map(|i| {
            let mut file = HDR_LE_NSEC.to_vec();
            for ts in 0..10 * i {
                let mut payload = [7u8; 153];
                payload[0] = i as u8;
                file.extend_from_slice(&record(ts, ts, &payload, false));
            }
            file
        })
        .collect();

    let mut merged = nanosecond_header().to_vec();
    let mut tree = Tree::new(files.iter().map(|file| PacketStream::new(packets_of(file))).collect());
    let mut count = 0;
    while let Some((_, frame)) = tree.pop() {
        merged.extend_from_slice(frame);
        count += 1;
    }
    assert_eq!(count, 780);

    // what a merge that keeps the order of the files among equal times writes
    let mut expected = HDR_LE_NSEC.to_vec();
    for ts in 0..120u32 {
        for i in 0..13u32 {
            if ts < 10 * i {
                let mut payload = [7u8; 153];
                payload[0] = i as u8;
                expected.extend_from_slice(&record(ts, ts, &payload, false));
            }
        }
    }
    assert_eq!(merged.len(), 24 + 780 * 169);
    assert_eq!(merged, expected);
}
