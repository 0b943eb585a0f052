//! The classic capture format: a 24-byte file header, then records of a
//! 16-byte header and the captured bytes.
//!
//! `Packets` turns the bytes of one capture into packets. It reads nothing
//! by itself: its owner feeds it what was read and takes the packets out.

use vstd::prelude::*;
use vstd::slice::slice_subrange;
use crate::buffers::{buffered, frozen};

verus! {

/// Why a capture could not be read.
#[derive(Debug, Clone, Copy, PartialEq, Eq, Structural)]
pub enum CaptureError {
    /// The input ends before the file header or a record is whole.
    Incomplete,
    /// The input does not start with the magic number of a capture.
    HeaderNotRecognized,
}

/// The number that the four bytes from `at` on spell in the byte order of
/// the file.
pub open spec fn u32_at(bytes: Seq<u8>, at: int, big_endian: bool) -> int {
    if big_endian {
        bytes[at] * 0x100_0000 + bytes[at + 1] * 0x1_0000 + bytes[at + 2] * 0x100 + bytes[at + 3]
    } else {
        bytes[at] + bytes[at + 1] * 0x100 + bytes[at + 2] * 0x1_0000 + bytes[at + 3] * 0x100_0000
    }
}

/// Length of the file header.
pub const HEADER_LEN: usize = 24;

/// Length of the header of a record.
pub const RECORD_HEADER_LEN: usize = 16;

/// What stands at the start of a capture.
pub enum HeaderParse {
    /// A header, with its magic number read lowest byte first.
    Header { magic: u32 },
    /// Too few bytes to tell.
    Incomplete,
    /// Something else than a capture.
    NotRecognized,
}

/// The header of a record: its four numbers, and how many bytes of the
/// input follow the record.
pub struct Frame {
    pub ts_sec: u32,
    pub ts_frac: u32,
    pub caplen: u32,
    pub origlen: u32,
    pub rest: usize,
}

/// A magic number that a capture may start with, read lowest byte first.
pub open spec fn known_magic(magic: int) -> bool {
    magic == 0xa1b2_c3d4 || magic == 0xa1b2_3c4d || magic == 0xd4c3_b2a1 || magic == 0x4d3c_b2a1
}

/// The file header at the start of `bytes`: its first four bytes must spell
/// one of the four magic numbers, and all of its 24 bytes must be there.
pub open spec fn header_at(bytes: Seq<u8>) -> HeaderParse {
    if bytes.len() < 4 {
        HeaderParse::Incomplete
    } else if !known_magic(u32_at(bytes, 0, false)) {
        HeaderParse::NotRecognized
    } else if bytes.len() < HEADER_LEN {
        HeaderParse::Incomplete
    } else {
        HeaderParse::Header { magic: u32_at(bytes, 0, false) as u32 }
    }
}

/// The record at the start of `bytes`, where it is whole: a header of four
/// numbers, of which the third says how many captured bytes follow.
pub open spec fn frame_at(bytes: Seq<u8>, big_endian: bool) -> Option<Frame> {
    if bytes.len() < RECORD_HEADER_LEN || bytes.len() - RECORD_HEADER_LEN < u32_at(
        bytes,
        8,
        big_endian,
    ) {
        None
    } else {
        Some(
            Frame {
                ts_sec: u32_at(bytes, 0, big_endian) as u32,
                ts_frac: u32_at(bytes, 4, big_endian) as u32,
                caplen: u32_at(bytes, 8, big_endian) as u32,
                origlen: u32_at(bytes, 12, big_endian) as u32,
                rest: (bytes.len() - RECORD_HEADER_LEN - u32_at(bytes, 8, big_endian)) as usize,
            },
        )
    }
}

/// Calls `pcap_parser::pcap::parse_pcap_header`. Taken on trust: it reads
/// the magic number lowest byte first, asks for more input while fewer than
/// 4 bytes (or, after a known magic number, fewer than 24) are there, and
/// fails on an unknown magic number and on nothing else.
#[verifier::external_body]
fn parse_header(input: &[u8]) -> (parsed: HeaderParse)
    ensures
        parsed == header_at(input@),
{
    match pcap_parser::pcap::parse_pcap_header(input) {
        Ok((_, header)) => HeaderParse::Header { magic: header.magic_number },
        Err(nom::Err::Incomplete(_)) => HeaderParse::Incomplete,
        Err(nom::Err::Error(_)) | Err(nom::Err::Failure(_)) => HeaderParse::NotRecognized,
    }
}

/// Calls `pcap_parser::pcap::parse_pcap_frame`. Taken on trust: it reads
/// the four numbers of the record header lowest byte first, and gives the
/// record where its header and its captured bytes are all there; where they
/// are not, it asks for more input. It fails on no input.
#[verifier::external_body]
fn parse_frame_le(input: &[u8]) -> (parsed: Option<Frame>)
    ensures
        parsed == frame_at(input@, false),
{
    match pcap_parser::pcap::parse_pcap_frame(input) {
        Ok((rest, block)) => Some(
            Frame {
                ts_sec: block.ts_sec,
                ts_frac: block.ts_usec,
                caplen: block.caplen,
                origlen: block.origlen,
                rest: rest.len(),
            },
        ),
        Err(_) => None,
    }
}

/// Calls `pcap_parser::pcap::parse_pcap_frame_be`. Taken on trust: as
/// `parse_pcap_frame`, with the numbers read highest byte first.
#[verifier::external_body]
fn parse_frame_be(input: &[u8]) -> (parsed: Option<Frame>)
    ensures
        parsed == frame_at(input@, true),
{
    match pcap_parser::pcap::parse_pcap_frame_be(input) {
        Ok((rest, block)) => Some(
            Frame {
                ts_sec: block.ts_sec,
                ts_frac: block.ts_usec,
                caplen: block.caplen,
                origlen: block.origlen,
                rest: rest.len(),
            },
        ),
        Err(_) => None,
    }
}

/// The magic numbers of files whose numbers stand highest byte first.
pub open spec fn magic_is_big_endian(magic: u32) -> bool {
    magic == 0xd4c3_b2a1 || magic == 0x4d3c_b2a1
}

/// The magic numbers of files that count the fraction of a second in
/// nanoseconds; the others count it in microseconds.
pub open spec fn magic_is_nanosecond(magic: u32) -> bool {
    magic == 0xa1b2_3c4d || magic == 0x4d3c_b2a1
}

/// The time of a record in nanoseconds: its seconds, and its fraction of a
/// second times what one unit of the fraction is worth.
pub open spec fn timestamp_ns(ts_sec: u32, ts_frac: u32, multiplier: u16) -> int {
    ts_sec * 1_000_000_000 + ts_frac * multiplier
}

/// No time of a record is `u64::MAX`, which a merge takes for the end of an
/// input: a merge loses no packet that was parsed.
pub proof fn lemma_timestamp_below_max(ts_sec: u32, ts_frac: u32, multiplier: u16)
    ensures
        0 <= timestamp_ns(ts_sec, ts_frac, multiplier) < u64::MAX,
{
    assert(0 <= ts_sec * 1_000_000_000 + ts_frac * multiplier < u64::MAX) by (nonlinear_arith)
        requires
            0 <= ts_sec <= u32::MAX,
            0 <= ts_frac <= u32::MAX,
            0 <= multiplier <= u16::MAX,
    ;
}

/// What `Packets::poll_next` found.
#[derive(Debug)]
pub enum NextPacket {
    /// A packet: its time in nanoseconds and the bytes of its record,
    /// header included.
    Packet(u64, bytes::Bytes),
    /// No whole record is buffered, and the input has not ended.
    Pending,
    /// The input cannot be read as a capture.
    Failed(CaptureError),
    /// The input has ended and every record was handed out.
    Done,
}

/// The packets of one capture, parsed from the bytes that are fed in.
pub struct Packets {
    // always nanoseconds on the way out: 1000 for files that count microseconds
    ts_usec_multiplier: u16,
    big_endian: bool,
    buffer: bytes::BytesMut,
    reader_exhausted: bool,
}

impl Packets {
    /// The bytes fed in and not yet handed out.
    pub closed spec fn buffered(&self) -> Seq<u8> {
        buffered(self.buffer)
    }

    /// The numbers of the file stand highest byte first.
    pub closed spec fn big_endian(&self) -> bool {
        self.big_endian
    }

    /// Nanoseconds in one unit of the fraction of a second.
    pub closed spec fn multiplier(&self) -> u16 {
        self.ts_usec_multiplier
    }

    /// The end of the input was announced.
    pub closed spec fn exhausted(&self) -> bool {
        self.reader_exhausted
    }

    /// Number of bytes fed in and not yet handed out.
    pub fn buffered_len(&self) -> (len: usize)
        ensures
            len == self.buffered().len(),
    {
        self.buffer.len()
    }

    /// Starts on a capture of which `input` is the beginning. The file
    /// header must be whole in `input`; it settles the byte order and the
    /// unit of time. What follows the header is buffered. `capacity` is the
    /// room set aside for the buffer; neither it nor the input can be more
    /// than the `isize::MAX` bytes that one allocation can have.
    pub fn new(capacity: usize, input: &[u8]) -> (made: Result<Packets, CaptureError>)
        requires
            capacity <= isize::MAX,
            input@.len() <= isize::MAX,
        ensures
            match header_at(input@) {
                HeaderParse::Header { magic } => {
                    &&& made matches Ok(packets)
                    &&& packets.big_endian() == magic_is_big_endian(magic)
                    &&& packets.multiplier() == (if magic_is_nanosecond(magic) {
                        1u16
                    } else {
                        1000u16
                    })
                    &&& packets.buffered() == input@.skip(HEADER_LEN as int)
                    &&& !packets.exhausted()
                },
                HeaderParse::Incomplete => made matches Err(e) && e == CaptureError::Incomplete,
                HeaderParse::NotRecognized => made matches Err(e) && e
                    == CaptureError::HeaderNotRecognized,
            },
    {
        match parse_header(input) {
            HeaderParse::Header { magic } => {
                let ts_usec_multiplier: u16 = if magic == 0xa1b2_3c4d || magic == 0x4d3c_b2a1 {
                    1
                } else {
                    1000
                };
                let big_endian = magic == 0xd4c3_b2a1 || magic == 0x4d3c_b2a1;
                let mut buffer = bytes::BytesMut::with_capacity(capacity);
                buffer.extend_from_slice(slice_subrange(input, HEADER_LEN, input.len()));
                assert(buffered(buffer) =~= input@.skip(HEADER_LEN as int));
                Ok(Packets { ts_usec_multiplier, big_endian, buffer, reader_exhausted: false })
            },
            HeaderParse::Incomplete => Err(CaptureError::Incomplete),
            HeaderParse::NotRecognized => Err(CaptureError::HeaderNotRecognized),
        }
    }

    /// Takes in bytes that were read from the input. No more than
    /// `isize::MAX` bytes can be buffered at a time.
    pub fn feed(&mut self, bytes: &[u8])
        requires
            old(self).buffered().len() + bytes@.len() <= isize::MAX,
        ensures
            final(self).buffered() == old(self).buffered() + bytes@,
            final(self).big_endian() == old(self).big_endian(),
            final(self).multiplier() == old(self).multiplier(),
            final(self).exhausted() == old(self).exhausted(),
    {
        self.buffer.extend_from_slice(bytes);
    }

    /// Takes note that the input has ended.
    pub fn end_of_input(&mut self)
        ensures
            final(self).exhausted(),
            final(self).buffered() == old(self).buffered(),
            final(self).big_endian() == old(self).big_endian(),
            final(self).multiplier() == old(self).multiplier(),
    {
        self.reader_exhausted = true;
    }

    /// Hands out the next packet, if a whole record is buffered: its bytes
    /// as they stand in the input, and its time in nanoseconds. Without a
    /// whole record it asks for more input. Once the input has ended, bytes
    /// that are left over and make no whole record are reported as one
    /// error and dropped.
    pub fn poll_next(&mut self) -> (next: NextPacket)
        ensures
            final(self).big_endian() == old(self).big_endian(),
            final(self).multiplier() == old(self).multiplier(),
            final(self).exhausted() == old(self).exhausted(),
            old(self).buffered().len() == 0 && old(self).exhausted() ==> next is Done
                && final(self).buffered() == old(self).buffered(),
            !(old(self).buffered().len() == 0 && old(self).exhausted()) ==> match frame_at(
                old(self).buffered(),
                old(self).big_endian(),
            ) {
                Some(record) => {
                    &&& next matches NextPacket::Packet(ts, frame)
                    &&& ts == timestamp_ns(record.ts_sec, record.ts_frac, old(self).multiplier())
                    &&& frozen(frame) == old(self).buffered().take(
                        RECORD_HEADER_LEN + record.caplen,
                    )
                    &&& final(self).buffered() == old(self).buffered().skip(
                        RECORD_HEADER_LEN + record.caplen,
                    )
                },
                None => if old(self).exhausted() {
                    &&& next matches NextPacket::Failed(e)
                    &&& e == CaptureError::Incomplete
                    &&& final(self).buffered().len() == 0
                } else {
                    &&& next is Pending
                    &&& final(self).buffered() == old(self).buffered()
                },
            },
    {
        if self.buffer.len() == 0 && self.reader_exhausted {
            return NextPacket::Done;
        }
        let parsed = if self.big_endian {
            parse_frame_be(self.buffer.as_ref())
        } else {
            parse_frame_le(self.buffer.as_ref())
        };
        match parsed {
            Some(record) => {
                assert(record.ts_sec as u64 * 1_000_000_000 + record.ts_frac as u64
                    * self.ts_usec_multiplier as u64 <= u64::MAX) by (nonlinear_arith)
                    requires
                        record.ts_sec <= u32::MAX,
                        record.ts_frac <= u32::MAX,
                        self.ts_usec_multiplier <= u16::MAX,
                ;
                let nanosecond_ts = record.ts_sec as u64 * 1_000_000_000 + record.ts_frac as u64
                    * self.ts_usec_multiplier as u64;
                let packet_n_bytes = self.buffer.len() - record.rest;
                NextPacket::Packet(nanosecond_ts, self.buffer.split_to(packet_n_bytes).freeze())
            },
            None => {
                if self.reader_exhausted {
                    self.buffer.clear();
                    NextPacket::Failed(CaptureError::Incomplete)
                } else {
                    NextPacket::Pending
                }
            },
        }
    }
}

/// The file header that goes before merged packets: lowest byte first,
/// time in nanoseconds, format version 2.4, up to 262144 bytes of each
/// packet, link type 1.
pub fn nanosecond_header() -> (header: [u8; 24])
    ensures
        header@ == seq![
            0x4Du8, 0x3C, 0xB2, 0xA1, 0x02, 0x00, 0x04, 0x00, 0x00, 0x00, 0x00, 0x00,
            0x00, 0x00, 0x00, 0x00, 0x00, 0x00, 0x04, 0x00, 0x01, 0x00, 0x00, 0x00,
        ],
        header_at(header@) == (HeaderParse::Header { magic: 0xa1b2_3c4d }),
        !magic_is_big_endian(0xa1b2_3c4d),
        magic_is_nanosecond(0xa1b2_3c4d),
{
    let header: [u8; 24] = [
        0x4D, 0x3C, 0xB2, 0xA1, 0x02, 0x00, 0x04, 0x00, 0x00, 0x00, 0x00, 0x00,
        0x00, 0x00, 0x00, 0x00, 0x00, 0x00, 0x04, 0x00, 0x01, 0x00, 0x00, 0x00,
    ];
    assert(header@ =~= seq![
        0x4Du8, 0x3C, 0xB2, 0xA1, 0x02, 0x00, 0x04, 0x00, 0x00, 0x00, 0x00, 0x00,
        0x00, 0x00, 0x00, 0x00, 0x00, 0x00, 0x04, 0x00, 0x01, 0x00, 0x00, 0x00,
    ]);
    header
}

} // verus!
