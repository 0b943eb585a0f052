//! How an input is to be read, told from its path.

use vstd::prelude::*;
use vstd::string::StrSliceExecFns;
use crate::s3::{has_prefix, scheme};

verus! {

/// Bytes asked for in one range of an S3 object.
pub const S3_CHUNK_SIZE: usize = 1024 * 128;

/// Ranges of an S3 object that are fetched one at a time before any are
/// fetched at once: enough to see the time of the first packet.
pub const S3_SERIAL_CHUNKS: usize = 1;

/// Ranges of an S3 object that are fetched at once after that.
pub const S3_CONCURRENT_CHUNKS: usize = 4;

/// Bytes of read-ahead for a local file.
pub const FILE_BUFFER_SIZE: usize = 1024 * 128;

/// Room that the parser sets aside for bytes that await parsing.
pub const PARSER_CAPACITY: usize = 1024 * 64;

/// Packets that are handed to the merge in one batch, at most.
pub const BATCH_SIZE: usize = 2048;

/// Batches that may wait for the merge: with one, an input reads no
/// further until the merge has taken its last batch.
pub const CHANNEL_CAPACITY: usize = 1;

/// Where the bytes of an input come from.
#[derive(Debug, Clone, Copy, PartialEq, Eq, Structural)]
pub enum Source {
    S3,
    LocalFile,
}

/// How the bytes of an input are packed.
#[derive(Debug, Clone, Copy, PartialEq, Eq, Structural)]
pub enum Compression {
    Zstd,
    Gzip,
    Identity,
}

/// How an input is to be read.
#[derive(Debug, Clone, Copy, PartialEq, Eq, Structural)]
pub struct InputPlan {
    pub source: Source,
    pub compression: Compression,
}

/// `text` ends with `suffix`.
pub open spec fn has_suffix(text: Seq<char>, suffix: Seq<char>) -> bool {
    suffix.len() <= text.len() && text.skip(text.len() - suffix.len()) == suffix
}

/// The ending of paths that are packed with zstd.
pub open spec fn zstd_suffix() -> Seq<char> {
    seq!['.', 'z', 's', 't']
}

/// The ending of paths that are packed with gzip.
pub open spec fn gzip_suffix() -> Seq<char> {
    seq!['.', 'g', 'z']
}

/// The source that a path names: S3 where it starts with `s3://`, a local
/// file otherwise.
pub open spec fn source_of(path: Seq<char>) -> Source {
    if has_prefix(path, scheme()) {
        Source::S3
    } else {
        Source::LocalFile
    }
}

/// The packing that a path names by its ending: `.zst`, `.gz`, or none.
pub open spec fn compression_of(path: Seq<char>) -> Compression {
    if has_suffix(path, zstd_suffix()) {
        Compression::Zstd
    } else if has_suffix(path, gzip_suffix()) {
        Compression::Gzip
    } else {
        Compression::Identity
    }
}

/// Tells from a path where its bytes come from and how they are packed.
pub fn plan_input(path: &str) -> (plan: InputPlan)
    ensures
        plan.source == source_of(path@),
        plan.compression == compression_of(path@),
{
    let len = path.unicode_len();
    let is_s3 = len >= 5 && path.get_char(0) == 's' && path.get_char(1) == '3' && path.get_char(2)
        == ':' && path.get_char(3) == '/' && path.get_char(4) == '/';
    let is_zstd = len >= 4 && path.get_char(len - 4) == '.' && path.get_char(len - 3) == 'z'
        && path.get_char(len - 2) == 's' && path.get_char(len - 1) == 't';
    let is_gzip = len >= 3 && path.get_char(len - 3) == '.' && path.get_char(len - 2) == 'g'
        && path.get_char(len - 1) == 'z';
    proof {
        if len >= 5 {
            let head = path@.take(5);
            if is_s3 {
                assert(head =~= scheme());
            } else {
                assert(head[0] == path@[0] && head[1] == path@[1] && head[2] == path@[2]
                    && head[3] == path@[3] && head[4] == path@[4]);
            }
        }
        if len >= 4 {
            let tail = path@.skip(len - 4);
            if is_zstd {
                assert(tail =~= zstd_suffix());
            } else {
                assert(tail[0] == path@[len - 4] && tail[1] == path@[len - 3] && tail[2]
                    == path@[len - 2] && tail[3] == path@[len - 1]);
            }
        }
        if len >= 3 {
            let tail = path@.skip(len - 3);
            if is_gzip {
                assert(tail =~= gzip_suffix());
            } else {
                assert(tail[0] == path@[len - 3] && tail[1] == path@[len - 2] && tail[2]
                    == path@[len - 1]);
            }
        }
    }
    InputPlan {
        source: if is_s3 {
            Source::S3
        } else {
            Source::LocalFile
        },
        compression: if is_zstd {
            Compression::Zstd
        } else if is_gzip {
            Compression::Gzip
        } else {
            Compression::Identity
        },
    }
}

} // verus!
