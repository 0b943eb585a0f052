//! An object of an S3 store, fetched in ranges of bytes.
//!
//! `ObjectChunks` decides which requests are due and in what order. It sends
//! nothing: its owner makes the requests and reports the size of the object.

use vstd::prelude::*;
use vstd::string::{StringExecFns, StrSliceExecFns};

verus! {

/// Why a URI names no object.
#[derive(Debug, Clone, Copy, PartialEq, Eq, Structural)]
pub enum UriError {
    /// No `/` parts the bucket from the key.
    MissingDelimiter,
    /// Nothing follows the `/` that ends the bucket.
    MissingKey,
}

/// The size that the store reported cannot be worked with.
#[derive(Debug, Clone, Copy, PartialEq, Eq, Structural)]
pub enum SizeError {
    /// It is negative.
    Negative,
    /// The last range would end beyond what `usize` can hold.
    TooLarge,
}

/// The scheme that S3 URIs start with.
pub open spec fn scheme() -> Seq<char> {
    seq!['s', '3', ':', '/', '/']
}

/// `text` starts with `prefix`.
pub open spec fn has_prefix(text: Seq<char>, prefix: Seq<char>) -> bool {
    prefix.len() <= text.len() && text.take(prefix.len() as int) == prefix
}

/// `uri` without the scheme at its start, as often as it stands there.
pub open spec fn strip_scheme(uri: Seq<char>) -> Seq<char>
    decreases uri.len(),
{
    if has_prefix(uri, scheme()) {
        strip_scheme(uri.skip(5))
    } else {
        uri
    }
}

/// The place of the first `/` in `text`, or the length of `text` where it
/// holds none.
pub open spec fn first_slash(text: Seq<char>) -> int
    decreases text.len(),
{
    if text.len() == 0 || text[0] == '/' {
        0
    } else {
        1 + first_slash(text.skip(1))
    }
}

/// What is due next for an object.
#[derive(Debug, Clone, Copy, PartialEq, Eq, Structural)]
pub enum ChunkPoll {
    /// The size of the object is not known yet: it is to be asked for, and
    /// reported with `set_file_size`.
    NeedSize,
    /// The bytes from `start` to `end`, both included, are to be fetched.
    Fetch { start: usize, end: usize },
    /// The whole object has been asked for.
    Done,
}

/// The ranges of one object, in order: how far the object has been asked
/// for, and what is known of its size.
pub struct ObjectChunks {
    next_chunk_start: usize,
    chunk_size: usize,
    bucket: String,
    key: String,
    file_size: Option<usize>,
}

/// The scheme stands in `uri` at `at`.
fn scheme_at(uri: &str, at: usize, len: usize) -> (found: bool)
    requires
        len == uri@.len(),
        at <= len,
    ensures
        found == has_prefix(uri@.skip(at as int), scheme()),
{
    if len - at < 5 {
        return false;
    }
    let found = uri.get_char(at) == 's' && uri.get_char(at + 1) == '3' && uri.get_char(at + 2)
        == ':' && uri.get_char(at + 3) == '/' && uri.get_char(at + 4) == '/';
    proof {
        let rest = uri@.skip(at as int);
        if found {
            assert(rest.take(5) =~= scheme());
        } else {
            assert(rest.take(5)[0] == rest[0]);
            assert(rest.take(5)[1] == rest[1]);
            assert(rest.take(5)[2] == rest[2]);
            assert(rest.take(5)[3] == rest[3]);
            assert(rest.take(5)[4] == rest[4]);
        }
    }
    found
}

impl ObjectChunks {
    /// The bucket that holds the object.
    pub closed spec fn bucket_name(&self) -> Seq<char> {
        self.bucket@
    }

    /// The key of the object in its bucket.
    pub closed spec fn object_key(&self) -> Seq<char> {
        self.key@
    }

    /// Length of the ranges that are asked for.
    pub closed spec fn chunk_len(&self) -> usize {
        self.chunk_size
    }

    /// Where the next range starts.
    pub closed spec fn next_start(&self) -> usize {
        self.next_chunk_start
    }

    /// The size of the object, once it is known.
    pub closed spec fn size(&self) -> Option<usize> {
        self.file_size
    }

    /// A range has at least one byte, ranges start at multiples of their
    /// length, no range ends beyond what `usize` holds, and no range starts
    /// more than one range beyond the object.
    pub closed spec fn wf(&self) -> bool {
        &&& self.chunk_size >= 1
        &&& self.next_chunk_start % self.chunk_size == 0
        &&& match self.file_size {
            Some(size) => size + self.chunk_size <= usize::MAX && self.next_chunk_start <= size
                + self.chunk_size,
            None => self.next_chunk_start == 0,
        }
    }

    /// The ranges of the object that `uri` names: what stands before the
    /// first `/` is the bucket, what follows it the key. The scheme `s3://`
    /// at the start of `uri` is left out.
    pub fn new(uri: &str, chunk_size: usize) -> (made: Result<ObjectChunks, UriError>)
        requires
            chunk_size >= 1,
        ensures
            ({
                let rest = strip_scheme(uri@);
                let slash = first_slash(rest);
                if slash >= rest.len() {
                    made matches Err(e) && e == UriError::MissingDelimiter
                } else if slash + 1 == rest.len() {
                    made matches Err(e) && e == UriError::MissingKey
                } else {
                    &&& made matches Ok(chunks)
                    &&& chunks.wf()
                    &&& chunks.bucket_name() == rest.take(slash)
                    &&& chunks.object_key() == rest.skip(slash + 1)
                    &&& chunks.chunk_len() == chunk_size
                    &&& chunks.next_start() == 0
                    &&& chunks.size() is None
                }
            }),
    {
        let len = uri.unicode_len();
        let mut start: usize = 0;
        assert(uri@.skip(0) =~= uri@);
        while scheme_at(uri, start, len)
            invariant
                len == uri@.len(),
                start <= len,
                strip_scheme(uri@) == strip_scheme(uri@.skip(start as int)),
            decreases len - start,
        {
            assert(uri@.skip(start as int).skip(5) =~= uri@.skip(start + 5));
            start = start + 5;
        }
        let ghost rest = uri@.skip(start as int);
        let mut bucket_delimiter_index: usize = start;
        while bucket_delimiter_index < len && uri.get_char(bucket_delimiter_index) != '/'
            invariant
                len == uri@.len(),
                start <= bucket_delimiter_index <= len,
                rest == uri@.skip(start as int),
                first_slash(rest) == (bucket_delimiter_index - start) + first_slash(
                    uri@.skip(bucket_delimiter_index as int),
                ),
            decreases len - bucket_delimiter_index,
        {
            assert(uri@.skip(bucket_delimiter_index as int).skip(1) =~= uri@.skip(
                bucket_delimiter_index + 1,
            ));
            bucket_delimiter_index = bucket_delimiter_index + 1;
        }
        if bucket_delimiter_index >= len {
            return Err(UriError::MissingDelimiter);
        }
        if bucket_delimiter_index + 1 == len {
            return Err(UriError::MissingKey);
        }
        let bucket = String::from_str(uri.substring_char(start, bucket_delimiter_index));
        let key = String::from_str(uri.substring_char(bucket_delimiter_index + 1, len));
        proof {
            let slash = bucket_delimiter_index - start;
            assert(uri@.subrange(start as int, bucket_delimiter_index as int) =~= rest.take(slash));
            assert(uri@.subrange(bucket_delimiter_index + 1, len as int) =~= rest.skip(slash + 1));
        }
        Ok(ObjectChunks { next_chunk_start: 0, chunk_size, bucket, key, file_size: None })
    }

    /// The bucket that holds the object.
    pub fn bucket(&self) -> (bucket: &str)
        ensures
            bucket@ == self.bucket_name(),
    {
        self.bucket.as_str()
    }

    /// The key of the object in its bucket.
    pub fn key(&self) -> (key: &str)
        ensures
            key@ == self.object_key(),
    {
        self.key.as_str()
    }

    /// Every range starts at a multiple of the length of the ranges.
    pub proof fn lemma_starts_are_aligned(&self)
        requires
            self.wf(),
        ensures
            self.chunk_len() >= 1,
            self.next_start() % self.chunk_len() == 0,
    {
    }

    /// Takes in the length that the store reported for the object. The
    /// first report counts; a later one changes nothing.
    pub fn set_file_size(&mut self, content_length: i64) -> (taken: Result<(), SizeError>)
        requires
            old(self).wf(),
        ensures
            final(self).wf(),
            final(self).bucket_name() == old(self).bucket_name(),
            final(self).object_key() == old(self).object_key(),
            final(self).chunk_len() == old(self).chunk_len(),
            final(self).next_start() == old(self).next_start(),
            old(self).size() is Some ==> taken is Ok && final(self).size() == old(self).size(),
            old(self).size() is None ==> (if content_length < 0 {
                &&& taken matches Err(e)
                &&& e == SizeError::Negative
                &&& final(self).size() is None
            } else if content_length + old(self).chunk_len() > usize::MAX {
                &&& taken matches Err(e)
                &&& e == SizeError::TooLarge
                &&& final(self).size() is None
            } else {
                &&& taken is Ok
                &&& final(self).size() == Some(content_length as usize)
            }),
    {
        if self.file_size.is_some() {
            return Ok(());
        }
        if content_length < 0 {
            return Err(SizeError::Negative);
        }
        if content_length as u64 > (usize::MAX - self.chunk_size) as u64 {
            return Err(SizeError::TooLarge);
        }
        self.file_size = Some(content_length as usize);
        Ok(())
    }

    /// Says what is due next. Before the size of the object is known, that
    /// is to ask for it. After that the ranges are due one after the other,
    /// each `chunk_len` bytes long, as long as they start within the object
    /// or at its end; the last may reach beyond the object.
    pub fn poll_next(&mut self) -> (polled: ChunkPoll)
        requires
            old(self).wf(),
        ensures
            final(self).wf(),
            final(self).bucket_name() == old(self).bucket_name(),
            final(self).object_key() == old(self).object_key(),
            final(self).chunk_len() == old(self).chunk_len(),
            final(self).size() == old(self).size(),
            match old(self).size() {
                None => polled == ChunkPoll::NeedSize
                    && final(self).next_start() == old(self).next_start(),
                Some(size) => if old(self).next_start() > size {
                    polled == ChunkPoll::Done && final(self).next_start() == old(self).next_start()
                } else {
                    &&& polled == (ChunkPoll::Fetch {
                        start: old(self).next_start(),
                        end: (old(self).next_start() + old(self).chunk_len() - 1) as usize,
                    })
                    &&& final(self).next_start() == old(self).next_start() + old(self).chunk_len()
                },
            },
    {
        match self.file_size {
            None => ChunkPoll::NeedSize,
            Some(file_size) => {
                if self.next_chunk_start > file_size {
                    // the whole object has been asked for
                    ChunkPoll::Done
                } else {
                    let start = self.next_chunk_start;
                    let end = start + (self.chunk_size - 1);
                    assert((start + self.chunk_size) % (self.chunk_size as int) == 0) by (
                    nonlinear_arith)
                        requires
                            start % self.chunk_size == 0,
                            self.chunk_size >= 1,
                    ;
                    self.next_chunk_start = start + self.chunk_size;
                    ChunkPoll::Fetch { start, end }
                }
            },
        }
    }
}

/// The character that stands for a digit.
pub open spec fn digit(d: int) -> char {
    if d == 0 {
        '0'
    } else if d == 1 {
        '1'
    } else if d == 2 {
        '2'
    } else if d == 3 {
        '3'
    } else if d == 4 {
        '4'
    } else if d == 5 {
        '5'
    } else if d == 6 {
        '6'
    } else if d == 7 {
        '7'
    } else if d == 8 {
        '8'
    } else {
        '9'
    }
}

/// A number in decimal digits, without leading zeros.
pub open spec fn decimal(n: nat) -> Seq<char>
    decreases n,
{
    if n < 10 {
        seq![digit(n as int)]
    } else {
        decimal(n / 10).push(digit((n % 10) as int))
    }
}

/// The value of the `Range` header that asks for the bytes from `start` to
/// `end`, both included.
pub open spec fn range_text(start: nat, end: nat) -> Seq<char> {
    seq!['b', 'y', 't', 'e', 's', '='] + decimal(start) + seq!['-'] + decimal(end)
}

fn digit_str(d: usize) -> (text: &'static str)
    requires
        d < 10,
    ensures
        text@ == seq![digit(d as int)],
{
    proof {
        reveal_strlit("0");
        reveal_strlit("1");
        reveal_strlit("2");
        reveal_strlit("3");
        reveal_strlit("4");
        reveal_strlit("5");
        reveal_strlit("6");
        reveal_strlit("7");
        reveal_strlit("8");
        reveal_strlit("9");
    }
    let text = if d == 0 {
        "0"
    } else if d == 1 {
        "1"
    } else if d == 2 {
        "2"
    } else if d == 3 {
        "3"
    } else if d == 4 {
        "4"
    } else if d == 5 {
        "5"
    } else if d == 6 {
        "6"
    } else if d == 7 {
        "7"
    } else if d == 8 {
        "8"
    } else {
        "9"
    };
    assert(text@ =~= seq![digit(d as int)]);
    text
}

fn append_decimal(text: &mut String, n: usize)
    ensures
        final(text)@ == old(text)@ + decimal(n as nat),
    decreases n,
{
    if n >= 10 {
        append_decimal(text, n / 10);
    }
    text.append(digit_str(n % 10));
    assert(text@ =~= old(text)@ + decimal(n as nat));
}

/// Writes the value of the `Range` header for the bytes from `start` to
/// `end`, both included.
pub fn range_header(start: usize, end: usize) -> (header: String)
    ensures
        header@ == range_text(start as nat, end as nat),
{
    proof {
        reveal_strlit("bytes=");
        reveal_strlit("-");
    }
    let mut header = String::from_str("bytes=");
    append_decimal(&mut header, start);
    header.append("-");
    append_decimal(&mut header, end);
    assert(header@ =~= range_text(start as nat, end as nat));
    header
}

} // verus!
