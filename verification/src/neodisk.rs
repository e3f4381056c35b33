//! NeoDisk: an append-only log of compressed frames.
//!
//! A file is a run of frames and a footer of sixteen bytes. A frame is a
//! header, which is a NeoPack list, and a body, which is the zstd
//! compression of the NeoPack records that were appended while the frame
//! was open. The header of frame `n` holds the file offsets of the headers
//! of the frames that `n` points back at. The footer holds the offset of the
//! last header and the magic bytes.
//!
//! Nothing here touches a file. The writer collects the bytes that are to
//! be written behind what the file holds already; the reader works on the
//! bytes of a file that its caller has read or mapped.

pub mod laws;

use vstd::prelude::*;
use vstd::slice::slice_subrange;
use vstd::bytes::{u64_to_le_bytes, spec_u64_to_le_bytes};
use crate::jumpheader::{
    FrameHeader, Header, compute_jump_indices, jump_indices, as_nats, lemma_prefix_sums_shape,
};
use crate::key::bytes_equal;
use crate::neopack::decoder::Reader;
use crate::neopack::wire::value_len;
use crate::neopack::types::Error as PackError;
use crate::neodisk::laws::{
    consistent, compresses_back, is_record, lemma_new_consistent, lemma_appended_consistent,
    lemma_flushed_consistent, lemma_frame_closed_consistent,
};

verus! {

/// What `zstd::encode_all` returns for the data at a compression level, or
/// nothing where the library reports an error.
pub uninterp spec fn zstd_compressed(data: Seq<u8>, level: int) -> Option<Seq<u8>>;

/// What `zstd::decode_all` returns for bytes in the zstd frame format, or
/// nothing where the library reports an error.
pub uninterp spec fn zstd_decompressed(data: Seq<u8>) -> Option<Seq<u8>>;

/// `zstd::encode_all`: the compression of the data at the given level.
/// Compression loses nothing: what is returned decompresses to the data.
/// An error of the library is handed on as its message.
#[verifier::external_body]
fn zstd_encode(data: &[u8], level: i32) -> (r: Result<Vec<u8>, String>)
    ensures
        match zstd_compressed(data@, level as int) {
            Some(c) => r matches Ok(v) && v@ == c && zstd_decompressed(v@) == Some(data@),
            None => r is Err,
        },
{
    match zstd::encode_all(data, level) {
        Ok(compressed) => Ok(compressed),
        Err(e) => Err(e.to_string()),
    }
}

/// `zstd::decode_all`: the data that the bytes decompress to. An error of
/// the library is handed on as its message.
#[verifier::external_body]
fn zstd_decode(data: &[u8]) -> (r: Result<Vec<u8>, String>)
    ensures
        match zstd_decompressed(data@) {
            Some(d) => r matches Ok(v) && v@ == d,
            None => r is Err,
        },
{
    match zstd::decode_all(data) {
        Ok(decompressed) => Ok(decompressed),
        Err(e) => Err(e.to_string()),
    }
}

/// Uncompressed bytes after which a frame is closed, unless told otherwise.
pub const DEFAULT_FRAME_SIZE: usize = 1048576;

/// Length of the footer: the offset of the last header and the magic bytes.
pub const FOOTER_SIZE: usize = 16;

/// The level that frames are compressed at.
pub const COMPRESSION_LEVEL: i32 = 3;

/// The eight bytes that end a file: `NEODISK` and a zero byte.
pub open spec fn magic() -> Seq<u8> {
    seq![78u8, 69u8, 79u8, 68u8, 73u8, 83u8, 75u8, 0u8]
}

/// Everything that can go wrong with a log.
#[derive(Debug)]
pub enum Error {
    /// Reading or writing the file failed; the message says how.
    Io(String),
    /// A frame's body could not be compressed or decompressed.
    Compression(String),
    /// The log holds no message of this number.
    MessageNotFound(u64),
    /// The log holds no frame of this number.
    FrameNotFound(u64),
    /// A header or a record is not the NeoPack value it should be.
    Neopack(PackError),
    /// The file does not end in a footer, or a frame overruns it.
    InvalidFormat,
}

/// An error without the message that came with it.
pub enum Failure {
    Io,
    Compression,
    MessageNotFound(u64),
    FrameNotFound(u64),
    Neopack(PackError),
    InvalidFormat,
}

impl View for Error {
    type V = Failure;

    open spec fn view(&self) -> Failure {
        match *self {
            Error::Io(_) => Failure::Io,
            Error::Compression(_) => Failure::Compression,
            Error::MessageNotFound(id) => Failure::MessageNotFound(id),
            Error::FrameNotFound(n) => Failure::FrameNotFound(n),
            Error::Neopack(e) => Failure::Neopack(e),
            Error::InvalidFormat => Failure::InvalidFormat,
        }
    }
}

/// The number of a message in a log, counted from zero.
#[derive(Debug, Clone, Copy, PartialEq, Eq, PartialOrd, Ord)]
pub struct MessageId(pub u64);

/// What is known of a frame once its header has been written or read.
#[derive(Debug, Clone, Copy, PartialEq, Eq, Structural)]
pub struct FrameInfo {
    /// The frame's number, counted from zero.
    pub frame_number: u64,
    /// Offset in the file at which the frame's header starts.
    pub header_offset: u64,
    /// Length of the frame's body in the file.
    pub compressed_size: u64,
    /// Length of the frame's body once decompressed.
    pub decompressed_size: u64,
    /// Number of messages in the frame.
    pub message_count: u64,
    /// Number of the first message in the frame.
    pub first_message_id: u64,
}

/// Number of values that fill `s` from `pos` on.
pub open spec fn count_values(s: Seq<u8>, pos: int) -> Result<nat, PackError>
    decreases s.len() - pos,
{
    if pos >= s.len() {
        Ok(0)
    } else {
        match value_len(s, pos) {
            Err(e) => Err(e),
            Ok(n) => if n <= 0 || pos + n > s.len() {
                Err(PackError::Malformed)
            } else {
                match count_values(s, pos + n) {
                    Ok(c) => Ok(c + 1),
                    Err(e) => Err(e),
                }
            },
        }
    }
}

/// The bytes of the value that stands `k` values behind `pos`.
pub open spec fn nth_value(s: Seq<u8>, pos: int, k: nat) -> Result<
    Seq<u8>,
    PackError,
>
    decreases k,
{
    match value_len(s, pos) {
        Err(e) => Err(e),
        Ok(n) => if k == 0 {
            Ok(s.subrange(pos, pos + n))
        } else {
            nth_value(s, pos + n, (k - 1) as nat)
        },
    }
}

/// The header that stands at `pos`, and its length.
pub open spec fn header_at(data: Seq<u8>, pos: int) -> Result<(Header, int), PackError> {
    match value_len(data, pos) {
        Err(e) => Err(e),
        Ok(hlen) => match Header::decoded(data.subrange(pos, pos + hlen)) {
            Err(e) => Err(e),
            Ok(h) => Ok((h, hlen)),
        },
    }
}

/// The frame whose header stands at `pos`: what is known of it, its
/// decompressed body, and the offset behind it.
#[verifier::opaque]
pub open spec fn frame_at(data: Seq<u8>, pos: int, limit: int, first_id: u64) -> Result<
    (FrameInfo, Seq<u8>, int),
    Failure,
> {
    match header_at(data, pos) {
        Err(e) => Err(Failure::Neopack(e)),
        Ok((h, hlen)) => {
            if pos + hlen > limit || h.compressed_size > limit - (pos + hlen) {
                Err(Failure::InvalidFormat)
            } else {
                let end = pos + hlen + h.compressed_size;
                match zstd_decompressed(data.subrange(pos + hlen, end)) {
                    None => Err(Failure::Compression),
                    Some(body) => match count_values(body, 0) {
                        Err(e) => Err(Failure::Neopack(e)),
                        Ok(count) => if first_id + count > u64::MAX {
                            Err(Failure::InvalidFormat)
                        } else {
                            Ok(
                                (
                                    FrameInfo {
                                        frame_number: h.frame_number,
                                        header_offset: pos as u64,
                                        compressed_size: h.compressed_size,
                                        decompressed_size: h.decompressed_size,
                                        message_count: count as u64,
                                        first_message_id: first_id,
                                    },
                                    body,
                                    end,
                                ),
                            )
                        },
                    },
                }
            }
        },
    }
}

/// The frames that stand between `pos` and `limit`.
pub open spec fn frames_from(data: Seq<u8>, pos: int, limit: int, first_id: u64) -> Result<
    Seq<FrameInfo>,
    Failure,
>
    decreases limit - pos,
{
    if pos >= limit {
        Ok(Seq::empty())
    } else {
        match frame_at(data, pos, limit, first_id) {
            Err(e) => Err(e),
            Ok((info, _, end)) => if end <= pos || end > limit || first_id + info.message_count
                > u64::MAX {
                Err(Failure::InvalidFormat)
            } else {
                match frames_from(
                    data,
                    end,
                    limit,
                    (first_id + info.message_count) as u64,
                ) {
                    Ok(rest) => Ok(seq![info] + rest),
                    Err(e) => Err(e),
                }
            },
        }
    }
}

/// Whether the bytes end in a footer.
pub open spec fn has_footer(data: Seq<u8>) -> bool {
    data.len() >= FOOTER_SIZE && data.subrange(data.len() - 8, data.len() as int) == magic()
}

/// The frames of a file.
pub open spec fn scanned(data: Seq<u8>) -> Result<Seq<FrameInfo>, Failure> {
    if !has_footer(data) {
        Err(Failure::InvalidFormat)
    } else {
        frames_from(data, 0, data.len() - FOOTER_SIZE, 0)
    }
}

/// Number of messages in the frames: one more than the number of the last
/// message of the last frame.
pub open spec fn total_messages(frames: Seq<FrameInfo>) -> nat {
    if frames.len() == 0 {
        0
    } else {
        (frames.last().first_message_id + frames.last().message_count) as nat
    }
}

/// Whether a frame holds the message of a number.
pub open spec fn holds(frame: FrameInfo, id: u64) -> bool {
    frame.first_message_id <= id < frame.first_message_id + frame.message_count
}

/// The index of the first frame from `from` on that holds message `id`.
pub open spec fn frame_holding(frames: Seq<FrameInfo>, id: u64, from: int) -> Option<int>
    decreases frames.len() - from,
{
    if from < 0 || from >= frames.len() {
        None
    } else if holds(frames[from], id) {
        Some(from)
    } else {
        frame_holding(frames, id, from + 1)
    }
}

/// The decompressed body of a frame of a file. The header is read again
/// for its length; the body is as long as the frame is known to be.
pub open spec fn body_of(data: Seq<u8>, frame: FrameInfo) -> Result<Seq<u8>, Failure> {
    let pos = frame.header_offset as int;
    if pos > data.len() {
        Err(Failure::InvalidFormat)
    } else {
        match header_at(data, pos) {
            Err(e) => Err(Failure::Neopack(e)),
            Ok((_, hlen)) => if frame.compressed_size > data.len() - (pos + hlen) {
                Err(Failure::InvalidFormat)
            } else {
                match zstd_decompressed(
                    data.subrange(pos + hlen, pos + hlen + frame.compressed_size),
                ) {
                    None => Err(Failure::Compression),
                    Some(body) => Ok(body),
                }
            },
        }
    }
}

/// The record of message `id` in a file with the given frames.
pub open spec fn message_in(data: Seq<u8>, frames: Seq<FrameInfo>, id: u64) -> Result<
    Seq<u8>,
    Failure,
> {
    match frame_holding(frames, id, 0) {
        None => Err(Failure::MessageNotFound(id)),
        Some(i) => match body_of(data, frames[i]) {
            Err(f) => Err(f),
            Ok(body) => match nth_value(body, 0, (id - frames[i].first_message_id) as nat) {
                Ok(m) => Ok(m),
                Err(e) => Err(Failure::Neopack(e)),
            },
        },
    }
}

/// The bytes of the record that stands `k` records into a frame's body.
fn nth_record(body: &[u8], k: u64) -> (r: Result<Vec<u8>, PackError>)
    ensures
        match nth_value(body@, 0, k as nat) {
            Ok(m) => r matches Ok(v) && v@ == m,
            Err(e) => r matches Err(x) && x == e,
        },
{
    let mut decoder = Reader::new(body);
    let mut skipped: u64 = 0;
    while skipped < k
        invariant
            skipped <= k,
            decoder.wf(),
            decoder.buf == body,
            nth_value(body@, 0, k as nat) == nth_value(
                body@,
                decoder.pos as int,
                (k - skipped) as nat,
            ),
        decreases k - skipped,
    {
        match decoder.skip_value() {
            Ok(_) => {},
            Err(e) => {
                return Err(e);
            },
        }
        skipped = skipped + 1;
    }
    match decoder.raw_value() {
        Ok(msg) => Ok(vstd::slice::slice_to_vec(msg)),
        Err(e) => Err(e),
    }
}

/// The magic bytes.
fn magic_bytes() -> (m: Vec<u8>)
    ensures
        m@ == magic(),
{
    let mut m: Vec<u8> = Vec::new();
    m.push(78);
    m.push(69);
    m.push(79);
    m.push(68);
    m.push(73);
    m.push(83);
    m.push(75);
    m.push(0);
    assert(m@ =~= magic());
    m
}

/// Number of records that the body of a frame holds.
fn count_messages(body: &[u8]) -> (r: Result<u64, PackError>)
    ensures
        match count_values(body@, 0) {
            Ok(c) => r matches Ok(x) && x == c,
            Err(e) => r == Err::<u64, PackError>(e),
        },
{
    let mut decoder = Reader::new(body);
    let mut count: u64 = 0;
    loop
        invariant
            decoder.wf(),
            decoder.buf == body,
            count <= decoder.pos,
            match count_values(body@, decoder.pos as int) {
                Ok(c) => count_values(body@, 0) == Ok::<nat, PackError>(
                    c + count as nat,
                ),
                Err(e) => count_values(body@, 0) == Err::<nat, PackError>(e),
            },
        decreases body@.len() - decoder.pos,
    {
        if decoder.remaining() == 0 {
            return Ok(count);
        }
        match decoder.skip_value() {
            Err(e) => {
                return Err(e);
            },
            Ok(_) => {},
        }
        count = count + 1;
    }
}

/// Reads the header that stands at `pos`; returns it with the offset behind
/// it.
fn read_header(data: &[u8], pos: usize) -> (r: Result<(FrameHeader, usize), PackError>)
    requires
        pos <= data@.len(),
    ensures
        match header_at(data@, pos as int) {
            Ok((h, hlen)) => r matches Ok(x) && x.0@ == h && x.1 == pos + hlen && hlen >= 1 && x.1
                <= data@.len(),
            Err(e) => r matches Err(x) && x == e,
        },
{
    let _len: usize = data.len();
    let mut decoder = Reader { buf: data, pos };
    let raw = match decoder.raw_value() {
        Ok(b) => b,
        Err(e) => {
            return Err(e);
        },
    };
    match FrameHeader::decode(raw) {
        Ok(h) => Ok((h, decoder.pos())),
        Err(e) => Err(e),
    }
}

/// Reads the frame whose header stands at `pos`.
fn read_frame(data: &[u8], pos: usize, limit: usize, first_id: u64) -> (r: Result<
    (FrameInfo, Vec<u8>, usize),
    Error,
>)
    requires
        pos <= limit <= data@.len(),
    ensures
        match frame_at(data@, pos as int, limit as int, first_id) {
            Ok((info, body, end)) => r matches Ok(x) && x.0 == info && x.1@ == body && x.2 == end
                && pos < end <= limit && first_id + info.message_count <= u64::MAX,
            Err(f) => r matches Err(e) && e@ == f,
        },
{
    reveal(frame_at);
    let (header, body_start) = match read_header(data, pos) {
        Ok(x) => x,
        Err(e) => {
            return Err(Error::Neopack(e));
        },
    };
    if body_start > limit || header.compressed_size > (limit - body_start) as u64 {
        return Err(Error::InvalidFormat);
    }
    let end: usize = body_start + header.compressed_size as usize;
    let compressed = slice_subrange(data, body_start, end);
    let body = match zstd_decode(compressed) {
        Ok(d) => d,
        Err(msg) => {
            return Err(Error::Compression(msg));
        },
    };
    let count = match count_messages(body.as_slice()) {
        Ok(c) => c,
        Err(e) => {
            return Err(Error::Neopack(e));
        },
    };
    if count > u64::MAX - first_id {
        return Err(Error::InvalidFormat);
    }
    let info = FrameInfo {
        frame_number: header.frame_number,
        header_offset: pos as u64,
        compressed_size: header.compressed_size,
        decompressed_size: header.decompressed_size,
        message_count: count,
        first_message_id: first_id,
    };
    proof {
        let hlen = body_start - pos;
        assert(header_at(data@, pos as int) == Ok::<(Header, int), PackError>((header@, hlen)));
        assert(compressed@ == data@.subrange(pos + hlen, pos + hlen + header.compressed_size));
        assert(zstd_decompressed(compressed@) == Some(body@));
        assert(count_values(body@, 0) == Ok::<nat, PackError>(count as nat));
    }
    Ok((info, body, end))
}

/// The bytes of the record that message `id` was appended as, in a file
/// with the given frames.
pub fn read_message(data: &[u8], frames: &Vec<FrameInfo>, id: MessageId) -> (r: Result<
    Vec<u8>,
    Error,
>)
    ensures
        match message_in(data@, frames@, id.0) {
            Ok(m) => r matches Ok(v) && v@ == m,
            Err(f) => r matches Err(e) && e@ == f,
        },
{
    let frame_idx = match find_frame(frames, id.0) {
        Ok(i) => i,
        Err(e) => {
            return Err(e);
        },
    };
    let first: u64 = frames[frame_idx].first_message_id;
    let decompressed = match decompress_frame(data, frames, frame_idx) {
        Ok(d) => d,
        Err(e) => {
            return Err(e);
        },
    };
    let message_offset_in_frame: u64 = id.0 - first;
    match nth_record(decompressed.as_slice(), message_offset_in_frame) {
        Ok(msg) => Ok(msg),
        Err(e) => Err(Error::Neopack(e)),
    }
}

/// The index of the frame that holds message `message_id`.
fn find_frame(frames: &Vec<FrameInfo>, message_id: u64) -> (r: Result<usize, Error>)
    ensures
        match frame_holding(frames@, message_id, 0) {
            Some(i) => r matches Ok(x) && x == i && i < frames@.len() && holds(
                frames@[i],
                message_id,
            ),
            None => r matches Err(e) && e@ == Failure::MessageNotFound(message_id),
        },
{
    let mut idx: usize = 0;
    while idx < frames.len()
        invariant
            idx <= frames@.len(),
            frame_holding(frames@, message_id, 0) == frame_holding(
                frames@,
                message_id,
                idx as int,
            ),
        decreases frames@.len() - idx,
    {
        let frame = &frames[idx];
        if message_id >= frame.first_message_id && message_id - frame.first_message_id
            < frame.message_count {
            return Ok(idx);
        }
        idx = idx + 1;
    }
    Err(Error::MessageNotFound(message_id))
}

/// The decompressed body of a frame.
fn decompress_frame(data: &[u8], frames: &Vec<FrameInfo>, frame_idx: usize) -> (r: Result<
    Vec<u8>,
    Error,
>)
    ensures
        frame_idx >= frames@.len() ==> (r matches Err(e) && e@ == Failure::FrameNotFound(
            frame_idx as u64,
        )),
        frame_idx < frames@.len() ==> match body_of(data@, frames@[frame_idx as int]) {
            Ok(b) => r matches Ok(v) && v@ == b,
            Err(f) => r matches Err(e) && e@ == f,
        },
{
    if frame_idx >= frames.len() {
        return Err(Error::FrameNotFound(frame_idx as u64));
    }
    let frame = &frames[frame_idx];
    let len: usize = data.len();
    if frame.header_offset > len as u64 {
        return Err(Error::InvalidFormat);
    }
    let data_start: usize = match read_header(data, frame.header_offset as usize) {
        Ok(x) => x.1,
        Err(e) => {
            return Err(Error::Neopack(e));
        },
    };
    if frame.compressed_size > (len - data_start) as u64 {
        return Err(Error::InvalidFormat);
    }
    let data_end: usize = data_start + frame.compressed_size as usize;
    match zstd_decode(slice_subrange(data, data_start, data_end)) {
        Ok(d) => Ok(d),
        Err(msg) => Err(Error::Compression(msg)),
    }
}

/// A log that is read from the bytes of its file.
#[derive(Debug)]
pub struct NeoDiskReader<'a> {
    pub data: &'a [u8],
    pub frames: Vec<FrameInfo>,
}

impl<'a> NeoDiskReader<'a> {
    /// The frames are those that the bytes hold.
    pub open spec fn wf(&self) -> bool {
        scanned(self.data@) == Ok::<Seq<FrameInfo>, Failure>(self.frames@)
    }

    /// Opens the log that the bytes of a file hold. Bytes that do not end in
    /// a footer are refused.
    pub fn open(data: &'a [u8]) -> (r: Result<Self, Error>)
        ensures
            match scanned(data@) {
                Ok(frames) => r matches Ok(reader) && reader.data == data && reader.frames@
                    == frames && reader.wf(),
                Err(f) => r matches Err(e) && e@ == f,
            },
    {
        match Self::scan_frames(data) {
            Ok(frames) => Ok(NeoDiskReader { data, frames }),
            Err(e) => Err(e),
        }
    }

    /// Walks the frames of a file from its start to its footer.
    pub fn scan_frames(data: &[u8]) -> (r: Result<Vec<FrameInfo>, Error>)
        ensures
            match scanned(data@) {
                Ok(frames) => r matches Ok(v) && v@ == frames,
                Err(f) => r matches Err(e) && e@ == f,
            },
    {
        if data.len() < FOOTER_SIZE {
            return Err(Error::InvalidFormat);
        }
        let footer_start: usize = data.len() - FOOTER_SIZE;
        let magic = magic_bytes();
        if !bytes_equal(slice_subrange(data, footer_start + 8, footer_start + 16), magic.as_slice()) {
            return Err(Error::InvalidFormat);
        }
        let mut frames: Vec<FrameInfo> = Vec::new();
        let mut pos: usize = 0;
        let mut message_id: u64 = 0;
        proof {
            let all = frames_from(data@, 0, footer_start as int, 0);
            if all is Ok {
                assert(frames@ + all->Ok_0 =~= all->Ok_0);
            }
        }
        while pos < footer_start
            invariant
                pos <= data@.len(),
                footer_start == data@.len() - FOOTER_SIZE,
                has_footer(data@),
                match frames_from(data@, pos as int, footer_start as int, message_id) {
                    Ok(rest) => scanned(data@) == Ok::<Seq<FrameInfo>, Failure>(frames@ + rest),
                    Err(f) => scanned(data@) == Err::<Seq<FrameInfo>, Failure>(f),
                },
            ensures
                scanned(data@) == Ok::<Seq<FrameInfo>, Failure>(frames@),
            decreases footer_start - pos,
        {
            let (info, _body, end) = match read_frame(data, pos, footer_start, message_id) {
                Ok(x) => x,
                Err(e) => {
                    return Err(e);
                },
            };
            let ghost before = frames@;
            frames.push(info);
            proof {
                let rest = frames_from(
                    data@,
                    end as int,
                    footer_start as int,
                    (message_id + info.message_count) as u64,
                );
                if rest is Ok {
                    assert(before + (seq![info] + rest->Ok_0) =~= frames@ + rest->Ok_0);
                }
            }
            pos = end;
            message_id = message_id + info.message_count;
        }
        proof {
            assert(frames@ + Seq::<FrameInfo>::empty() =~= frames@);
        }
        Ok(frames)
    }

    /// The bytes of the record that message `id` was appended as.
    pub fn read(&self, id: MessageId) -> (r: Result<Vec<u8>, Error>)
        ensures
            match message_in(self.data@, self.frames@, id.0) {
                Ok(m) => r matches Ok(v) && v@ == m,
                Err(f) => r matches Err(e) && e@ == f,
            },
    {
        read_message(self.data, &self.frames, id)
    }

    /// The decompressed body of a frame.
    pub fn decompress_frame(&self, frame_idx: usize) -> (r: Result<Vec<u8>, Error>)
        ensures
            frame_idx >= self.frames@.len() ==> (r matches Err(e) && e@ == Failure::FrameNotFound(
                frame_idx as u64,
            )),
            frame_idx < self.frames@.len() ==> match body_of(
                self.data@,
                self.frames@[frame_idx as int],
            ) {
                Ok(b) => r matches Ok(v) && v@ == b,
                Err(f) => r matches Err(e) && e@ == f,
            },
    {
        decompress_frame(self.data, &self.frames, frame_idx)
    }

    /// Number of messages in the log.
    pub fn len(&self) -> (n: u64)
        ensures
            n == if total_messages(self.frames@) > u64::MAX {
                u64::MAX as nat
            } else {
                total_messages(self.frames@)
            },
    {
        if self.frames.len() == 0 {
            0
        } else {
            let last = &self.frames[self.frames.len() - 1];
            if last.message_count > u64::MAX - last.first_message_id {
                u64::MAX
            } else {
                last.first_message_id + last.message_count
            }
        }
    }
}

/// A log that is being appended to. The writer holds what is to stand in
/// the file from the offset `base` on: the frames that it has closed and,
/// after `flush`, the footer.
#[derive(Debug)]
pub struct NeoDiskWriter {
    /// Uncompressed bytes after which the open frame is closed.
    pub frame_size: usize,
    /// The records of the open frame.
    pub buffer: Vec<u8>,
    /// Number of messages appended, those of earlier sessions included.
    pub message_count: u64,
    /// The closed frames, those of earlier sessions included.
    pub frames: Vec<FrameInfo>,
    /// Number of messages in the open frame.
    pub current_frame_messages: u64,
    /// Number of the first message in the open frame.
    pub current_frame_start_message: u64,
    /// Offset in the file at which `output` starts.
    pub base: u64,
    /// The bytes that are to stand in the file from `base` on.
    pub output: Vec<u8>,
    /// Whether `output` ends in a footer.
    pub closed: bool,
}

/// The state of a writer.
#[verifier::ext_equal]
pub struct Log {
    pub frame_size: usize,
    pub buffer: Seq<u8>,
    pub message_count: u64,
    pub frames: Seq<FrameInfo>,
    pub current_frame_messages: u64,
    pub current_frame_start_message: u64,
    pub base: u64,
    pub output: Seq<u8>,
    pub closed: bool,
}

impl View for NeoDiskWriter {
    type V = Log;

    open spec fn view(&self) -> Log {
        Log {
            frame_size: self.frame_size,
            buffer: self.buffer@,
            message_count: self.message_count,
            frames: self.frames@,
            current_frame_messages: self.current_frame_messages,
            current_frame_start_message: self.current_frame_start_message,
            base: self.base,
            output: self.output@,
            closed: self.closed,
        }
    }
}

/// The offsets of the headers of the frames that the next frame points
/// back at.
pub open spec fn jump_offsets_of(frames: Seq<FrameInfo>) -> Seq<u64> {
    let jumps = jump_indices(frames.len());
    Seq::new(jumps.len(), |i: int| frames[jumps[i] as int].header_offset)
}

/// The footer behind a last frame whose header stands at `offset`.
pub open spec fn footer(offset: u64) -> Seq<u8> {
    spec_u64_to_le_bytes(offset) + magic()
}

impl Log {
    /// A new log.
    pub open spec fn new(frame_size: usize) -> Log {
        Log {
            frame_size,
            buffer: Seq::empty(),
            message_count: 0,
            frames: Seq::empty(),
            current_frame_messages: 0,
            current_frame_start_message: 0,
            base: 0,
            output: Seq::empty(),
            closed: false,
        }
    }

    /// The log that a file with these frames is taken up as.
    pub open spec fn reopened(frames: Seq<FrameInfo>, file_len: nat) -> Log {
        let count = if total_messages(frames) > u64::MAX {
            u64::MAX
        } else {
            total_messages(frames) as u64
        };
        Log {
            frame_size: DEFAULT_FRAME_SIZE,
            buffer: Seq::empty(),
            message_count: count,
            frames,
            current_frame_messages: 0,
            current_frame_start_message: count,
            base: (file_len - FOOTER_SIZE) as u64,
            output: Seq::empty(),
            closed: false,
        }
    }

    /// The counters agree, the file offsets fit, and a closed log ends in a
    /// footer.
    pub open spec fn wf(self) -> bool {
        &&& self.base + self.output.len() <= u64::MAX
        &&& self.message_count == self.current_frame_start_message + self.current_frame_messages
        &&& self.closed ==> self.output.len() >= FOOTER_SIZE
    }

    /// The output without the footer, if there is one.
    pub open spec fn frames_output(self) -> Seq<u8> {
        if self.closed {
            self.output.subrange(0, self.output.len() - FOOTER_SIZE)
        } else {
            self.output
        }
    }

    /// The offset in the file at which the next frame is to start.
    pub open spec fn position(self) -> int {
        self.base + self.frames_output().len()
    }

    /// The log with one more record in the open frame.
    pub open spec fn with_message(self, message: Seq<u8>) -> Log {
        Log {
            buffer: self.buffer + message,
            message_count: (self.message_count + 1) as u64,
            current_frame_messages: (self.current_frame_messages + 1) as u64,
            ..self
        }
    }

    /// The header of the frame that closing the open frame writes, for a
    /// body that compresses to `compressed`.
    pub open spec fn next_header(self, compressed: Seq<u8>) -> Header {
        Header {
            frame_number: self.frames.len() as u64,
            compressed_size: compressed.len() as u64,
            decompressed_size: self.buffer.len() as u64,
            jump_offsets: jump_offsets_of(self.frames),
        }
    }

    /// What is known of the frame that closing the open frame writes.
    pub open spec fn next_info(self, compressed: Seq<u8>) -> FrameInfo {
        FrameInfo {
            frame_number: self.frames.len() as u64,
            header_offset: self.position() as u64,
            compressed_size: compressed.len() as u64,
            decompressed_size: self.buffer.len() as u64,
            message_count: self.current_frame_messages,
            first_message_id: self.current_frame_start_message,
        }
    }

    /// The log after the open frame has been closed: the frame's header and
    /// its compressed body stand at the end of the output, in place of a
    /// footer if there was one. A log whose open frame is empty stays as it
    /// is.
    pub open spec fn frame_closed(self) -> Result<Log, Failure> {
        if self.buffer.len() == 0 {
            Ok(self)
        } else {
            match zstd_compressed(self.buffer, COMPRESSION_LEVEL as int) {
                None => Err(Failure::Compression),
                Some(c) => {
                    let h = self.next_header(c);
                    if h.body().len() > u32::MAX {
                        Err(Failure::Neopack(h.refusal()))
                    } else if self.position() + h.encoding().len() + c.len() > u64::MAX {
                        Err(Failure::InvalidFormat)
                    } else {
                        Ok(
                            Log {
                                buffer: Seq::empty(),
                                frames: self.frames.push(self.next_info(c)),
                                current_frame_messages: 0,
                                current_frame_start_message: self.message_count,
                                output: self.frames_output() + h.encoding() + c,
                                closed: false,
                                ..self
                            },
                        )
                    }
                },
            }
        }
    }

    /// The log after a record has been appended: the record stands in the
    /// open frame, which is closed if it has reached the frame size.
    pub open spec fn appended(self, message: Seq<u8>) -> Result<Log, Failure> {
        let next = self.with_message(message);
        if next.buffer.len() >= self.frame_size {
            next.frame_closed()
        } else {
            Ok(next)
        }
    }

    /// The open frame has reached the frame size and cannot be closed:
    /// that is how an append leaves the log where it fails.
    pub open spec fn stuck(self) -> bool {
        self.buffer.len() >= self.frame_size && self.frame_closed() is Err
    }

    /// The log after the open frame has been closed and the footer has been
    /// written behind the last frame. A log without a frame gets no footer.
    pub open spec fn flushed(self) -> Result<Log, Failure> {
        match self.frame_closed() {
            Err(f) => Err(f),
            Ok(log) => if log.closed || log.frames.len() == 0 {
                Ok(log)
            } else if log.base + log.output.len() + FOOTER_SIZE > u64::MAX {
                Err(Failure::InvalidFormat)
            } else {
                Ok(
                    Log {
                        output: log.output + footer(log.frames.last().header_offset),
                        closed: true,
                        ..log
                    },
                )
            },
        }
    }
}

impl NeoDiskWriter {
    /// The counters agree, the file offsets fit, and a closed log ends in a
    /// footer.
    pub open spec fn wf(&self) -> bool {
        self@.wf()
    }

    /// A new log with frames of the usual size.
    pub fn create() -> (w: Self)
        ensures
            w.wf(),
            w@ == Log::new(DEFAULT_FRAME_SIZE),
            consistent(w@, Seq::empty(), Seq::empty()),
    {
        Self::create_with_frame_size(DEFAULT_FRAME_SIZE)
    }

    /// A new log whose frames are closed after `frame_size` uncompressed
    /// bytes.
    pub fn create_with_frame_size(frame_size: usize) -> (w: Self)
        ensures
            w.wf(),
            w@ == Log::new(frame_size),
            consistent(w@, Seq::empty(), Seq::empty()),
    {
        proof {
            lemma_new_consistent(frame_size);
        }
        NeoDiskWriter {
            frame_size,
            buffer: Vec::new(),
            message_count: 0,
            frames: Vec::new(),
            current_frame_messages: 0,
            current_frame_start_message: 0,
            base: 0,
            output: Vec::new(),
            closed: false,
        }
    }

    /// Takes up the log that the bytes of a file hold. What is appended is
    /// to be written over the footer of the file.
    pub fn open(data: &[u8]) -> (r: Result<Self, Error>)
        ensures
            match scanned(data@) {
                Ok(frames) => r matches Ok(w) && w.wf() && w@ == Log::reopened(frames, data@.len()),
                Err(f) => r matches Err(e) && e@ == f,
            },
    {
        let reader = match NeoDiskReader::open(data) {
            Ok(r) => r,
            Err(e) => {
                return Err(e);
            },
        };
        let message_count = reader.len();
        let base: u64 = (data.len() - FOOTER_SIZE) as u64;
        Ok(
            NeoDiskWriter {
                frame_size: DEFAULT_FRAME_SIZE,
                buffer: Vec::new(),
                message_count,
                frames: reader.frames,
                current_frame_messages: 0,
                current_frame_start_message: message_count,
                base,
                output: Vec::new(),
                closed: false,
            },
        )
    }

    /// Appends a record. The record goes into the open frame, which is
    /// closed if it has reached the frame size. Where closing fails, the
    /// record stays in the open frame.
    pub fn append(&mut self, message: &[u8]) -> (r: Result<MessageId, Error>)
        requires
            old(self).wf(),
            old(self).message_count < u64::MAX,
        ensures
            final(self).wf(),
            match old(self)@.appended(message@) {
                Ok(log) => r matches Ok(id) && id.0 == old(self).message_count && final(self)@
                    == log,
                Err(f) => r matches Err(e) && e@ == f && final(self)@ == old(self)@.with_message(
                    message@,
                ),
            },
            forall|prefix: Seq<u8>, records: Seq<Seq<u8>>|
                consistent(old(self)@, prefix, records) && is_record(message@)
                    ==> #[trigger] consistent(final(self)@, prefix, records.push(message@)),
    {
        self.buffer.extend_from_slice(message);
        let id = MessageId(self.message_count);
        self.message_count = self.message_count + 1;
        self.current_frame_messages = self.current_frame_messages + 1;
        assert(self@ =~= old(self)@.with_message(message@));
        let ghost mid = self@;
        if self.buffer.len() >= self.frame_size {
            match self.flush_frame() {
                Ok(_) => {},
                Err(e) => {
                    proof {
                        assert forall|prefix: Seq<u8>, records: Seq<Seq<u8>>|
                            consistent(old(self)@, prefix, records) && is_record(
                                message@,
                            ) implies #[trigger] consistent(
                            self@,
                            prefix,
                            records.push(message@),
                        ) by {
                            lemma_appended_consistent(old(self)@, prefix, records, message@);
                        }
                    }
                    return Err(e);
                },
            }
        }
        proof {
            assert forall|prefix: Seq<u8>, records: Seq<Seq<u8>>|
                consistent(old(self)@, prefix, records) && is_record(
                    message@,
                ) implies #[trigger] consistent(self@, prefix, records.push(message@)) by {
                lemma_appended_consistent(old(self)@, prefix, records, message@);
            }
        }
        Ok(id)
    }

    /// Closes the open frame, unless it is empty.
    fn flush_frame(&mut self) -> (r: Result<(), Error>)
        requires
            old(self).wf(),
        ensures
            final(self).wf(),
            match old(self)@.frame_closed() {
                Ok(log) => r is Ok && final(self)@ == log,
                Err(f) => r matches Err(e) && e@ == f && final(self)@ == old(self)@,
            },
            compresses_back(old(self)@),
    {
        if self.buffer.len() == 0 {
            return Ok(());
        }
        let decompressed_size: u64 = self.buffer.len() as u64;
        let frame_number: u64 = self.frames.len() as u64;
        let compressed = match zstd_encode(self.buffer.as_slice(), COMPRESSION_LEVEL) {
            Ok(c) => c,
            Err(msg) => {
                return Err(Error::Compression(msg));
            },
        };
        let compressed_size: u64 = compressed.len() as u64;
        let jump_offsets = self.jump_offsets();
        let header = FrameHeader::new(frame_number, compressed_size, decompressed_size, jump_offsets);
        let header_bytes = match header.encode() {
            Ok(b) => b,
            Err(e) => {
                return Err(Error::Neopack(e));
            },
        };
        let kept: usize = if self.closed {
            self.output.len() - FOOTER_SIZE
        } else {
            self.output.len()
        };
        let header_offset: u64 = self.base + kept as u64;
        let room: u64 = u64::MAX - header_offset;
        if header_bytes.len() as u64 > room || compressed_size > room - header_bytes.len() as u64 {
            return Err(Error::InvalidFormat);
        }
        let ghost before = self@;
        self.output.truncate(kept);
        self.closed = false;
        self.output.extend_from_slice(header_bytes.as_slice());
        self.output.extend_from_slice(compressed.as_slice());
        self.frames.push(
            FrameInfo {
                frame_number,
                header_offset,
                compressed_size,
                decompressed_size,
                message_count: self.current_frame_messages,
                first_message_id: self.current_frame_start_message,
            },
        );
        self.buffer.clear();
        self.current_frame_start_message = self.message_count;
        self.current_frame_messages = 0;
        proof {
            assert(header@ == before.next_header(compressed@));
            assert(self.output@ =~= before.frames_output() + header@.encoding() + compressed@);
            assert(self.buffer@ =~= Seq::<u8>::empty());
            assert(self@ =~= before.frame_closed()->Ok_0);
        }
        Ok(())
    }

    /// Closes the open frame and writes the footer behind the last frame.
    pub fn flush(&mut self) -> (r: Result<(), Error>)
        requires
            old(self).wf(),
        ensures
            final(self).wf(),
            final(self).message_count == old(self).message_count,
            match old(self)@.flushed() {
                Ok(log) => r is Ok && final(self)@ == log,
                Err(f) => r matches Err(e) && e@ == f,
            },
            forall|prefix: Seq<u8>, records: Seq<Seq<u8>>|
                consistent(old(self)@, prefix, records) ==> #[trigger] consistent(
                    final(self)@,
                    prefix,
                    records,
                ) && (r is Ok ==> final(self).current_frame_messages == 0 && (records.len() > 0
                    ==> final(self).closed)),
    {
        match self.flush_frame() {
            Ok(_) => {},
            Err(e) => {
                return Err(e);
            },
        }
        proof {
            assert forall|prefix: Seq<u8>, records: Seq<Seq<u8>>|
                consistent(old(self)@, prefix, records) implies #[trigger] consistent(
                self@,
                prefix,
                records,
            ) by {
                lemma_frame_closed_consistent(old(self)@, prefix, records);
            }
        }
        if self.closed || self.frames.len() == 0 {
            proof {
                assert forall|prefix: Seq<u8>, records: Seq<Seq<u8>>|
                    consistent(old(self)@, prefix, records) implies #[trigger] consistent(
                    self@,
                    prefix,
                    records,
                ) && self.current_frame_messages == 0 && (records.len() > 0 ==> self.closed) by {
                    lemma_flushed_consistent(old(self)@, prefix, records);
                }
            }
            return Ok(());
        }
        let room: u64 = u64::MAX - self.base;
        if room < FOOTER_SIZE as u64 || self.output.len() as u64 > room - FOOTER_SIZE as u64 {
            return Err(Error::InvalidFormat);
        }
        let last_offset: u64 = self.frames[self.frames.len() - 1].header_offset;
        let offset_bytes = u64_to_le_bytes(last_offset);
        let magic = magic_bytes();
        let ghost before = self.output@;
        self.output.extend_from_slice(offset_bytes.as_slice());
        self.output.extend_from_slice(magic.as_slice());
        self.closed = true;
        proof {
            vstd::bytes::lemma_auto_spec_u64_to_from_le_bytes();
            assert(self.output@ =~= before + footer(last_offset));
            assert(self@ =~= old(self)@.flushed()->Ok_0);
            assert forall|prefix: Seq<u8>, records: Seq<Seq<u8>>|
                consistent(old(self)@, prefix, records) implies #[trigger] consistent(
                self@,
                prefix,
                records,
            ) && self.current_frame_messages == 0 && (records.len() > 0 ==> self.closed) by {
                lemma_flushed_consistent(old(self)@, prefix, records);
            }
        }
        Ok(())
    }

    /// Number of messages appended, those of earlier sessions included.
    pub fn len(&self) -> (n: u64)
        ensures
            n == self.message_count,
    {
        self.message_count
    }

    /// The offsets of the headers of the frames that the next frame points
    /// back at.
    fn jump_offsets(&self) -> (offsets: Vec<u64>)
        ensures
            offsets@ == jump_offsets_of(self.frames@),
    {
        let frame_number: u64 = self.frames.len() as u64;
        let targets = compute_jump_indices(frame_number);
        let mut offsets: Vec<u64> = Vec::new();
        let mut i: usize = 0;
        proof {
            let all = jump_indices(self.frames@.len());
            if frame_number > 0 {
                lemma_prefix_sums_shape((frame_number - 1) as nat);
            }
            assert forall|j: int| 0 <= j < targets@.len() implies #[trigger] as_nats(targets@)[j]
                < self.frames@.len() by {
                let sums = crate::jumpheader::prefix_sums((frame_number - 1) as nat);
                assert(all == sums);
                assert(as_nats(targets@)[j] == sums[j]);
                assert(1 <= sums[j] <= frame_number - 1);
            }
        }
        while i < targets.len()
            invariant
                i <= targets@.len(),
                as_nats(targets@) == jump_indices(self.frames@.len()),
                forall|j: int|
                    0 <= j < targets@.len() ==> #[trigger] as_nats(targets@)[j]
                        < self.frames@.len(),
                offsets@.len() == i,
                forall|j: int| 0 <= j < i ==> offsets@[j] == jump_offsets_of(self.frames@)[j],
            decreases targets@.len() - i,
        {
            let idx: u64 = targets[i];
            proof {
                assert(as_nats(targets@)[i as int] == idx);
            }
            if idx < self.frames.len() as u64 {
                offsets.push(self.frames[idx as usize].header_offset);
            }
            i = i + 1;
        }
        assert(offsets@ =~= jump_offsets_of(self.frames@));
        offsets
    }
}

} // verus!
