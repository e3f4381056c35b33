//! Laws of the log: what a writer has written, a reader finds, in the
//! order in which it was appended, also where the log was closed, taken up
//! again and appended to.

use vstd::prelude::*;
use crate::jumpheader::{Header, lemma_header_round_trip};
use crate::neodisk::{
    FrameInfo, Failure, Log, FOOTER_SIZE, COMPRESSION_LEVEL, count_values, nth_value, header_at,
    frame_at, frames_from, scanned, has_footer, magic, footer, body_of, message_in, frame_holding,
    holds, zstd_compressed, zstd_decompressed, total_messages,
};
use crate::neopack::laws::{
    lemma_value_len_shift, lemma_value_len_extend, lemma_value_len_restrict, lemma_round_trip,
};
use crate::neopack::types::Error as PackError;
use crate::neopack::wire::{Value, value_len};

verus! {

/// Whether bytes are one whole value.
pub open spec fn is_record(r: Seq<u8>) -> bool {
    value_len(r, 0) == Ok::<int, PackError>(r.len() as int)
}

/// One more record behind whole values is one more value.
pub proof fn lemma_count_extend(s: Seq<u8>, r: Seq<u8>, pos: int)
    requires
        0 <= pos <= s.len(),
        count_values(s, pos) is Ok,
        is_record(r),
    ensures
        count_values(s + r, pos) == Ok::<nat, PackError>(count_values(s, pos)->Ok_0 + 1),
    decreases s.len() - pos,
{
    let t = s + r;
    if pos == s.len() {
        lemma_value_len_shift(s, r, 0);
        lemma_value_len_extend(r, Seq::empty(), 0);
        assert(count_values(t, t.len() as int) == Ok::<nat, PackError>(0));
    } else {
        let n = value_len(s, pos)->Ok_0;
        lemma_value_len_extend(s, r, pos);
        lemma_count_extend(s, r, pos + n);
    }
}

/// The values that were there are found where they were, and the record
/// that was added is found behind them.
pub proof fn lemma_nth_extend(s: Seq<u8>, r: Seq<u8>, pos: int, k: nat)
    requires
        0 <= pos <= s.len(),
        count_values(s, pos) is Ok,
        is_record(r),
    ensures
        k < count_values(s, pos)->Ok_0 ==> nth_value(s, pos, k) is Ok && nth_value(s + r, pos, k)
            == nth_value(s, pos, k),
        k == count_values(s, pos)->Ok_0 ==> nth_value(s + r, pos, k) == Ok::<Seq<u8>, PackError>(r),
    decreases s.len() - pos,
{
    let t = s + r;
    if pos == s.len() {
        lemma_value_len_shift(s, r, 0);
        lemma_value_len_extend(r, Seq::empty(), 0);
        assert(t.subrange(pos, pos + r.len()) =~= r);
    } else {
        let n = value_len(s, pos)->Ok_0;
        lemma_value_len_extend(s, r, pos);
        assert(t.subrange(pos, pos + n) =~= s.subrange(pos, pos + n));
        if k > 0 {
            lemma_nth_extend(s, r, pos + n, (k - 1) as nat);
        }
    }
}

/// What stands behind a header does not matter to it.
pub proof fn lemma_header_at_extend(x: Seq<u8>, rest: Seq<u8>, pos: int)
    requires
        0 <= pos,
        header_at(x, pos) is Ok,
    ensures
        header_at(x + rest, pos) == header_at(x, pos),
        header_at(x, pos)->Ok_0.1 >= 1,
        pos + header_at(x, pos)->Ok_0.1 <= x.len(),
{
    lemma_value_len_extend(x, rest, pos);
    let hlen = value_len(x, pos)->Ok_0;
    assert((x + rest).subrange(pos, pos + hlen) =~= x.subrange(pos, pos + hlen));
}

/// What stands behind a frame does not matter to it, nor does a limit that
/// lies further back.
pub proof fn lemma_frame_at_extend(
    x: Seq<u8>,
    rest: Seq<u8>,
    pos: int,
    limit: int,
    further: int,
    first_id: u64,
)
    requires
        0 <= pos,
        limit <= x.len(),
        limit <= further,
        frame_at(x, pos, limit, first_id) is Ok,
    ensures
        frame_at(x + rest, pos, further, first_id) == frame_at(x, pos, limit, first_id),
        pos < frame_at(x, pos, limit, first_id)->Ok_0.2 <= limit,
        frame_at(x, pos, limit, first_id)->Ok_0.0.first_message_id == first_id,
        first_id + frame_at(x, pos, limit, first_id)->Ok_0.0.message_count <= u64::MAX,
        pos <= u64::MAX ==> frame_at(x, pos, limit, first_id)->Ok_0.0.header_offset == pos,
{
    reveal(frame_at);
    lemma_header_at_extend(x, rest, pos);
    let (h, hlen) = header_at(x, pos)->Ok_0;
    let end = pos + hlen + h.compressed_size;
    assert((x + rest).subrange(pos + hlen, end) =~= x.subrange(pos + hlen, end));
    let body = zstd_decompressed(x.subrange(pos + hlen, end))->Some_0;
    let count = count_values(body, 0)->Ok_0;
    lemma_count_fits(body, 0);
}

/// Values are no more than bytes.
pub proof fn lemma_count_fits(s: Seq<u8>, pos: int)
    requires
        0 <= pos,
        count_values(s, pos) is Ok,
    ensures
        pos <= s.len() ==> count_values(s, pos)->Ok_0 <= s.len() - pos,
        pos > s.len() ==> count_values(s, pos)->Ok_0 == 0,
    decreases s.len() - pos,
{
    if pos < s.len() {
        let n = value_len(s, pos)->Ok_0;
        lemma_count_fits(s, pos + n);
    }
}

/// The number of the message behind the last of some frames.
pub open spec fn next_message(frames: Seq<FrameInfo>, first_id: u64) -> int {
    if frames.len() == 0 {
        first_id as int
    } else {
        frames.last().first_message_id + frames.last().message_count
    }
}

/// What stands behind the frames up to a limit does not matter to them, and
/// the frames behind the limit follow them where the limit is moved back.
pub proof fn lemma_frames_from_extend(
    x: Seq<u8>,
    rest: Seq<u8>,
    pos: int,
    limit: int,
    further: int,
    first_id: u64,
)
    requires
        0 <= pos <= limit,
        limit <= x.len(),
        limit <= further,
        frames_from(x, pos, limit, first_id) is Ok,
        next_message(frames_from(x, pos, limit, first_id)->Ok_0, first_id) <= u64::MAX ==> frames_from(
            x + rest,
            limit,
            further,
            next_message(frames_from(x, pos, limit, first_id)->Ok_0, first_id) as u64,
        ) is Ok,
    ensures
        next_message(frames_from(x, pos, limit, first_id)->Ok_0, first_id) <= u64::MAX,
        frames_from(x + rest, pos, further, first_id) == Ok::<Seq<FrameInfo>, Failure>(
            frames_from(x, pos, limit, first_id)->Ok_0 + frames_from(
                x + rest,
                limit,
                further,
                next_message(frames_from(x, pos, limit, first_id)->Ok_0, first_id) as u64,
            )->Ok_0,
        ),
        forall|k: int|
            0 <= k < frames_from(x, pos, limit, first_id)->Ok_0.len() ==> first_id <= (
            #[trigger] frames_from(x, pos, limit, first_id)->Ok_0[k]).first_message_id
                && frames_from(x, pos, limit, first_id)->Ok_0[k].first_message_id + frames_from(
                x,
                pos,
                limit,
                first_id,
            )->Ok_0[k].message_count <= next_message(
                frames_from(x, pos, limit, first_id)->Ok_0,
                first_id,
            ),
    decreases limit - pos,
{
    let fs = frames_from(x, pos, limit, first_id)->Ok_0;
    if pos >= limit {
        assert(fs =~= Seq::<FrameInfo>::empty());
        let behind = frames_from(x + rest, limit, further, first_id)->Ok_0;
        assert(fs + behind =~= behind);
    } else {
        lemma_frame_at_extend(x, rest, pos, limit, further, first_id);
        let (info, _, end) = frame_at(x, pos, limit, first_id)->Ok_0;
        let id2 = (first_id + info.message_count) as u64;
        let tail = frames_from(x, end, limit, id2)->Ok_0;
        assert(fs == seq![info] + tail);
        assert(next_message(fs, first_id) == next_message(tail, id2)) by {
            if tail.len() > 0 {
                assert(fs.last() == tail.last());
            } else {
                assert(fs.last() == info);
            }
        }
        lemma_frames_from_extend(x, rest, end, limit, further, id2);
        let behind = frames_from(x + rest, limit, further, next_message(fs, first_id) as u64)->Ok_0;
        assert(seq![info] + (tail + behind) =~= fs + behind);
        assert forall|k: int| 0 <= k < fs.len() implies first_id <= (#[trigger] fs[k]).first_message_id
            && fs[k].first_message_id + fs[k].message_count <= next_message(fs, first_id) by {
            if k > 0 {
                assert(fs[k] == tail[k - 1]);
            } else {
                if tail.len() > 0 {
                    assert(id2 <= tail[0].first_message_id);
                    assert(tail[tail.len() - 1].first_message_id + tail[tail.len()
                        - 1].message_count <= next_message(tail, id2));
                }
            }
        }
    }
}

/// What stands behind a frame does not matter to its body.
pub proof fn lemma_body_of_extend(x: Seq<u8>, rest: Seq<u8>, frame: FrameInfo)
    requires
        body_of(x, frame) is Ok,
    ensures
        body_of(x + rest, frame) == body_of(x, frame),
{
    let pos = frame.header_offset as int;
    lemma_header_at_extend(x, rest, pos);
    let hlen = header_at(x, pos)->Ok_0.1;
    let end = pos + hlen + frame.compressed_size;
    assert((x + rest).subrange(pos + hlen, end) =~= x.subrange(pos + hlen, end));
}

/// A frame that is added behind the others does not hide a message that
/// one of the others holds, and holds the messages itself that none of the
/// others holds.
pub proof fn lemma_holding_push(frames: Seq<FrameInfo>, info: FrameInfo, id: u64, from: int)
    requires
        0 <= from <= frames.len(),
    ensures
        frame_holding(frames, id, from) is Some ==> frame_holding(frames.push(info), id, from)
            == frame_holding(frames, id, from),
        frame_holding(frames, id, from) is None && holds(info, id) ==> frame_holding(
            frames.push(info),
            id,
            from,
        ) == Some(frames.len() as int),
        frame_holding(frames, id, from) matches Some(i) ==> from <= i < frames.len() && holds(
            frames[i],
            id,
        ),
        frame_holding(frames, id, from) is None ==> forall|k: int|
            from <= k < frames.len() ==> !holds(#[trigger] frames[k], id),
    decreases frames.len() - from,
{
    let more = frames.push(info);
    if from < frames.len() {
        assert(more[from] == frames[from]);
        if !holds(frames[from], id) {
            lemma_holding_push(frames, info, id, from + 1);
            assert forall|k: int| from <= k < frames.len() && frame_holding(frames, id, from)
                is None implies !holds(#[trigger] frames[k], id) by {
                if k > from {
                }
            }
        }
    } else {
        assert(more[from] == info);
        assert(frame_holding(more, id, from + 1) is None);
    }
}

/// The image of a log: what stands in the file before the log took it up,
/// and the frames that the log has written since.
pub open spec fn image_of(log: Log, prefix: Seq<u8>) -> Seq<u8> {
    prefix + log.frames_output()
}

/// A message that stands in a closed frame is read from the image as the
/// record that was appended.
pub open spec fn reads_back(image: Seq<u8>, frames: Seq<FrameInfo>, records: Seq<Seq<u8>>, id: u64) -> bool {
    message_in(image, frames, id) == Ok::<Seq<u8>, Failure>(records[id as int])
}

/// A message that stands in the open frame is found there as the record
/// that was appended.
pub open spec fn buffered(log: Log, records: Seq<Seq<u8>>, j: nat) -> bool {
    nth_value(log.buffer, 0, j) == Ok::<Seq<u8>, PackError>(
        records[log.current_frame_start_message + j],
    )
}

/// Every frame holds at least one message.
pub open spec fn frames_filled(frames: Seq<FrameInfo>) -> bool {
    forall|i: int| 0 <= i < frames.len() ==> (#[trigger] frames[i]).message_count >= 1
}

/// The output of the log ends in the footer of its last frame: the offset
/// of that frame's header, and the magic bytes.
pub open spec fn ends_in_footer(log: Log) -> bool {
    &&& log.frames.len() > 0
    &&& log.output.len() >= FOOTER_SIZE
    &&& log.output.subrange(log.output.len() - FOOTER_SIZE, log.output.len() as int) == footer(
        log.frames.last().header_offset,
    )
}

/// A log holds the records that were appended to it, in their order: the
/// closed frames are the frames that a scan of the image finds, each of
/// them holds at least one message, every message in them is read back as
/// its record, and the open frame holds the records that came since the
/// last frame was closed. A closed log ends in the footer of its last
/// frame.
pub open spec fn consistent(log: Log, prefix: Seq<u8>, records: Seq<Seq<u8>>) -> bool {
    let image = image_of(log, prefix);
    &&& log.wf()
    &&& prefix.len() == log.base
    &&& records.len() == log.message_count
    &&& frames_from(image, 0, image.len() as int, 0) == Ok::<Seq<FrameInfo>, Failure>(log.frames)
    &&& next_message(log.frames, 0) == log.current_frame_start_message
    &&& forall|id: u64|
        id < log.current_frame_start_message ==> #[trigger] reads_back(
            image,
            log.frames,
            records,
            id,
        )
    &&& count_values(log.buffer, 0) == Ok::<nat, PackError>(log.current_frame_messages as nat)
    &&& forall|j: nat| j < log.current_frame_messages ==> #[trigger] buffered(log, records, j)
    &&& frames_filled(log.frames)
    &&& log.closed ==> has_footer(log.output) && ends_in_footer(log)
}

/// Compression loses nothing of the open frame: what the frame compresses
/// to decompresses to the frame.
pub open spec fn compresses_back(log: Log) -> bool {
    log.buffer.len() > 0 ==> (zstd_compressed(log.buffer, COMPRESSION_LEVEL as int) matches Some(
        c,
    ) ==> zstd_decompressed(c) == Some(log.buffer))
}

/// A new log holds no records.
pub proof fn lemma_new_consistent(frame_size: usize)
    ensures
        consistent(Log::new(frame_size), Seq::empty(), Seq::empty()),
{
    let log = Log::new(frame_size);
    assert(image_of(log, Seq::empty()) =~= Seq::<u8>::empty());
}

/// A record that is appended joins the open frame.
pub proof fn lemma_with_message_consistent(
    log: Log,
    prefix: Seq<u8>,
    records: Seq<Seq<u8>>,
    record: Seq<u8>,
)
    requires
        consistent(log, prefix, records),
        is_record(record),
        log.message_count < u64::MAX,
    ensures
        consistent(log.with_message(record), prefix, records.push(record)),
{
    let next = log.with_message(record);
    let more = records.push(record);
    let image = image_of(log, prefix);
    assert(image_of(next, prefix) == image);
    lemma_count_extend(log.buffer, record, 0);
    assert forall|id: u64| id < next.current_frame_start_message implies #[trigger] reads_back(
        image,
        next.frames,
        more,
        id,
    ) by {
        assert(reads_back(image, log.frames, records, id));
        assert(more[id as int] == records[id as int]);
    }
    assert forall|j: nat| j < next.current_frame_messages implies #[trigger] buffered(
        next,
        more,
        j,
    ) by {
        lemma_nth_extend(log.buffer, record, 0, j);
        if j < log.current_frame_messages {
            assert(buffered(log, records, j));
            assert(more[log.current_frame_start_message + j] == records[log.current_frame_start_message
                + j]);
        }
    }
}

/// The frame that closing the open frame writes is found where it was
/// written.
pub proof fn lemma_new_frame(log: Log, prefix: Seq<u8>, compressed: Seq<u8>)
    requires
        log.wf(),
        prefix.len() == log.base,
        count_values(log.buffer, 0) == Ok::<nat, PackError>(log.current_frame_messages as nat),
        zstd_decompressed(compressed) == Some(log.buffer),
        log.next_header(compressed).body().len() <= u32::MAX,
        log.position() + log.next_header(compressed).encoding().len() + compressed.len()
            <= u64::MAX,
    ensures
        ({
            let image = image_of(log, prefix);
            let h = log.next_header(compressed);
            let data = image + h.encoding() + compressed;
            &&& header_at(data, image.len() as int) == Ok::<(Header, int), PackError>(
                (h, h.encoding().len() as int),
            )
            &&& frame_at(
                data,
                image.len() as int,
                data.len() as int,
                log.current_frame_start_message,
            ) == Ok::<(FrameInfo, Seq<u8>, int), Failure>(
                (log.next_info(compressed), log.buffer, data.len() as int),
            )
            &&& body_of(data, log.next_info(compressed)) == Ok::<Seq<u8>, Failure>(log.buffer)
        }),
{
    reveal(frame_at);
    let image = image_of(log, prefix);
    let h = log.next_header(compressed);
    let enc = h.encoding();
    let data = image + enc + compressed;
    let pos = image.len() as int;
    lemma_round_trip(image, Value::List(h.body()), compressed);
    lemma_header_round_trip(h, Seq::empty());
    assert(enc + Seq::<u8>::empty() =~= enc);
    assert(data.subrange(pos, pos + enc.len()) =~= enc);
    assert(data.subrange(pos + enc.len(), data.len() as int) =~= compressed);
    assert(pos == log.position());
}

/// A log that closes its open frame holds the records that it held.
pub proof fn lemma_frame_closed_consistent(log: Log, prefix: Seq<u8>, records: Seq<Seq<u8>>)
    requires
        consistent(log, prefix, records),
        compresses_back(log),
        log.frame_closed() is Ok,
    ensures
        consistent(log.frame_closed()->Ok_0, prefix, records),
{
    if log.buffer.len() > 0 {
        let next = log.frame_closed()->Ok_0;
        let compressed = zstd_compressed(log.buffer, COMPRESSION_LEVEL as int)->Some_0;
        let h = log.next_header(compressed);
        let info = log.next_info(compressed);
        let image = image_of(log, prefix);
        let added = h.encoding() + compressed;
        let grown = image_of(next, prefix);
        let start = log.current_frame_start_message;
        assert(grown =~= image + added);
        assert(grown =~= image + h.encoding() + compressed);
        lemma_new_frame(log, prefix, compressed);
        let limit = image.len() as int;
        let further = grown.len() as int;
        assert(frames_from(grown, limit, further, start) == Ok::<Seq<FrameInfo>, Failure>(
            seq![info],
        )) by {
            crate::neopack::laws::lemma_payload_width(Value::List(h.body()));
            assert(limit < further);
            assert(frames_from(grown, further, further, (start + info.message_count) as u64)
                == Ok::<Seq<FrameInfo>, Failure>(Seq::empty()));
            assert(seq![info] + Seq::<FrameInfo>::empty() =~= seq![info]);
        }
        lemma_frames_from_extend(image, added, 0, limit, further, 0);
        assert(log.frames + seq![info] =~= log.frames.push(info));
        assert forall|id: u64| id < next.current_frame_start_message implies #[trigger] reads_back(
            grown,
            next.frames,
            records,
            id,
        ) by {
            lemma_holding_push(log.frames, info, id, 0);
            if id < start {
                assert(reads_back(image, log.frames, records, id));
                let i = frame_holding(log.frames, id, 0)->Some_0;
                assert(next.frames[i] == log.frames[i]);
                lemma_body_of_extend(image, added, log.frames[i]);
            } else {
                assert forall|k: int| 0 <= k < log.frames.len() implies !holds(
                    #[trigger] log.frames[k],
                    id,
                ) by {
                    assert(log.frames[k].first_message_id + log.frames[k].message_count <= start);
                }
                assert(holds(info, id));
                assert(next.frames[log.frames.len() as int] == info);
                assert(buffered(log, records, (id - start) as nat));
            }
        }
        assert(next.frames.last() == info);
        assert(info.message_count >= 1);
        assert forall|i: int| 0 <= i < next.frames.len() implies (#[trigger] next.frames[i]).message_count
            >= 1 by {
            if i < log.frames.len() {
                assert(next.frames[i] == log.frames[i]);
            }
        }
    }
}

/// A log that appends a record holds the records that it held, and the
/// record.
pub proof fn lemma_appended_consistent(
    log: Log,
    prefix: Seq<u8>,
    records: Seq<Seq<u8>>,
    record: Seq<u8>,
)
    requires
        consistent(log, prefix, records),
        is_record(record),
        log.message_count < u64::MAX,
        log.with_message(record).buffer.len() >= log.frame_size ==> compresses_back(
            log.with_message(record),
        ),
    ensures
        consistent(
            match log.appended(record) {
                Ok(next) => next,
                Err(_) => log.with_message(record),
            },
            prefix,
            records.push(record),
        ),
{
    lemma_with_message_consistent(log, prefix, records, record);
    let next = log.with_message(record);
    if next.buffer.len() >= log.frame_size && next.frame_closed() is Ok {
        lemma_frame_closed_consistent(next, prefix, records.push(record));
    }
}

/// A log that is flushed holds the records that it held, none of them in
/// an open frame, and ends in a footer if it holds any.
pub proof fn lemma_flushed_consistent(log: Log, prefix: Seq<u8>, records: Seq<Seq<u8>>)
    requires
        consistent(log, prefix, records),
        compresses_back(log),
        log.flushed() is Ok,
    ensures
        consistent(log.flushed()->Ok_0, prefix, records),
        log.flushed()->Ok_0.current_frame_messages == 0,
        records.len() > 0 ==> log.flushed()->Ok_0.closed,
{
    lemma_frame_closed_consistent(log, prefix, records);
    let closed = log.frame_closed()->Ok_0;
    let next = log.flushed()->Ok_0;
    assert(count_values(closed.buffer, 0) == Ok::<nat, PackError>(0)) by {
        if log.buffer.len() == 0 {
            assert(count_values(log.buffer, 0) == Ok::<nat, PackError>(0));
        }
    }
    if !(closed.closed || closed.frames.len() == 0) {
        let foot = footer(closed.frames.last().header_offset);
        vstd::bytes::lemma_auto_spec_u64_to_from_le_bytes();
        assert(foot.len() == FOOTER_SIZE);
        assert(next.output.subrange(0, next.output.len() - FOOTER_SIZE) =~= closed.output);
        assert(image_of(next, prefix) =~= image_of(closed, prefix));
        assert(next.output.subrange(next.output.len() - 8, next.output.len() as int) =~= magic());
        assert(next.output.subrange(next.output.len() - FOOTER_SIZE, next.output.len() as int)
            =~= foot);
        assert forall|id: u64| id < next.current_frame_start_message implies #[trigger] reads_back(
            image_of(next, prefix),
            next.frames,
            records,
            id,
        ) by {
            assert(reads_back(image_of(closed, prefix), closed.frames, records, id));
        }
        assert forall|j: nat| j < next.current_frame_messages implies #[trigger] buffered(
            next,
            records,
            j,
        ) by {
            assert(buffered(closed, records, j));
        }
    }
    if records.len() > 0 && closed.frames.len() == 0 {
        assert(next_message(closed.frames, 0) == 0);
    }
}

/// Round trip of the log: the file of a flushed log is read back as the
/// records that were appended, in the order in which they were appended. A
/// scan finds the frames that the writer closed, each of which holds at
/// least one message, and every message is read as its record. The file
/// ends in the footer of its last frame.
pub proof fn lemma_file_reads_back(log: Log, prefix: Seq<u8>, records: Seq<Seq<u8>>)
    requires
        consistent(log, prefix, records),
        log.closed,
        log.current_frame_messages == 0,
    ensures
        scanned(prefix + log.output) == Ok::<Seq<FrameInfo>, Failure>(log.frames),
        frames_filled(log.frames),
        log.frames.len() > 0,
        (prefix + log.output).subrange(
            (prefix + log.output).len() - FOOTER_SIZE,
            (prefix + log.output).len() as int,
        ) == footer(log.frames.last().header_offset),
        total_messages(log.frames) == records.len(),
        forall|id: u64|
            id < records.len() ==> #[trigger] message_in(prefix + log.output, log.frames, id) == Ok::<
                Seq<u8>,
                Failure,
            >(records[id as int]),
{
    let image = image_of(log, prefix);
    let file = prefix + log.output;
    let foot = log.output.subrange(log.output.len() - FOOTER_SIZE, log.output.len() as int);
    assert(file =~= image + foot);
    assert(file.subrange(file.len() - FOOTER_SIZE, file.len() as int) =~= foot);
    assert(file.subrange(file.len() - 8, file.len() as int) =~= log.output.subrange(
        log.output.len() - 8,
        log.output.len() as int,
    ));
    let limit = image.len() as int;
    assert(frames_from(file, limit, limit, next_message(log.frames, 0) as u64) == Ok::<
        Seq<FrameInfo>,
        Failure,
    >(Seq::empty()));
    lemma_frames_from_extend(image, foot, 0, limit, limit, 0);
    assert(log.frames + Seq::<FrameInfo>::empty() =~= log.frames);
    assert forall|id: u64| id < records.len() implies #[trigger] message_in(
        file,
        log.frames,
        id,
    ) == Ok::<Seq<u8>, Failure>(records[id as int]) by {
        assert(reads_back(image, log.frames, records, id));
        lemma_holding_push(log.frames, log.frames[0], id, 0);
        let i = frame_holding(log.frames, id, 0)->Some_0;
        lemma_body_of_extend(image, foot, log.frames[i]);
    }
}

/// A log that is taken up from its file holds the records that the log
/// held which wrote the file.
pub proof fn lemma_reopened_consistent(log: Log, prefix: Seq<u8>, records: Seq<Seq<u8>>)
    requires
        consistent(log, prefix, records),
        log.closed,
        log.current_frame_messages == 0,
    ensures
        consistent(
            Log::reopened(log.frames, (prefix + log.output).len()),
            (prefix + log.output).subrange(0, (prefix + log.output).len() - FOOTER_SIZE),
            records,
        ),
{
    let image = image_of(log, prefix);
    let file = prefix + log.output;
    let again = Log::reopened(log.frames, file.len());
    let kept = file.subrange(0, file.len() - FOOTER_SIZE);
    assert(kept =~= image);
    assert(image_of(again, kept) =~= image);
    assert(count_values(again.buffer, 0) == Ok::<nat, PackError>(0));
    assert forall|id: u64| id < again.current_frame_start_message implies #[trigger] reads_back(
        image_of(again, kept),
        again.frames,
        records,
        id,
    ) by {
        assert(reads_back(image, log.frames, records, id));
    }
}

/// A frame that ends within the first bytes is found in them alone.
pub proof fn lemma_frame_at_restrict(
    x: Seq<u8>,
    rest: Seq<u8>,
    pos: int,
    limit: int,
    first_id: u64,
)
    requires
        0 <= pos,
        limit <= x.len(),
        frame_at(x + rest, pos, limit, first_id) is Ok,
    ensures
        frame_at(x, pos, limit, first_id) == frame_at(x + rest, pos, limit, first_id),
{
    reveal(frame_at);
    let t = x + rest;
    let hlen = value_len(t, pos)->Ok_0;
    lemma_value_len_restrict(x, rest, pos);
    assert(t.subrange(pos, pos + hlen) =~= x.subrange(pos, pos + hlen));
    let h = header_at(t, pos)->Ok_0.0;
    let end = pos + hlen + h.compressed_size;
    assert(t.subrange(pos + hlen, end) =~= x.subrange(pos + hlen, end));
}

/// Frames that end within the first bytes are found in them alone.
pub proof fn lemma_frames_from_restrict(
    x: Seq<u8>,
    rest: Seq<u8>,
    pos: int,
    limit: int,
    first_id: u64,
)
    requires
        0 <= pos <= limit,
        limit <= x.len(),
        frames_from(x + rest, pos, limit, first_id) is Ok,
    ensures
        frames_from(x, pos, limit, first_id) == frames_from(x + rest, pos, limit, first_id),
    decreases limit - pos,
{
    if pos < limit {
        lemma_frame_at_restrict(x, rest, pos, limit, first_id);
        let (info, _, end) = frame_at(x, pos, limit, first_id)->Ok_0;
        lemma_frames_from_restrict(x, rest, end, limit, (first_id + info.message_count) as u64);
    }
}

/// The frames that a scan finds lie before the limit of the scan, and
/// hold their messages in turn.
pub proof fn lemma_frames_within(data: Seq<u8>, pos: int, limit: int, first_id: u64)
    requires
        0 <= pos <= limit,
        limit <= u64::MAX,
        frames_from(data, pos, limit, first_id) is Ok,
    ensures
        forall|k: int|
            0 <= k < frames_from(data, pos, limit, first_id)->Ok_0.len() ==> within(
                data,
                #[trigger] frames_from(data, pos, limit, first_id)->Ok_0[k],
                limit,
            ),
    decreases limit - pos,
{
    reveal(frame_at);
    let fs = frames_from(data, pos, limit, first_id)->Ok_0;
    if pos < limit {
        let (info, _, end) = frame_at(data, pos, limit, first_id)->Ok_0;
        let tail = frames_from(data, end, limit, (first_id + info.message_count) as u64)->Ok_0;
        lemma_frames_within(data, end, limit, (first_id + info.message_count) as u64);
        assert forall|k: int| 0 <= k < fs.len() implies within(data, #[trigger] fs[k], limit) by {
            if k > 0 {
                assert(fs[k] == tail[k - 1]);
            }
        }
    }
}

/// A frame lies within the first `limit` bytes: its header is found and its
/// body ends before the limit.
pub open spec fn within(data: Seq<u8>, frame: FrameInfo, limit: int) -> bool {
    header_at(data, frame.header_offset as int) matches Ok((_, hlen)) && frame.header_offset + hlen
        + frame.compressed_size <= limit
}

/// The body of a frame that lies within the first bytes is found in them
/// alone.
pub proof fn lemma_body_of_restrict(x: Seq<u8>, rest: Seq<u8>, frame: FrameInfo)
    requires
        within(x + rest, frame, x.len() as int),
    ensures
        body_of(x, frame) == body_of(x + rest, frame),
{
    let t = x + rest;
    let pos = frame.header_offset as int;
    let hlen = value_len(t, pos)->Ok_0;
    lemma_value_len_restrict(x, rest, pos);
    assert(t.subrange(pos, pos + hlen) =~= x.subrange(pos, pos + hlen));
    let end = pos + hlen + frame.compressed_size;
    assert(t.subrange(pos + hlen, end) =~= x.subrange(pos + hlen, end));
}

/// What is found as the value that stands `k` values behind a position is
/// one whole value.
pub proof fn lemma_nth_is_record(s: Seq<u8>, pos: int, k: nat)
    requires
        0 <= pos,
        nth_value(s, pos, k) is Ok,
    ensures
        is_record(nth_value(s, pos, k)->Ok_0),
    decreases k,
{
    let n = value_len(s, pos)->Ok_0;
    lemma_value_len_extend(s, Seq::empty(), pos);
    if k == 0 {
        let r = s.subrange(pos, pos + n);
        let pre = s.subrange(0, pos);
        let rest = s.subrange(pos + n, s.len() as int);
        assert(s =~= pre + (r + rest));
        lemma_value_len_shift(pre, r + rest, 0);
        lemma_value_len_restrict(r, rest, 0);
    } else {
        lemma_nth_is_record(s, pos + n, (k - 1) as nat);
    }
}

/// What is read as a message of a file is one whole value.
pub proof fn lemma_message_is_record(data: Seq<u8>, frames: Seq<FrameInfo>, id: u64)
    requires
        message_in(data, frames, id) is Ok,
    ensures
        is_record(message_in(data, frames, id)->Ok_0),
{
    let i = frame_holding(frames, id, 0)->Some_0;
    let body = body_of(data, frames[i])->Ok_0;
    lemma_nth_is_record(body, 0, (id - frames[i].first_message_id) as nat);
}

/// A file holds records: a scan finds its frames, each of which holds at
/// least one message, and every message is read as its record.
pub open spec fn file_holds(data: Seq<u8>, records: Seq<Seq<u8>>) -> bool {
    &&& scanned(data) is Ok
    &&& frames_filled(scanned(data)->Ok_0)
    &&& data.len() <= u64::MAX
    &&& total_messages(scanned(data)->Ok_0) == records.len()
    &&& forall|id: u64|
        id < records.len() ==> #[trigger] reads_back(data, scanned(data)->Ok_0, records, id)
}

/// A log that is taken up from a file holds the records that the file
/// holds.
pub proof fn lemma_taken_up_consistent(data: Seq<u8>, records: Seq<Seq<u8>>)
    requires
        file_holds(data, records),
        records.len() <= u64::MAX,
    ensures
        consistent(
            Log::reopened(scanned(data)->Ok_0, data.len()),
            data.subrange(0, data.len() - FOOTER_SIZE),
            records,
        ),
{
    let frames = scanned(data)->Ok_0;
    let limit = data.len() - FOOTER_SIZE;
    let kept = data.subrange(0, limit);
    let foot = data.subrange(limit, data.len() as int);
    let log = Log::reopened(frames, data.len());
    assert(data =~= kept + foot);
    assert(image_of(log, kept) =~= kept);
    lemma_frames_from_restrict(kept, foot, 0, limit, 0);
    lemma_frames_within(data, 0, limit, 0);
    assert(frames_from(kept, limit, limit, next_message(frames, 0) as u64) is Ok);
    lemma_frames_from_extend(kept, Seq::empty(), 0, limit, limit, 0);
    assert(count_values(log.buffer, 0) == Ok::<nat, PackError>(0));
    assert forall|id: u64| id < log.current_frame_start_message implies #[trigger] reads_back(
        kept,
        frames,
        records,
        id,
    ) by {
        assert(reads_back(data, frames, records, id));
        lemma_holding_push(frames, frames[0], id, 0);
        let i = frame_holding(frames, id, 0)->Some_0;
        assert(within(data, frames[i], limit));
        lemma_body_of_restrict(kept, foot, frames[i]);
    }
}

/// The file of a flushed log holds the records that were appended.
pub proof fn lemma_flushed_file_holds(log: Log, prefix: Seq<u8>, records: Seq<Seq<u8>>)
    requires
        consistent(log, prefix, records),
        log.closed,
        log.current_frame_messages == 0,
    ensures
        file_holds(prefix + log.output, records),
{
    lemma_file_reads_back(log, prefix, records);
    let file = prefix + log.output;
    assert forall|id: u64| id < records.len() implies #[trigger] reads_back(
        file,
        scanned(file)->Ok_0,
        records,
        id,
    ) by {
        assert(message_in(file, log.frames, id) == Ok::<Seq<u8>, Failure>(records[id as int]));
    }
}

} // verus!
