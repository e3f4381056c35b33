//! A core is an append-only log of byte messages.
//!
//! Every message is stored as one NeoPack `Bytes` record of a NeoDisk log and
//! is known by its number, counted from zero. Messages that were appended or
//! read once are kept in a cache, from which reads are served.

use vstd::prelude::*;
use vstd::slice::slice_subrange;
use std::collections::BTreeMap;
use crate::key::{hex_digit, hex_value};
use crate::neodisk::{
    NeoDiskWriter, FrameInfo, Log, scanned, message_in, read_message, total_messages,
};
use crate::neodisk::laws::{
    consistent, is_record, file_holds, frames_filled, reads_back, lemma_new_consistent,
    lemma_message_is_record, lemma_taken_up_consistent, lemma_flushed_file_holds,
};
use crate::neopack::laws::lemma_round_trip;
use crate::neopack::decoder::Reader;
use crate::neopack::encoder::Encoder;
use crate::neopack::types::{Tag, Error as PackError};
use crate::neopack::wire::{Value, payload_at, LEN_WIDTH};
use vstd::bytes::{spec_u32_to_le_bytes, lemma_auto_spec_u32_to_from_le_bytes};

verus! {

broadcast use vstd::std_specs::btree::group_btree_axioms;

/// Everything that can go wrong with a core.
#[derive(Debug)]
pub enum CoreError {
    /// The message is in the cache already.
    AlreadyCached,
    /// The message is not in the cache and cannot be read into it.
    NotCached,
    /// The core holds as many messages as it can.
    CoreFull,
    /// The message has not been appended yet.
    FutureMessage,
    /// Reading or writing a file failed; the message says how.
    Io(String),
    /// A record is not the `Bytes` value it should be.
    Neopack(PackError),
    /// The log that the core is stored in reported an error.
    Disk(crate::neodisk::Error),
}

/// Where in the cache a message lies.
#[derive(Debug, Clone, Copy)]
pub struct Message {
    pub start: usize,
    pub end: usize,
}

/// The number of a message in a core, counted from zero.
#[derive(Debug, Clone, Copy, PartialEq, Eq, Hash, PartialOrd, Ord)]
pub struct MessageId(pub u64);

/// The number of messages that a core can hold.
pub const FULL: u64 = 0xFFFF;

/// The digits of `n` in lower-case hexadecimal, at least `width` of them.
pub open spec fn hex_number(n: nat, width: nat) -> Seq<u8>
    decreases n, width,
{
    if n < 16 && width <= 1 {
        seq![hex_digit(n as int)]
    } else {
        let fewer = if width > 0 {
            (width - 1) as nat
        } else {
            0
        };
        hex_number(n / 16, fewer).push(hex_digit((n % 16) as int))
    }
}

/// The bytes of `.bin`.
pub open spec fn bin_suffix() -> Seq<u8> {
    seq![46u8, 98u8, 105u8, 110u8]
}

/// The name under which a message is known in a node: its number in at
/// least four hexadecimal digits, and `.bin`.
pub open spec fn file_name(id: u64) -> Seq<u8> {
    hex_number(id as nat, 4) + bin_suffix()
}

/// `String::from_utf8` on bytes that are ASCII: the string of the
/// characters that the bytes stand for.
#[verifier::external_body]
fn ascii_string(bytes: Vec<u8>) -> (s: String)
    requires
        forall|i: int| 0 <= i < bytes@.len() ==> bytes@[i] < 128,
    ensures
        s@.len() == bytes@.len(),
        forall|i: int| 0 <= i < bytes@.len() ==> s@[i] as u8 == bytes@[i],
{
    String::from_utf8(bytes).unwrap_or_default()
}

/// The digits of `n` in lower-case hexadecimal, at least `width` of them.
pub fn hex_digits(n: u64, width: usize) -> (text: Vec<u8>)
    ensures
        text@ == hex_number(n as nat, width as nat),
        text@.len() >= 1,
        forall|i: int| 0 <= i < text@.len() ==> hex_value(#[trigger] text@[i]) is Some,
{
    let mut reversed: Vec<u8> = Vec::new();
    let mut rest: u64 = n;
    let mut left: usize = width;
    while rest >= 16 || left > 1
        invariant
            forall|i: int| 0 <= i < reversed@.len() ==> hex_value(#[trigger] reversed@[i]) is Some,
            hex_number(n as nat, width as nat) == hex_number(rest as nat, left as nat)
                + reversed@.reverse(),
        decreases rest, left,
    {
        let d: u8 = (rest % 16) as u8;
        let ghost before = reversed@;
        reversed.push(if d < 10 {
            48 + d
        } else {
            87 + d
        });
        proof {
            let digit = hex_digit((rest % 16) as int);
            assert(reversed@ == before.push(digit));
            assert(reversed@.reverse() =~= seq![digit] + before.reverse());
            let fewer = if left > 0 {
                (left - 1) as nat
            } else {
                0
            };
            assert(hex_number((rest / 16) as nat, fewer).push(digit) + before.reverse()
                =~= hex_number((rest / 16) as nat, fewer) + reversed@.reverse());
        }
        rest = rest / 16;
        if left > 0 {
            left = left - 1;
        }
    }
    let last: u8 = rest as u8;
    let mut text: Vec<u8> = Vec::new();
    text.push(if last < 10 {
        48 + last
    } else {
        87 + last
    });
    let mut i: usize = reversed.len();
    while i > 0
        invariant
            i <= reversed@.len(),
            text@.len() == 1 + reversed@.len() - i,
            text@[0] == hex_digit(rest as int),
            forall|j: int| 1 <= j < text@.len() ==> text@[j] == reversed@[reversed@.len() - j],
        decreases i,
    {
        i = i - 1;
        text.push(reversed[i]);
    }
    proof {
        assert(text@ =~= seq![hex_digit(rest as int)] + reversed@.reverse());
    }
    text
}

impl MessageId {
    /// Whether a core whose next message has this number is full.
    pub fn is_full(&self) -> (b: bool)
        ensures
            b == (self.0 >= FULL),
    {
        self.0 >= FULL
    }

    /// The name under which the message is known in a node, as bytes.
    pub fn file_name_bytes(&self) -> (name: Vec<u8>)
        ensures
            name@ == file_name(self.0),
            forall|i: int| 0 <= i < name@.len() ==> name@[i] < 128,
    {
        let mut name = hex_digits(self.0, 4);
        proof {
            assert forall|i: int| 0 <= i < name@.len() implies name@[i] < 128 by {
                assert(hex_value(name@[i]) is Some);
            }
        }
        name.push(46);
        name.push(98);
        name.push(105);
        name.push(110);
        assert(name@ =~= file_name(self.0));
        name
    }

    /// The name under which the message is known in a node.
    pub fn to_file_name(&self) -> (name: String)
        ensures
            name@.len() == file_name(self.0).len(),
            forall|i: int| 0 <= i < name@.len() ==> name@[i] as u8 == file_name(self.0)[i],
    {
        ascii_string(self.file_name_bytes())
    }
}

/// An append-only log of messages with a cache of those that were appended
/// or read.
#[derive(Debug)]
pub struct Core {
    /// The log that the messages are written to; none for a core that lives
    /// in memory only.
    pub disk: Option<NeoDiskWriter>,
    /// The bytes of the file that the core was loaded from.
    pub stored: Vec<u8>,
    /// The frames of the file that the core was loaded from.
    pub stored_frames: Vec<FrameInfo>,
    /// Number of messages in the file that the core was loaded from.
    pub begin_flush: MessageId,
    /// The contents of the cached messages, one after the other.
    pub cache: Vec<u8>,
    /// Where in the cache each cached message lies.
    pub messages: BTreeMap<u64, Message>,
    /// Number of messages in the core.
    pub next_id: MessageId,
}

/// The record that a message is stored as.
pub open spec fn record_of(contents: Seq<u8>) -> Seq<u8> {
    Value::Bytes(contents).encoding()
}

/// The records that messages are stored as, in the order of the messages.
pub open spec fn records_of(messages: Seq<Seq<u8>>) -> Seq<Seq<u8>> {
    Seq::new(messages.len(), |k: int| record_of(messages[k]))
}

/// A message that fits a record is read back from its record.
pub proof fn lemma_record_round_trip(contents: Seq<u8>)
    requires
        contents.len() <= u32::MAX,
    ensures
        is_record(record_of(contents)),
        payload_at(record_of(contents), 0, Tag::Bytes) == Ok::<Seq<u8>, PackError>(contents),
{
    let v = Value::Bytes(contents);
    lemma_round_trip(Seq::empty(), v, Seq::empty());
    assert(Seq::<u8>::empty() + v.encoding() + Seq::<u8>::empty() =~= v.encoding());
}

/// A record that holds a `Bytes` value is the record of the bytes.
pub proof fn lemma_record_of_payload(record: Seq<u8>, contents: Seq<u8>)
    requires
        is_record(record),
        payload_at(record, 0, Tag::Bytes) == Ok::<Seq<u8>, PackError>(contents),
    ensures
        record == record_of(contents),
        contents.len() <= u32::MAX,
{
    lemma_auto_spec_u32_to_from_le_bytes();
    let l = record.subrange(1, 1 + LEN_WIDTH as int);
    assert(record =~= seq![Tag::Bytes.byte()] + l + contents);
    assert(record_of(contents) =~= seq![Tag::Bytes.byte()] + spec_u32_to_le_bytes(
        contents.len() as u32,
    ) + contents);
}

impl Core {
    /// Whether a message is in the cache.
    pub open spec fn cached(&self, id: u64) -> bool {
        self.messages@.contains_key(id)
    }

    /// The contents of a cached message.
    pub open spec fn contents(&self, id: u64) -> Seq<u8> {
        self.cache@.subrange(self.messages@[id].start as int, self.messages@[id].end as int)
    }

    /// The message of a number in the file that the core was loaded from,
    /// where the file holds it as a `Bytes` record.
    pub open spec fn stored_message(&self, id: u64) -> Option<Seq<u8>> {
        match message_in(self.stored@, self.stored_frames@, id) {
            Err(_) => None,
            Ok(record) => match payload_at(record, 0, Tag::Bytes) {
                Ok(p) => Some(p),
                Err(_) => None,
            },
        }
    }

    /// The error that reading a message of the file ends in, where the
    /// file does not hold the message as a `Bytes` record: the failure of
    /// the log, or what the record is refused for.
    pub open spec fn unread(&self, id: u64, e: CoreError) -> bool {
        match message_in(self.stored@, self.stored_frames@, id) {
            Err(f) => e matches CoreError::Disk(d) && d@ == f,
            Ok(record) => e matches CoreError::Neopack(p) && payload_at(record, 0, Tag::Bytes)
                == Err::<Seq<u8>, PackError>(p),
        }
    }

    /// The message of a number: what the cache holds of it, or else what
    /// the file holds of it that the core was loaded from.
    pub open spec fn message(&self, id: u64) -> Option<Seq<u8>> {
        if self.cached(id) {
            Some(self.contents(id))
        } else {
            self.stored_message(id)
        }
    }

    /// The messages of the core, in their order.
    pub open spec fn history(&self) -> Seq<Seq<u8>> {
        Seq::new(self.next_id.0 as nat, |k: int| self.message(k as u64)->Some_0)
    }

    /// What the log keeps of the file that the core was loaded from: the
    /// bytes before the offset at which the log took the file up.
    pub open spec fn kept(&self) -> Seq<u8> {
        match self.disk {
            Some(w) => self.stored@.subrange(0, w@.base as int),
            None => Seq::empty(),
        }
    }

    /// The log of the core holds the records of the core's messages, behind
    /// what it keeps of the file that the core was loaded from.
    #[verifier::opaque]
    pub open spec fn on_disk(&self) -> bool {
        self.disk matches Some(w) ==> w@.base <= self.stored@.len() && consistent(
            w@,
            self.kept(),
            records_of(self.history()),
        )
    }

    /// Every message of the core can be read, and the log holds them all.
    pub open spec fn sound(&self) -> bool {
        &&& self.wf()
        &&& forall|k: u64| k < self.next_id.0 ==> #[trigger] self.message(k) is Some
        &&& self.on_disk()
    }

    /// The cache lies within its buffer, every message that was appended
    /// since the core was made or loaded is cached, and the log has counted
    /// the messages as the core has.
    pub open spec fn wf(&self) -> bool {
        &&& self.begin_flush.0 <= self.next_id.0 <= FULL
        &&& forall|k: u64| #[trigger]
            self.messages@.contains_key(k) ==> k < self.next_id.0 && self.messages@[k].start
                <= self.messages@[k].end <= self.cache@.len()
        &&& forall|k: u64|
            self.begin_flush.0 <= k < self.next_id.0 ==> #[trigger] self.messages@.contains_key(k)
        &&& self.disk matches Some(w) ==> w.wf() && w.message_count == self.next_id.0
    }

    /// The messages of `pre` are messages of `post`, under their numbers.
    pub open spec fn keeps(pre: &Core, post: &Core) -> bool {
        &&& pre.next_id.0 <= post.next_id.0
        &&& forall|k: u64| k < pre.next_id.0 ==> #[trigger] post.message(k) == pre.message(k)
    }

    /// What `pre` has, `post` has: both were loaded from the same file,
    /// the messages of `pre` are messages of `post`, what `pre` has cached
    /// is cached in `post`, and the log of `post` holds its messages if the
    /// log of `pre` does.
    pub open spec fn extends(pre: &Core, post: &Core) -> bool {
        &&& post.begin_flush == pre.begin_flush
        &&& post.stored@ == pre.stored@
        &&& post.stored_frames@ == pre.stored_frames@
        &&& post.disk is Some <==> pre.disk is Some
        &&& forall|k: u64| #[trigger]
            pre.cached(k) ==> post.cached(k) && post.contents(k) == pre.contents(k)
        &&& Self::keeps(pre, post)
        &&& pre.on_disk() ==> post.on_disk()
    }

    /// The core is as `load` makes it from the bytes of a file: nothing is
    /// cached, and the log has taken the file up.
    pub open spec fn loaded_from(&self, data: Seq<u8>) -> bool {
        &&& scanned(data) matches Ok(frames) && self.stored_frames@ == frames && (
        self.disk matches Some(w) && w@ == Log::reopened(frames, data.len()))
            && self.next_id.0 == total_messages(frames)
        &&& self.stored@ == data
        &&& self.begin_flush == self.next_id
        &&& forall|k: u64| !self.cached(k)
    }

    /// An empty core that lives in memory only.
    pub fn create_mem() -> (c: Self)
        ensures
            c.sound(),
            c.next_id.0 == 0,
            c.disk is None,
    {
        proof {
            reveal(Core::on_disk);
        }
        Core {
            disk: None,
            stored: Vec::new(),
            stored_frames: Vec::new(),
            begin_flush: MessageId(0),
            cache: Vec::new(),
            messages: BTreeMap::new(),
            next_id: MessageId(0),
        }
    }

    /// An empty core that writes a log for a file.
    pub fn create() -> (c: Self)
        ensures
            c.sound(),
            c.next_id.0 == 0,
            c.disk matches Some(w) && w@ == Log::new(crate::neodisk::DEFAULT_FRAME_SIZE),
    {
        let c = Core {
            disk: Some(NeoDiskWriter::create()),
            stored: Vec::new(),
            stored_frames: Vec::new(),
            begin_flush: MessageId(0),
            cache: Vec::new(),
            messages: BTreeMap::new(),
            next_id: MessageId(0),
        };
        proof {
            reveal(Core::on_disk);
            lemma_new_consistent(crate::neodisk::DEFAULT_FRAME_SIZE);
            assert(c.kept() =~= Seq::<u8>::empty());
            assert(records_of(c.history()) =~= Seq::<Seq<u8>>::empty());
        }
        c
    }

    /// Whether the bytes of a file are a log that a core can be loaded
    /// from.
    pub open spec fn loads(data: Seq<u8>) -> bool {
        scanned(data) matches Ok(frames) && Log::reopened(frames, data.len()).message_count <= FULL
    }

    /// The core that the bytes of a log file hold. A file that is no log,
    /// or that holds more messages than a core can, is refused.
    pub fn load(data: Vec<u8>) -> (r: Result<Self, CoreError>)
        ensures
            r is Ok <==> Self::loads(data@),
            scanned(data@) is Err ==> r matches Err(CoreError::Disk(_)),
            scanned(data@) is Ok && !Self::loads(data@) ==> r matches Err(CoreError::CoreFull),
            r matches Ok(c) ==> c.wf() && c.loaded_from(data@) && c.sound() == (frames_filled(
                c.stored_frames@,
            ) && forall|k: u64| k < c.next_id.0 ==> #[trigger] c.stored_message(k) is Some),
    {
        let _size: usize = data.len();
        let writer = match NeoDiskWriter::open(data.as_slice()) {
            Ok(w) => w,
            Err(e) => {
                return Err(CoreError::Disk(e));
            },
        };
        let count: u64 = writer.len();
        if count > FULL {
            return Err(CoreError::CoreFull);
        }
        let mut stored_frames: Vec<FrameInfo> = Vec::new();
        let mut i: usize = 0;
        while i < writer.frames.len()
            invariant
                i <= writer.frames@.len(),
                stored_frames@ == writer.frames@.subrange(0, i as int),
            decreases writer.frames@.len() - i,
        {
            stored_frames.push(writer.frames[i]);
            assert(stored_frames@ =~= writer.frames@.subrange(0, i + 1));
            i = i + 1;
        }
        assert(stored_frames@ =~= writer.frames@);
        let c = Core {
            disk: Some(writer),
            stored: data,
            stored_frames,
            begin_flush: MessageId(count),
            cache: Vec::new(),
            messages: BTreeMap::new(),
            next_id: MessageId(count),
        };
        proof {
            if frames_filled(c.stored_frames@) && forall|k: u64|
                k < c.next_id.0 ==> #[trigger] c.stored_message(k) is Some {
                lemma_loaded_sound(&c);
            }
            if c.sound() {
                reveal(Core::on_disk);
                assert forall|k: u64| k < c.next_id.0 implies #[trigger] c.stored_message(
                    k,
                ) is Some by {
                    assert(c.message(k) is Some);
                }
            }
        }
        Ok(c)
    }

    /// Number of messages in the core.
    pub fn len(&self) -> (n: MessageId)
        ensures
            n == self.next_id,
    {
        self.next_id
    }

    /// Closes the open frame of the log and writes its footer. A core that
    /// lives in memory has nothing to flush.
    pub fn flush(&mut self) -> (r: Result<(), CoreError>)
        requires
            old(self).wf(),
        ensures
            final(self).wf(),
            Self::extends(old(self), final(self)),
            final(self).next_id == old(self).next_id,
            old(self).disk is None ==> r is Ok,
            old(self).disk matches Some(w) ==> match w@.flushed() {
                Ok(log) => r is Ok && final(self).disk->Some_0@ == log,
                Err(_) => r matches Err(CoreError::Disk(_)),
            },
            old(self).sound() && final(self).next_id.0 > 0 && r is Ok ==> final(self).flushed(),
    {
        let ghost kept = self.kept();
        let ghost records = records_of(self.history());
        let ghost held = self.on_disk();
        proof {
            reveal(Core::on_disk);
        }
        let r = match &mut self.disk {
            None => Ok(()),
            Some(writer) => match writer.flush() {
                Ok(_) => Ok(()),
                Err(e) => Err(CoreError::Disk(e)),
            },
        };
        proof {
            assert(self.history() =~= old(self).history());
            if held && self.disk is Some {
                assert(consistent(self.disk->Some_0@, kept, records));
                assert(self.kept() =~= kept);
            }
        }
        r
    }

    /// The log of the core has closed its frames and written its footer.
    pub open spec fn flushed(&self) -> bool {
        self.disk matches Some(w) ==> w@.closed && w@.current_frame_messages == 0
    }

    /// The bytes that the log file is to hold: what the log keeps of the
    /// file that the core was loaded from, and what it has written since.
    pub open spec fn file(&self) -> Seq<u8> {
        match self.disk {
            Some(w) => file_image(self.stored@, w@),
            None => Seq::empty(),
        }
    }

    /// The bytes that the log file is to hold: what was loaded, up to its
    /// footer, and what the log has written since.
    pub fn image(&self) -> (bytes: Vec<u8>)
        requires
            self.wf(),
        ensures
            bytes@ == self.file(),
    {
        let mut bytes: Vec<u8> = Vec::new();
        match &self.disk {
            None => {},
            Some(writer) => {
                let kept: usize = if writer.base <= self.stored.len() as u64 {
                    writer.base as usize
                } else {
                    self.stored.len()
                };
                bytes.extend_from_slice(slice_subrange(self.stored.as_slice(), 0, kept));
                bytes.extend_from_slice(writer.output.as_slice());
            },
        }
        proof {
            if self.disk is None {
                assert(bytes@ =~= Seq::<u8>::empty());
            }
        }
        bytes
    }

    fn check_future_message(&self, id: MessageId) -> (r: Result<(), CoreError>)
        ensures
            id.0 >= self.next_id.0 ==> r matches Err(CoreError::FutureMessage),
            id.0 < self.next_id.0 ==> r is Ok,
    {
        if id.0 >= self.next_id.0 {
            Err(CoreError::FutureMessage)
        } else {
            Ok(())
        }
    }

    /// The cache lies within its buffer.
    pub open spec fn cache_wf(&self) -> bool {
        forall|k: u64| #[trigger]
            self.messages@.contains_key(k) ==> self.messages@[k].start <= self.messages@[k].end
                <= self.cache@.len()
    }

    /// Writes the contents of a message behind the cache and notes where.
    fn insert_cached(&mut self, id: MessageId, contents: &[u8])
        requires
            old(self).cache_wf(),
            !old(self).cached(id.0),
        ensures
            final(self).cache_wf(),
            final(self).begin_flush == old(self).begin_flush,
            final(self).stored == old(self).stored,
            final(self).stored_frames == old(self).stored_frames,
            final(self).next_id == old(self).next_id,
            final(self).disk == old(self).disk,
            final(self).messages@.dom() == old(self).messages@.dom().insert(id.0),
            final(self).cached(id.0),
            final(self).contents(id.0) == contents@,
            forall|k: u64| #[trigger]
                old(self).cached(k) ==> final(self).cached(k) && final(self).contents(k) == old(self).contents(k),
            forall|k: u64| k != id.0 ==> #[trigger] final(self).message(k) == old(self).message(k),
    {
        let start: usize = self.cache.len();
        self.cache.extend_from_slice(contents);
        let end: usize = self.cache.len();
        self.messages.insert(id.0, Message { start, end });
        proof {
            assert(self.cache@.subrange(start as int, end as int) =~= contents@);
            assert forall|k: u64| #[trigger] old(self).cached(k) implies self.cached(k)
                && self.contents(k) == old(self).contents(k) by {
                assert(k != id.0);
                assert(self.contents(k) =~= old(self).contents(k));
            }
            assert(self.messages@.dom() =~= old(self).messages@.dom().insert(id.0));
            assert forall|k: u64| k != id.0 implies #[trigger] self.message(k) == old(self).message(k) by {
                if old(self).cached(k) {
                    assert(self.contents(k) == old(self).contents(k));
                }
            }
        }
    }

    /// Puts the contents of a message into the cache.
    fn cache_message(&mut self, id: MessageId, contents: &[u8]) -> (r: Result<(), CoreError>)
        requires
            old(self).wf(),
            id.0 < old(self).next_id.0 && !old(self).cached(id.0) ==> old(self).stored_message(id.0)
                == Some(contents@),
        ensures
            final(self).wf(),
            Self::extends(old(self), final(self)),
            final(self).next_id == old(self).next_id,
            final(self).disk == old(self).disk,
            id.0 >= old(self).next_id.0 ==> r matches Err(CoreError::FutureMessage),
            id.0 < old(self).next_id.0 && old(self).cached(id.0) ==> r matches Err(
                CoreError::AlreadyCached,
            ),
            id.0 < old(self).next_id.0 && !old(self).cached(id.0) ==> r is Ok && final(self).cached(
                id.0,
            ) && final(self).contents(id.0) == contents@ && forall|k: u64|
                final(self).cached(k) ==> k == id.0 || old(self).cached(k),
    {
        match self.check_future_message(id) {
            Ok(_) => {},
            Err(e) => {
                return Err(e);
            },
        }
        if self.messages.contains_key(&id.0) {
            return Err(CoreError::AlreadyCached);
        }
        self.insert_cached(id, contents);
        proof {
            lemma_same_history(old(self), self);
        }
        Ok(())
    }

    /// Reads a message of the file that the core was loaded from into the
    /// cache, unless it is cached already.
    pub fn load_message(&mut self, id: MessageId) -> (r: Result<(), CoreError>)
        requires
            old(self).wf(),
        ensures
            final(self).wf(),
            Self::extends(old(self), final(self)),
            final(self).next_id == old(self).next_id,
            final(self).disk == old(self).disk,
            id.0 >= old(self).next_id.0 ==> r matches Err(CoreError::FutureMessage),
            id.0 < old(self).next_id.0 ==> match old(self).message(id.0) {
                Some(m) => r is Ok && final(self).cached(id.0) && final(self).contents(id.0) == m,
                None => r matches Err(e) && old(self).unread(id.0, e),
            },
    {
        match self.check_future_message(id) {
            Ok(_) => {},
            Err(e) => {
                return Err(e);
            },
        }
        if self.messages.contains_key(&id.0) {
            proof {
                lemma_same_history(old(self), self);
            }
            return Ok(());
        }
        let record = match read_message(
            self.stored.as_slice(),
            &self.stored_frames,
            crate::neodisk::MessageId(id.0),
        ) {
            Ok(r) => r,
            Err(e) => {
                return Err(CoreError::Disk(e));
            },
        };
        let mut reader = Reader::new(record.as_slice());
        let contents = match reader.bytes() {
            Ok(b) => b,
            Err(e) => {
                return Err(CoreError::Neopack(e));
            },
        };
        self.cache_message(id, contents)
    }

    /// Appends a message and returns its number. Where the log fails to
    /// close a frame, the message has been appended all the same and the
    /// failure is returned in place of the number. A message that is not
    /// refused is appended with success unless the log fails: the append
    /// fails if and only if it leaves the log with a full frame that
    /// cannot be closed.
    pub fn add_message(&mut self, contents: &[u8]) -> (r: Result<MessageId, CoreError>)
        requires
            old(self).wf(),
        ensures
            final(self).wf(),
            Self::extends(old(self), final(self)),
            old(self).sound() ==> final(self).sound(),
            old(self).refuses(contents@) ==> final(self).next_id == old(self).next_id && final(self).disk == old(self).disk && if old(self).next_id.0 >= FULL {
                r matches Err(CoreError::CoreFull)
            } else {
                r matches Err(CoreError::Neopack(PackError::BlobTooLarge(_)))
            },
            !old(self).refuses(contents@) ==> {
                &&& final(self).next_id.0 == old(self).next_id.0 + 1
                &&& final(self).cached(old(self).next_id.0)
                &&& final(self).contents(old(self).next_id.0) == contents@
                &&& final(self).history() == old(self).history().push(contents@)
                &&& forall|k: u64|
                    final(self).cached(k) ==> k == old(self).next_id.0 || old(self).cached(k)
                &&& (r matches Ok(id) ==> id == old(self).next_id)
                &&& (r matches Err(e) ==> e is Disk)
                &&& (r is Err <==> final(self).failed())
                &&& match old(self).disk {
                    None => r is Ok,
                    Some(w) => match w@.appended(record_of(contents@)) {
                        Ok(log) => r is Ok && final(self).disk->Some_0@ == log,
                        Err(_) => r is Err && final(self).disk->Some_0@ == w@.with_message(
                            record_of(contents@),
                        ),
                    },
                }
            },
    {
        if self.next_id.is_full() {
            proof {
                lemma_same_history(old(self), self);
            }
            return Err(CoreError::CoreFull);
        }
        let id = self.next_id;
        let mut failure: Option<CoreError> = None;
        let ghost kept = self.kept();
        let ghost records = records_of(self.history());
        let ghost held = self.on_disk();
        proof {
            reveal(Core::on_disk);
        }
        match &mut self.disk {
            None => {},
            Some(writer) => {
                let mut encoder = Encoder::new();
                match encoder.bytes(contents) {
                    Ok(_) => {},
                    Err(e) => {
                        proof {
                            lemma_same_history(old(self), self);
                        }
                        return Err(CoreError::Neopack(e));
                    },
                }
                proof {
                    assert(encoder.buf@ =~= record_of(contents@));
                    lemma_record_round_trip(contents@);
                }
                match writer.append(encoder.as_bytes()) {
                    Ok(_) => {},
                    Err(e) => {
                        failure = Some(CoreError::Disk(e));
                    },
                }
            },
        }
        let ghost mid = *self;
        proof {
            assert(mid.cache@ == old(self).cache@);
            assert(mid.messages@ == old(self).messages@);
        }
        self.insert_cached(id, contents);
        let ghost after = *self;
        self.next_id = MessageId(id.0 + 1);
        proof {
            assert forall|k: u64| #[trigger] old(self).cached(k) implies self.cached(k)
                && self.contents(k) == old(self).contents(k) by {
                assert(mid.cached(k));
                assert(after.cached(k) && after.contents(k) == mid.contents(k));
                assert(mid.contents(k) == old(self).contents(k));
                assert(self.contents(k) == after.contents(k));
            }
            assert forall|k: u64| k < old(self).next_id.0 implies #[trigger] self.message(k) == old(self).message(k) by {
                assert(after.message(k) == mid.message(k));
                assert(mid.message(k) == old(self).message(k));
                assert(self.message(k) == after.message(k));
            }
            assert(self.message(id.0) == Some(contents@));
            assert(self.history() =~= old(self).history().push(contents@));
            assert(records_of(self.history()) =~= records.push(record_of(contents@)));
            if held && self.disk is Some {
                assert(consistent(self.disk->Some_0@, kept, records.push(record_of(contents@))));
                assert(self.kept() =~= kept);
            }
        }
        match failure {
            Some(e) => Err(e),
            None => Ok(id),
        }
    }

    /// Whether the log of the core has failed: its open frame is full and
    /// cannot be closed. A core in memory has no log to fail.
    pub open spec fn failed(&self) -> bool {
        self.disk matches Some(w) && w@.stuck()
    }

    /// Whether the core refuses a message: it is full, or it writes a log
    /// and the message is longer than a record can be.
    pub open spec fn refuses(&self, contents: Seq<u8>) -> bool {
        self.next_id.0 >= FULL || (self.disk is Some && contents.len() > u32::MAX)
    }

    /// The contents of a message. A message that is not cached is read from
    /// the file that the core was loaded from, and cached.
    pub fn get_contents(&mut self, id: MessageId) -> (r: Result<&[u8], CoreError>)
        requires
            old(self).wf(),
        ensures
            final(self).wf(),
            Self::extends(old(self), final(self)),
            final(self).next_id == old(self).next_id,
            final(self).disk == old(self).disk,
            id.0 >= old(self).next_id.0 ==> r matches Err(CoreError::FutureMessage),
            id.0 < old(self).next_id.0 ==> match old(self).message(id.0) {
                Some(m) => r matches Ok(b) && b@ == m && final(self).cached(id.0) && final(self).contents(id.0) == m,
                None => r matches Err(e) && old(self).unread(id.0, e),
            },
    {
        match self.load_message(id) {
            Ok(_) => {},
            Err(e) => {
                return Err(e);
            },
        }
        match self.messages.get(&id.0) {
            Some(message) => Ok(
                slice_subrange(self.cache.as_slice(), message.start, message.end),
            ),
            None => Err(CoreError::NotCached),
        }
    }
}

/// A core that has the messages of another under the same numbers, and as
/// many, has the same history.
pub proof fn lemma_same_history(a: &Core, b: &Core)
    requires
        a.next_id == b.next_id,
        forall|k: u64| k < a.next_id.0 ==> #[trigger] b.message(k) == a.message(k),
    ensures
        b.history() == a.history(),
        a.disk == b.disk && a.stored@ == b.stored@ && a.on_disk() ==> b.on_disk(),
{
    reveal(Core::on_disk);
    assert(b.history() =~= a.history());
}

/// A core that was loaded from a file all of whose frames hold a message
/// and all of whose messages can be read is sound: its log holds the
/// messages.
pub proof fn lemma_loaded_sound(c: &Core)
    requires
        c.wf(),
        c.loaded_from(c.stored@),
        c.stored@.len() <= u64::MAX,
        frames_filled(c.stored_frames@),
        forall|k: u64| k < c.next_id.0 ==> #[trigger] c.stored_message(k) is Some,
    ensures
        c.sound(),
{
    reveal(Core::on_disk);
    let data = c.stored@;
    let frames = c.stored_frames@;
    let records = records_of(c.history());
    assert forall|id: u64| id < records.len() implies #[trigger] reads_back(
        data,
        frames,
        records,
        id,
    ) by {
        assert(c.stored_message(id) is Some);
        let record = message_in(data, frames, id)->Ok_0;
        lemma_message_is_record(data, frames, id);
        lemma_record_of_payload(record, c.stored_message(id)->Some_0);
        assert(c.message(id) == c.stored_message(id));
    }
    assert forall|k: u64| k < c.next_id.0 implies #[trigger] c.message(k) is Some by {
        assert(c.stored_message(k) is Some);
    }
    assert(file_holds(data, records));
    lemma_taken_up_consistent(data, records);
}

/// A core that is written to its file and loaded from it again has the
/// messages that it had: the file can be loaded, and the core that is
/// loaded from it is sound and has every message under its number.
pub proof fn lemma_reloaded(a: &Core, b: &Core)
    requires
        a.sound(),
        a.disk is Some,
        a.flushed(),
        b.wf(),
        b.loaded_from(a.file()),
    ensures
        Core::loads(a.file()),
        b.next_id == a.next_id,
        Core::keeps(a, b),
        b.history() == a.history(),
        b.sound(),
{
    reveal(Core::on_disk);
    let w = a.disk->Some_0@;
    let records = records_of(a.history());
    let file = a.file();
    assert(file == a.kept() + w.output);
    lemma_flushed_file_holds(w, a.kept(), records);
    crate::neodisk::laws::lemma_file_reads_back(w, a.kept(), records);
    assert forall|k: u64| k < a.next_id.0 implies #[trigger] b.message(k) == a.message(k) by {
        assert(reads_back(file, w.frames, records, k));
        assert(a.message(k) is Some);
        let m = a.message(k)->Some_0;
        lemma_message_is_record(file, w.frames, k);
        lemma_record_fits(m);
        lemma_record_round_trip(m);
    }
    lemma_same_history(a, b);
    assert forall|k: u64| k < b.next_id.0 implies #[trigger] b.stored_message(k) is Some by {
        assert(b.message(k) == a.message(k));
        assert(a.message(k) is Some);
    }
    lemma_loaded_sound(b);
}

/// Only a message that fits a record has a record that is one whole value.
pub proof fn lemma_record_fits(contents: Seq<u8>)
    requires
        is_record(record_of(contents)),
    ensures
        contents.len() <= u32::MAX,
{
    lemma_auto_spec_u32_to_from_le_bytes();
    let record = record_of(contents);
    let l = spec_u32_to_le_bytes(contents.len() as u32);
    assert(record =~= seq![Tag::Bytes.byte()] + l + contents);
    assert(record.subrange(1, 1 + LEN_WIDTH as int) =~= l);
}

/// The bytes of a log file: what was loaded, up to the offset at which the
/// log took it up, and what the log has written since.
pub open spec fn file_image(stored: Seq<u8>, log: Log) -> Seq<u8> {
    let kept = if log.base <= stored.len() {
        log.base as int
    } else {
        stored.len() as int
    };
    stored.subrange(0, kept) + log.output
}

} // verus!
