//! IsoCore: an append-only log whose every state is signed.
//!
//! An IsoCore keeps three cores. The data core holds the messages. The
//! verkle core holds the nodes of a tree over the messages, one for every
//! covering index, so that a node is found at the index that the covering
//! arithmetic gives it. The signature core holds, for every message, the
//! signature of the hash that stood for the whole log once the message had
//! been appended: the hash of the hashes of the peaks of the tree.

use vstd::prelude::*;
use vstd::slice::slice_subrange;
use vstd::utf8::valid_utf8;
use crate::covering::{
    CoveringId, ItemId, children_for_covering, coverings_for_item, get_peaks, covering_of,
    children_of, peaks_of, ids, valid_width,
};
use crate::key::{
    KeyPair, KeyPub, Signature, hash, bytes_equal, blake3_digest, hex_encoding,
    hex_decoding, is_hex, hex_value, hex_digit, ed25519_accepts, lemma_hex_round_trip,
};
use crate::message_core::{Core, CoreError, MessageId, file_name, hex_number, bin_suffix, FULL};
use crate::neopack::decoder::str_from_utf8;

verus! {

/// The width of the tree over the messages.
pub const WIDTH: u64 = 8;

/// Everything that can go wrong with an IsoCore.
#[derive(Debug)]
pub enum IsoCoreError {
    /// One of the three cores reported an error.
    Core(CoreError),
    /// A node is not UTF-8 text.
    Utf8,
    /// A line of a node has not three fields, or a node that should be a
    /// leaf is none.
    NodeFormat,
    /// The kind of a child is neither `leaf` nor `branch`.
    NodeType,
    /// The hash of a child is not 64 hexadecimal digits.
    HexEncoding,
    /// The index of a child is no hexadecimal number that fits 64 bits.
    MessageIdParse,
    /// A message does not have the hash that its leaf holds.
    IntegrityError,
    /// The signer is not the one that the log belongs to.
    SignerMismatch,
    /// Reading or writing a file failed; the message says how.
    Io(String),
}

/// Whether a child is a message or a node.
#[derive(Debug, Clone, Copy, PartialEq, Eq, Structural)]
pub enum NodeType {
    Leaf,
    Branch,
}

/// What a node holds of a child: its kind, its hash, and where it is found.
#[derive(Debug, Clone, Copy)]
pub struct NodeChild {
    pub node_type: NodeType,
    pub hash: crate::key::Hash,
    pub index: MessageId,
}

/// A node of the tree: a leaf with the one message it stands for, or a
/// branch with its children from left to right.
#[derive(Debug, Clone)]
pub struct VerkleNode {
    pub children: Vec<NodeChild>,
}

/// The hash that stood for the whole log after an append, and its
/// signature.
#[derive(Debug, Clone, Copy)]
pub struct SignatureBlock {
    pub global_root: crate::key::Hash,
    pub signature: Signature,
}

/// A child as a mathematical value.
pub struct Child {
    pub node_type: NodeType,
    pub hash: Seq<u8>,
    pub index: u64,
}

impl View for NodeChild {
    type V = Child;

    open spec fn view(&self) -> Child {
        Child { node_type: self.node_type, hash: self.hash.0@, index: self.index.0 }
    }
}

impl View for VerkleNode {
    type V = Seq<Child>;

    open spec fn view(&self) -> Seq<Child> {
        Seq::new(self.children@.len(), |i: int| self.children@[i]@)
    }
}

/// Why a node could not be read.
pub enum Defect {
    Utf8,
    NodeFormat,
    NodeType,
    HexEncoding,
    MessageIdParse,
}

impl IsoCoreError {
    /// The error comes from a core or from a node that could not be read.
    pub open spec fn of_store(self) -> bool {
        self is Core || self is Utf8 || self is NodeFormat || self is NodeType
            || self is HexEncoding || self is MessageIdParse
    }

    /// The error that stands for a defect of a node.
    pub open spec fn is_defect(self, d: Defect) -> bool {
        match d {
            Defect::Utf8 => self is Utf8,
            Defect::NodeFormat => self is NodeFormat,
            Defect::NodeType => self is NodeType,
            Defect::HexEncoding => self is HexEncoding,
            Defect::MessageIdParse => self is MessageIdParse,
        }
    }
}

/// The line feed.
pub const LF: u8 = 10;

/// The space.
pub const SP: u8 = 32;

/// The bytes of `leaf`.
pub open spec fn leaf_text() -> Seq<u8> {
    seq![108u8, 101u8, 97u8, 102u8]
}

/// The bytes of `branch`.
pub open spec fn branch_text() -> Seq<u8> {
    seq![98u8, 114u8, 97u8, 110u8, 99u8, 104u8]
}

/// The word that stands for a kind.
pub open spec fn kind_text(kind: NodeType) -> Seq<u8> {
    match kind {
        NodeType::Leaf => leaf_text(),
        NodeType::Branch => branch_text(),
    }
}

/// The hashes of the children, one after the other.
pub open spec fn joined_hashes(children: Seq<Child>) -> Seq<u8>
    decreases children.len(),
{
    if children.len() == 0 {
        Seq::empty()
    } else {
        joined_hashes(children.drop_last()) + children.last().hash
    }
}

/// The hash of a node: the hash of the hashes of its children.
pub open spec fn node_hash(children: Seq<Child>) -> Seq<u8> {
    blake3_digest(joined_hashes(children))
}

/// The line that stands for a child, without its line feed.
pub open spec fn child_line(c: Child) -> Seq<u8> {
    kind_text(c.node_type) + seq![SP] + hex_encoding(c.hash) + seq![SP] + file_name(c.index)
}

/// The lines of the children, each with its line feed.
pub open spec fn children_text(children: Seq<Child>) -> Seq<u8>
    decreases children.len(),
{
    if children.len() == 0 {
        Seq::empty()
    } else {
        children_text(children.drop_last()) + child_line(children.last()) + seq![LF]
    }
}

/// A node as text: the hash of the node on the first line, then a line for
/// every child.
pub open spec fn node_text(children: Seq<Child>) -> Seq<u8> {
    hex_encoding(node_hash(children)) + seq![LF] + children_text(children)
}

/// A signature block as bytes: the hash in hexadecimal, a line feed, the
/// signature as it is.
pub open spec fn signature_text(root: Seq<u8>, signature: Seq<u8>) -> Seq<u8> {
    hex_encoding(root) + seq![LF] + signature
}

/// Appends the line of a child, with its line feed.
fn push_child_line(out: &mut Vec<u8>, child: &NodeChild)
    ensures
        final(out)@ == old(out)@ + child_line(child@) + seq![LF],
{
    let word = match child.node_type {
        NodeType::Leaf => leaf_word(),
        NodeType::Branch => branch_word(),
    };
    out.extend_from_slice(word.as_slice());
    out.push(SP);
    let hash_text = child.hash.to_hex();
    out.extend_from_slice(hash_text.as_slice());
    out.push(SP);
    let name = child.index.file_name_bytes();
    out.extend_from_slice(name.as_slice());
    out.push(LF);
    assert(out@ =~= old(out)@ + child_line(child@) + seq![LF]);
}

/// The signature that a signature block holds behind a hash.
pub open spec fn signature_in(block: Seq<u8>, root: Seq<u8>) -> Seq<u8> {
    block.subrange(2 * root.len() as int + 1, block.len() as int)
}

impl SignatureBlock {
    /// The block as bytes.
    pub fn to_bytes(&self) -> (out: Vec<u8>)
        ensures
            out@ == signature_text(self.global_root.0@, self.signature.0@),
    {
        let mut out: Vec<u8> = self.global_root.to_hex();
        out.push(LF);
        out.extend_from_slice(self.signature.0.as_slice());
        out
    }
}

impl VerkleNode {
    /// The hash of the node: the hash of the hashes of its children.
    pub fn compute_hash(&self) -> (h: crate::key::Hash)
        ensures
            h.0@ == node_hash(self@),
    {
        let mut data: Vec<u8> = Vec::new();
        let mut i: usize = 0;
        proof {
            assert(self@.take(0) =~= Seq::<Child>::empty());
        }
        while i < self.children.len()
            invariant
                i <= self.children@.len(),
                data@ == joined_hashes(self@.take(i as int)),
            decreases self.children@.len() - i,
        {
            data.extend_from_slice(self.children[i].hash.0.as_slice());
            proof {
                let next = self@.take(i + 1);
                assert(next.drop_last() =~= self@.take(i as int));
                assert(next.last() == self.children@[i as int]@);
            }
            i = i + 1;
        }
        proof {
            assert(self@.take(self@.len() as int) =~= self@);
        }
        hash(data.as_slice())
    }

    /// The node as text.
    pub fn to_bytes(&self) -> (out: Vec<u8>)
        ensures
            out@ == node_text(self@),
            out@.len() == 65 + children_text(self@).len(),
    {
        let root_hash = self.compute_hash();
        let mut out: Vec<u8> = root_hash.to_hex();
        out.push(LF);
        let ghost head = out@;
        let mut i: usize = 0;
        proof {
            assert(self@.take(0) =~= Seq::<Child>::empty());
            assert(out@ =~= head + children_text(self@.take(0)));
        }
        while i < self.children.len()
            invariant
                i <= self.children@.len(),
                head == hex_encoding(node_hash(self@)) + seq![LF],
                out@ == head + children_text(self@.take(i as int)),
            decreases self.children@.len() - i,
        {
            let child = &self.children[i];
            let ghost before = out@;
            push_child_line(&mut out, child);
            proof {
                let next = self@.take(i + 1);
                assert(next.drop_last() =~= self@.take(i as int));
                assert(next.last() == child@);
                assert(out@ =~= before + child_line(child@) + seq![LF]);
                assert(out@ =~= head + children_text(next));
            }
            i = i + 1;
        }
        proof {
            assert(self@.take(self@.len() as int) =~= self@);
        }
        out
    }
}

/// The index of the first `b` in `s` at or behind `from`, or the length of
/// `s` where there is none.
pub open spec fn find(s: Seq<u8>, b: u8, from: int) -> int
    decreases s.len() - from,
{
    if from >= s.len() {
        s.len() as int
    } else if s[from] == b {
        from
    } else {
        find(s, b, from + 1)
    }
}

/// A name without `.bin` at its end.
pub open spec fn strip_bin(name: Seq<u8>) -> Seq<u8> {
    if name.len() >= 4 && name.subrange(name.len() - 4, name.len() as int) == bin_suffix() {
        name.subrange(0, name.len() - 4)
    } else {
        name
    }
}

/// The number that hexadecimal digits stand for; nothing for no digits and
/// for what is no digit.
pub open spec fn hex_number_value(digits: Seq<u8>) -> Option<nat>
    decreases digits.len(),
{
    if digits.len() == 0 {
        None
    } else {
        match hex_value(digits.last()) {
            None => None,
            Some(d) => if digits.len() == 1 {
                Some(d as nat)
            } else {
                match hex_number_value(digits.drop_last()) {
                    Some(v) => Some(16 * v + d as nat),
                    None => None,
                }
            },
        }
    }
}

/// The child that a line stands for. A line is three fields with one space
/// between them: the kind, the hash in 64 hexadecimal digits, and the index
/// in hexadecimal, which may be followed by `.bin`.
#[verifier::opaque]
pub open spec fn parsed_line(line: Seq<u8>) -> Result<Child, Defect> {
    let a = find(line, SP, 0);
    let b = find(line, SP, a + 1);
    let c = find(line, SP, b + 1);
    if a >= line.len() || b >= line.len() || c < line.len() {
        Err(Defect::NodeFormat)
    } else {
        let kind = line.subrange(0, a);
        let hash_text = line.subrange(a + 1, b);
        let name = line.subrange(b + 1, line.len() as int);
        if kind != leaf_text() && kind != branch_text() {
            Err(Defect::NodeType)
        } else if !(hash_text.len() == 64 && is_hex(hash_text)) {
            Err(Defect::HexEncoding)
        } else {
            match hex_number_value(strip_bin(name)) {
                Some(v) => if v <= u64::MAX {
                    Ok(
                        Child {
                            node_type: if kind == leaf_text() {
                                NodeType::Leaf
                            } else {
                                NodeType::Branch
                            },
                            hash: hex_decoding(hash_text),
                            index: v as u64,
                        },
                    )
                } else {
                    Err(Defect::MessageIdParse)
                },
                None => Err(Defect::MessageIdParse),
            }
        }
    }
}

/// Whether a line holds nothing but spaces.
pub open spec fn is_blank(line: Seq<u8>) -> bool {
    forall|i: int| 0 <= i < line.len() ==> line[i] == SP
}

/// Where the line behind a line that ends at `end` starts.
pub open spec fn next_line(text: Seq<u8>, end: int) -> int {
    if end < text.len() {
        end + 1
    } else {
        text.len() as int
    }
}

/// The children that the lines from `pos` on stand for. Blank lines stand
/// for nothing.
pub open spec fn lines_from(text: Seq<u8>, pos: int) -> Result<Seq<Child>, Defect>
    decreases text.len() - pos,
{
    if pos < 0 || pos >= text.len() {
        Ok(Seq::empty())
    } else {
        let end = find(text, LF, pos);
        if end < pos || end > text.len() {
            Ok(Seq::empty())
        } else {
            let line = text.subrange(pos, end);
            if is_blank(line) {
                lines_from(text, next_line(text, end))
            } else {
                match parsed_line(line) {
                    Err(d) => Err(d),
                    Ok(c) => match lines_from(text, next_line(text, end)) {
                        Ok(rest) => Ok(seq![c] + rest),
                        Err(d) => Err(d),
                    },
                }
            }
        }
    }
}

/// The children of the node that a text stands for. The first line is not
/// looked at: the hash of a node is computed from its children.
pub open spec fn parsed_node(text: Seq<u8>) -> Result<Seq<Child>, Defect> {
    if !valid_utf8(text) {
        Err(Defect::Utf8)
    } else {
        lines_from(text, next_line(text, find(text, LF, 0)))
    }
}

/// The index of the first `b` at or behind `from`, or the length.
fn find_byte(s: &[u8], b: u8, from: usize) -> (at: usize)
    requires
        from <= s@.len(),
    ensures
        at == find(s@, b, from as int),
        from <= at <= s@.len(),
        at < s@.len() ==> s@[at as int] == b,
        forall|i: int| from <= i < at ==> s@[i] != b,
{
    let mut i: usize = from;
    while i < s.len()
        invariant
            from <= i <= s@.len(),
            find(s@, b, from as int) == find(s@, b, i as int),
            forall|j: int| from <= j < i ==> s@[j] != b,
        decreases s@.len() - i,
    {
        if s[i] == b {
            return i;
        }
        i = i + 1;
    }
    i
}

/// The number that hexadecimal digits stand for, where it fits 64 bits.
fn parse_hex_number(digits: &[u8]) -> (r: Option<u64>)
    ensures
        match hex_number_value(digits@) {
            Some(v) => if v <= u64::MAX {
                r == Some(v as u64)
            } else {
                r is None
            },
            None => r is None,
        },
{
    if digits.len() == 0 {
        return None;
    }
    let mut value: u64 = 0;
    let mut i: usize = 0;
    while i < digits.len()
        invariant
            i <= digits@.len(),
            digits@.len() > 0,
            i > 0 ==> hex_number_value(digits@.take(i as int)) == Some(value as nat),
            i == 0 ==> value == 0,
        decreases digits@.len() - i,
    {
        let d = match crate::key::value_of(digits[i]) {
            Some(d) => d,
            None => {
                proof {
                    lemma_bad_digit(digits@, i as int);
                }
                return None;
            },
        };
        proof {
            let next = digits@.take(i + 1);
            assert(next.drop_last() =~= digits@.take(i as int));
            assert(next.last() == digits@[i as int]);
        }
        if value > (u64::MAX - d as u64) / 16 {
            proof {
                lemma_number_grows(digits@, i + 1);
            }
            return None;
        }
        value = 16 * value + d as u64;
        i = i + 1;
    }
    proof {
        assert(digits@.take(digits@.len() as int) =~= digits@);
    }
    Some(value)
}

/// Digits with something among them that is no digit stand for no number.
proof fn lemma_bad_digit(digits: Seq<u8>, i: int)
    requires
        0 <= i < digits.len(),
        hex_value(digits[i]) is None,
    ensures
        hex_number_value(digits) is None,
    decreases digits.len(),
{
    if i < digits.len() - 1 {
        lemma_bad_digit(digits.drop_last(), i);
    }
}

/// The number that digits stand for is at least the number that fewer of
/// them stand for.
proof fn lemma_number_grows(digits: Seq<u8>, k: int)
    requires
        1 <= k <= digits.len(),
    ensures
        hex_number_value(digits) matches Some(v) ==> hex_number_value(digits.take(k)) matches Some(
            p,
        ) && p <= v,
    decreases digits.len(),
{
    if k == digits.len() {
        assert(digits.take(k) =~= digits);
    } else if hex_number_value(digits) is Some {
        lemma_number_grows(digits.drop_last(), k);
        assert(digits.drop_last().take(k) =~= digits.take(k));
    }
}

/// Reads the line of a child.
pub fn parse_child_line(line: &[u8]) -> (r: Result<NodeChild, IsoCoreError>)
    ensures
        match parsed_line(line@) {
            Ok(c) => r matches Ok(x) && x@ == c,
            Err(d) => r matches Err(e) && e.is_defect(d),
        },
{
    reveal(parsed_line);
    let len: usize = line.len();
    let a = find_byte(line, SP, 0);
    if a >= len {
        return Err(IsoCoreError::NodeFormat);
    }
    let b = find_byte(line, SP, a + 1);
    if b >= len {
        return Err(IsoCoreError::NodeFormat);
    }
    let c = find_byte(line, SP, b + 1);
    if c < len {
        return Err(IsoCoreError::NodeFormat);
    }
    let kind = slice_subrange(line, 0, a);
    let hash_text = slice_subrange(line, a + 1, b);
    let name = slice_subrange(line, b + 1, len);
    let leaf = leaf_word();
    let branch = branch_word();
    let node_type = if bytes_equal(kind, leaf.as_slice()) {
        NodeType::Leaf
    } else if bytes_equal(kind, branch.as_slice()) {
        NodeType::Branch
    } else {
        return Err(IsoCoreError::NodeType);
    };
    let hash = match crate::key::Hash::from_hex(hash_text) {
        Some(h) => h,
        None => {
            return Err(IsoCoreError::HexEncoding);
        },
    };
    let suffix = bin_word();
    let digits = if name.len() >= 4 && bytes_equal(
        slice_subrange(name, name.len() - 4, name.len()),
        suffix.as_slice(),
    ) {
        slice_subrange(name, 0, name.len() - 4)
    } else {
        name
    };
    let index = match parse_hex_number(digits) {
        Some(v) => v,
        None => {
            return Err(IsoCoreError::MessageIdParse);
        },
    };
    Ok(NodeChild { node_type, hash, index: MessageId(index) })
}

/// The bytes of `leaf`.
fn leaf_word() -> (w: Vec<u8>)
    ensures
        w@ == leaf_text(),
{
    let mut w: Vec<u8> = Vec::new();
    w.push(108);
    w.push(101);
    w.push(97);
    w.push(102);
    assert(w@ =~= leaf_text());
    w
}

/// The bytes of `branch`.
fn branch_word() -> (w: Vec<u8>)
    ensures
        w@ == branch_text(),
{
    let mut w: Vec<u8> = Vec::new();
    w.push(98);
    w.push(114);
    w.push(97);
    w.push(110);
    w.push(99);
    w.push(104);
    assert(w@ =~= branch_text());
    w
}

/// The bytes of `.bin`.
fn bin_word() -> (w: Vec<u8>)
    ensures
        w@ == bin_suffix(),
{
    let mut w: Vec<u8> = Vec::new();
    w.push(46);
    w.push(98);
    w.push(105);
    w.push(110);
    assert(w@ =~= bin_suffix());
    w
}

/// Whether a line holds nothing but spaces.
fn blank(line: &[u8]) -> (b: bool)
    ensures
        b == is_blank(line@),
{
    let mut i: usize = 0;
    while i < line.len()
        invariant
            i <= line@.len(),
            forall|j: int| 0 <= j < i ==> line@[j] == SP,
        decreases line@.len() - i,
    {
        if line[i] != SP {
            return false;
        }
        i = i + 1;
    }
    true
}

/// Reads the lines of the children from `pos` on.
fn parse_lines(text: &[u8], pos: usize) -> (r: Result<Vec<NodeChild>, IsoCoreError>)
    requires
        pos <= text@.len(),
    ensures
        match lines_from(text@, pos as int) {
            Ok(cs) => r matches Ok(v) && v@.len() == cs.len() && forall|i: int|
                0 <= i < cs.len() ==> v@[i]@ == cs[i],
            Err(d) => r matches Err(e) && e.is_defect(d),
        },
{
    let mut children: Vec<NodeChild> = Vec::new();
    let mut at: usize = pos;
    let ghost start = pos as int;
    let len: usize = text.len();
    proof {
        let all = lines_from(text@, start);
        if all is Ok {
            assert(views(children@) + all->Ok_0 =~= all->Ok_0);
        }
    }
    while at < len
        invariant
            len == text@.len(),
            start == pos,
            match lines_from(text@, at as int) {
                Ok(rest) => lines_from(text@, start) == Ok::<Seq<Child>, Defect>(
                    views(children@) + rest,
                ),
                Err(d) => lines_from(text@, start) == Err::<Seq<Child>, Defect>(d),
            },
        decreases len - at,
    {
        let end = find_byte(text, LF, at);
        let line = slice_subrange(text, at, end);
        if !blank(line) {
            let child = match parse_child_line(line) {
                Ok(c) => c,
                Err(e) => {
                    return Err(e);
                },
            };
            let ghost before = children@;
            children.push(child);
            proof {
                let rest = lines_from(text@, next_line(text@, end as int));
                assert(views(children@) =~= views(before).push(child@));
                if rest is Ok {
                    assert(views(before) + (seq![child@] + rest->Ok_0) =~= views(children@)
                        + rest->Ok_0);
                }
            }
        }
        at = if end < len {
            end + 1
        } else {
            len
        };
    }
    proof {
        assert(views(children@) + Seq::<Child>::empty() =~= views(children@));
    }
    Ok(children)
}

/// The children as mathematical values.
pub open spec fn views(children: Seq<NodeChild>) -> Seq<Child> {
    Seq::new(children.len(), |i: int| children[i]@)
}

impl VerkleNode {
    /// Reads a node from its text.
    pub fn from_bytes(bytes: &[u8]) -> (r: Result<Self, IsoCoreError>)
        ensures
            match parsed_node(bytes@) {
                Ok(cs) => r matches Ok(node) && node@ == cs,
                Err(d) => r matches Err(e) && e.is_defect(d),
            },
    {
        if str_from_utf8(bytes).is_none() {
            return Err(IsoCoreError::Utf8);
        }
        let first_end = find_byte(bytes, LF, 0);
        let start: usize = if first_end < bytes.len() {
            first_end + 1
        } else {
            first_end
        };
        match parse_lines(bytes, start) {
            Ok(children) => {
                let node = VerkleNode { children };
                proof {
                    assert(node@ =~= parsed_node(bytes@)->Ok_0);
                }
                Ok(node)
            },
            Err(e) => Err(e),
        }
    }
}

/// Whether bytes are ASCII and hold neither a space nor a line feed.
pub open spec fn is_word(s: Seq<u8>) -> bool {
    forall|i: int| 0 <= i < s.len() ==> #[trigger] s[i] < 128 && s[i] != SP && s[i] != LF
}

/// The number that `hex_number` writes is the number that is read back.
pub proof fn lemma_hex_number_round_trip(n: nat, width: nat)
    ensures
        hex_number_value(hex_number(n, width)) == Some(n),
        hex_number(n, width).len() >= 1,
        is_word(hex_number(n, width)),
        forall|i: int|
            0 <= i < hex_number(n, width).len() ==> #[trigger] hex_number(n, width)[i] != 46,
    decreases n, width,
{
    let s = hex_number(n, width);
    if n < 16 && width <= 1 {
        assert(hex_value(hex_digit(n as int)) == Some(n as u8));
    } else {
        let fewer = if width > 0 {
            (width - 1) as nat
        } else {
            0
        };
        let head = hex_number(n / 16, fewer);
        lemma_hex_number_round_trip(n / 16, fewer);
        let d = hex_digit((n % 16) as int);
        assert(hex_value(d) == Some((n % 16) as u8));
        assert(s.drop_last() =~= head);
        assert(s.last() == d);
        assert forall|i: int| 0 <= i < s.len() implies #[trigger] s[i] < 128 && s[i] != SP && s[i]
            != LF && s[i] != 46 by {
            if i < head.len() {
                assert(s[i] == head[i]);
            }
        }
    }
}

/// The first `b` at or behind `from` is where no `b` stands before it.
proof fn lemma_find(s: Seq<u8>, b: u8, from: int, at: int)
    requires
        0 <= from <= at <= s.len(),
        forall|i: int| from <= i < at ==> s[i] != b,
        at < s.len() ==> s[at] == b,
    ensures
        find(s, b, from) == at,
    decreases at - from,
{
    if from < at {
        lemma_find(s, b, from + 1, at);
    }
}

/// Where the fields of the line of a child stand: the spaces are behind the
/// kind and behind the hash and nowhere else, and the line is ASCII without
/// a line feed.
proof fn lemma_line_fields(c: Child)
    requires
        c.hash.len() == 32,
    ensures
        ({
            let line = child_line(c);
            let a = kind_text(c.node_type).len() as int;
            let b = a + 65;
            &&& b < line.len()
            &&& find(line, SP, 0) == a
            &&& find(line, SP, a + 1) == b
            &&& find(line, SP, b + 1) == line.len()
            &&& line.subrange(0, a) == kind_text(c.node_type)
            &&& line.subrange(a + 1, b) == hex_encoding(c.hash)
            &&& line.subrange(b + 1, line.len() as int) == file_name(c.index)
            &&& strip_bin(file_name(c.index)) == hex_number(c.index as nat, 4)
            &&& !is_blank(line)
        }),
        forall|i: int|
            0 <= i < child_line(c).len() ==> #[trigger] child_line(c)[i] < 128 && child_line(c)[i]
                != LF,
{
    let k = kind_text(c.node_type);
    let h = hex_encoding(c.hash);
    let d = hex_number(c.index as nat, 4);
    let n = file_name(c.index);
    let line = child_line(c);
    lemma_hex_round_trip(c.hash);
    lemma_hex_number_round_trip(c.index as nat, 4);
    assert(is_word(k));
    assert(is_word(h)) by {
        assert forall|i: int| 0 <= i < h.len() implies #[trigger] h[i] < 128 && h[i] != SP && h[i]
            != LF by {
            assert(hex_value(h[i]) is Some);
        }
    }
    assert(is_word(n)) by {
        assert forall|i: int| 0 <= i < n.len() implies #[trigger] n[i] < 128 && n[i] != SP && n[i]
            != LF by {
            if i < d.len() {
                assert(n[i] == d[i]);
            } else {
                assert(n[i] == bin_suffix()[i - d.len()]);
            }
        }
    }
    let a = k.len() as int;
    let b = a + 1 + h.len();
    assert(line.len() == b + 1 + n.len());
    assert forall|i: int| 0 <= i < line.len() implies #[trigger] line[i] < 128 && line[i] != LF by {
        if i < a {
            assert(line[i] == k[i]);
        } else if i == a {
        } else if i < b {
            assert(line[i] == h[i - a - 1]);
        } else if i == b {
        } else {
            assert(line[i] == n[i - b - 1]);
        }
    }
    assert(find(line, SP, 0) == a) by {
        assert forall|i: int| 0 <= i < a implies line[i] != SP by {
            assert(line[i] == k[i]);
        }
        lemma_find(line, SP, 0, a);
    }
    assert(find(line, SP, a + 1) == b) by {
        assert forall|i: int| a + 1 <= i < b implies line[i] != SP by {
            assert(line[i] == h[i - a - 1]);
        }
        lemma_find(line, SP, a + 1, b);
    }
    assert(find(line, SP, b + 1) == line.len()) by {
        assert forall|i: int| b + 1 <= i < line.len() implies line[i] != SP by {
            assert(line[i] == n[i - b - 1]);
        }
        lemma_find(line, SP, b + 1, line.len() as int);
    }
    assert(line.subrange(0, a) =~= k);
    assert(line.subrange(a + 1, b) =~= h);
    assert(line.subrange(b + 1, line.len() as int) =~= n);
    assert(n.subrange(n.len() - 4, n.len() as int) =~= bin_suffix());
    assert(n.subrange(0, n.len() - 4) =~= d);
    assert(strip_bin(n) == d);
    assert(line[0] == k[0]);
    assert(line[0] != SP);
}

/// The line of a child is read back as the child.
pub proof fn lemma_line_round_trip(c: Child)
    requires
        c.hash.len() == 32,
    ensures
        parsed_line(child_line(c)) == Ok::<Child, Defect>(c),
        !is_blank(child_line(c)),
        forall|i: int|
            0 <= i < child_line(c).len() ==> #[trigger] child_line(c)[i] < 128 && child_line(c)[i]
                != LF,
{
    lemma_line_fields(c);
    lemma_hex_round_trip(c.hash);
    lemma_hex_number_round_trip(c.index as nat, 4);
    assert(leaf_text() != branch_text()) by {
        assert(leaf_text().len() != branch_text().len());
    }
    reveal(parsed_line);
}

/// The lines of the children start with the line of the first child.
proof fn lemma_children_text_front(children: Seq<Child>)
    requires
        children.len() > 0,
    ensures
        children_text(children) == child_line(children[0]) + seq![LF] + children_text(
            children.drop_first(),
        ),
    decreases children.len(),
{
    if children.len() == 1 {
        assert(children.drop_last() =~= Seq::<Child>::empty());
        assert(children.drop_first() =~= Seq::<Child>::empty());
        assert(children_text(children.drop_last()) =~= Seq::<u8>::empty());
        assert(children_text(children.drop_first()) =~= Seq::<u8>::empty());
        assert(children.last() == children[0]);
        assert(children_text(children) =~= child_line(children[0]) + seq![LF]);
        assert(child_line(children[0]) + seq![LF] + children_text(children.drop_first())
            =~= child_line(children[0]) + seq![LF]);
    } else {
        let init = children.drop_last();
        lemma_children_text_front(init);
        assert(init.drop_first() =~= children.drop_first().drop_last());
        assert(children.drop_first().last() == children.last());
        assert(init[0] == children[0]);
        assert(children_text(children) =~= child_line(children[0]) + seq![LF] + children_text(
            children.drop_first(),
        ));
    }
}

/// Whether every child holds a hash of 32 bytes.
pub open spec fn hashes_whole(children: Seq<Child>) -> bool {
    forall|i: int| 0 <= i < children.len() ==> (#[trigger] children[i]).hash.len() == 32
}

/// The lines of children are read back as the children, and hold nothing
/// but ASCII.
proof fn lemma_lines_round_trip(pre: Seq<u8>, children: Seq<Child>)
    requires
        hashes_whole(children),
    ensures
        lines_from(pre + children_text(children), pre.len() as int) == Ok::<Seq<Child>, Defect>(
            children,
        ),
        forall|i: int|
            0 <= i < children_text(children).len() ==> #[trigger] children_text(children)[i] < 128,
    decreases children.len(),
{
    let text = pre + children_text(children);
    let pos = pre.len() as int;
    if children.len() == 0 {
        assert(text =~= pre);
        assert(children =~= Seq::<Child>::empty());
    } else {
        let c = children[0];
        let tail = children.drop_first();
        let line = child_line(c);
        lemma_children_text_front(children);
        lemma_line_round_trip(c);
        assert(hashes_whole(tail)) by {
            assert forall|i: int| 0 <= i < tail.len() implies (#[trigger] tail[i]).hash.len()
                == 32 by {
                assert(tail[i] == children[i + 1]);
            }
        }
        let next = pre + line + seq![LF];
        lemma_lines_round_trip(next, tail);
        assert(text =~= next + children_text(tail));
        let end = pos + line.len();
        assert(find(text, LF, pos) == end) by {
            assert forall|i: int| pos <= i < end implies text[i] != LF by {
                assert(text[i] == line[i - pos]);
            }
            assert(text[end] == LF);
            lemma_find(text, LF, pos, end);
        }
        assert(text.subrange(pos, end) =~= line);
        assert(next_line(text, end) == end + 1);
        assert(next.len() == end + 1);
        assert(seq![c] + tail =~= children);
        assert forall|i: int| 0 <= i < children_text(children).len() implies #[trigger] children_text(
            children,
        )[i] < 128 by {
            let rest = children_text(tail);
            if i < line.len() {
                assert(children_text(children)[i] == line[i]);
            } else if i == line.len() {
            } else {
                assert(children_text(children)[i] == rest[i - line.len() - 1]);
            }
        }
    }
}

/// Round trip: a node whose children hold whole hashes is read back from
/// its text as it was written.
pub proof fn lemma_node_round_trip(children: Seq<Child>)
    requires
        hashes_whole(children),
    ensures
        parsed_node(node_text(children)) == Ok::<Seq<Child>, Defect>(children),
{
    let first = hex_encoding(node_hash(children));
    let head = first + seq![LF];
    let text = node_text(children);
    lemma_hex_round_trip(node_hash(children));
    lemma_lines_round_trip(head, children);
    assert(text =~= head + children_text(children));
    assert forall|i: int| 0 <= i < text.len() implies vstd::utf8::is_leading_byte_width_1(
        #[trigger] text[i],
    ) by {
        if i < first.len() {
            assert(text[i] == first[i]);
            assert(hex_value(first[i]) is Some);
        } else if i == first.len() {
        } else {
            assert(text[i] == children_text(children)[i - head.len()]);
        }
    }
    assert(valid_utf8(text)) by {
        assert(text.subrange(0, 0) =~= Seq::<u8>::empty());
        assert(vstd::utf8::partial_valid_utf8(text, 0));
        vstd::utf8::partial_valid_utf8_extend_ascii_block(text, 0, text.len() as int);
        assert(text.subrange(0, text.len() as int) =~= text);
    }
    assert(find(text, LF, 0) == first.len()) by {
        assert forall|i: int| 0 <= i < first.len() implies text[i] != LF by {
            assert(text[i] == first[i]);
            assert(hex_value(first[i]) is Some);
        }
        assert(text[first.len() as int] == LF);
        lemma_find(text, LF, 0, first.len() as int);
    }
    assert(next_line(text, first.len() as int) == head.len());
}

/// A number in hexadecimal has no more digits than the number and the
/// least number of digits come to.
proof fn lemma_hex_number_short(n: nat, width: nat)
    ensures
        hex_number(n, width).len() <= n + width + 1,
    decreases n, width,
{
    if !(n < 16 && width <= 1) {
        let fewer = if width > 0 {
            (width - 1) as nat
        } else {
            0
        };
        lemma_hex_number_short(n / 16, fewer);
    }
}

/// The lines of children whose hashes are whole and whose indices a core
/// can hold are short.
proof fn lemma_children_text_short(children: Seq<Child>)
    requires
        hashes_whole(children),
        forall|i: int| 0 <= i < children.len() ==> (#[trigger] children[i]).index <= FULL,
    ensures
        children_text(children).len() <= children.len() * 65700,
    decreases children.len(),
{
    if children.len() > 0 {
        let init = children.drop_last();
        let c = children.last();
        assert forall|i: int| 0 <= i < init.len() implies (#[trigger] init[i]).hash.len() == 32
            && init[i].index <= FULL by {
            assert(init[i] == children[i]);
        }
        lemma_children_text_short(init);
        assert(c == children[children.len() - 1]);
        lemma_hex_round_trip(c.hash);
        lemma_hex_number_short(c.index as nat, 4);
        assert(child_line(c).len() <= 65616);
    }
}

/// Three cores under one key: the messages, the nodes of the tree over
/// them, and the signatures.
#[derive(Debug)]
pub struct IsoCore {
    /// The public key that the log belongs to.
    pub signer: KeyPub,
    /// The messages.
    pub data_core: Core,
    /// The nodes of the tree, each at its covering index.
    pub verkle_core: Core,
    /// One signature block for every message.
    pub sig_core: Core,
}

/// Eight is a width that a tree can have.
pub proof fn lemma_width_valid()
    ensures
        valid_width(WIDTH),
{
    reveal_with_fuel(vstd::arithmetic::power2::is_pow2, 4);
}

/// A core's worth of items has covering indices that fit 64 bits.
proof fn lemma_coverings_fit(n: nat)
    requires
        n <= FULL + 1,
    ensures
        covering_of(n, WIDTH as nat) <= 2 * n,
{
    crate::covering::lemma_inner_bound(n, WIDTH as nat);
}

/// What a core keeps through one step and the next, it keeps through both.
pub proof fn lemma_extends_trans(a: &Core, b: &Core, c: &Core)
    requires
        Core::extends(a, b),
        Core::extends(b, c),
    ensures
        Core::extends(a, c),
{
    assert forall|k: u64| #[trigger] a.cached(k) implies c.cached(k) && c.contents(k) == a.contents(
        k,
    ) by {
        assert(b.cached(k));
    }
    assert forall|k: u64| k < a.next_id.0 implies #[trigger] c.message(k) == a.message(k) by {
        assert(c.message(k) == b.message(k));
    }
}

/// A node that holds what it is to hold can be read, and is read as that.
pub proof fn lemma_sound_readable(iso: &IsoCore, y: u64)
    requires
        iso.node_sound(y),
        y < iso.verkle_core.next_id.0,
    ensures
        iso.readable(y),
        iso.children_at(y) == iso.expected(y),
{
    lemma_node_round_trip(iso.expected(y));
}

/// The hashes of nodes stay as they are where the nodes stay as they are.
pub proof fn lemma_joined_kept(a: &IsoCore, b: &IsoCore, nodes: Seq<nat>)
    requires
        forall|k: int| 0 <= k < nodes.len() ==> a.hash_at(nodes[k] as u64) == b.hash_at(
            nodes[k] as u64,
        ),
    ensures
        a.joined_node_hashes(nodes) == b.joined_node_hashes(nodes),
    decreases nodes.len(),
{
    if nodes.len() > 0 {
        let init = nodes.drop_last();
        assert forall|k: int| 0 <= k < init.len() implies a.hash_at(init[k] as u64) == b.hash_at(
            init[k] as u64,
        ) by {
            assert(init[k] == nodes[k]);
        }
        lemma_joined_kept(a, b, init);
        assert(nodes.last() == nodes[nodes.len() - 1]);
    }
}

/// What a log has, it keeps: after steps that keep the messages and the
/// nodes, a node that was sound is sound, and the hash of the first `len`
/// messages is what it was.
pub proof fn lemma_kept(a: &IsoCore, b: &IsoCore)
    requires
        Core::keeps(&a.data_core, &b.data_core),
        Core::keeps(&a.verkle_core, &b.verkle_core),
        a.verkle_core.next_id.0 <= covering_of(a.data_core.next_id.0 as nat, WIDTH as nat),
        forall|y: u64| y < a.verkle_core.next_id.0 ==> #[trigger] a.node_sound(y),
    ensures
        forall|y: u64| y < a.verkle_core.next_id.0 ==> b.hash_at(y) == a.hash_at(y),
        forall|y: u64| y < a.verkle_core.next_id.0 ==> a.expected(y) == b.expected(y),
        forall|y: u64| y < a.verkle_core.next_id.0 ==> #[trigger] b.node_sound(y),
        forall|len: nat|
            covering_of(len, WIDTH as nat) <= a.verkle_core.next_id.0 ==> #[trigger] b.root_at(len)
                == a.root_at(len),
{
    let w = WIDTH as nat;
    assert forall|y: u64| y < a.verkle_core.next_id.0 implies b.hash_at(y) == a.hash_at(y) by {
        assert(b.verkle_core.message(y) == a.verkle_core.message(y));
    }
    assert forall|y: u64| y < a.verkle_core.next_id.0 implies a.expected(y) == b.expected(y) by {
        crate::covering::lemma_item_of(y as nat, w);
        crate::covering::lemma_children_before(y as nat, w);
        let i = crate::covering::item_of(y as nat, w);
        if crate::covering::height_of(y as nat, w) == 0 {
            // the item of a node that is there is an item that is there
            if i >= a.data_core.next_id.0 {
                crate::covering::lemma_covering_monotone(a.data_core.next_id.0 as nat, i, w);
            }
            assert(b.data_core.message(i as u64) == a.data_core.message(i as u64));
        } else {
            let kids = children_of(y as nat, w);
            assert forall|k: int| 0 <= k < kids.len() implies b.hash_at(kids[k] as u64)
                == a.hash_at(kids[k] as u64) by {
                assert(kids[k] < y);
            }
            assert(a.branch_children(y) =~= b.branch_children(y));
        }
    }
    assert forall|y: u64| y < a.verkle_core.next_id.0 implies #[trigger] b.node_sound(y) by {
        assert(a.node_sound(y));
        assert(b.verkle_core.message(y) == a.verkle_core.message(y));
    }
    assert forall|len: nat|
        covering_of(len, w) <= a.verkle_core.next_id.0 implies #[trigger] b.root_at(len) == a.root_at(
        len,
    ) by {
        crate::covering::lemma_peaks_before(len, w);
        let peaks = peaks_of(len, w);
        assert forall|k: int| 0 <= k < peaks.len() implies a.hash_at(peaks[k] as u64) == b.hash_at(
            peaks[k] as u64,
        ) by {
            assert(peaks[k] < covering_of(len, w));
        }
        lemma_joined_kept(a, b, peaks);
    }
}

/// What a node is to hold stays as it is where the messages and the nodes
/// before it stay as they are.
pub proof fn lemma_expected_kept(a: &IsoCore, b: &IsoCore, y: u64)
    requires
        Core::keeps(&a.data_core, &b.data_core),
        Core::keeps(&a.verkle_core, &b.verkle_core),
        y <= a.verkle_core.next_id.0,
        y < covering_of(a.data_core.next_id.0 as nat, WIDTH as nat),
    ensures
        a.expected(y) == b.expected(y),
{
    let w = WIDTH as nat;
    crate::covering::lemma_item_of(y as nat, w);
    crate::covering::lemma_children_before(y as nat, w);
    let i = crate::covering::item_of(y as nat, w);
    if crate::covering::height_of(y as nat, w) == 0 {
        if i >= a.data_core.next_id.0 {
            crate::covering::lemma_covering_monotone(a.data_core.next_id.0 as nat, i, w);
        }
        assert(b.data_core.message(i as u64) == a.data_core.message(i as u64));
    } else {
        let kids = children_of(y as nat, w);
        assert forall|k: int| 0 <= k < kids.len() implies b.hash_at(kids[k] as u64) == a.hash_at(
            kids[k] as u64,
        ) by {
            assert(kids[k] < y);
            assert(b.verkle_core.message(kids[k] as u64) == a.verkle_core.message(kids[k] as u64));
        }
        assert(a.branch_children(y) =~= b.branch_children(y));
    }
}

/// With all nodes before `y` sound and the message of item `n` there, the
/// node at `y`, which item `n` completes, can be built: its children can be
/// read, and a leaf holds the hash of the message.
pub proof fn lemma_node_ready(iso: &IsoCore, y: u64, n: u64)
    requires
        iso.ready_for(n),
        iso.verkle_core.next_id.0 == y,
        covering_of(n as nat, WIDTH as nat) <= y < covering_of((n + 1) as nat, WIDTH as nat),
    ensures
        iso.children_readable(y),
        crate::covering::item_of(y as nat, WIDTH as nat) == n,
        crate::covering::height_of(y as nat, WIDTH as nat) == 0 ==> iso.expected(y)
            == iso.leaf_children(n),
        crate::covering::height_of(y as nat, WIDTH as nat) > 0 ==> iso.expected(y)
            == iso.branch_children(y),
{
    let w = WIDTH as nat;
    crate::covering::lemma_item_of(y as nat, w);
    crate::covering::lemma_children_before(y as nat, w);
    assert(crate::covering::covers(n as nat, y as nat, w));
    let kids = children_of(y as nat, w);
    assert forall|k: int| 0 <= k < kids.len() implies iso.readable(#[trigger] kids[k] as u64) by {
        assert(kids[k] < y);
        assert(iso.node_sound(kids[k] as u64));
        lemma_sound_readable(iso, kids[k] as u64);
    }
}

/// A core keeps what it has.
pub proof fn lemma_extends_refl(a: &Core)
    ensures
        Core::extends(a, a),
{
}

/// Once the nodes that the last item completes are there, the peaks of the
/// tree can be read.
pub proof fn lemma_peaks_readable(iso: &IsoCore, n: u64)
    requires
        iso.ready_for(n),
        iso.verkle_core.next_id.0 == covering_of((n + 1) as nat, WIDTH as nat),
    ensures
        iso.peaks_readable(),
{
    let w = WIDTH as nat;
    crate::covering::lemma_peaks_before((n + 1) as nat, w);
    let peaks = peaks_of((n + 1) as nat, w);
    assert forall|k: int| 0 <= k < peaks.len() implies iso.readable(#[trigger] peaks[k] as u64) by {
        assert(peaks[k] < covering_of((n + 1) as nat, w));
        assert(iso.node_sound(peaks[k] as u64));
        lemma_sound_readable(iso, peaks[k] as u64);
    }
}

/// The cores are in step again after an append: `before` is the log before
/// the append, `built` the log with the message and its nodes, `after` the
/// log with the signature block as well.
pub proof fn lemma_inv_after_append(
    before: &IsoCore,
    built: &IsoCore,
    after: &IsoCore,
    n: u64,
    root: Seq<u8>,
    signature: Seq<u8>,
)
    requires
        before.inv(),
        before.data_core.next_id.0 == n,
        built.ready_for(n),
        built.verkle_core.next_id.0 == covering_of((n + 1) as nat, WIDTH as nat),
        Core::extends(&before.data_core, &built.data_core),
        Core::extends(&before.verkle_core, &built.verkle_core),
        after.wf(),
        after.signer == before.signer,
        after.data_core == built.data_core,
        Core::extends(&built.verkle_core, &after.verkle_core),
        after.verkle_core.next_id == built.verkle_core.next_id,
        Core::extends(&before.sig_core, &after.sig_core),
        after.sig_core.next_id.0 == n + 1,
        after.sig_core.message(n) == Some(signature_text(root, signature)),
        signature.len() == 64,
        root.len() == 32,
        root == built.root_at((n + 1) as nat),
        ed25519_accepts(before.signer.0@, root, signature),
    ensures
        after.inv(),
        after.root_at((n + 1) as nat) == root,
{
    let w = WIDTH as nat;
    lemma_extends_refl(&built.data_core);
    lemma_kept(built, after);
    lemma_extends_trans(&before.verkle_core, &built.verkle_core, &after.verkle_core);
    lemma_kept(before, after);
    assert(after.root_at((n + 1) as nat) == root);
    assert forall|j: u64| j < after.sig_core.next_id.0 implies #[trigger] after.signed(j) by {
        if j == n {
            lemma_hex_round_trip(root);
            let block = after.sig_core.message(n)->Some_0;
            assert(signature_in(block, root) =~= signature);
        } else {
            assert(before.signed(j));
            crate::covering::lemma_covering_monotone((j + 1) as nat, n as nat, w);
            assert(after.root_at((j + 1) as nat) == before.root_at((j + 1) as nat));
            assert(after.sig_core.message(j) == before.sig_core.message(j));
        }
    }
    assert forall|k: u64| k < after.data_core.next_id.0 implies #[trigger] after.data_core.message(
        k,
    ) is Some by {
        if k < n {
            assert(before.data_core.message(k) is Some);
            assert(after.data_core.message(k) == before.data_core.message(k));
        }
    }
    assert forall|k: u64| k < after.verkle_core.next_id.0 implies #[trigger] after.verkle_core.message(
        k,
    ) is Some by {
        assert(after.node_sound(k));
    }
    assert forall|k: u64| k < after.sig_core.next_id.0 implies #[trigger] after.sig_core.message(
        k,
    ) is Some by {
        assert(after.signed(k));
    }
}

/// In a log whose cores are in step, the node of an item is a leaf that
/// holds the hash and the number of the item's message.
pub proof fn lemma_leaf_of_item(iso: &IsoCore, i: u64)
    requires
        iso.inv(),
        i < iso.data_core.next_id.0,
    ensures
        covering_of(i as nat, WIDTH as nat) < iso.verkle_core.next_id.0,
        iso.verkle_core.message(covering_of(i as nat, WIDTH as nat) as u64) matches Some(text)
            && parsed_node(text) == Ok::<Seq<Child>, Defect>(iso.leaf_children(i)),
        iso.data_core.message(i) is Some,
{
    let w = WIDTH as nat;
    let y = covering_of(i as nat, w);
    crate::covering::lemma_covering_monotone((i + 1) as nat, iso.data_core.next_id.0 as nat, w);
    crate::covering::lemma_covering_step(i as nat, w);
    crate::covering::lemma_item_round_trip(i as nat, w);
    assert(iso.node_sound(y as u64));
    lemma_sound_readable(iso, y as u64);
}

/// A log whose cores are in step stays so through steps that keep what the
/// cores have and append nothing.
pub proof fn lemma_inv_kept(a: &IsoCore, b: &IsoCore)
    requires
        a.inv(),
        b.wf(),
        b.signer == a.signer,
        Core::extends(&a.data_core, &b.data_core),
        Core::extends(&a.verkle_core, &b.verkle_core),
        Core::extends(&a.sig_core, &b.sig_core),
        b.data_core.next_id == a.data_core.next_id,
        b.verkle_core.next_id == a.verkle_core.next_id,
        b.sig_core.next_id == a.sig_core.next_id,
    ensures
        b.inv(),
{
    lemma_kept(a, b);
    assert forall|j: u64| j < b.sig_core.next_id.0 implies #[trigger] b.signed(j) by {
        assert(a.signed(j));
        crate::covering::lemma_covering_monotone(
            (j + 1) as nat,
            a.data_core.next_id.0 as nat,
            WIDTH as nat,
        );
        assert(b.root_at((j + 1) as nat) == a.root_at((j + 1) as nat));
        assert(b.sig_core.message(j) == a.sig_core.message(j));
    }
    assert forall|k: u64| k < b.data_core.next_id.0 implies #[trigger] b.data_core.message(
        k,
    ) is Some by {
        assert(a.data_core.message(k) is Some);
    }
    assert forall|k: u64| k < b.verkle_core.next_id.0 implies #[trigger] b.verkle_core.message(
        k,
    ) is Some by {
        assert(a.verkle_core.message(k) is Some);
    }
    assert forall|k: u64| k < b.sig_core.next_id.0 implies #[trigger] b.sig_core.message(
        k,
    ) is Some by {
        assert(a.sig_core.message(k) is Some);
    }
}

/// A log that is written to its files and loaded from them again is the log
/// that it was: the files can be loaded, the cores that are loaded from
/// them are in step, and every message is read under its number.
pub proof fn lemma_reloaded_in_step(a: &IsoCore, b: &IsoCore)
    requires
        a.inv(),
        a.data_core.disk is Some && a.data_core.flushed(),
        a.verkle_core.disk is Some && a.verkle_core.flushed(),
        a.sig_core.disk is Some && a.sig_core.flushed(),
        b.wf(),
        b.signer == a.signer,
        b.data_core.loaded_from(a.data_core.file()),
        b.verkle_core.loaded_from(a.verkle_core.file()),
        b.sig_core.loaded_from(a.sig_core.file()),
    ensures
        Core::loads(a.data_core.file()),
        Core::loads(a.verkle_core.file()),
        Core::loads(a.sig_core.file()),
        b.inv(),
        b.data_core.history() == a.data_core.history(),
{
    crate::message_core::lemma_reloaded(&a.data_core, &b.data_core);
    crate::message_core::lemma_reloaded(&a.verkle_core, &b.verkle_core);
    crate::message_core::lemma_reloaded(&a.sig_core, &b.sig_core);
    lemma_kept(a, b);
    assert forall|j: u64| j < b.sig_core.next_id.0 implies #[trigger] b.signed(j) by {
        assert(a.signed(j));
        crate::covering::lemma_covering_monotone(
            (j + 1) as nat,
            a.data_core.next_id.0 as nat,
            WIDTH as nat,
        );
        assert(b.root_at((j + 1) as nat) == a.root_at((j + 1) as nat));
        assert(b.sig_core.message(j) == a.sig_core.message(j));
    }
}

/// Every prefix of a log whose cores are in step is signed: the block of
/// message `j` holds the hash of the peaks of the tree over the first
/// `j + 1` messages, computed from the nodes as they are stored, and a
/// signature of that hash that the key of the log accepts. The block is
/// 129 bytes long: 64 hexadecimal digits, a line feed and the 64 bytes of
/// the signature.
pub proof fn lemma_every_prefix_signed(iso: &IsoCore, j: u64)
    requires
        iso.inv(),
        j < iso.data_core.next_id.0,
    ensures
        iso.sig_core.message(j) matches Some(block) && block == signature_text(
            iso.root_at((j + 1) as nat),
            signature_in(block, iso.root_at((j + 1) as nat)),
        ) && signature_in(block, iso.root_at((j + 1) as nat)).len() == 64 && block.len() == 129
            && ed25519_accepts(
            iso.signer.0@,
            iso.root_at((j + 1) as nat),
            signature_in(block, iso.root_at((j + 1) as nat)),
        ),
{
    assert(iso.signed(j));
    lemma_hex_round_trip(iso.root_at((j + 1) as nat));
}

/// Every node of a log whose cores are in step can be read, and holds the
/// hashes of its children as they are computed from the children: a leaf
/// the hash of its message, a branch the hashes of the nodes below it.
pub proof fn lemma_every_node_sound(iso: &IsoCore, y: u64)
    requires
        iso.inv(),
        y < iso.verkle_core.next_id.0,
    ensures
        iso.readable(y),
        iso.children_at(y) == iso.expected(y),
{
    assert(iso.node_sound(y));
    lemma_sound_readable(iso, y);
}

/// What is read for an item has the hash that the item's leaf holds. A
/// message whose hash is another one is refused as an `IntegrityError`,
/// and nothing is handed out whose hash is not the hash in the leaf.
pub proof fn lemma_read_is_checked(leaf: Seq<u8>, messages: &Core, r: Result<&[u8], IsoCoreError>)
    requires
        IsoCore::outcome(Some(leaf), messages, r),
    ensures
        r matches Ok(b) ==> parsed_node(leaf) matches Ok(cs) && cs.len() == 1 && cs[0].node_type
            == NodeType::Leaf && messages.message(cs[0].index) == Some(b@) && blake3_digest(b@)
            == cs[0].hash,
        (parsed_node(leaf) matches Ok(cs) && cs.len() == 1 && cs[0].node_type == NodeType::Leaf
            && cs[0].index < messages.next_id.0 && (messages.message(cs[0].index) matches Some(
            data,
        ) && blake3_digest(data) != cs[0].hash)) ==> r matches Err(IsoCoreError::IntegrityError),
{
}

/// A node above the items of a log whose cores are in step holds eight
/// children, in the order of their items: each is a branch, carries the
/// index of the node it stands for, which comes before the node itself,
/// and the hash of that node as it is computed from what is stored there.
pub proof fn lemma_every_branch_whole(iso: &IsoCore, y: u64, i: int)
    requires
        iso.inv(),
        y < iso.verkle_core.next_id.0,
        crate::covering::height_of(y as nat, WIDTH as nat) > 0,
        0 <= i < 8,
    ensures
        iso.children_at(y).len() == 8,
        children_of(y as nat, WIDTH as nat).len() == 8,
        iso.children_at(y)[i].node_type == NodeType::Branch,
        iso.children_at(y)[i].index == children_of(y as nat, WIDTH as nat)[i],
        children_of(y as nat, WIDTH as nat)[i] < y,
        iso.children_at(y)[i].hash == iso.hash_at(children_of(y as nat, WIDTH as nat)[i] as u64),
        iso.children_at(y)[i].hash.len() == 32,
{
    lemma_every_node_sound(iso, y);
    crate::covering::lemma_children_shape(y as nat, WIDTH as nat);
    crate::covering::lemma_children_before(y as nat, WIDTH as nat);
    assert(iso.node_sound(y));
}

impl IsoCore {
    /// The three cores are well formed.
    pub open spec fn wf(&self) -> bool {
        self.data_core.wf() && self.verkle_core.wf() && self.sig_core.wf()
    }

    /// Whether the node at an index is there and can be read.
    pub open spec fn readable(&self, y: u64) -> bool {
        &&& y < self.verkle_core.next_id.0
        &&& self.verkle_core.message(y) matches Some(text) && parsed_node(text) is Ok
    }

    /// The children that the node at an index holds.
    pub open spec fn children_at(&self, y: u64) -> Seq<Child> {
        parsed_node(self.verkle_core.message(y)->Some_0)->Ok_0
    }

    /// The hash of the node at an index, computed from its children.
    pub open spec fn hash_at(&self, y: u64) -> Seq<u8> {
        node_hash(self.children_at(y))
    }

    /// The hashes of the nodes at some indices, one after the other.
    pub open spec fn joined_node_hashes(&self, nodes: Seq<nat>) -> Seq<u8>
        decreases nodes.len(),
    {
        if nodes.len() == 0 {
            Seq::empty()
        } else {
            self.joined_node_hashes(nodes.drop_last()) + self.hash_at(nodes.last() as u64)
        }
    }

    /// The hash that stands for the first `len` messages: the hash of the
    /// hashes of the peaks of the tree over them.
    pub open spec fn root_at(&self, len: nat) -> Seq<u8> {
        blake3_digest(self.joined_node_hashes(peaks_of(len, WIDTH as nat)))
    }

    /// What the node of an item is to hold: the hash and the number of the
    /// item's message.
    pub open spec fn leaf_children(&self, i: u64) -> Seq<Child> {
        seq![
            Child {
                node_type: NodeType::Leaf,
                hash: blake3_digest(self.data_core.message(i)->Some_0),
                index: i,
            },
        ]
    }

    /// What a node above the items is to hold: the hashes and the indices of
    /// its children.
    pub open spec fn branch_children(&self, y: u64) -> Seq<Child> {
        let kids = children_of(y as nat, WIDTH as nat);
        Seq::new(
            kids.len(),
            |k: int|
                Child {
                    node_type: NodeType::Branch,
                    hash: self.hash_at(kids[k] as u64),
                    index: kids[k] as u64,
                },
        )
    }

    /// What the node at an index is to hold.
    pub open spec fn expected(&self, y: u64) -> Seq<Child> {
        if crate::covering::height_of(y as nat, WIDTH as nat) == 0 {
            self.leaf_children(crate::covering::item_of(y as nat, WIDTH as nat) as u64)
        } else {
            self.branch_children(y)
        }
    }

    /// The node at an index holds what it is to hold.
    pub open spec fn node_sound(&self, y: u64) -> bool {
        &&& self.verkle_core.message(y) == Some(node_text(self.expected(y)))
        &&& hashes_whole(self.expected(y))
    }

    /// The signature block of a message holds the hash that stood for the
    /// log once the message was appended, 32 bytes in hexadecimal, and a
    /// signature of that hash, 64 bytes, that the key of the log accepts.
    pub open spec fn signed(&self, j: u64) -> bool {
        let root = self.root_at((j + 1) as nat);
        self.sig_core.message(j) matches Some(block) && block == signature_text(
            root,
            signature_in(block, root),
        ) && root.len() == 32 && signature_in(block, root).len() == 64 && ed25519_accepts(
            self.signer.0@,
            root,
            signature_in(block, root),
        )
    }

    /// The three cores are in step: every message, node and signature can
    /// be read, every node that the messages complete is there and holds
    /// what it is to hold, and every message has its signature block.
    pub open spec fn inv(&self) -> bool {
        &&& self.data_core.sound()
        &&& self.verkle_core.sound()
        &&& self.sig_core.sound()
        &&& self.verkle_core.next_id.0 == covering_of(self.data_core.next_id.0 as nat, WIDTH as nat)
        &&& self.sig_core.next_id == self.data_core.next_id
        &&& forall|y: u64| y < self.verkle_core.next_id.0 ==> #[trigger] self.node_sound(y)
        &&& forall|j: u64| j < self.sig_core.next_id.0 ==> #[trigger] self.signed(j)
    }

    /// One of the three logs has failed: its open frame is full and
    /// cannot be closed.
    pub open spec fn failed(&self) -> bool {
        self.data_core.failed() || self.verkle_core.failed() || self.sig_core.failed()
    }

    /// The cores live in memory only.
    pub open spec fn in_memory(&self) -> bool {
        self.data_core.disk is None && self.verkle_core.disk is None && self.sig_core.disk is None
    }

    /// An empty log in memory that belongs to the signer.
    pub fn create_mem(signer: &KeyPair) -> (iso: Self)
        ensures
            iso.wf(),
            iso.signer == signer.key_pub,
            iso.data_core.next_id.0 == 0,
            iso.verkle_core.next_id.0 == 0,
            iso.sig_core.next_id.0 == 0,
            iso.in_memory(),
            iso.inv(),
    {
        IsoCore {
            signer: signer.key_pub,
            data_core: Core::create_mem(),
            verkle_core: Core::create_mem(),
            sig_core: Core::create_mem(),
        }
    }

    /// An empty log that belongs to the signer and whose cores write logs
    /// for files.
    pub fn create(signer: &KeyPair) -> (iso: Self)
        ensures
            iso.wf(),
            iso.signer == signer.key_pub,
            iso.data_core.next_id.0 == 0,
            iso.verkle_core.next_id.0 == 0,
            iso.sig_core.next_id.0 == 0,
            iso.data_core.disk is Some,
            iso.verkle_core.disk is Some,
            iso.sig_core.disk is Some,
            iso.inv(),
    {
        IsoCore {
            signer: signer.key_pub,
            data_core: Core::create(),
            verkle_core: Core::create(),
            sig_core: Core::create(),
        }
    }

    /// The log that four files hold: the public key and the three cores.
    /// A public key that is not 32 bytes long is refused.
    pub fn load(info: &[u8], data: Vec<u8>, verkle: Vec<u8>, sig: Vec<u8>) -> (r: Result<
        Self,
        IsoCoreError,
    >)
        ensures
            info@.len() != 32 ==> r matches Err(IsoCoreError::NodeFormat),
            r is Ok <==> info@.len() == 32 && Core::loads(data@) && Core::loads(verkle@)
                && Core::loads(sig@),
            r matches Ok(iso) ==> iso.wf() && iso.signer.0@ == info@
                && iso.data_core.loaded_from(data@) && iso.verkle_core.loaded_from(verkle@)
                && iso.sig_core.loaded_from(sig@),
            r matches Err(e) ==> info@.len() != 32 || e is Core,
    {
        if info.len() != 32 {
            return Err(IsoCoreError::NodeFormat);
        }
        let mut pubkey_array: [u8; 32] = [0u8; 32];
        let mut i: usize = 0;
        while i < 32
            invariant
                i <= 32,
                info@.len() == 32,
                forall|j: int| 0 <= j < i ==> pubkey_array@[j] == info@[j],
            decreases 32 - i,
        {
            pubkey_array[i] = info[i];
            i = i + 1;
        }
        assert(pubkey_array@ =~= info@);
        let data_core = match Core::load(data) {
            Ok(c) => c,
            Err(e) => {
                return Err(IsoCoreError::Core(e));
            },
        };
        let verkle_core = match Core::load(verkle) {
            Ok(c) => c,
            Err(e) => {
                return Err(IsoCoreError::Core(e));
            },
        };
        let sig_core = match Core::load(sig) {
            Ok(c) => c,
            Err(e) => {
                return Err(IsoCoreError::Core(e));
            },
        };
        Ok(IsoCore { signer: KeyPub(pubkey_array), data_core, verkle_core, sig_core })
    }

    /// The public key as the bytes that the `info` file holds.
    pub fn info(&self) -> (bytes: Vec<u8>)
        ensures
            bytes@ == self.signer.0@,
    {
        vstd::slice::slice_to_vec(self.signer.0.as_slice())
    }

    /// Appends a message: stores it, completes the nodes that it completes,
    /// signs the hash of the peaks of the tree and stores the signature.
    /// Returns the hash that was signed.
    ///
    /// A log whose cores are in step stays so, and the signature that is
    /// stored is one that the key of the log accepts, provided that the
    /// signer's public key belongs to its secret key.
    ///
    /// For the signer of a log whose cores are in step, a message that the
    /// data core does not refuse, and nodes that the verkle core has room
    /// for, the append fails if and only if it leaves one of the three logs
    /// with a full frame that cannot be closed. In memory there is no log
    /// to fail, and the append succeeds.
    pub fn add_message(&mut self, message: &[u8], signer: &KeyPair) -> (r: Result<
        crate::key::Hash,
        IsoCoreError,
    >)
        requires
            old(self).wf(),
        ensures
            final(self).wf(),
            final(self).signer == old(self).signer,
            signer.key_pub.0@ != old(self).signer.0@ ==> (r matches Err(
                IsoCoreError::SignerMismatch,
            )) && final(self).data_core == old(self).data_core && final(self).verkle_core
                == old(self).verkle_core && final(self).sig_core == old(self).sig_core,
            signer.key_pub.0@ == old(self).signer.0@ ==> !(r matches Err(
                IsoCoreError::SignerMismatch,
            )),
            Core::extends(&old(self).data_core, &final(self).data_core),
            Core::extends(&old(self).verkle_core, &final(self).verkle_core),
            Core::extends(&old(self).sig_core, &final(self).sig_core),
            r is Ok ==> final(self).data_core.next_id.0 == old(self).data_core.next_id.0 + 1
                && final(self).data_core.message(old(self).data_core.next_id.0) == Some(message@),
            old(self).inv() && signer.wf() ==> (r matches Ok(h) ==> final(self).inv() && h.0@
                == final(self).root_at((old(self).data_core.next_id.0 + 1) as nat)),
            old(self).inv() && old(self).in_memory() && signer.key_pub.0@ == old(self).signer.0@
                && covering_of((old(self).data_core.next_id.0 + 1) as nat, WIDTH as nat) <= FULL
                ==> r is Ok,
            old(self).inv() && signer.key_pub.0@ == old(self).signer.0@ && !old(self).data_core.refuses(message@) && covering_of(
                (old(self).data_core.next_id.0 + 1) as nat,
                WIDTH as nat,
            ) <= FULL ==> (r is Err <==> final(self).failed()),
    {
        if !signer.key_pub.same(&self.signer) {
            return Err(IsoCoreError::SignerMismatch);
        }
        let ghost s0 = *self;
        let ghost n = self.data_core.next_id.0;
        let ghost strict = s0.inv();
        proof {
            lemma_width_valid();
            if strict {
                crate::covering::lemma_covering_monotone(0, (n + 1) as nat, WIDTH as nat);
                crate::covering::lemma_covering_step(n as nat, WIDTH as nat);
            }
        }
        let data_index = match self.data_core.add_message(message) {
            Ok(id) => id,
            Err(e) => {
                return Err(IsoCoreError::Core(e));
            },
        };
        let msg_hash = hash(message);
        let item_id = ItemId(data_index.0);
        proof {
            lemma_coverings_fit((item_id.0 + 1) as nat);
        }
        let coverings = coverings_for_item(item_id, WIDTH);
        let ghost s1 = *self;
        proof {
            if strict {
                lemma_extends_refl(&s0.verkle_core);
                lemma_kept(&s0, &s1);
            }
        }
        match self.complete_nodes(coverings.start.0, coverings.end.0, msg_hash, data_index) {
            Ok(_) => {},
            Err(e) => {
                return Err(e);
            },
        }
        let ghost s2 = *self;
        proof {
            if strict {
                lemma_peaks_readable(&s2, n);
            }
        }
        let global_root = match self.bag_peaks() {
            Ok(h) => h,
            Err(e) => {
                proof {
                    lemma_extends_trans(&s0.verkle_core, &s2.verkle_core, &self.verkle_core);
                }
                return Err(e);
            },
        };
        let signature = signer.sign(global_root.0.as_slice());
        let sig_block = SignatureBlock { global_root, signature };
        let block_bytes = sig_block.to_bytes();
        let ghost s3 = *self;
        proof {
            lemma_extends_trans(&s0.verkle_core, &s2.verkle_core, &s3.verkle_core);
        }
        match self.sig_core.add_message(block_bytes.as_slice()) {
            Ok(_) => {
                proof {
                    if strict && signer.wf() {
                        lemma_inv_after_append(&s0, &s2, self, n, global_root.0@, signature.0@);
                    }
                }
                Ok(global_root)
            },
            Err(e) => Err(IsoCoreError::Core(e)),
        }
    }

    /// The log is ready for the nodes that item `n` completes: the item's
    /// message is there, and so are all nodes before the item's own, sound.
    pub open spec fn ready_for(&self, n: u64) -> bool {
        &&& self.wf()
        &&& self.data_core.next_id.0 == n + 1
        &&& forall|y: u64| y < self.verkle_core.next_id.0 ==> #[trigger] self.node_sound(y)
    }

    /// Builds and stores the nodes from `from` up to `to`, which the item
    /// that was appended last completes.
    fn complete_nodes(
        &mut self,
        from: u64,
        to: u64,
        leaf_hash: crate::key::Hash,
        leaf_index: MessageId,
    ) -> (r: Result<(), IsoCoreError>)
        requires
            old(self).wf(),
            from <= to,
        ensures
            final(self).wf(),
            final(self).signer == old(self).signer,
            final(self).data_core == old(self).data_core,
            final(self).sig_core == old(self).sig_core,
            Core::extends(&old(self).verkle_core, &final(self).verkle_core),
            final(self).verkle_core.begin_flush == old(self).verkle_core.begin_flush,
            r matches Err(e) ==> e.of_store(),
            old(self).ready_for(leaf_index.0) && from == old(self).verkle_core.next_id.0 && from
                == covering_of(leaf_index.0 as nat, WIDTH as nat) && to == covering_of(
                (leaf_index.0 + 1) as nat,
                WIDTH as nat,
            ) && leaf_hash.0@ == blake3_digest(old(self).data_core.message(leaf_index.0)->Some_0) ==> {
                &&& r is Ok ==> final(self).ready_for(leaf_index.0) && final(self).verkle_core.next_id.0 == to
                &&& to <= FULL ==> (r is Err <==> final(self).verkle_core.failed())
            },
    {
        let mut y: u64 = from;
        let ghost start = *self;
        let ghost w = WIDTH as nat;
        let ghost n = leaf_index.0;
        let ghost strict = start.ready_for(n) && from == start.verkle_core.next_id.0 && from
            == covering_of(n as nat, w) && to == covering_of((n + 1) as nat, w) && leaf_hash.0@
            == blake3_digest(start.data_core.message(n)->Some_0);
        proof {
            lemma_width_valid();
            crate::covering::lemma_covering_step(n as nat, w);
        }
        while y < to
            invariant
                from <= y <= to,
                strict ==> from < to,
                strict && to <= FULL && from < y ==> !self.verkle_core.failed(),
                self.wf(),
                self.signer == old(self).signer,
                self.data_core == old(self).data_core,
                self.sig_core == old(self).sig_core,
                start == *old(self),
                w == WIDTH as nat,
                n == leaf_index.0,
                Core::extends(&start.verkle_core, &self.verkle_core),
                self.verkle_core.begin_flush == start.verkle_core.begin_flush,
                self.verkle_core.disk is None <==> start.verkle_core.disk is None,
                strict == (start.ready_for(n) && from == start.verkle_core.next_id.0 && from
                    == covering_of(n as nat, w) && to == covering_of((n + 1) as nat, w)
                    && leaf_hash.0@ == blake3_digest(start.data_core.message(n)->Some_0)),
                strict ==> self.ready_for(n) && self.verkle_core.next_id.0 == y,
            decreases to - y,
        {
            let ghost before = *self;
            proof {
                if strict {
                    lemma_node_ready(&before, y, n);
                }
            }
            let node = match self.build_node(CoveringId(y), leaf_hash, leaf_index) {
                Ok(n) => n,
                Err(e) => {
                    proof {
                        if strict {
                            lemma_node_ready(&before, y, n);
                        }
                    }
                    return Err(e);
                },
            };
            let node_bytes = node.to_bytes();
            let ghost built = *self;
            proof {
                lemma_extends_trans(&start.verkle_core, &before.verkle_core, &built.verkle_core);
                if strict {
                    lemma_kept(&before, &built);
                    assert(node@ == built.expected(y)) by {
                        lemma_node_ready(&before, y, n);
                        assert(before.expected(y) == built.expected(y)) by {
                            lemma_expected_kept(&before, &built, y);
                        }
                    }
                    if to <= FULL {
                        crate::covering::lemma_children_before(y as nat, w);
                        crate::covering::lemma_covering_monotone(0, n as nat, w);
                        assert(hashes_whole(node@));
                        assert(node@.len() <= 8);
                        assert forall|i: int| 0 <= i < node@.len() implies (#[trigger] node@[i]).index
                            <= FULL by {
                            if crate::covering::height_of(y as nat, w) > 0 {
                                assert(children_of(y as nat, w)[i] < y);
                            }
                        }
                        lemma_children_text_short(node@);
                        assert(node_bytes@.len() <= u32::MAX) by (nonlinear_arith)
                            requires
                                node_bytes@.len() == 65 + children_text(node@).len(),
                                children_text(node@).len() <= node@.len() * 65700,
                                node@.len() <= 8,
                        ;
                    }
                }
            }
            match self.verkle_core.add_message(node_bytes.as_slice()) {
                Ok(_) => {},
                Err(e) => {
                    proof {
                        lemma_extends_trans(&start.verkle_core, &built.verkle_core, &self.verkle_core);
                    }
                    return Err(IsoCoreError::Core(e));
                },
            }
            proof {
                lemma_extends_trans(&start.verkle_core, &built.verkle_core, &self.verkle_core);
                if strict {
                    lemma_kept(&built, self);
                    lemma_expected_kept(&built, self, y);
                    assert(self.node_sound(y));
                    assert forall|z: u64| z < self.verkle_core.next_id.0 implies #[trigger] self.node_sound(
                        z,
                    ) by {
                        if z < y {
                            assert(built.node_sound(z));
                        }
                    }
                }
            }
            y = y + 1;
        }
        Ok(())
    }

    /// The hash of the hashes of the peaks of the tree.
    fn bag_peaks(&mut self) -> (r: Result<crate::key::Hash, IsoCoreError>)
        requires
            old(self).wf(),
        ensures
            final(self).wf(),
            final(self).signer == old(self).signer,
            final(self).data_core == old(self).data_core,
            final(self).sig_core == old(self).sig_core,
            Core::extends(&old(self).verkle_core, &final(self).verkle_core),
            final(self).verkle_core.next_id == old(self).verkle_core.next_id,
            final(self).verkle_core.disk == old(self).verkle_core.disk,
            final(self).verkle_core.begin_flush == old(self).verkle_core.begin_flush,
            r matches Err(e) ==> e.of_store(),
            old(self).peaks_readable() ==> (r matches Ok(h) && h.0@ == old(self).root_at(
                old(self).data_core.next_id.0 as nat,
            )),
    {
        let current_len: u64 = self.len().0;
        proof {
            lemma_width_valid();
            lemma_coverings_fit(current_len as nat);
        }
        let peaks = get_peaks(current_len, WIDTH);
        let mut global_data: Vec<u8> = Vec::new();
        let mut i: usize = 0;
        let ghost start = *self;
        let ghost all = peaks_of(current_len as nat, WIDTH as nat);
        let ghost strict = start.peaks_readable();
        proof {
            assert(all.take(0) =~= Seq::<nat>::empty());
        }
        while i < peaks.len()
            invariant
                i <= peaks@.len(),
                self.wf(),
                self.signer == old(self).signer,
                self.data_core == old(self).data_core,
                self.sig_core == old(self).sig_core,
                start == *old(self),
                Core::extends(&start.verkle_core, &self.verkle_core),
                self.verkle_core.next_id == start.verkle_core.next_id,
                self.verkle_core.disk == start.verkle_core.disk,
                self.verkle_core.begin_flush == start.verkle_core.begin_flush,
                current_len == start.data_core.next_id.0,
                all == peaks_of(current_len as nat, WIDTH as nat),
                ids(peaks@) == all,
                strict == start.peaks_readable(),
                strict ==> global_data@ == start.joined_node_hashes(all.take(i as int)),
            decreases peaks@.len() - i,
        {
            let ghost before = *self;
            proof {
                assert(ids(peaks@)[i as int] == peaks@[i as int].0);
                if strict {
                    assert(start.readable(all[i as int] as u64));
                    assert(before.readable(peaks@[i as int].0));
                    assert(before.children_at(peaks@[i as int].0) == start.children_at(
                        peaks@[i as int].0,
                    ));
                }
            }
            let peak_node = match self.get_node(peaks[i]) {
                Ok(n) => n,
                Err(e) => {
                    proof {
                        lemma_extends_trans(&start.verkle_core, &before.verkle_core, &self.verkle_core);
                    }
                    return Err(e);
                },
            };
            proof {
                lemma_extends_trans(&start.verkle_core, &before.verkle_core, &self.verkle_core);
            }
            let peak_hash = peak_node.compute_hash();
            global_data.extend_from_slice(peak_hash.0.as_slice());
            proof {
                let next = all.take(i + 1);
                assert(next.drop_last() =~= all.take(i as int));
                assert(next.last() == all[i as int]);
            }
            i = i + 1;
        }
        proof {
            assert(all.take(all.len() as int) =~= all);
        }
        Ok(hash(global_data.as_slice()))
    }

    /// Whether the peaks of the tree over the messages are there and can
    /// be read.
    pub open spec fn peaks_readable(&self) -> bool {
        forall|k: int|
            0 <= k < peaks_of(self.data_core.next_id.0 as nat, WIDTH as nat).len() ==> self.readable(
                #[trigger] peaks_of(self.data_core.next_id.0 as nat, WIDTH as nat)[k] as u64,
            )
    }

    /// Whether the children of a node are there and can be read.
    pub open spec fn children_readable(&self, y: u64) -> bool {
        forall|k: int|
            0 <= k < children_of(y as nat, WIDTH as nat).len() ==> self.readable(
                #[trigger] children_of(y as nat, WIDTH as nat)[k] as u64,
            )
    }

    /// The node at a covering index as it is to be stored: a leaf for an
    /// item, a branch over its children for a node above the items.
    fn build_node(
        &mut self,
        covering_id: CoveringId,
        leaf_hash: crate::key::Hash,
        leaf_index: MessageId,
    ) -> (r: Result<VerkleNode, IsoCoreError>)
        requires
            old(self).wf(),
        ensures
            final(self).wf(),
            final(self).signer == old(self).signer,
            final(self).data_core == old(self).data_core,
            final(self).sig_core == old(self).sig_core,
            Core::extends(&old(self).verkle_core, &final(self).verkle_core),
            final(self).verkle_core.next_id == old(self).verkle_core.next_id,
            final(self).verkle_core.disk == old(self).verkle_core.disk,
            r matches Err(e) ==> e.of_store(),
            crate::covering::height_of(covering_id.0 as nat, WIDTH as nat) == 0 ==> (r matches Ok(
                node,
            ) && node@ == seq![
                Child { node_type: NodeType::Leaf, hash: leaf_hash.0@, index: leaf_index.0 },
            ]),
            crate::covering::height_of(covering_id.0 as nat, WIDTH as nat) > 0 && old(self).children_readable(covering_id.0) ==> (r matches Ok(node) && node@ == old(self).branch_children(covering_id.0) && hashes_whole(node@)),
    {
        proof {
            lemma_width_valid();
            crate::covering::lemma_children_before(covering_id.0 as nat, WIDTH as nat);
        }
        let children_ids = children_for_covering(covering_id, WIDTH);
        let mut children: Vec<NodeChild> = Vec::new();
        if children_ids.len() == 0 {
            children.push(NodeChild { node_type: NodeType::Leaf, hash: leaf_hash, index: leaf_index });
            let node = VerkleNode { children };
            proof {
                assert(node@ =~= seq![
                    Child { node_type: NodeType::Leaf, hash: leaf_hash.0@, index: leaf_index.0 },
                ]);
            }
            return Ok(node);
        }
        let mut i: usize = 0;
        let ghost start = *self;
        let ghost kids = children_of(covering_id.0 as nat, WIDTH as nat);
        let ghost strict = start.children_readable(covering_id.0);
        while i < children_ids.len()
            invariant
                i <= children_ids@.len(),
                self.wf(),
                self.signer == old(self).signer,
                self.data_core == old(self).data_core,
                self.sig_core == old(self).sig_core,
                start == *old(self),
                Core::extends(&start.verkle_core, &self.verkle_core),
                self.verkle_core.next_id == start.verkle_core.next_id,
                self.verkle_core.disk == start.verkle_core.disk,
                kids == children_of(covering_id.0 as nat, WIDTH as nat),
                ids(children_ids@) == kids,
                strict == start.children_readable(covering_id.0),
                children@.len() == i,
                strict ==> forall|j: int|
                    0 <= j < i ==> (#[trigger] children@[j])@ == start.branch_children(
                        covering_id.0,
                    )[j] && children@[j].hash.0@.len() == 32,
            decreases children_ids@.len() - i,
        {
            let child_id = children_ids[i];
            let ghost before = *self;
            proof {
                assert(ids(children_ids@)[i as int] == child_id.0);
                if strict {
                    assert(start.readable(kids[i as int] as u64));
                    assert(before.readable(child_id.0));
                    assert(before.children_at(child_id.0) == start.children_at(child_id.0));
                }
            }
            let child_node = match self.get_node(child_id) {
                Ok(n) => n,
                Err(e) => {
                    proof {
                        lemma_extends_trans(&start.verkle_core, &before.verkle_core, &self.verkle_core);
                    }
                    return Err(e);
                },
            };
            proof {
                lemma_extends_trans(&start.verkle_core, &before.verkle_core, &self.verkle_core);
            }
            let ghost collected = children@;
            children.push(
                NodeChild {
                    node_type: NodeType::Branch,
                    hash: child_node.compute_hash(),
                    index: MessageId(child_id.0),
                },
            );
            proof {
                if strict {
                    assert forall|j: int| 0 <= j < i + 1 implies (#[trigger] children@[j])@
                        == start.branch_children(covering_id.0)[j] && children@[j].hash.0@.len()
                        == 32 by {
                        if j < i {
                            assert(children@[j] == collected[j]);
                        }
                    }
                }
            }
            i = i + 1;
        }
        let node = VerkleNode { children };
        proof {
            if strict {
                assert(node@ =~= start.branch_children(covering_id.0));
                assert forall|j: int| 0 <= j < node@.len() implies (#[trigger] node@[j]).hash.len()
                    == 32 by {
                    assert(node@[j] == node.children@[j]@);
                }
            }
        }
        Ok(node)
    }

    /// The hash of the node that the last item completed last, or of
    /// nothing for an empty log.
    pub fn get_root_hash(&mut self) -> (r: Result<crate::key::Hash, IsoCoreError>)
        requires
            old(self).wf(),
        ensures
            final(self).wf(),
            final(self).signer == old(self).signer,
            final(self).data_core == old(self).data_core,
            final(self).sig_core == old(self).sig_core,
            Core::extends(&old(self).verkle_core, &final(self).verkle_core),
            old(self).data_core.next_id.0 == 0 ==> (r matches Ok(h) && h.0@ == blake3_digest(
                Seq::empty(),
            )),
            old(self).data_core.next_id.0 > 0 && old(self).readable(
                (covering_of(old(self).data_core.next_id.0 as nat, WIDTH as nat) - 1) as u64,
            ) ==> (r matches Ok(h) && h.0@ == old(self).hash_at(
                (covering_of(old(self).data_core.next_id.0 as nat, WIDTH as nat) - 1) as u64,
            )),
            r matches Err(e) ==> e.of_store(),
    {
        let len = self.len();
        if len.0 == 0 {
            let nothing: Vec<u8> = Vec::new();
            return Ok(hash(nothing.as_slice()));
        }
        let last_item = ItemId(len.0 - 1);
        proof {
            lemma_width_valid();
            lemma_coverings_fit(len.0 as nat);
        }
        let coverings = coverings_for_item(last_item, WIDTH);
        let root_node = match self.get_node(CoveringId(coverings.end.0 - 1)) {
            Ok(n) => n,
            Err(e) => {
                return Err(e);
            },
        };
        Ok(root_node.compute_hash())
    }

    /// What is stored as the node of an item, if it is there and can be
    /// read.
    pub open spec fn leaf_of(&self, i: u64) -> Option<Seq<u8>> {
        let y = covering_of(i as nat, WIDTH as nat) as u64;
        if y < self.verkle_core.next_id.0 {
            self.verkle_core.message(y)
        } else {
            None
        }
    }

    /// What reading an item gives, by what is stored as its node and by
    /// the messages: a node that is not there or cannot be read is an error
    /// of the core, and so is a message that cannot be read; a node that is
    /// no single leaf is refused; a message whose hash is not the hash in
    /// the leaf fails the integrity check.
    pub open spec fn outcome(
        leaf: Option<Seq<u8>>,
        messages: &Core,
        r: Result<&[u8], IsoCoreError>,
    ) -> bool {
        match leaf {
            None => r matches Err(IsoCoreError::Core(_)),
            Some(text) => match parsed_node(text) {
                Err(d) => r matches Err(e) && e.is_defect(d),
                Ok(cs) => if cs.len() != 1 || cs[0].node_type != NodeType::Leaf {
                    r matches Err(IsoCoreError::NodeFormat)
                } else if cs[0].index >= messages.next_id.0 {
                    r matches Err(IsoCoreError::Core(CoreError::FutureMessage))
                } else {
                    match messages.message(cs[0].index) {
                        None => r matches Err(IsoCoreError::Core(_)),
                        Some(data) => if blake3_digest(data) == cs[0].hash {
                            r matches Ok(b) && b@ == data
                        } else {
                            r matches Err(IsoCoreError::IntegrityError)
                        },
                    }
                },
            },
        }
    }

    /// The message of an item, after its hash has been held against the
    /// hash that the item's leaf holds.
    ///
    /// A message whose hash is not the one that its leaf holds is refused
    /// as an `IntegrityError`. In a log whose cores are in step, every item
    /// is read as the message that was appended.
    pub fn get_message(&mut self, item_id: ItemId) -> (r: Result<&[u8], IsoCoreError>)
        requires
            old(self).wf(),
        ensures
            final(self).wf(),
            final(self).signer == old(self).signer,
            Core::extends(&old(self).data_core, &final(self).data_core),
            Core::extends(&old(self).verkle_core, &final(self).verkle_core),
            final(self).sig_core == old(self).sig_core,
            final(self).data_core.next_id == old(self).data_core.next_id,
            final(self).verkle_core.next_id == old(self).verkle_core.next_id,
            item_id.0 >= old(self).data_core.next_id.0 ==> r matches Err(
                IsoCoreError::Core(CoreError::FutureMessage),
            ),
            item_id.0 < old(self).data_core.next_id.0 ==> Self::outcome(
                old(self).leaf_of(item_id.0),
                &old(self).data_core,
                r,
            ),
            old(self).inv() && item_id.0 < old(self).data_core.next_id.0 ==> (r matches Ok(b)
                && Some(b@) == old(self).data_core.message(item_id.0)) && final(self).inv(),
    {
        if item_id.0 >= self.len().0 {
            return Err(IsoCoreError::Core(CoreError::FutureMessage));
        }
        let ghost s0 = *self;
        proof {
            lemma_width_valid();
            lemma_coverings_fit((item_id.0 + 1) as nat);
            if s0.inv() {
                lemma_leaf_of_item(&s0, item_id.0);
            }
        }
        let coverings = coverings_for_item(item_id, WIDTH);
        let leaf_node = match self.get_node(coverings.start) {
            Ok(n) => n,
            Err(e) => {
                return Err(e);
            },
        };
        if leaf_node.children.len() != 1 {
            proof {
                assert(leaf_node@.len() == leaf_node.children@.len());
            }
            return Err(IsoCoreError::NodeFormat);
        }
        let leaf = leaf_node.children[0];
        proof {
            assert(leaf_node@.len() == leaf_node.children@.len());
            assert(leaf_node@[0] == leaf@);
        }
        match leaf.node_type {
            NodeType::Leaf => {},
            NodeType::Branch => {
                return Err(IsoCoreError::NodeFormat);
            },
        }
        let ghost s1 = *self;
        proof {
            if s0.inv() {
                lemma_extends_refl(&s0.data_core);
                lemma_kept(&s0, &s1);
                assert forall|b: IsoCore|
                    b.wf() && b.signer == s0.signer && Core::extends(&s0.data_core, &b.data_core)
                        && Core::extends(&s0.verkle_core, &b.verkle_core) && Core::extends(
                        &s0.sig_core,
                        &b.sig_core,
                    ) && b.data_core.next_id == s0.data_core.next_id && b.verkle_core.next_id
                        == s0.verkle_core.next_id && b.sig_core.next_id
                        == s0.sig_core.next_id implies #[trigger] b.inv() by {
                    lemma_inv_kept(&s0, &b);
                }
            }
        }
        let data = match self.data_core.get_contents(leaf.index) {
            Ok(d) => d,
            Err(e) => {
                return Err(IsoCoreError::Core(e));
            },
        };
        let actual_hash = hash(data);
        if !actual_hash.same(&leaf.hash) {
            return Err(IsoCoreError::IntegrityError);
        }
        Ok(data)
    }

    /// Number of messages in the log.
    pub fn len(&self) -> (n: MessageId)
        ensures
            n == self.data_core.next_id,
    {
        self.data_core.len()
    }

    /// Reads a node into the cache of the verkle core.
    fn load_node(&mut self, covering_id: CoveringId) -> (r: Result<(), IsoCoreError>)
        requires
            old(self).wf(),
        ensures
            final(self).wf(),
            final(self).signer == old(self).signer,
            final(self).data_core == old(self).data_core,
            final(self).sig_core == old(self).sig_core,
            Core::extends(&old(self).verkle_core, &final(self).verkle_core),
            final(self).verkle_core.next_id == old(self).verkle_core.next_id,
            final(self).verkle_core.disk == old(self).verkle_core.disk,
            r matches Err(e) ==> e.of_store(),
            covering_id.0 >= old(self).verkle_core.next_id.0 ==> r matches Err(
                IsoCoreError::Core(_),
            ),
            covering_id.0 < old(self).verkle_core.next_id.0 ==> match old(self).verkle_core.message(covering_id.0) {
                Some(text) => r is Ok && final(self).verkle_core.cached(covering_id.0) && final(self).verkle_core.contents(covering_id.0) == text,
                None => r matches Err(IsoCoreError::Core(_)),
            },
    {
        match self.verkle_core.load_message(MessageId(covering_id.0)) {
            Ok(_) => Ok(()),
            Err(e) => Err(IsoCoreError::Core(e)),
        }
    }

    /// The node at a covering index.
    fn get_node(&mut self, covering_id: CoveringId) -> (r: Result<VerkleNode, IsoCoreError>)
        requires
            old(self).wf(),
        ensures
            final(self).wf(),
            final(self).signer == old(self).signer,
            final(self).data_core == old(self).data_core,
            final(self).sig_core == old(self).sig_core,
            Core::extends(&old(self).verkle_core, &final(self).verkle_core),
            final(self).verkle_core.next_id == old(self).verkle_core.next_id,
            final(self).verkle_core.disk == old(self).verkle_core.disk,
            r matches Err(e) ==> e.of_store(),
            covering_id.0 >= old(self).verkle_core.next_id.0 ==> r matches Err(
                IsoCoreError::Core(_),
            ),
            covering_id.0 < old(self).verkle_core.next_id.0 ==> match old(self).verkle_core.message(covering_id.0) {
                Some(text) => match parsed_node(text) {
                    Ok(cs) => r matches Ok(node) && node@ == cs,
                    Err(d) => r matches Err(e) && e.is_defect(d),
                },
                None => r matches Err(IsoCoreError::Core(_)),
            },
            old(self).readable(covering_id.0) ==> (r matches Ok(node) && node@ == old(self).children_at(covering_id.0)),
    {
        match self.load_node(covering_id) {
            Ok(_) => {},
            Err(e) => {
                return Err(e);
            },
        }
        let bytes = match self.verkle_core.get_contents(MessageId(covering_id.0)) {
            Ok(b) => b,
            Err(e) => {
                return Err(IsoCoreError::Core(e));
            },
        };
        VerkleNode::from_bytes(bytes)
    }
}

} // verus!
