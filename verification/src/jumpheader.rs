//! The logarithmic skip list that links a frame to earlier frames.
//!
//! Frame `n` points back at the frames whose indices are the partial sums of
//! the binary digits of `n - 1`, taken from the highest digit down. For
//! `n = 24`, `23 = 16 + 4 + 2 + 1` and the frame points at 16, 20, 22 and 23.
//! Any earlier frame is reached in a number of jumps logarithmic in `n`.

use vstd::prelude::*;
use vstd::arithmetic::power2::{pow2, lemma_pow2_pos, lemma_pow2_unfold, lemma2_to64, lemma2_to64_rest};
use crate::neopack::types::{Tag, Error};
use crate::neopack::wire::{Value, framed, parse, payload_at};
use crate::neopack::encoder::{Encoder, ListEncoder, PatchScope};
use crate::neopack::decoder::{Reader, ListIter, ValueReader};
use crate::neopack::laws::{lemma_round_trip, lemma_finish_frames_body, lemma_payload_width};

verus! {

/// Every element of `s`, times `c`.
pub open spec fn scaled(s: Seq<nat>, c: nat) -> Seq<nat> {
    Seq::new(s.len(), |i: int| s[i] * c)
}

/// The partial sums of the binary digits of `m`, from the highest digit
/// down: those of `m / 2` doubled, and `m` itself where it is odd.
pub open spec fn prefix_sums(m: nat) -> Seq<nat>
    decreases m,
{
    if m == 0 {
        Seq::empty()
    } else if m % 2 == 1 {
        scaled(prefix_sums(m / 2), 2).push(m)
    } else {
        scaled(prefix_sums(m / 2), 2)
    }
}

/// The indices of the frames that frame `n` points back at.
pub open spec fn jump_indices(n: nat) -> Seq<nat> {
    if n == 0 {
        Seq::empty()
    } else {
        prefix_sums((n - 1) as nat)
    }
}

/// Number of ones among the binary digits of `m`.
pub open spec fn popcount(m: nat) -> nat
    decreases m,
{
    if m == 0 {
        0
    } else {
        m % 2 + popcount(m / 2)
    }
}

/// Number of binary digits of `m`; for `m = n - 1` the least `k` with
/// `n <= 2^k`.
pub open spec fn bit_length(m: nat) -> nat
    decreases m,
{
    if m == 0 {
        0
    } else {
        1 + bit_length(m / 2)
    }
}

/// The numbers of a `u64` sequence.
pub open spec fn as_nats(s: Seq<u64>) -> Seq<nat> {
    Seq::new(s.len(), |i: int| s[i] as nat)
}

/// Scaling twice is scaling by the product.
proof fn lemma_scaled_twice(s: Seq<nat>, a: nat, b: nat)
    ensures
        scaled(scaled(s, a), b) == scaled(s, a * b),
{
    assert forall|i: int| 0 <= i < s.len() implies scaled(scaled(s, a), b)[i] == scaled(
        s,
        a * b,
    )[i] by {
        assert(s[i] * a * b == s[i] * (a * b)) by (nonlinear_arith);
    }
    assert(scaled(scaled(s, a), b) =~= scaled(s, a * b));
}

/// One more binary digit: the partial sums of `y` scaled by `c` are those of
/// `y / 2` scaled by `2 * c`, and `y * c` where `y` is odd.
proof fn lemma_prefix_sums_step(y: nat, c: nat)
    ensures
        scaled(prefix_sums(y), c) == if y % 2 == 1 {
            scaled(prefix_sums(y / 2), 2 * c).push(y * c)
        } else {
            scaled(prefix_sums(y / 2), 2 * c)
        },
{
    let half = prefix_sums(y / 2);
    lemma_scaled_twice(half, 2, c);
    if y == 0 {
        assert(scaled(prefix_sums(y), c) =~= scaled(half, 2 * c));
    } else if y % 2 == 1 {
        assert(scaled(scaled(half, 2).push(y), c) =~= scaled(scaled(half, 2), c).push(y * c));
    }
}

/// Taking the digit at `b` into account: what the partial sums and their
/// last member become when the digits from `b + 1` up have been seen and the
/// digit at `b` comes next.
proof fn lemma_next_digit(m: nat, b: nat)
    ensures
        ({
            let hi = m / pow2(b + 1);
            let y = m / pow2(b);
            let sums = scaled(prefix_sums(hi), pow2(b + 1));
            &&& y * pow2(b) <= m
            &&& y % 2 == 1 ==> y * pow2(b) == hi * pow2(b + 1) + pow2(b) && scaled(
                prefix_sums(y),
                pow2(b),
            ) == sums.push(y * pow2(b))
            &&& y % 2 == 0 ==> y * pow2(b) == hi * pow2(b + 1) && scaled(prefix_sums(y), pow2(b))
                == sums
        }),
{
    let c = pow2(b);
    let y = m / c;
    let hi = m / pow2(b + 1);
    lemma_pow2_unfold(b + 1);
    lemma_pow2_pos(b);
    assert(pow2(b + 1) == 2 * c);
    assert(hi == y / 2) by {
        vstd::arithmetic::div_mod::lemma_div_denominator(m as int, c as int, 2);
        assert(c * 2 == 2 * c);
    }
    lemma_prefix_sums_step(y, c);
    assert(y == 2 * (y / 2) + y % 2);
    assert(y * c == (y / 2) * (2 * c) + (y % 2) * c) by (nonlinear_arith)
        requires
            y == 2 * (y / 2) + y % 2,
    ;
    if y % 2 == 1 {
        assert((y % 2) * c == c) by (nonlinear_arith)
            requires
                y % 2 == 1,
        ;
    } else {
        assert((y % 2) * c == 0) by (nonlinear_arith)
            requires
                y % 2 == 0,
        ;
    }
    assert(y * c <= m) by {
        vstd::arithmetic::div_mod::lemma_fundamental_div_mod(m as int, c as int);
        assert(c * y == y * c) by (nonlinear_arith);
    }
}

/// The frames that frame `frame_index` points back at, nearest last.
pub fn compute_jump_indices(frame_index: u64) -> (jumps: Vec<u64>)
    ensures
        as_nats(jumps@) == jump_indices(frame_index as nat),
{
    if frame_index == 0 {
        let none: Vec<u64> = Vec::new();
        assert(as_nats(none@) =~= jump_indices(0));
        return none;
    }
    let n_minus_1: u64 = frame_index - 1;
    let mut jumps: Vec<u64> = Vec::new();
    let mut accumulator: u64 = 0;
    let mut bit_pos: u32 = 64;
    proof {
        lemma2_to64_rest();
        assert(n_minus_1 as nat / pow2(64) == 0);
        assert(as_nats(jumps@) =~= scaled(prefix_sums(0), pow2(64)));
    }
    while bit_pos > 0
        invariant
            bit_pos <= 64,
            as_nats(jumps@) == scaled(
                prefix_sums(n_minus_1 as nat / pow2(bit_pos as nat)),
                pow2(bit_pos as nat),
            ),
            accumulator == (n_minus_1 as nat / pow2(bit_pos as nat)) * pow2(bit_pos as nat),
        decreases bit_pos,
    {
        bit_pos = bit_pos - 1;
        let power_of_two: u64 = 1u64 << bit_pos;
        let set: bool = (n_minus_1 & power_of_two) != 0;
        proof {
            lemma_bit_of(n_minus_1, bit_pos);
            lemma_next_digit(n_minus_1 as nat, bit_pos as nat);
        }
        if set {
            let ghost before = jumps@;
            accumulator = accumulator + power_of_two;
            jumps.push(accumulator);
            assert(as_nats(jumps@) =~= as_nats(before).push(accumulator as nat));
        }
    }
    proof {
        lemma2_to64();
        assert(pow2(0) == 1);
        assert(n_minus_1 as nat / 1 == n_minus_1 as nat);
        assert(scaled(prefix_sums(n_minus_1 as nat), 1) =~= prefix_sums(n_minus_1 as nat));
    }
    jumps
}

/// Testing a bit with a mask is testing the parity of the quotient by the
/// bit's power of two.
proof fn lemma_bit_of(m: u64, b: u32)
    requires
        b < 64,
    ensures
        (1u64 << b) == pow2(b as nat),
        ((m & (1u64 << b)) != 0) == ((m as nat / pow2(b as nat)) % 2 == 1),
{
    let bb = b as u64;
    assert(1u64 << b == 1u64 << bb) by (bit_vector)
        requires
            bb == b as u64,
    ;
    vstd::bits::lemma_u64_pow2_no_overflow(b as nat);
    assert(1 * pow2(b as nat) == pow2(b as nat));
    vstd::bits::lemma_u64_shl_is_mul(1, bb);
    vstd::bits::lemma_u64_shr_is_div(m, bb);
    assert(((m & (1u64 << bb)) != 0) == (((m >> bb) & 1) == 1)) by (bit_vector)
        requires
            bb < 64,
    ;
    let q = m >> bb;
    assert((q & 1) == q % 2) by (bit_vector);
}

/// The first element of `s` that is at least `to`.
pub open spec fn first_at_least(s: Seq<nat>, to: nat) -> Option<nat>
    decreases s.len(),
{
    if s.len() == 0 {
        None
    } else if s[0] >= to {
        Some(s[0])
    } else {
        first_at_least(s.drop_first(), to)
    }
}

/// Where a walk from frame `current` towards frame `to` goes next: to the
/// nearest frame that `current` points back at and that does not lie before
/// `to`. Frame 1 points at no frame and is followed by frame 0.
pub open spec fn next_hop(current: nat, to: nat) -> nat {
    match first_at_least(jump_indices(current), to) {
        Some(h) => h,
        None => 0,
    }
}

/// The frames that a walk from `from` back to `to` visits, both included.
pub open spec fn jump_path(from: nat, to: nat) -> Seq<nat>
    decreases from,
{
    if to < from && next_hop(from, to) < from {
        seq![from] + jump_path(next_hop(from, to), to)
    } else {
        seq![from]
    }
}

/// The partial sums of `m` are as many as `m` has ones, they grow strictly,
/// none is zero, and the last one is `m`.
pub proof fn lemma_prefix_sums_shape(m: nat)
    ensures
        prefix_sums(m).len() == popcount(m),
        forall|i: int, j: int|
            0 <= i < j < prefix_sums(m).len() ==> prefix_sums(m)[i] < prefix_sums(m)[j],
        forall|i: int| 0 <= i < prefix_sums(m).len() ==> 1 <= #[trigger] prefix_sums(m)[i] <= m,
        m > 0 ==> prefix_sums(m).len() > 0 && prefix_sums(m).last() == m,
    decreases m,
{
    if m > 0 {
        lemma_prefix_sums_shape(m / 2);
        let half = prefix_sums(m / 2);
        let d = scaled(half, 2);
        assert forall|i: int| 0 <= i < d.len() implies 1 <= #[trigger] d[i] <= m - m % 2 by {
            assert(1 <= half[i] <= m / 2);
        }
        if m / 2 > 0 {
            assert(d.last() == 2 * (m / 2));
        }
    }
}

/// The `first_at_least` of a sequence is its first element that reaches
/// `to`; there is one as soon as any element reaches `to`.
pub proof fn lemma_first_at_least(s: Seq<nat>, to: nat)
    ensures
        match first_at_least(s, to) {
            Some(h) => exists|i: int|
                0 <= i < s.len() && s[i] == h && h >= to && forall|j: int|
                    0 <= j < i ==> s[j] < to,
            None => forall|j: int| 0 <= j < s.len() ==> s[j] < to,
        },
    decreases s.len(),
{
    if s.len() > 0 && s[0] < to {
        let t = s.drop_first();
        lemma_first_at_least(t, to);
        match first_at_least(t, to) {
            Some(h) => {
                let i = choose|i: int|
                    0 <= i < t.len() && t[i] == h && h >= to && forall|j: int|
                        0 <= j < i ==> t[j] < to;
                assert(s[i + 1] == h);
                assert forall|j: int| 0 <= j < i + 1 implies s[j] < to by {
                    if j > 0 {
                        assert(t[j - 1] < to);
                    }
                }
            },
            None => {
                assert forall|j: int| 0 <= j < s.len() implies s[j] < to by {
                    if j > 0 {
                        assert(t[j - 1] < to);
                    }
                }
            },
        }
    } else if s.len() > 0 {
        assert(s[0] >= to);
    }
}

/// A walk makes progress without overshooting: the next hop lies at or
/// behind the target and before the current frame, and it is one of the
/// frames that the current frame points at, or frame 0 behind frame 1.
pub proof fn lemma_next_hop(current: nat, to: nat)
    requires
        to < current,
    ensures
        to <= next_hop(current, to) < current,
        current >= 2 ==> first_at_least(jump_indices(current), to) is Some && jump_indices(
            current,
        ).contains(next_hop(current, to)),
        current == 1 ==> next_hop(current, to) == 0,
        forall|x: nat|
            jump_indices(current).contains(x) && x >= to ==> next_hop(current, to) <= x,
{
    let s = jump_indices(current);
    lemma_prefix_sums_shape((current - 1) as nat);
    lemma_first_at_least(s, to);
    if current >= 2 {
        assert(s.last() == current - 1);
        assert(s[s.len() - 1] >= to);
        let h = first_at_least(s, to)->Some_0;
        let i = choose|i: int|
            0 <= i < s.len() && s[i] == h && h >= to && forall|j: int| 0 <= j < i ==> s[j] < to;
        assert(s.contains(h));
        assert forall|x: nat| s.contains(x) && x >= to implies h <= x by {
            let k = choose|k: int| 0 <= k < s.len() && s[k] == x;
            if k < i {
                assert(s[k] < to);
            }
        }
    } else {
        assert(prefix_sums(0).len() == 0);
    }
}

/// The first of `jumps` that is at least `to`.
fn first_not_below(jumps: &Vec<u64>, to: u64) -> (r: Option<u64>)
    ensures
        match first_at_least(as_nats(jumps@), to as nat) {
            Some(h) => r == Some(h as u64) && h <= u64::MAX,
            None => r is None,
        },
{
    let mut i: usize = 0;
    let ghost all = as_nats(jumps@);
    proof {
        assert(all.subrange(0, all.len() as int) =~= all);
    }
    while i < jumps.len()
        invariant
            i <= jumps.len(),
            all == as_nats(jumps@),
            first_at_least(all, to as nat) == first_at_least(
                all.subrange(i as int, all.len() as int),
                to as nat,
            ),
        decreases jumps.len() - i,
    {
        let ghost rest = all.subrange(i as int, all.len() as int);
        proof {
            assert(rest[0] == jumps@[i as int] as nat);
            assert(rest.drop_first() =~= all.subrange(i + 1, all.len() as int));
        }
        if jumps[i] >= to {
            return Some(jumps[i]);
        }
        i = i + 1;
    }
    proof {
        assert(all.subrange(i as int, all.len() as int).len() == 0);
    }
    None
}

/// The frames to visit on the way from frame `from` back to frame `to`, or
/// nothing where `to` does not lie before `from`.
pub fn find_jump_path(from: u64, to: u64) -> (r: Option<Vec<u64>>)
    ensures
        to >= from ==> r is None,
        to < from ==> (r matches Some(p) && as_nats(p@) == jump_path(from as nat, to as nat)),
{
    if to >= from {
        return None;
    }
    let mut path: Vec<u64> = Vec::new();
    path.push(from);
    let mut current: u64 = from;
    proof {
        assert(all_but_last(as_nats(path@)) + jump_path(current as nat, to as nat) =~= jump_path(
            from as nat,
            to as nat,
        ));
    }
    while current > to
        invariant
            to <= current <= from,
            path@.len() > 0,
            path@.last() == current,
            all_but_last(as_nats(path@)) + jump_path(current as nat, to as nat) == jump_path(
                from as nat,
                to as nat,
            ),
        decreases current,
    {
        let jumps = compute_jump_indices(current);
        proof {
            lemma_next_hop(current as nat, to as nat);
        }
        let next: u64 = match first_not_below(&jumps, to) {
            Some(j) => j,
            None => {
                if jumps.len() == 0 && to == 0 {
                    0
                } else {
                    return None;
                }
            },
        };
        let ghost before = as_nats(path@);
        path.push(next);
        proof {
            let walked = as_nats(path@);
            assert(walked =~= before.push(next as nat));
            assert(all_but_last(walked) =~= all_but_last(before).push(current as nat));
            assert(all_but_last(walked) + jump_path(next as nat, to as nat) =~= all_but_last(before)
                + jump_path(current as nat, to as nat));
        }
        current = next;
    }
    proof {
        assert(as_nats(path@) =~= all_but_last(as_nats(path@)) + jump_path(
            current as nat,
            to as nat,
        ));
    }
    Some(path)
}

/// A sequence without its last element.
pub open spec fn all_but_last(s: Seq<nat>) -> Seq<nat> {
    s.subrange(0, s.len() - 1)
}

/// What stands at the head of every frame: the frame's number, the sizes of
/// its body before and after compression, and the file offsets of the
/// headers of the frames it points back at.
#[derive(Debug, Clone)]
pub struct FrameHeader {
    pub frame_number: u64,
    pub compressed_size: u64,
    pub decompressed_size: u64,
    pub jump_offsets: Vec<u64>,
}

/// A frame header as a mathematical value.
pub struct Header {
    pub frame_number: u64,
    pub compressed_size: u64,
    pub decompressed_size: u64,
    pub jump_offsets: Seq<u64>,
}

impl View for FrameHeader {
    type V = Header;

    open spec fn view(&self) -> Header {
        Header {
            frame_number: self.frame_number,
            compressed_size: self.compressed_size,
            decompressed_size: self.decompressed_size,
            jump_offsets: self.jump_offsets@,
        }
    }
}

/// The encodings of the offsets as `U64` values, one after the other.
pub open spec fn offsets_encoding(offsets: Seq<u64>) -> Seq<u8>
    decreases offsets.len(),
{
    if offsets.len() == 0 {
        Seq::empty()
    } else {
        Value::U64(offsets[0]).encoding() + offsets_encoding(offsets.drop_first())
    }
}

/// The `U64` values that fill `s` from `pos` on.
pub open spec fn offsets_in(s: Seq<u8>, pos: int) -> Result<Seq<u64>, Error>
    decreases s.len() - pos,
{
    if pos >= s.len() {
        Ok(Seq::empty())
    } else {
        match parse(s, pos) {
            Err(e) => Err(e),
            Ok((Value::U64(x), n)) => if n <= 0 || pos + n > s.len() {
                Err(Error::Malformed)
            } else {
                match offsets_in(s, pos + n) {
                    Ok(rest) => Ok(seq![x] + rest),
                    Err(e) => Err(e),
                }
            },
            Ok(_) => Err(Error::TypeMismatch),
        }
    }
}

/// The `U64` element at `pos` of a list body, and its length on the wire.
pub open spec fn u64_element(s: Seq<u8>, pos: int) -> Result<(u64, int), Error> {
    if pos >= s.len() {
        Err(Error::Malformed)
    } else {
        match parse(s, pos) {
            Err(e) => Err(e),
            Ok((Value::U64(x), n)) => Ok((x, n)),
            Ok(_) => Err(Error::TypeMismatch),
        }
    }
}

/// The list element at `pos` of a list body: the bytes of its own body.
pub open spec fn list_element(s: Seq<u8>, pos: int) -> Result<Seq<u8>, Error> {
    if pos >= s.len() {
        Err(Error::Malformed)
    } else {
        match parse(s, pos) {
            Err(e) => Err(e),
            Ok((Value::List(b), _)) => Ok(b),
            Ok(_) => Err(Error::TypeMismatch),
        }
    }
}

impl Header {
    /// The four elements of the header's list, one after the other.
    pub open spec fn body(self) -> Seq<u8> {
        Value::U64(self.frame_number).encoding() + Value::U64(self.compressed_size).encoding()
            + Value::U64(self.decompressed_size).encoding() + Value::List(
            offsets_encoding(self.jump_offsets),
        ).encoding()
    }

    /// Why a header that does not fit its length prefix is refused: the
    /// list of its offsets is too long, or else its own list is.
    pub open spec fn refusal(self) -> Error {
        Error::BlobTooLarge(
            if 9 * self.jump_offsets.len() > u32::MAX {
                (9 * self.jump_offsets.len()) as usize
            } else {
                self.body().len() as usize
            },
        )
    }

    /// The header on the wire: a list of three `U64` and a list of `U64`.
    pub open spec fn encoding(self) -> Seq<u8> {
        Value::List(self.body()).encoding()
    }

    /// The header that the bytes start with. What follows the header's list,
    /// and what follows the fourth element within it, is not looked at.
    #[verifier::opaque]
    pub open spec fn decoded(bytes: Seq<u8>) -> Result<Header, Error> {
        match payload_at(bytes, 0, Tag::List) {
            Err(e) => Err(e),
            Ok(b) => match u64_element(b, 0) {
                Err(e) => Err(e),
                Ok((frame_number, n1)) => match u64_element(b, n1) {
                    Err(e) => Err(e),
                    Ok((compressed_size, n2)) => match u64_element(b, n1 + n2) {
                        Err(e) => Err(e),
                        Ok((decompressed_size, n3)) => match list_element(b, n1 + n2 + n3) {
                            Err(e) => Err(e),
                            Ok(inner) => match offsets_in(inner, 0) {
                                Err(e) => Err(e),
                                Ok(jump_offsets) => Ok(
                                    Header {
                                        frame_number,
                                        compressed_size,
                                        decompressed_size,
                                        jump_offsets,
                                    },
                                ),
                            },
                        },
                    },
                },
            },
        }
    }
}

/// Nine bytes for each offset.
pub proof fn lemma_offsets_encoding_len(offsets: Seq<u64>)
    ensures
        offsets_encoding(offsets).len() == 9 * offsets.len(),
    decreases offsets.len(),
{
    if offsets.len() > 0 {
        lemma_payload_width(Value::U64(offsets[0]));
        lemma_offsets_encoding_len(offsets.drop_first());
    }
}

/// One more offset at the end is one more encoding at the end.
proof fn lemma_offsets_encoding_push(offsets: Seq<u64>, x: u64)
    ensures
        offsets_encoding(offsets.push(x)) == offsets_encoding(offsets) + Value::U64(x).encoding(),
    decreases offsets.len(),
{
    if offsets.len() == 0 {
        assert(offsets.push(x).drop_first() =~= Seq::<u64>::empty());
        assert(offsets_encoding(offsets.push(x).drop_first()) =~= Seq::<u8>::empty());
        assert(offsets_encoding(offsets.push(x)) =~= Value::U64(x).encoding());
        assert(offsets_encoding(offsets) + Value::U64(x).encoding() =~= Value::U64(x).encoding());
    } else {
        assert(offsets.push(x).drop_first() =~= offsets.drop_first().push(x));
        lemma_offsets_encoding_push(offsets.drop_first(), x);
        assert(offsets_encoding(offsets.push(x)) =~= offsets_encoding(offsets) + Value::U64(
            x,
        ).encoding());
    }
}

/// Appends the offsets to a list that has just been opened or is being
/// filled.
fn push_offsets<'a>(jumps: ListEncoder<'a>, offsets: &Vec<u64>) -> (r: ListEncoder<'a>)
    requires
        jumps.scope.wf(),
    ensures
        r.scope.wf(),
        PatchScope::grown(&jumps.scope, &r.scope, offsets_encoding(offsets@)),
        *final(r.scope.parent) == *final(jumps.scope.parent),
{
    let mut list = jumps;
    let mut i: usize = 0;
    proof {
        assert(offsets@.take(0) =~= Seq::<u64>::empty());
        assert(list.scope.parent.buf@ =~= jumps.scope.parent.buf@ + offsets_encoding(
            offsets@.take(0),
        ));
    }
    while i < offsets.len()
        invariant
            i <= offsets.len(),
            list.scope.wf(),
            PatchScope::grown(&jumps.scope, &list.scope, offsets_encoding(offsets@.take(i as int))),
            *final(list.scope.parent) == *final(jumps.scope.parent),
        decreases offsets.len() - i,
    {
        let ghost before = list.scope.parent.buf@;
        match list.u64(offsets[i]) {
            Ok(_) => {},
            Err(_) => {},
        }
        proof {
            assert(offsets@.take(i + 1) =~= offsets@.take(i as int).push(offsets@[i as int]));
            lemma_offsets_encoding_push(offsets@.take(i as int), offsets@[i as int]);
            assert(list.scope.parent.buf@ =~= jumps.scope.parent.buf@ + offsets_encoding(
                offsets@.take(i + 1),
            ));
        }
        i = i + 1;
    }
    proof {
        assert(offsets@.take(offsets@.len() as int) =~= offsets@);
    }
    list
}

impl FrameHeader {
    pub fn new(
        frame_number: u64,
        compressed_size: u64,
        decompressed_size: u64,
        jump_offsets: Vec<u64>,
    ) -> (h: Self)
        ensures
            h.frame_number == frame_number,
            h.compressed_size == compressed_size,
            h.decompressed_size == decompressed_size,
            h.jump_offsets == jump_offsets,
    {
        FrameHeader { frame_number, compressed_size, decompressed_size, jump_offsets }
    }

    /// The header on the wire. A header with so many offsets that a length
    /// prefix cannot say its size is refused.
    pub fn encode(&self) -> (r: Result<Vec<u8>, Error>)
        ensures
            r is Ok <==> self@.body().len() <= u32::MAX,
            r matches Ok(b) ==> b@ == self@.encoding(),
            r matches Err(e) ==> e == self@.refusal(),
    {
        let ghost offs = offsets_encoding(self.jump_offsets@);
        let ghost e1 = Value::U64(self.frame_number).encoding();
        let ghost e2 = Value::U64(self.compressed_size).encoding();
        let ghost e3 = Value::U64(self.decompressed_size).encoding();
        proof {
            vstd::bytes::lemma_auto_spec_u32_to_from_le_bytes();
            lemma_offsets_encoding_len(self.jump_offsets@);
            lemma_payload_width(Value::U64(self.frame_number));
            lemma_payload_width(Value::U64(self.compressed_size));
            lemma_payload_width(Value::U64(self.decompressed_size));
            lemma_payload_width(Value::List(offs));
        }
        let mut enc = Encoder::new();
        let mut list = enc.list();
        let ghost opened = list.scope.parent.buf@;
        match list.u64(self.frame_number) {
            Ok(_) => {},
            Err(e) => {
                return Err(e);
            },
        }
        match list.u64(self.compressed_size) {
            Ok(_) => {},
            Err(e) => {
                return Err(e);
            },
        }
        match list.u64(self.decompressed_size) {
            Ok(_) => {},
            Err(e) => {
                return Err(e);
            },
        }
        let ghost before_jumps = list.scope.parent.buf@;
        let jumps = list.list();
        let jumps = push_offsets(jumps, &self.jump_offsets);
        proof {
            lemma_finish_frames_body(before_jumps, Tag::List, offs);
            assert(jumps.scope.body() =~= offs);
        }
        match jumps.finish() {
            Ok(_) => {},
            Err(e) => {
                return Err(e);
            },
        }
        proof {
            assert(list.scope.parent.buf@ == before_jumps + framed(Tag::List, offs));
            assert(list.scope.parent.buf@ =~= opened + self@.body());
            assert(list.scope.body() =~= self@.body());
            lemma_finish_frames_body(Seq::<u8>::empty(), Tag::List, self@.body());
            assert(opened =~= Seq::<u8>::empty().push(Tag::List.byte())
                + crate::neopack::encoder::len_slot());
        }
        match list.finish() {
            Ok(_) => {},
            Err(e) => {
                return Err(e);
            },
        }
        proof {
            assert(Seq::<u8>::empty() + framed(Tag::List, self@.body()) =~= self@.encoding());
        }
        Ok(enc.into_bytes())
    }

    /// Reads a header back from the wire.
    pub fn decode(bytes: &[u8]) -> (r: Result<FrameHeader, Error>)
        ensures
            match Header::decoded(bytes@) {
                Ok(h) => r matches Ok(x) && x@ == h,
                Err(e) => r matches Err(x) && x == e,
            },
    {
        reveal(Header::decoded);
        let mut dec = Reader::new(bytes);
        let mut list = match dec.list() {
            Ok(l) => l,
            Err(e) => {
                return Err(e);
            },
        };
        proof {
            assert(list.reader.rest() =~= list.reader.buf@);
        }
        let frame_number = match next_u64(&mut list) {
            Ok(x) => x,
            Err(e) => {
                return Err(e);
            },
        };
        let compressed_size = match next_u64(&mut list) {
            Ok(x) => x,
            Err(e) => {
                return Err(e);
            },
        };
        let decompressed_size = match next_u64(&mut list) {
            Ok(x) => x,
            Err(e) => {
                return Err(e);
            },
        };
        let jump_list = match next_list(&mut list) {
            Ok(l) => l,
            Err(e) => {
                return Err(e);
            },
        };
        let jump_offsets = match read_offsets(jump_list) {
            Ok(o) => o,
            Err(e) => {
                return Err(e);
            },
        };
        Ok(FrameHeader { frame_number, compressed_size, decompressed_size, jump_offsets })
    }
}

/// The next element of a list, which must be a `U64`.
fn next_u64<'a>(list: &mut ListIter<'a>) -> (r: Result<u64, Error>)
    requires
        old(list).wf(),
    ensures
        final(list).wf(),
        final(list).reader.buf == old(list).reader.buf,
        match u64_element(old(list).reader.buf@, old(list).reader.pos as int) {
            Ok((x, n)) => r == Ok::<u64, Error>(x) && final(list).reader.pos == old(list).reader.pos
                + n,
            Err(e) => r == Err::<u64, Error>(e),
        },
{
    match list.next() {
        Err(e) => Err(e),
        Ok(None) => Err(Error::Malformed),
        Ok(Some(v)) => v.as_u64(),
    }
}

/// The next element of a list, which must be a list itself.
fn next_list<'a>(list: &mut ListIter<'a>) -> (r: Result<ListIter<'a>, Error>)
    requires
        old(list).wf(),
    ensures
        match list_element(old(list).reader.buf@, old(list).reader.pos as int) {
            Ok(b) => r matches Ok(l) && l.wf() && l.reader.buf@ == b && l.reader.pos == 0,
            Err(e) => r matches Err(x) && x == e,
        },
{
    match list.next() {
        Err(e) => Err(e),
        Ok(None) => Err(Error::Malformed),
        Ok(Some(ValueReader::List(l))) => {
            proof {
                assert(l.reader.rest() =~= l.reader.buf@);
            }
            Ok(l)
        },
        Ok(Some(_)) => Err(Error::TypeMismatch),
    }
}

/// All elements that a list still holds, which must be `U64` values.
fn read_offsets<'a>(list: ListIter<'a>) -> (r: Result<Vec<u64>, Error>)
    requires
        list.wf(),
    ensures
        match offsets_in(list.reader.buf@, list.reader.pos as int) {
            Ok(o) => r matches Ok(v) && v@ == o,
            Err(e) => r matches Err(x) && x == e,
        },
{
    let mut jump_list = list;
    let mut jump_offsets: Vec<u64> = Vec::new();
    let ghost inner = list.reader.buf@;
    let ghost start = list.reader.pos as int;
    proof {
        if offsets_in(inner, start) is Ok {
            assert(Seq::<u64>::empty() + offsets_in(inner, start)->Ok_0 =~= offsets_in(
                inner,
                start,
            )->Ok_0);
        }
    }
    loop
        invariant
            inner == list.reader.buf@,
            start == list.reader.pos,
            jump_list.wf(),
            jump_list.reader.buf@ == inner,
            match offsets_in(inner, jump_list.reader.pos as int) {
                Ok(rest) => offsets_in(inner, start) == Ok::<Seq<u64>, Error>(jump_offsets@ + rest),
                Err(e) => offsets_in(inner, start) == Err::<Seq<u64>, Error>(e),
            },
        decreases inner.len() - jump_list.reader.pos,
    {
        let ghost collected = jump_offsets@;
        match jump_list.next() {
            Err(e) => {
                return Err(e);
            },
            Ok(None) => {
                proof {
                    assert(jump_offsets@ + Seq::<u64>::empty() =~= jump_offsets@);
                }
                return Ok(jump_offsets);
            },
            Ok(Some(val)) => match val.as_u64() {
                Err(e) => {
                    return Err(e);
                },
                Ok(x) => {
                    jump_offsets.push(x);
                    proof {
                        let rest = offsets_in(inner, jump_list.reader.pos as int);
                        if rest is Ok {
                            assert(collected + (seq![x] + rest->Ok_0) =~= jump_offsets@
                                + rest->Ok_0);
                        }
                    }
                },
            },
        }
    }
}

/// A `U64` that stands in a list body is found there, nine bytes long.
proof fn lemma_u64_element(pre: Seq<u8>, x: u64, rest: Seq<u8>)
    ensures
        Value::U64(x).encoding().len() == 9,
        u64_element(pre + Value::U64(x).encoding() + rest, pre.len() as int) == Ok::<
            (u64, int),
            Error,
        >((x, 9)),
        parse(pre + Value::U64(x).encoding() + rest, pre.len() as int) == Ok::<(Value, int), Error>(
            (Value::U64(x), 9),
        ),
{
    let v = Value::U64(x);
    vstd::bytes::lemma_auto_spec_u64_to_from_le_bytes();
    lemma_payload_width(v);
    lemma_round_trip(pre, v, rest);
}

/// A list that stands in a list body is found there.
proof fn lemma_list_element(pre: Seq<u8>, b: Seq<u8>, rest: Seq<u8>)
    requires
        b.len() <= u32::MAX,
    ensures
        list_element(pre + Value::List(b).encoding() + rest, pre.len() as int) == Ok::<
            Seq<u8>,
            Error,
        >(b),
{
    let v = Value::List(b);
    vstd::bytes::lemma_auto_spec_u32_to_from_le_bytes();
    lemma_payload_width(v);
    lemma_round_trip(pre, v, rest);
}

/// The offsets that were written one after the other are read back in the
/// same order.
pub proof fn lemma_offsets_round_trip(pre: Seq<u8>, offsets: Seq<u64>)
    ensures
        offsets_in(pre + offsets_encoding(offsets), pre.len() as int) == Ok::<Seq<u64>, Error>(
            offsets,
        ),
    decreases offsets.len(),
{
    let s = pre + offsets_encoding(offsets);
    if offsets.len() == 0 {
        assert(s.len() == pre.len());
        assert(offsets =~= Seq::<u64>::empty());
    } else {
        let x = offsets[0];
        let v = Value::U64(x);
        let tail = offsets.drop_first();
        let pos = pre.len() as int;
        lemma_offsets_encoding_len(tail);
        lemma_u64_element(pre, x, offsets_encoding(tail));
        assert(s =~= pre + v.encoding() + offsets_encoding(tail));
        assert(parse(s, pos) == Ok::<(Value, int), Error>((v, 9)));
        lemma_offsets_round_trip(pre + v.encoding(), tail);
        assert(s =~= (pre + v.encoding()) + offsets_encoding(tail));
        assert((pre + v.encoding()).len() == pos + 9);
        assert(offsets_in(s, pos + 9) == Ok::<Seq<u64>, Error>(tail));
        assert(seq![x] + tail =~= offsets);
        assert(pos < s.len());
        assert(pos + 9 <= s.len());
    }
}

/// The four elements of a header are found in its body, each where the
/// ones before it end.
proof fn lemma_header_elements(h: Header)
    requires
        h.body().len() <= u32::MAX,
    ensures
        u64_element(h.body(), 0) == Ok::<(u64, int), Error>((h.frame_number, 9)),
        u64_element(h.body(), 9) == Ok::<(u64, int), Error>((h.compressed_size, 9)),
        u64_element(h.body(), 18) == Ok::<(u64, int), Error>((h.decompressed_size, 9)),
        list_element(h.body(), 27) == Ok::<Seq<u8>, Error>(offsets_encoding(h.jump_offsets)),
        offsets_in(offsets_encoding(h.jump_offsets), 0) == Ok::<Seq<u64>, Error>(h.jump_offsets),
{
    let e1 = Value::U64(h.frame_number).encoding();
    let e2 = Value::U64(h.compressed_size).encoding();
    let e3 = Value::U64(h.decompressed_size).encoding();
    let offs = offsets_encoding(h.jump_offsets);
    let e4 = Value::List(offs).encoding();
    let body = h.body();
    let none = Seq::<u8>::empty();
    lemma_u64_element(none, h.frame_number, e2 + e3 + e4);
    lemma_u64_element(e1, h.compressed_size, e3 + e4);
    lemma_u64_element(e1 + e2, h.decompressed_size, e4);
    assert(u64_element(body, 0) == Ok::<(u64, int), Error>((h.frame_number, 9))) by {
        assert(none + e1 + (e2 + e3 + e4) =~= body);
    }
    assert(u64_element(body, 9) == Ok::<(u64, int), Error>((h.compressed_size, 9))) by {
        assert(e1 + e2 + (e3 + e4) =~= body);
    }
    assert(u64_element(body, 18) == Ok::<(u64, int), Error>((h.decompressed_size, 9))) by {
        assert((e1 + e2) + e3 + e4 =~= body);
    }
    assert(list_element(body, 27) == Ok::<Seq<u8>, Error>(offs)) by {
        lemma_list_element(e1 + e2 + e3, offs, none);
        assert((e1 + e2 + e3) + e4 + none =~= body);
    }
    assert(offsets_in(offs, 0) == Ok::<Seq<u64>, Error>(h.jump_offsets)) by {
        lemma_offsets_round_trip(none, h.jump_offsets);
        assert(none + offs =~= offs);
    }
}

/// A header that fits its length prefix is read back as it was written,
/// whatever follows it.
pub proof fn lemma_header_round_trip(h: Header, rest: Seq<u8>)
    requires
        h.body().len() <= u32::MAX,
    ensures
        Header::decoded(h.encoding() + rest) == Ok::<Header, Error>(h),
{
    let body = h.body();
    let none = Seq::<u8>::empty();
    assert(payload_at(h.encoding() + rest, 0, Tag::List) == Ok::<Seq<u8>, Error>(body)) by {
        lemma_round_trip(none, Value::List(body), rest);
        assert(none + h.encoding() + rest =~= h.encoding() + rest);
    }
    lemma_header_elements(h);
    reveal(Header::decoded);
}

/// The frames that a frame points back at: as many as `n - 1` has ones
/// among its binary digits, none for the first two frames; their indices
/// grow strictly; the last of them is the frame just before.
pub proof fn lemma_jump_indices_shape(n: nat)
    ensures
        n <= 1 ==> jump_indices(n).len() == 0,
        n >= 1 ==> jump_indices(n).len() == popcount((n - 1) as nat),
        forall|i: int, j: int|
            0 <= i < j < jump_indices(n).len() ==> jump_indices(n)[i] < jump_indices(n)[j],
        n >= 2 ==> jump_indices(n).len() > 0 && jump_indices(n).last() == n - 1,
{
    if n >= 1 {
        lemma_prefix_sums_shape((n - 1) as nat);
    }
}

/// A walk from `from` back to an earlier frame `to` starts at `from`, ends
/// at `to`, and goes strictly backwards. Each step follows one of the
/// pointers of the frame it leaves, but for the step from frame 1 to
/// frame 0: frame 1 holds no pointer.
pub proof fn lemma_jump_path_shape(from: nat, to: nat)
    requires
        to <= from,
    ensures
        ({
            let p = jump_path(from, to);
            &&& p.len() >= 1
            &&& p[0] == from
            &&& p.last() == to
            &&& from > to ==> p.len() >= 2
            &&& forall|i: int| 0 <= i < p.len() ==> to <= #[trigger] p[i] <= from
            &&& forall|i: int| 0 <= i < p.len() - 1 ==> #[trigger] p[i + 1] < p[i]
            &&& forall|i: int|
                0 <= i < p.len() - 1 ==> jump_indices(p[i]).contains(#[trigger] p[i + 1]) || (p[i]
                    == 1 && p[i + 1] == 0)
        }),
    decreases from,
{
    if to < from {
        lemma_next_hop(from, to);
        let h = next_hop(from, to);
        lemma_jump_path_shape(h, to);
        let q = jump_path(h, to);
        let p = jump_path(from, to);
        assert(p =~= seq![from] + q);
        assert forall|i: int| 0 <= i < p.len() implies to <= #[trigger] p[i] <= from by {
            if i > 0 {
                assert(p[i] == q[i - 1]);
            }
        }
        assert forall|i: int| 0 <= i < p.len() - 1 implies #[trigger] p[i + 1] < p[i] by {
            if i > 0 {
                assert(p[i] == q[i - 1]);
                assert(p[i + 1] == q[i - 1 + 1]);
            } else {
                assert(p[1] == q[0]);
            }
        }
        assert forall|i: int| 0 <= i < p.len() - 1 implies jump_indices(p[i]).contains(
            #[trigger] p[i + 1],
        ) || (p[i] == 1 && p[i + 1] == 0) by {
            if i > 0 {
                assert(p[i] == q[i - 1]);
                assert(p[i + 1] == q[i - 1 + 1]);
            } else {
                assert(p[1] == q[0]);
            }
        }
    }
}

/// A walk to a frame other than frame 0 follows pointers only: each frame
/// on the path is one of those that its predecessor points back at.
pub proof fn lemma_jump_path_follows_pointers(from: nat, to: nat)
    requires
        1 <= to < from,
    ensures
        forall|i: int|
            0 <= i < jump_path(from, to).len() - 1 ==> jump_indices(
                jump_path(from, to)[i],
            ).contains(#[trigger] jump_path(from, to)[i + 1]),
{
    lemma_jump_path_shape(from, to);
    let p = jump_path(from, to);
    assert forall|i: int| 0 <= i < p.len() - 1 implies jump_indices(p[i]).contains(
        #[trigger] p[i + 1],
    ) by {
        assert(to <= p[i + 1]);
    }
}

/// Whether a number is a power of two.
pub open spec fn is_power_of_two(p: nat) -> bool
    decreases p,
{
    p == 1 || (p > 1 && p % 2 == 0 && is_power_of_two(p / 2))
}

/// How often a number can be halved before it is one or less.
pub open spec fn halvings(p: nat) -> nat
    decreases p,
{
    if p <= 1 {
        0
    } else {
        1 + halvings(p / 2)
    }
}

/// A walk stands at frame `c` within reach of its target `t`: `c` is a
/// multiple of the power of two `p`, and `t` lies in the `p` frames that
/// end with `c`.
pub open spec fn within_reach(c: nat, t: nat, p: nat) -> bool {
    is_power_of_two(p) && c % p == 0 && c >= p && c - p < t <= c
}

/// The frames that lie a power of two before `c`, for the powers below
/// `p`, nearest last.
pub open spec fn steps_before(c: nat, p: nat) -> Seq<nat>
    decreases p,
{
    if p <= 1 {
        Seq::empty()
    } else {
        seq![(c - p / 2) as nat] + steps_before(c, p / 2)
    }
}

/// The partial sums of an even number are those of its half, doubled; an
/// odd number adds itself.
proof fn lemma_prefix_sums_double(x: nat)
    ensures
        prefix_sums(2 * x) == scaled(prefix_sums(x), 2),
        prefix_sums(2 * x + 1) == scaled(prefix_sums(x), 2).push(2 * x + 1),
{
    assert((2 * x) / 2 == x);
    assert((2 * x + 1) / 2 == x);
    if x == 0 {
        assert(scaled(prefix_sums(0), 2) =~= Seq::<nat>::empty());
    }
}

/// An odd multiple of a power of two has the partial sums of the multiple
/// before it, and itself.
proof fn lemma_odd_multiple(q: nat, p: nat)
    requires
        q % 2 == 1,
        is_power_of_two(p),
    ensures
        prefix_sums(q * p) == prefix_sums(((q - 1) * p) as nat).push(q * p),
    decreases p,
{
    if p == 1 {
        let x = q / 2;
        assert(q == 2 * x + 1);
        lemma_prefix_sums_double(x);
        assert(q * 1 == q);
        assert((q - 1) * 1 == 2 * x);
    } else {
        let half = p / 2;
        lemma_odd_multiple(q, half);
        let a = q * half;
        let b = ((q - 1) * half) as nat;
        assert(q * p == 2 * a) by (nonlinear_arith)
            requires
                p == 2 * half,
                a == q * half,
        ;
        assert((q - 1) * p == 2 * b) by (nonlinear_arith)
            requires
                p == 2 * half,
                b == (q - 1) * half,
        ;
        lemma_prefix_sums_double(a);
        lemma_prefix_sums_double(b);
        assert(scaled(prefix_sums(b).push(a), 2) =~= scaled(prefix_sums(b), 2).push(2 * a));
    }
}

/// The frames that a multiple `c` of a power of two `p` points back at are
/// those that `c - p + 1` points back at and the frames that lie the powers
/// below `p` before `c`.
proof fn lemma_pointers_of_multiple(c: nat, p: nat)
    requires
        is_power_of_two(p),
        c % p == 0,
        c >= p,
    ensures
        prefix_sums((c - 1) as nat) == prefix_sums((c - p) as nat) + steps_before(c, p),
    decreases p,
{
    if p == 1 {
        assert(prefix_sums((c - 1) as nat) + Seq::<nat>::empty() =~= prefix_sums((c - 1) as nat));
    } else {
        let half = p / 2;
        let k = c / p;
        vstd::arithmetic::div_mod::lemma_fundamental_div_mod(c as int, p as int);
        assert(c == (2 * k) * half && k >= 1) by (nonlinear_arith)
            requires
                c == p * k,
                p == 2 * half,
                c >= p,
                p > 0,
        ;
        assert(c % half == 0) by {
            vstd::arithmetic::div_mod::lemma_fundamental_div_mod_converse(
                c as int,
                half as int,
                (2 * k) as int,
                0,
            );
        }
        assert(c >= half);
        lemma_pointers_of_multiple(c, half);
        let q = (2 * k - 1) as nat;
        assert(q * half == c - half && (q - 1) * half == c - p) by (nonlinear_arith)
            requires
                c == (2 * k) * half,
                p == 2 * half,
                q == 2 * k - 1,
        ;
        lemma_odd_multiple(q, half);
        assert(prefix_sums((c - p) as nat).push((c - half) as nat) + steps_before(c, half)
            =~= prefix_sums((c - p) as nat) + (seq![(c - half) as nat] + steps_before(c, half)));
    }
}

/// Elements that lie before the target do not matter to the search.
proof fn lemma_first_at_least_skips(a: Seq<nat>, b: Seq<nat>, to: nat)
    requires
        forall|i: int| 0 <= i < a.len() ==> a[i] < to,
    ensures
        first_at_least(a + b, to) == first_at_least(b, to),
    decreases a.len(),
{
    if a.len() == 0 {
        assert(a + b =~= b);
    } else {
        let rest = a.drop_first();
        assert((a + b).drop_first() =~= rest + b);
        assert((a + b)[0] == a[0]);
        assert forall|i: int| 0 <= i < rest.len() implies rest[i] < to by {
            assert(rest[i] == a[i + 1]);
        }
        lemma_first_at_least_skips(rest, b, to);
    }
}

/// Among the frames that lie the powers below `p` before `c`, the first
/// that does not lie before the target is again within reach of it, by a
/// smaller power.
proof fn lemma_step_within_reach(c: nat, t: nat, p: nat) -> (smaller: nat)
    requires
        within_reach(c, t, p),
        t < c,
    ensures
        first_at_least(steps_before(c, p), t) matches Some(h) && within_reach(h, t, smaller) && h
            < c,
        2 * smaller <= p,
    decreases p,
{
    let half = p / 2;
    assert(p > 1);
    let k = c / p;
    vstd::arithmetic::div_mod::lemma_fundamental_div_mod(c as int, p as int);
    assert(c == (2 * k) * half && k >= 1) by (nonlinear_arith)
        requires
            c == p * k,
            p == 2 * half,
            c >= p,
            p > 0,
    ;
    assert(c % half == 0) by {
        vstd::arithmetic::div_mod::lemma_fundamental_div_mod_converse(
            c as int,
            half as int,
            (2 * k) as int,
            0,
        );
    }
    let s = steps_before(c, p);
    assert(s[0] == c - half);
    assert(s.drop_first() =~= steps_before(c, half));
    if c - half >= t {
        let h = (c - half) as nat;
        assert(h == (2 * k - 1) * half) by (nonlinear_arith)
            requires
                c == (2 * k) * half,
                h == c - half,
        ;
        assert(h % half == 0) by {
            vstd::arithmetic::div_mod::lemma_fundamental_div_mod_converse(
                h as int,
                half as int,
                2 * k - 1,
                0,
            );
        }
        half
    } else {
        lemma_step_within_reach(c, t, half)
    }
}

/// Halving less leaves less to halve.
proof fn lemma_halvings_monotone(a: nat, b: nat)
    requires
        a <= b,
    ensures
        halvings(a) <= halvings(b),
    decreases b,
{
    if a > 1 {
        lemma_halvings_monotone(a / 2, b / 2);
    }
}

/// A walk that is within reach of its target by a power of two takes at
/// most as many further steps as that power can be halved.
proof fn lemma_walk_within_reach(c: nat, t: nat, p: nat)
    requires
        within_reach(c, t, p),
        t >= 1,
    ensures
        jump_path(c, t).len() <= 1 + halvings(p),
    decreases p,
{
    if t < c {
        lemma_pointers_of_multiple(c, p);
        lemma_prefix_sums_shape((c - p) as nat);
        let before = prefix_sums((c - p) as nat);
        assert forall|i: int| 0 <= i < before.len() implies before[i] < t by {
            assert(1 <= before[i] <= c - p);
        }
        lemma_first_at_least_skips(before, steps_before(c, p), t);
        let smaller = lemma_step_within_reach(c, t, p);
        let h = next_hop(c, t);
        assert(jump_indices(c) == before + steps_before(c, p));
        lemma_walk_within_reach(h, t, smaller);
        lemma_halvings_monotone(2 * smaller, p);
        assert((2 * smaller) / 2 == smaller);
    }
}

/// The first frame at or behind the target that frame `m + 1` points back
/// at is within reach of the target, by a power of two that is at most `m`.
proof fn lemma_first_hop(m: nat, t: nat) -> (p: nat)
    requires
        1 <= t <= m,
    ensures
        first_at_least(prefix_sums(m), t) matches Some(h) && within_reach(h, t, p),
        p <= m,
    decreases m,
{
    let x = m / 2;
    assert(m == 2 * x + m % 2);
    lemma_prefix_sums_double(x);
    let doubled = scaled(prefix_sums(x), 2);
    if t <= 2 * x {
        let lower_t = (t + 1) / 2;
        assert(1 <= lower_t <= x && 2 * lower_t >= t && 2 * lower_t <= t + 1);
        let lower_p = lemma_first_hop(x, lower_t);
        let lower_h = first_at_least(prefix_sums(x), lower_t)->Some_0;
        lemma_first_at_least_doubled(prefix_sums(x), t, lower_t);
        let h = 2 * lower_h;
        let p = 2 * lower_p;
        if m % 2 == 1 {
            lemma_first_at_least_front(doubled, seq![m], t);
            assert(doubled.push(m) =~= doubled + seq![m]);
        }
        assert(is_power_of_two(p)) by {
            assert(p / 2 == lower_p);
        }
        let k = lower_h / lower_p;
        vstd::arithmetic::div_mod::lemma_fundamental_div_mod(lower_h as int, lower_p as int);
        assert(h == k * p) by (nonlinear_arith)
            requires
                lower_h == lower_p * k,
                h == 2 * lower_h,
                p == 2 * lower_p,
        ;
        assert(h % p == 0) by {
            vstd::arithmetic::div_mod::lemma_fundamental_div_mod_converse(
                h as int,
                p as int,
                k as int,
                0,
            );
        }
        p
    } else {
        assert(m % 2 == 1 && t == m);
        lemma_prefix_sums_shape(x);
        assert forall|i: int| 0 <= i < doubled.len() implies doubled[i] < t by {
            assert(1 <= prefix_sums(x)[i] <= x);
        }
        lemma_first_at_least_skips(doubled, seq![m], t);
        assert(doubled.push(m) =~= doubled + seq![m]);
        assert(first_at_least(seq![m], t) == Some(m)) by {
            assert(seq![m][0] == m);
        }
        assert(is_power_of_two(1));
        assert(m % 1 == 0);
        1
    }
}

/// The first doubled element that reaches `t` is the double of the first
/// element that reaches the half of `t`, rounded up.
proof fn lemma_first_at_least_doubled(s: Seq<nat>, t: nat, t2: nat)
    requires
        2 * t2 >= t,
        2 * t2 <= t + 1,
    ensures
        first_at_least(scaled(s, 2), t) == match first_at_least(s, t2) {
            Some(h) => Some(2 * h),
            None => None,
        },
    decreases s.len(),
{
    let d = scaled(s, 2);
    if s.len() > 0 {
        assert(d[0] == s[0] * 2);
        assert(d.drop_first() =~= scaled(s.drop_first(), 2));
        lemma_first_at_least_doubled(s.drop_first(), t, t2);
    }
}

/// Where the front part holds an element that reaches the target, what
/// follows does not matter to the search.
proof fn lemma_first_at_least_front(a: Seq<nat>, b: Seq<nat>, to: nat)
    requires
        first_at_least(a, to) is Some,
    ensures
        first_at_least(a + b, to) == first_at_least(a, to),
    decreases a.len(),
{
    if a.len() > 0 {
        assert((a + b)[0] == a[0]);
        assert((a + b).drop_first() =~= a.drop_first() + b);
        if a[0] < to {
            lemma_first_at_least_front(a.drop_first(), b, to);
        }
    }
}

/// The number of binary digits of a number above zero is one more than the
/// number of times it can be halved.
proof fn lemma_bit_length_halvings(m: nat)
    requires
        m >= 1,
    ensures
        bit_length(m) == 1 + halvings(m),
    decreases m,
{
    if m > 1 {
        lemma_bit_length_halvings(m / 2);
    } else {
        assert(bit_length(0) == 0);
    }
}

/// A walk is short: back to any frame but frame 0 it visits no more
/// frames, both ends included, than one more than the number of binary
/// digits of the number before `from`, which is the logarithm of `from` to
/// base two, rounded up.
pub proof fn lemma_jump_path_length(from: nat, to: nat)
    requires
        1 <= to < from,
    ensures
        jump_path(from, to).len() <= 1 + bit_length((from - 1) as nat),
{
    let m = (from - 1) as nat;
    let p = lemma_first_hop(m, to);
    let h = next_hop(from, to);
    lemma_next_hop(from, to);
    lemma_walk_within_reach(h, to, p);
    lemma_halvings_monotone(p, m);
    lemma_bit_length_halvings(m);
}

/// The number of binary digits of `n - 1` is the least number of doublings
/// of one that reach `n`.
pub proof fn lemma_bit_length_is_log(m: nat)
    ensures
        m < pow2(bit_length(m)),
        m >= 1 ==> pow2((bit_length(m) - 1) as nat) <= m,
    decreases m,
{
    if m == 0 {
        lemma2_to64();
    } else {
        lemma_bit_length_is_log(m / 2);
        lemma_pow2_unfold(bit_length(m));
        if m / 2 >= 1 {
            lemma_pow2_unfold((bit_length(m) - 1) as nat);
        } else {
            lemma2_to64();
        }
    }
}

} // verus!
