//! Stateless post-order indexing of a perfect tree of width `w`.
//!
//! Items are appended one by one. Every `w` items are covered by a node of
//! height one, every `w * w` items by a node of height two, and so on. All
//! nodes, the items included, are numbered in post-order, so that a node
//! follows its last child directly. The number of a node is therefore the
//! number of nodes that are complete before it, and every question about the
//! tree is answered by arithmetic on that number alone.

use vstd::prelude::*;
use vstd::arithmetic::power::{pow, lemma_pow0};
use vstd::arithmetic::power2::is_pow2;
use vstd::arithmetic::div_mod::{
    lemma_fundamental_div_mod, lemma_fundamental_div_mod_converse, lemma_div_decreases,
};
use core::ops::Range;

verus! {

/// The index of a node in post-order, items and inner nodes alike.
#[derive(Debug, Clone, Copy, PartialEq, Eq, PartialOrd, Ord)]
pub struct CoveringId(pub u64);

/// The index of an item, the leaves of the tree.
#[derive(Debug, Clone, Copy, PartialEq, Eq, PartialOrd, Ord)]
pub struct ItemId(pub u64);

/// A width that a tree can have: a power of two above one.
pub open spec fn valid_width(w: u64) -> bool {
    w > 1 && is_pow2(w as int)
}

/// Number of inner nodes that are complete once `n` items are there: one for
/// every `w` items, one more for every `w * w` items, and so on.
pub open spec fn inner_before(n: nat, w: nat) -> nat
    decreases n,
{
    if w < 2 || n < w {
        0
    } else {
        proof {
            lemma_div_decreases(n as int, w as int);
        }
        n / w + inner_before(n / w, w)
    }
}

/// The post-order index of item `n`: the number of nodes before it.
pub open spec fn covering_of(n: nat, w: nat) -> nat {
    n + inner_before(n, w)
}

/// How often `w` divides `n`; zero for zero.
pub open spec fn trailing_zeros(n: nat, w: nat) -> nat
    decreases n,
{
    if w < 2 || n == 0 || n % w != 0 {
        0
    } else {
        proof {
            lemma_div_decreases(n as int, w as int);
        }
        1 + trailing_zeros(n / w, w)
    }
}

/// Item `n` is the last item under node `y`: the node is the item itself or
/// one of the inner nodes that the item completes.
pub open spec fn covers(n: nat, y: nat, w: nat) -> bool {
    covering_of(n, w) <= y < covering_of(n + 1, w)
}

/// The last item under node `y`.
pub open spec fn item_of(y: nat, w: nat) -> nat {
    choose|n: nat| covers(n, y, w)
}

/// The height of node `y` above the items.
pub open spec fn height_of(y: nat, w: nat) -> nat {
    (y - covering_of(item_of(y, w), w)) as nat
}

/// Adding item `n` completes the item itself and one inner node for every
/// time that `w` divides `n + 1`.
pub proof fn lemma_covering_step(n: nat, w: nat)
    requires
        w >= 2,
    ensures
        covering_of(n + 1, w) == covering_of(n, w) + 1 + trailing_zeros(n + 1, w),
        inner_before(n + 1, w) == inner_before(n, w) + trailing_zeros(n + 1, w),
    decreases n,
{
    let m = n + 1;
    let q = m / w;
    let r = m % w;
    lemma_fundamental_div_mod(m as int, w as int);
    assert(m == w * q + r);
    if r == 0 {
        assert(q >= 1 && q <= n) by (nonlinear_arith)
            requires
                m == w * q,
                m == n + 1,
                w >= 2,
                q >= 0,
        ;
        assert(n == w * (q - 1) + (w - 1)) by (nonlinear_arith)
            requires
                n + 1 == w * q,
        ;
        assert(n == (q - 1) * w + (w - 1)) by (nonlinear_arith)
            requires
                n + 1 == w * q,
        ;
        lemma_fundamental_div_mod_converse(n as int, w as int, q - 1, w - 1);
        assert(n / w == q - 1);
        assert(m >= w) by (nonlinear_arith)
            requires
                m == w * q,
                q >= 1,
                w >= 2,
        ;
        assert(inner_before(m, w) == q + inner_before(q, w));
        assert(trailing_zeros(m, w) == 1 + trailing_zeros(q, w));
        lemma_covering_step((q - 1) as nat, w);
        if q == 1 {
            lemma_small_mod_one(w);
            assert(n == w - 1) by (nonlinear_arith)
                requires
                    n == w * (q - 1) + (w - 1),
                    q == 1,
            ;
            assert(inner_before(n, w) == 0);
            assert(inner_before(0, w) == 0);
            assert(trailing_zeros(1, w) == 0);
        } else {
            assert(n >= w) by (nonlinear_arith)
                requires
                    n == w * (q - 1) + (w - 1),
                    q >= 2,
                    w >= 2,
            ;
            assert(inner_before(n, w) == (q - 1) + inner_before((q - 1) as nat, w));
        }
    } else {
        assert(n == q * w + (r - 1)) by (nonlinear_arith)
            requires
                m == w * q + r,
                m == n + 1,
        ;
        lemma_fundamental_div_mod_converse(n as int, w as int, q as int, r - 1);
        assert(n / w == q);
        assert(trailing_zeros(m, w) == 0);
        if m < w {
            assert(inner_before(m, w) == 0);
            assert(inner_before(n, w) == 0);
        } else {
            assert(q >= 1) by (nonlinear_arith)
                requires
                    m == w * q + r,
                    m >= w,
                    r < w,
                    w >= 2,
            ;
            assert(n >= w) by (nonlinear_arith)
                requires
                    n == w * q + (r - 1),
                    q >= 1,
                    r >= 1,
                    w >= 2,
            ;
            assert(inner_before(m, w) == q + inner_before(q, w));
            assert(inner_before(n, w) == q + inner_before(q, w));
        }
    }
}

/// One is no multiple of a width.
proof fn lemma_small_mod_one(w: nat)
    requires
        w >= 2,
    ensures
        1nat % w == 1,
        1nat / w == 0,
{
    vstd::arithmetic::div_mod::lemma_small_mod(1, w);
    vstd::arithmetic::div_mod::lemma_basic_div(1, w as int);
}

/// Fewer inner nodes than items: `w - 1` times their number is at most `n`.
pub proof fn lemma_inner_bound(n: nat, w: nat)
    requires
        w >= 2,
    ensures
        inner_before(n, w) * (w - 1) <= n,
        inner_before(n, w) <= n,
    decreases n,
{
    if n >= w {
        let q = n / w;
        lemma_fundamental_div_mod(n as int, w as int);
        assert(q < n && w * q <= n) by (nonlinear_arith)
            requires
                n == w * q + n % w,
                n >= w,
                w >= 2,
                0 <= n % w < w,
        ;
        lemma_inner_bound(q, w);
        let i = inner_before(q, w);
        assert((q + i) * (w - 1) <= n) by (nonlinear_arith)
            requires
                i * (w - 1) <= q,
                w * q <= n,
                w >= 2,
        ;
        assert(q + i <= n) by (nonlinear_arith)
            requires
                (q + i) * (w - 1) <= n,
                w >= 2,
                q + i >= 0,
        ;
    } else {
        assert(0 * (w - 1) == 0) by (nonlinear_arith);
    }
}

/// Later items have later indices.
pub proof fn lemma_covering_monotone(a: nat, b: nat, w: nat)
    requires
        w >= 2,
        a <= b,
    ensures
        covering_of(a, w) + (b - a) <= covering_of(b, w),
    decreases b - a,
{
    if a < b {
        lemma_covering_monotone(a, (b - 1) as nat, w);
        lemma_covering_step((b - 1) as nat, w);
    }
}

/// Every node has a last item under it, and only one.
pub proof fn lemma_item_of(y: nat, w: nat)
    requires
        w >= 2,
    ensures
        covers(item_of(y, w), y, w),
        item_of(y, w) <= y,
        forall|n: nat| covers(n, y, w) ==> n == item_of(y, w),
    decreases y,
{
    if y == 0 {
        lemma_covering_step(0, w);
        assert(inner_before(0, w) == 0);
        assert(covers(0, 0, w));
    } else {
        lemma_item_of((y - 1) as nat, w);
        let p = item_of((y - 1) as nat, w);
        if y < covering_of(p + 1, w) {
            assert(covers(p, y, w));
        } else {
            lemma_covering_step(p + 1, w);
            lemma_covering_monotone(p + 1, p + 1, w);
            assert(covers(p + 1, y, w));
        }
    }
    let c = item_of(y, w);
    assert(c <= y) by {
        lemma_covering_monotone(0, c, w);
        assert(inner_before(0, w) == 0);
    }
    assert forall|n: nat| covers(n, y, w) implies n == c by {
        if n < c {
            lemma_covering_monotone(n + 1, c, w);
        } else if c < n {
            lemma_covering_monotone(c + 1, n, w);
        }
    }
}

/// The post-order index of item `n`.
pub fn map_item_to_covering(n: u64, w: u64) -> (y: u64)
    requires
        w >= 2,
        covering_of(n as nat, w as nat) <= u64::MAX,
    ensures
        y == covering_of(n as nat, w as nat),
{
    let mut offset: u64 = 0;
    let mut rest: u64 = n;
    while rest >= w
        invariant
            w >= 2,
            rest <= n,
            offset + inner_before(rest as nat, w as nat) == inner_before(n as nat, w as nat),
            n + inner_before(n as nat, w as nat) <= u64::MAX,
        decreases rest,
    {
        rest = rest / w;
        offset = offset + rest;
    }
    n + offset
}

/// How often `w` divides `n`; zero for zero.
fn count_trailing_zeros_base_w(n: u64, w: u64) -> (h: u32)
    requires
        w >= 2,
    ensures
        h == trailing_zeros(n as nat, w as nat),
        h < 64,
{
    let mut h: u32 = 0;
    let mut rest: u64 = n;
    proof {
        lemma_trailing_zeros_bound(n as nat, w as nat);
    }
    while rest != 0 && rest % w == 0
        invariant
            w >= 2,
            h + trailing_zeros(rest as nat, w as nat) == trailing_zeros(n as nat, w as nat),
            trailing_zeros(n as nat, w as nat) < 64,
        decreases rest,
    {
        rest = rest / w;
        h = h + 1;
    }
    h
}

/// A width divides a number fewer than 64 times if the number fits 64 bits.
proof fn lemma_trailing_zeros_bound(n: nat, w: nat)
    requires
        w >= 2,
        n <= u64::MAX,
    ensures
        trailing_zeros(n, w) < 64,
{
    lemma_trailing_zeros_pow(n, w);
    let h = trailing_zeros(n, w);
    if h >= 64 {
        vstd::arithmetic::power::lemma_pow_increases(2, 64, h);
        vstd::arithmetic::power2::lemma_pow2(64);
        vstd::arithmetic::power2::lemma2_to64_rest();
    }
}

/// A number that a width divides `h` times is at least two to the `h`, and
/// zero has no such divisions.
proof fn lemma_trailing_zeros_pow(n: nat, w: nat)
    requires
        w >= 2,
    ensures
        n > 0 ==> pow(2, trailing_zeros(n, w)) <= n,
        n == 0 ==> trailing_zeros(n, w) == 0,
    decreases n,
{
    if n > 0 && n % w == 0 {
        let q = n / w;
        lemma_fundamental_div_mod(n as int, w as int);
        assert(0 < q < n) by (nonlinear_arith)
            requires
                n == w * q,
                n > 0,
                w >= 2,
        ;
        lemma_trailing_zeros_pow(q, w);
        let h = trailing_zeros(q, w);
        vstd::arithmetic::power::lemma_pow_adds(2, h, 1);
        vstd::arithmetic::power::lemma_pow1(2);
        assert(pow(2, h + 1) <= n) by (nonlinear_arith)
            requires
                pow(2, h + 1) == pow(2, h) * 2,
                pow(2, h) <= q,
                n == w * q,
                w >= 2,
        ;
    } else if n > 0 {
        lemma_pow0(2);
    }
}

/// A power of the width that divides `m` no more often than the width does
/// divides `m`, and is no larger.
pub proof fn lemma_pow_divides(m: nat, w: nat, h: nat)
    requires
        w >= 2,
        m > 0,
        h <= trailing_zeros(m, w),
    ensures
        1 <= pow(w as int, h) <= m,
        m as int % pow(w as int, h) == 0,
    decreases h,
{
    if h == 0 {
        lemma_pow0(w as int);
    } else {
        let q = m / w;
        lemma_fundamental_div_mod(m as int, w as int);
        assert(0 < q) by (nonlinear_arith)
            requires
                m == w * q,
                m > 0,
                w >= 2,
        ;
        lemma_pow_divides(q, w, (h - 1) as nat);
        let p = pow(w as int, (h - 1) as nat);
        vstd::arithmetic::power::lemma_pow_adds(w as int, 1, (h - 1) as nat);
        vstd::arithmetic::power::lemma_pow1(w as int);
        assert(pow(w as int, h) == w * p);
        lemma_fundamental_div_mod(q as int, p);
        let k = q as int / p;
        assert(m == (w * p) * k) by (nonlinear_arith)
            requires
                m == w * q,
                q == p * k,
        ;
        assert(1 <= w * p <= m) by (nonlinear_arith)
            requires
                1 <= p <= q,
                m == w * q,
                w >= 2,
        ;
        lemma_fundamental_div_mod_converse(m as int, w * p, k, 0);
    }
}

/// The estimate `y * (w - 1) / w` of the last item under node `y` never
/// lies behind that item.
proof fn lemma_estimate(y: nat, w: nat, e: nat)
    requires
        w >= 2,
        e == (y * (w - 1)) / (w as int),
    ensures
        e <= item_of(y, w),
{
    lemma_item_of(y, w);
    lemma_inner_bound(e, w);
    let t = item_of(y, w);
    let prod: int = y * (w - 1);
    lemma_fundamental_div_mod(prod, w as int);
    let i = inner_before(e, w);
    let rem: int = prod % (w as int);
    assert(covering_of(e, w) <= y) by (nonlinear_arith)
        requires
            covering_of(e, w) == e + i,
            i * (w - 1) <= e,
            prod == y * (w - 1),
            prod == w * e + rem,
            0 <= rem,
            w >= 2,
    ;
    if e > t {
        lemma_covering_monotone(t + 1, e, w);
    }
}

/// The estimate is no larger than the node's index.
proof fn lemma_estimate_fits(y: nat, w: nat)
    requires
        w >= 2,
    ensures
        (y * (w - 1)) / (w as int) <= y,
{
    let prod: int = y * (w - 1);
    lemma_fundamental_div_mod(prod, w as int);
    let e = prod / (w as int);
    let rem = prod % (w as int);
    assert(e <= y) by (nonlinear_arith)
        requires
            prod == y * (w - 1),
            prod == w * e + rem,
            0 <= rem,
            w >= 2,
            y >= 0,
    ;
}

/// The last item under node `y` is not the last 64-bit number.
proof fn lemma_item_below_max(y: nat, w: nat)
    requires
        w >= 2,
        w <= u64::MAX,
        y <= u64::MAX,
    ensures
        item_of(y, w) < u64::MAX,
{
    lemma_item_of(y, w);
    let t = item_of(y, w);
    if t >= u64::MAX {
        let m = u64::MAX as nat;
        lemma_fundamental_div_mod(m as int, w as int);
        assert(m / w >= 1) by (nonlinear_arith)
            requires
                m == w * (m / w) + m % w,
                m % w < w,
                w <= m,
                w >= 2,
        ;
        assert(inner_before(m, w) >= 1);
        lemma_covering_monotone(m, t, w);
    }
}

/// The last item under node `y` and the height of the node above it.
fn decode_covering(y: u64, w: u64) -> (r: (u64, u32))
    requires
        w >= 2,
    ensures
        r.0 == item_of(y as nat, w as nat),
        r.1 == height_of(y as nat, w as nat),
        r.1 <= trailing_zeros((r.0 + 1) as nat, w as nat),
        r.0 < u64::MAX,
{
    let ghost target = item_of(y as nat, w as nat);
    proof {
        assert(y * (w - 1) <= 0xFFFF_FFFF_FFFF_FFFF * 0xFFFF_FFFF_FFFF_FFFF) by (nonlinear_arith)
            requires
                0 <= y <= 0xFFFF_FFFF_FFFF_FFFF,
                0 <= w - 1 <= 0xFFFF_FFFF_FFFF_FFFF,
        ;
        lemma_estimate_fits(y as nat, w as nat);
    }
    let wide: u128 = (y as u128) * ((w - 1) as u128);
    let mut n: u64 = (wide / (w as u128)) as u64;
    proof {
        lemma_item_of(y as nat, w as nat);
        lemma_estimate(y as nat, w as nat, n as nat);
        lemma_item_below_max(y as nat, w as nat);
    }
    loop
        invariant
            w >= 2,
            target == item_of(y as nat, w as nat),
            covers(target, y as nat, w as nat),
            n <= target < u64::MAX,
        decreases target - n,
    {
        proof {
            lemma_covering_monotone(n as nat, target, w as nat);
            lemma_covering_step(n as nat, w as nat);
            lemma_item_of(y as nat, w as nat);
        }
        let start = map_item_to_covering(n, w);
        let h_max = count_trailing_zeros_base_w(n + 1, w);
        if y - start > h_max as u64 {
            proof {
                if n == target {
                    assert(false);
                }
            }
            n = n + 1;
        } else {
            proof {
                assert(covers(n as nat, y as nat, w as nat));
            }
            return (n, (y - start) as u32);
        }
    }
}

/// `w` to the `h`, where that fits.
fn power(w: u64, h: u32) -> (p: u64)
    requires
        pow(w as int, h as nat) <= u64::MAX,
        w >= 1,
    ensures
        p == pow(w as int, h as nat),
{
    let mut p: u64 = 1;
    let mut i: u32 = 0;
    proof {
        lemma_pow0(w as int);
    }
    while i < h
        invariant
            i <= h,
            w >= 1,
            p == pow(w as int, i as nat),
            pow(w as int, h as nat) <= u64::MAX,
        decreases h - i,
    {
        proof {
            vstd::arithmetic::power::lemma_pow_adds(w as int, i as nat, 1);
            vstd::arithmetic::power::lemma_pow1(w as int);
            vstd::arithmetic::power::lemma_pow_increases(w as nat, (i + 1) as nat, h as nat);
        }
        p = p * w;
        i = i + 1;
    }
    p
}

/// The items under node `y`: as many as the width to the height of the
/// node, the last of them the item that completed the node.
pub fn covering_range(y: CoveringId, width: u64) -> (r: Range<ItemId>)
    requires
        valid_width(width),
    ensures
        r.end.0 == item_of(y.0 as nat, width as nat) + 1,
        r.end.0 - r.start.0 == pow(width as int, height_of(y.0 as nat, width as nat)),
{
    let (n, h) = decode_covering(y.0, width);
    proof {
        lemma_pow_divides((n + 1) as nat, width as nat, h as nat);
    }
    let len = power(width, h);
    let end: u64 = n + 1;
    Range { start: ItemId(end - len), end: ItemId(end) }
}

/// The nodes that adding item `n` completes: the item itself first, the
/// node highest above it last.
pub fn coverings_for_item(n: ItemId, width: u64) -> (r: Range<CoveringId>)
    requires
        valid_width(width),
        covering_of((n.0 + 1) as nat, width as nat) <= u64::MAX,
    ensures
        r.start.0 == covering_of(n.0 as nat, width as nat),
        r.end.0 == covering_of((n.0 + 1) as nat, width as nat),
        r.end.0 - r.start.0 == 1 + trailing_zeros((n.0 + 1) as nat, width as nat),
{
    proof {
        lemma_covering_step(n.0 as nat, width as nat);
        lemma_covering_monotone(0, (n.0 + 1) as nat, width as nat);
    }
    let start = map_item_to_covering(n.0, width);
    let height = count_trailing_zeros_base_w(n.0 + 1, width);
    Range { start: CoveringId(start), end: CoveringId(start + 1 + height as u64) }
}

/// The numbers of a sequence of node indices.
pub open spec fn ids(s: Seq<CoveringId>) -> Seq<nat> {
    Seq::new(s.len(), |i: int| s[i].0 as nat)
}

/// The children of node `y` from left to right: none for an item; for a
/// node of height `h` the `w` nodes of height `h - 1` whose last items lie
/// `w` to the `h - 1` apart and end with the node's own last item.
pub open spec fn children_of(y: nat, w: nat) -> Seq<nat> {
    let n = item_of(y, w);
    let h = height_of(y, w);
    if h == 0 {
        Seq::empty()
    } else {
        Seq::new(
            w,
            |i: int|
                (covering_of((n - (w - 1 - i) * pow(w as int, (h - 1) as nat)) as nat, w) + h
                    - 1) as nat,
        )
    }
}

/// The children of node `y` from left to right.
pub fn children_for_covering(y: CoveringId, width: u64) -> (r: Vec<CoveringId>)
    requires
        valid_width(width),
    ensures
        ids(r@) == children_of(y.0 as nat, width as nat),
{
    let (n, h) = decode_covering(y.0, width);
    if h == 0 {
        let none: Vec<CoveringId> = Vec::new();
        assert(ids(none@) =~= children_of(y.0 as nat, width as nat));
        return none;
    }
    let child_h: u32 = h - 1;
    proof {
        lemma_item_of(y.0 as nat, width as nat);
        lemma_pow_divides((n + 1) as nat, width as nat, h as nat);
        lemma_pow_divides((n + 1) as nat, width as nat, child_h as nat);
        vstd::arithmetic::power::lemma_pow_adds(width as int, 1, child_h as nat);
        vstd::arithmetic::power::lemma_pow1(width as int);
    }
    let stride = power(width, child_h);
    let mut children: Vec<CoveringId> = Vec::new();
    let mut i: u64 = 0;
    while i < width
        invariant
            i <= width,
            width >= 2,
            h >= 1,
            child_h == h - 1,
            n == item_of(y.0 as nat, width as nat),
            h == height_of(y.0 as nat, width as nat),
            covers(n as nat, y.0 as nat, width as nat),
            stride == pow(width as int, child_h as nat),
            stride >= 1,
            width * stride <= n + 1,
            children@.len() == i,
            forall|j: int| 0 <= j < i ==> ids(children@)[j] == children_of(
                y.0 as nat,
                width as nat,
            )[j],
        decreases width - i,
    {
        let k: u64 = width - 1 - i;
        proof {
            assert(k * stride <= n) by (nonlinear_arith)
                requires
                    k <= width - 1,
                    width * stride <= n + 1,
                    stride >= 1,
            ;
        }
        let child_end_n: u64 = n - k * stride;
        proof {
            lemma_covering_monotone(child_end_n as nat, n as nat, width as nat);
        }
        let id = map_item_to_covering(child_end_n, width) + child_h as u64;
        let ghost before = children@;
        children.push(CoveringId(id));
        proof {
            let all = children_of(y.0 as nat, width as nat);
            assert(child_end_n == n - (width - 1 - i) * pow(width as int, (h - 1) as nat));
            assert(all[i as int] == id);
            assert forall|j: int| 0 <= j < i + 1 implies ids(children@)[j] == all[j] by {
                if j < i {
                    assert(ids(before)[j] == all[j]);
                    assert(children@[j] == before[j]);
                }
            }
        }
        i = i + 1;
    }
    assert(ids(children@) =~= children_of(y.0 as nat, width as nat));
    children
}

/// The roots of the complete trees that `len` items form, from left to
/// right: the last of them is the node that the last item completed, the
/// others are the peaks of the items before that node's.
pub open spec fn peaks_of(len: nat, w: nat) -> Seq<nat>
    decreases len,
{
    let size = pow(w as int, trailing_zeros(len, w));
    if len == 0 || w < 2 || size < 1 || size > len {
        Seq::empty()
    } else {
        peaks_of((len - size) as nat, w).push((covering_of(len, w) - 1) as nat)
    }
}

/// The roots of the complete trees that `len` items form, from left to
/// right.
pub fn get_peaks(len: u64, width: u64) -> (r: Vec<CoveringId>)
    requires
        valid_width(width),
        covering_of(len as nat, width as nat) <= u64::MAX,
    ensures
        ids(r@) == peaks_of(len as nat, width as nat),
{
    let mut found: Vec<CoveringId> = Vec::new();
    let mut rest: u64 = len;
    proof {
        assert(peaks_of(len as nat, width as nat) =~= peaks_of(rest as nat, width as nat) + ids(
            found@,
        ).reverse());
    }
    while rest > 0
        invariant
            width >= 2,
            rest <= len,
            covering_of(len as nat, width as nat) <= u64::MAX,
            peaks_of(len as nat, width as nat) == peaks_of(rest as nat, width as nat) + ids(
                found@,
            ).reverse(),
        decreases rest,
    {
        proof {
            lemma_covering_monotone(rest as nat, len as nat, width as nat);
            lemma_covering_monotone(0, rest as nat, width as nat);
        }
        let top = map_item_to_covering(rest, width) - 1;
        let h = count_trailing_zeros_base_w(rest, width);
        proof {
            lemma_pow_divides(rest as nat, width as nat, h as nat);
        }
        let size = power(width, h);
        let ghost before = ids(found@);
        found.push(CoveringId(top));
        proof {
            let smaller = peaks_of((rest - size) as nat, width as nat);
            assert(ids(found@) =~= before.push(top as nat));
            assert(ids(found@).reverse() =~= seq![top as nat] + before.reverse());
            assert(smaller.push(top as nat) + before.reverse() =~= smaller + ids(found@).reverse());
        }
        rest = rest - size;
    }
    let mut peaks: Vec<CoveringId> = Vec::new();
    let mut i: usize = found.len();
    proof {
        assert(peaks_of(0, width as nat) + ids(found@).reverse() =~= ids(found@).reverse());
    }
    while i > 0
        invariant
            i <= found@.len(),
            peaks@.len() == found@.len() - i,
            forall|j: int| 0 <= j < peaks@.len() ==> peaks@[j] == found@[found@.len() - 1 - j],
        decreases i,
    {
        i = i - 1;
        peaks.push(found[i]);
    }
    assert(ids(peaks@) =~= ids(found@).reverse());
    peaks
}

/// The index of an item leads back to the item: the node at the index of
/// item `n` has height zero and covers the one item `n`.
pub proof fn lemma_item_round_trip(n: nat, w: nat)
    requires
        w >= 2,
    ensures
        item_of(covering_of(n, w), w) == n,
        height_of(covering_of(n, w), w) == 0,
        pow(w as int, height_of(covering_of(n, w), w)) == 1,
{
    lemma_covering_step(n, w);
    lemma_item_of(covering_of(n, w), w);
    assert(covers(n, covering_of(n, w), w));
    lemma_pow0(w as int);
}

/// The last item and the height of a node lead back to the node: the index
/// of a node is the index of its last item plus its height, and the height
/// is at most the number of times that the width divides the number of
/// items up to and including that last item.
pub proof fn lemma_node_index(y: nat, w: nat)
    requires
        w >= 2,
    ensures
        covering_of(item_of(y, w), w) + height_of(y, w) == y,
        height_of(y, w) <= trailing_zeros(item_of(y, w) + 1, w),
{
    lemma_item_of(y, w);
    lemma_covering_step(item_of(y, w), w);
}

/// The range of a node leads back to the node. The range ends one behind
/// the node's last item and holds as many items as the width to the
/// node's height; that number divides the end of the range, and the index
/// of the last item of the range plus the height is the index of the node.
pub proof fn lemma_range_round_trip(y: nat, w: nat)
    requires
        w >= 2,
    ensures
        ({
            let end = item_of(y, w) + 1;
            let h = height_of(y, w);
            let size = pow(w as int, h);
            &&& 1 <= size <= end
            &&& end as int % size == 0
            &&& covering_of((end - 1) as nat, w) + h == y
        }),
{
    lemma_node_index(y, w);
    lemma_pow_divides(item_of(y, w) + 1, w, height_of(y, w));
}

/// A node follows its last child directly, and its children cover the
/// node's items from left to right in equal parts.
pub proof fn lemma_children_shape(y: nat, w: nat)
    requires
        w >= 2,
        height_of(y, w) > 0,
    ensures
        children_of(y, w).len() == w,
        children_of(y, w).last() == y - 1,
{
    lemma_node_index(y, w);
    let n = item_of(y, w);
    let h = height_of(y, w);
    let p = pow(w as int, (h - 1) as nat);
    assert((w - 1 - (w - 1)) * p == 0) by (nonlinear_arith);
}

/// Children come before their parent, and there are as many of them as the
/// tree is wide, or none.
pub proof fn lemma_children_before(y: nat, w: nat)
    requires
        w >= 2,
    ensures
        children_of(y, w).len() == if height_of(y, w) == 0 {
            0
        } else {
            w
        },
        forall|k: int| 0 <= k < children_of(y, w).len() ==> #[trigger] children_of(y, w)[k] < y,
{
    let n = item_of(y, w);
    let h = height_of(y, w);
    lemma_node_index(y, w);
    if h > 0 {
        let p = pow(w as int, (h - 1) as nat);
        lemma_pow_divides(n + 1, w, (h - 1) as nat);
        lemma_pow_divides(n + 1, w, h);
        vstd::arithmetic::power::lemma_pow_adds(w as int, 1, (h - 1) as nat);
        vstd::arithmetic::power::lemma_pow1(w as int);
        assert forall|k: int| 0 <= k < children_of(y, w).len() implies #[trigger] children_of(
            y,
            w,
        )[k] < y by {
            let back = (w - 1 - k) * p;
            assert(0 <= back <= n) by (nonlinear_arith)
                requires
                    0 <= w - 1 - k <= w - 1,
                    back == (w - 1 - k) * p,
                    w * p <= n + 1,
                    p >= 1,
            ;
            lemma_covering_monotone((n - back) as nat, n, w);
        }
    }
}

/// The peaks of `len` items are nodes that are there once the items are.
pub proof fn lemma_peaks_before(len: nat, w: nat)
    requires
        w >= 2,
    ensures
        forall|k: int| 0 <= k < peaks_of(len, w).len() ==> #[trigger] peaks_of(len, w)[k]
            < covering_of(len, w),
        len > 0 ==> peaks_of(len, w).len() > 0 && peaks_of(len, w).last() == covering_of(len, w) - 1,
    decreases len,
{
    if len > 0 {
        lemma_pow_divides(len, w, trailing_zeros(len, w));
        let size = pow(w as int, trailing_zeros(len, w));
        let rest = (len - size) as nat;
        lemma_peaks_before(rest, w);
        lemma_covering_monotone(rest, len, w);
        lemma_covering_monotone(0, len, w);
        lemma_covering_step((len - 1) as nat, w);
        let all = peaks_of(len, w);
        assert forall|k: int| 0 <= k < all.len() implies #[trigger] all[k] < covering_of(len, w) by {
            if k < all.len() - 1 {
                assert(all[k] == peaks_of(rest, w)[k]);
            }
        }
    }
}

} // verus!
