//! Range decomposition: the shortest list of CIDR blocks that covers an
//! address range exactly.
//!
//! The blocks are chosen greedily. At each position the block taken is the
//! largest one that starts there, is aligned there and does not run past the
//! end of the range; the next position is the address after that block.

use vstd::prelude::*;
use vstd::string::*;
use vstd::arithmetic::power2::{lemma_pow2_pos, pow2};
use crate::error::{ErrorView, IpCalcError, Result};
use crate::ipv4::{
    ipv4_subnet_of, ipv4_subnet_views, ipv4_text, ipv4_text_value, ipv4_to_string, parse_ipv4_str,
    Ipv4Subnet, Ipv4SubnetView,
};
use crate::ipv6::{
    ipv6_subnet_of, ipv6_subnet_views, ipv6_text, ipv6_text_value, ipv6_to_string, parse_ipv6_str,
    Ipv6Subnet, Ipv6SubnetView,
};
use crate::space::{
    aligned, ipv4_mask, ipv6_mask, lemma_aligned_apart, lemma_aligned_base, lemma_aligned_down,
    lemma_block_within, lemma_mask_v4, lemma_mask_v6, lemma_network_v4, lemma_network_v6,
    lemma_pow2_le, lemma_pow2_widths, lemma_upper_half, mask_v4, mask_v6,
};

verus! {

/// Ceiling on the number of blocks of a decomposition, unless the caller
/// sets another.
pub const DEFAULT_MAX_GENERATED_CIDRS: usize = 1_000_000;

/// A block with `k` host bits can start at `cur` without running past `end`:
/// `cur` is a multiple of `2^k`, and the block's last address is at most
/// `end`.
pub open spec fn fits(cur: nat, end: nat, k: nat) -> bool {
    aligned(cur, k) && cur + pow2(k) <= end + 1
}

/// The largest number of host bits, up to `k`, of a block that fits at
/// `cur`; zero where none does.
pub open spec fn largest_fit(cur: nat, end: nat, k: nat) -> nat
    decreases k,
{
    if k > 0 && !fits(cur, end, k) {
        largest_fit(cur, end, (k - 1) as nat)
    } else {
        k
    }
}

/// The greedy decomposition of the range from `cur` to `end` in an address
/// space of `width` bits, as pairs of a block's first address and its
/// prefix length. Empty where `cur` lies after `end`.
pub open spec fn range_blocks(cur: nat, end: nat, width: nat) -> Seq<(nat, nat)>
    decreases
            (if cur <= end {
                end + 1 - cur
            } else {
                0
            }),
    via range_blocks_decreases
{
    if cur > end {
        Seq::empty()
    } else {
        let k = largest_fit(cur, end, width);
        seq![(cur, (width - k) as nat)].add(range_blocks(cur + pow2(k), end, width))
    }
}

#[via_fn]
proof fn range_blocks_decreases(cur: nat, end: nat, width: nat) {
    if cur <= end {
        lemma_pow2_pos(largest_fit(cur, end, width));
    }
}

/// The greedy choice is at most `k`, fits, and nothing larger up to `k` fits.
pub proof fn lemma_largest_fit(cur: nat, end: nat, k: nat)
    requires
        cur <= end,
    ensures
        largest_fit(cur, end, k) <= k,
        fits(cur, end, largest_fit(cur, end, k)),
        forall|j: nat| largest_fit(cur, end, k) < j <= k ==> !fits(cur, end, j),
    decreases k,
{
    if k > 0 && !fits(cur, end, k) {
        lemma_largest_fit(cur, end, (k - 1) as nat);
    } else if k == 0 {
        vstd::arithmetic::power2::lemma2_to64();
    }
}

/// What holds of the greedy decomposition of a range that is not empty: it
/// starts at the range's first address, every block is aligned, has a prefix
/// length within the width and lies inside the range, each block starts
/// right after the one before, and the last block ends at the range's last
/// address. So the blocks cover the range without gap or overlap.
pub proof fn lemma_range_blocks(cur: nat, end: nat, width: nat)
    requires
        cur <= end,
    ensures
        range_blocks(cur, end, width).len() >= 1,
        range_blocks(cur, end, width)[0].0 == cur,
        forall|i: int|
            0 <= i < range_blocks(cur, end, width).len() ==> {
                let b = #[trigger] range_blocks(cur, end, width)[i];
                &&& b.1 <= width
                &&& aligned(b.0, (width - b.1) as nat)
                &&& cur <= b.0
                &&& b.0 + pow2((width - b.1) as nat) - 1 <= end
                &&& (width - b.1) as nat == largest_fit(b.0, end, width)
            },
        forall|i: int, j: int|
            0 <= i && j == i + 1 && j < range_blocks(cur, end, width).len() ==> (
            #[trigger] range_blocks(cur, end, width)[j]).0 == (#[trigger] range_blocks(
                cur,
                end,
                width,
            )[i]).0 + pow2((width - range_blocks(cur, end, width)[i].1) as nat),
        range_blocks(cur, end, width).last().0 + pow2(
            (width - range_blocks(cur, end, width).last().1) as nat,
        ) - 1 == end,
    decreases end + 1 - cur,
{
    let k = largest_fit(cur, end, width);
    lemma_largest_fit(cur, end, width);
    lemma_pow2_pos(k);
    let next = cur + pow2(k);
    let all = range_blocks(cur, end, width);
    let rest = range_blocks(next, end, width);
    assert(all =~= seq![(cur, (width - k) as nat)].add(rest));
    if next <= end {
        lemma_range_blocks(next, end, width);
        assert forall|i: int| 0 <= i < all.len() implies {
            let b = #[trigger] all[i];
            &&& b.1 <= width
            &&& aligned(b.0, (width - b.1) as nat)
            &&& cur <= b.0
            &&& b.0 + pow2((width - b.1) as nat) - 1 <= end
            &&& (width - b.1) as nat == largest_fit(b.0, end, width)
        } by {
            if i > 0 {
                assert(all[i] == rest[i - 1]);
            }
        }
        assert forall|i: int, j: int| 0 <= i && j == i + 1 && j < all.len() implies (
        #[trigger] all[j]).0 == (#[trigger] all[i]).0 + pow2((width - all[i].1) as nat) by {
            if i > 0 {
                assert(all[i] == rest[i - 1]);
                assert(all[j] == rest[j - 1]);
            } else {
                assert(all[1] == rest[0]);
            }
        }
        assert(all.last() == rest.last());
    } else {
        assert(rest =~= Seq::<(nat, nat)>::empty());
    }
}

/// The address after the last one of a block.
pub open spec fn block_end(b: (nat, nat), width: nat) -> nat {
    b.0 + pow2((width - b.1) as nat)
}

/// Some block of the list holds the address.
pub open spec fn blocks_cover(s: Seq<(nat, nat)>, width: nat, a: nat) -> bool {
    exists|i: int| 0 <= i < s.len() && (#[trigger] s[i]).0 <= a < block_end(s[i], width)
}

/// The blocks tile the range from `start` to `end`: each is aligned and has
/// a prefix length within the width, the first starts at `start`, each
/// starts where the one before it ends, and the last ends at `end`.
pub open spec fn is_tiling(t: Seq<(nat, nat)>, start: nat, end: nat, width: nat) -> bool {
    &&& t.len() >= 1
    &&& t[0].0 == start
    &&& forall|i: int|
        0 <= i < t.len() ==> (#[trigger] t[i]).1 <= width && aligned(
            t[i].0,
            (width - t[i].1) as nat,
        )
    &&& forall|i: int, j: int|
        0 <= i && j == i + 1 && j < t.len() ==> (#[trigger] t[j]).0 == block_end(
            #[trigger] t[i],
            width,
        )
    &&& block_end(t.last(), width) == end + 1
}

/// The greedy decomposition of a range tiles the range.
pub proof fn lemma_range_blocks_tile(start: nat, end: nat, width: nat)
    requires
        start <= end,
    ensures
        is_tiling(range_blocks(start, end, width), start, end, width),
{
    lemma_range_blocks(start, end, width);
}

/// In a tiling, every block starts at or after the start of the range and
/// ends at or before its end, and later blocks start later.
pub proof fn lemma_tiling_bounds(t: Seq<(nat, nat)>, start: nat, end: nat, width: nat, i: int)
    requires
        is_tiling(t, start, end, width),
        0 <= i < t.len(),
    ensures
        start <= t[i].0 < block_end(t[i], width) <= end + 1,
        forall|j: int| i < j < t.len() ==> block_end(t[i], width) <= (#[trigger] t[j]).0,
{
    lemma_tiling_from_start(t, start, end, width, i);
    lemma_tiling_to_end(t, start, end, width, i);
}

/// In a tiling, block `i` starts at or after the start of the range.
proof fn lemma_tiling_from_start(t: Seq<(nat, nat)>, start: nat, end: nat, width: nat, i: int)
    requires
        is_tiling(t, start, end, width),
        0 <= i < t.len(),
    ensures
        start <= t[i].0 < block_end(t[i], width),
    decreases i,
{
    lemma_pow2_pos((width - t[i].1) as nat);
    if i > 0 {
        lemma_tiling_from_start(t, start, end, width, i - 1);
        assert(t[i].0 == block_end(t[i - 1], width));
    }
}

/// In a tiling, block `i` ends at or before the end of the range, and the
/// later blocks start where it ends or after.
proof fn lemma_tiling_to_end(t: Seq<(nat, nat)>, start: nat, end: nat, width: nat, i: int)
    requires
        is_tiling(t, start, end, width),
        0 <= i < t.len(),
    ensures
        block_end(t[i], width) <= end + 1,
        forall|j: int| i < j < t.len() ==> block_end(t[i], width) <= (#[trigger] t[j]).0,
    decreases t.len() - i,
{
    if i + 1 < t.len() {
        lemma_tiling_to_end(t, start, end, width, i + 1);
        lemma_pow2_pos((width - t[i + 1].1) as nat);
        assert(t[i + 1].0 == block_end(t[i], width));
        assert forall|j: int| i < j < t.len() implies block_end(t[i], width) <= (
        #[trigger] t[j]).0 by {
            if j > i + 1 {
                assert(block_end(t[i + 1], width) <= t[j].0);
            }
        }
    }
}

/// A tiling covers exactly the addresses of its range.
pub proof fn lemma_tiling_covers(t: Seq<(nat, nat)>, start: nat, end: nat, width: nat)
    requires
        is_tiling(t, start, end, width),
    ensures
        forall|a: nat| blocks_cover(t, width, a) <==> start <= a <= end,
{
    assert forall|a: nat| blocks_cover(t, width, a) <==> start <= a <= end by {
        if blocks_cover(t, width, a) {
            let i = choose|i: int|
                0 <= i < t.len() && (#[trigger] t[i]).0 <= a < block_end(t[i], width);
            lemma_tiling_bounds(t, start, end, width, i);
        }
        if start <= a <= end {
            lemma_tiling_holds(t, start, end, width, a, t.len() - 1);
        }
    }
}

/// An address of the range that lies before the end of block `i` lies in
/// one of the blocks up to `i`.
proof fn lemma_tiling_holds(t: Seq<(nat, nat)>, start: nat, end: nat, width: nat, a: nat, i: int)
    requires
        is_tiling(t, start, end, width),
        0 <= i < t.len(),
        start <= a < block_end(t[i], width),
    ensures
        blocks_cover(t, width, a),
    decreases i,
{
    if t[i].0 <= a {
        assert(t[i].0 <= a < block_end(t[i], width));
    } else {
        assert(i > 0);
        assert(t[i].0 == block_end(t[i - 1], width));
        lemma_tiling_holds(t, start, end, width, a, i - 1);
    }
}

/// The greedy decomposition of a range, expanded again, is the range: its
/// blocks cover the addresses of the range and no others, no address lies
/// in two of them, the first block starts where the range starts, and the
/// last block ends where the range ends.
pub proof fn lemma_range_round_trip(start: nat, end: nat, width: nat)
    requires
        start <= end,
    ensures
        forall|a: nat| blocks_cover(range_blocks(start, end, width), width, a) <==> start <= a <= end,
        forall|i: int, j: int|
            0 <= i < j < range_blocks(start, end, width).len() ==> block_end(
                #[trigger] range_blocks(start, end, width)[i],
                width,
            ) <= (#[trigger] range_blocks(start, end, width)[j]).0,
        range_blocks(start, end, width)[0].0 == start,
        block_end(range_blocks(start, end, width).last(), width) == end + 1,
{
    let t = range_blocks(start, end, width);
    lemma_range_blocks_tile(start, end, width);
    lemma_tiling_covers(t, start, end, width);
    assert forall|i: int, j: int| 0 <= i < j < t.len() implies block_end(#[trigger] t[i], width) <= (
    #[trigger] t[j]).0 by {
        lemma_tiling_bounds(t, start, end, width, i);
    }
}

/// In a tiling of a range, the greedy block at the start of the range ends
/// where some block of the tiling ends. Returns the number of blocks of the
/// tiling up to there.
proof fn lemma_tiling_boundary(
    t: Seq<(nat, nat)>,
    start: nat,
    end: nat,
    width: nat,
    i: int,
) -> (j: int)
    requires
        start <= end,
        is_tiling(t, start, end, width),
        0 <= i < t.len(),
        t[i].0 < start + pow2(largest_fit(start, end, width)),
        (width - t[i].1) as nat <= largest_fit(start, end, width),
    ensures
        i < j <= t.len(),
        j < t.len() ==> t[j].0 == start + pow2(largest_fit(start, end, width)),
        j == t.len() ==> end + 1 == start + pow2(largest_fit(start, end, width)),
    decreases t.len() - i,
{
    let kg = largest_fit(start, end, width);
    let ki = (width - t[i].1) as nat;
    lemma_largest_fit(start, end, width);
    lemma_tiling_bounds(t, start, end, width, i);
    lemma_block_within(t[i].0, ki, start, kg);
    if block_end(t[i], width) == start + pow2(kg) {
        if i + 1 < t.len() {
            assert(t[i + 1].0 == block_end(t[i], width));
        }
        i + 1
    } else {
        assert(i + 1 < t.len());
        let n = i + 1;
        assert(t[n].0 == block_end(t[i], width));
        let kn = (width - t[n].1) as nat;
        if kn > kg {
            lemma_aligned_down(t[n].0, kn, kg);
            lemma_aligned_apart(start, t[n].0, kg);
        }
        lemma_tiling_boundary(t, start, end, width, n)
    }
}

/// No tiling of a range has fewer blocks than the greedy decomposition.
pub proof fn lemma_range_blocks_minimal(t: Seq<(nat, nat)>, start: nat, end: nat, width: nat)
    requires
        start <= end,
        is_tiling(t, start, end, width),
    ensures
        range_blocks(start, end, width).len() <= t.len(),
    decreases t.len(),
{
    let kg = largest_fit(start, end, width);
    let next = start + pow2(kg);
    lemma_largest_fit(start, end, width);
    lemma_pow2_pos(kg);
    lemma_tiling_bounds(t, start, end, width, 0);
    let k0 = (width - t[0].1) as nat;
    assert(fits(start, end, k0));
    assert(k0 <= kg);
    lemma_pow2_le(k0, kg);
    let j = lemma_tiling_boundary(t, start, end, width, 0);
    let rest = range_blocks(next, end, width);
    assert(range_blocks(start, end, width) =~= seq![(start, (width - kg) as nat)].add(rest));
    if j < t.len() {
        let u = t.skip(j);
        lemma_tiling_bounds(t, start, end, width, j);
        assert(u.last() == t.last());
        assert forall|a: int, b: int| 0 <= a && b == a + 1 && b < u.len() implies (
        #[trigger] u[b]).0 == block_end(#[trigger] u[a], width) by {
            assert(t[b + j].0 == block_end(t[a + j], width));
        }
        assert(is_tiling(u, next, end, width));
        lemma_range_blocks_minimal(u, next, end, width);
    } else {
        assert(rest =~= Seq::<(nat, nat)>::empty());
    }
}

/// The address after a block that is aligned to `2^k` and to no larger
/// power of two is aligned to `2^(k+1)`.
pub proof fn lemma_aligned_step(cur: nat, k: nat)
    requires
        aligned(cur, k),
        !aligned(cur, k + 1),
    ensures
        aligned(cur + pow2(k), k + 1),
{
    let d = pow2(k) as int;
    let dd = pow2(k + 1) as int;
    lemma_pow2_pos(k);
    vstd::arithmetic::power2::lemma_pow2_unfold(k + 1);
    vstd::arithmetic::div_mod::lemma_fundamental_div_mod(cur as int, d);
    let q = (cur as int) / d;
    let h = q / 2;
    if q % 2 == 0 {
        assert(cur == h * dd) by (nonlinear_arith)
            requires
                cur == d * q,
                q == 2 * h,
                dd == 2 * d,
        ;
        vstd::arithmetic::div_mod::lemma_mod_multiples_basic(h, dd);
    } else {
        assert(cur + d == (h + 1) * dd) by (nonlinear_arith)
            requires
                cur == d * q,
                q == 2 * h + 1,
                dd == 2 * d,
        ;
        vstd::arithmetic::div_mod::lemma_mod_multiples_basic(h + 1, dd);
    }
}

/// Where fewer than `2^m` addresses are left and the position is aligned
/// to `2^m`, at most `m` blocks follow: each is smaller than the one before.
pub proof fn lemma_range_blocks_descending(cur: nat, end: nat, width: nat, m: nat)
    requires
        m <= width,
        aligned(cur, m),
        cur <= end + 1,
        end + 1 - cur < pow2(m),
    ensures
        range_blocks(cur, end, width).len() <= m,
    decreases m,
{
    if cur <= end {
        let k = largest_fit(cur, end, width);
        lemma_largest_fit(cur, end, width);
        lemma_pow2_pos(k);
        if k >= m {
            lemma_pow2_le(m, k);
        }
        assert(k < m);
        lemma_aligned_down(cur, m, k + 1);
        lemma_upper_half(cur, k + 1, 0);
        assert(!fits(cur, end, k + 1));
        let next = cur + pow2(k);
        let rest = range_blocks(next, end, width);
        assert(range_blocks(cur, end, width) =~= seq![(cur, (width - k) as nat)].add(rest));
        lemma_range_blocks_descending(next, end, width, k);
    }
}

/// From a position aligned to `2^t`, a decomposition has at most
/// `2 * width - t` blocks: the blocks grow while the alignment of the
/// position limits them, and shrink once the rest of the range does.
pub proof fn lemma_range_blocks_ascending(cur: nat, end: nat, width: nat, t: nat)
    requires
        width >= 1,
        t <= width,
        aligned(cur, t),
        cur <= end,
        end < pow2(width),
    ensures
        range_blocks(cur, end, width).len() <= 2 * width - t,
    decreases width - t,
{
    let k = largest_fit(cur, end, width);
    lemma_largest_fit(cur, end, width);
    lemma_pow2_pos(k);
    let next = cur + pow2(k);
    let rest = range_blocks(next, end, width);
    assert(range_blocks(cur, end, width) =~= seq![(cur, (width - k) as nat)].add(rest));
    if !fits(cur, end, t) {
        lemma_range_blocks_descending(cur, end, width, t);
    } else if k == width {
        assert(rest =~= Seq::<(nat, nat)>::empty());
    } else if aligned(cur, k + 1) {
        assert(!fits(cur, end, k + 1));
        lemma_upper_half(cur, k + 1, 0);
        lemma_range_blocks_descending(next, end, width, k);
    } else {
        lemma_aligned_step(cur, k);
        if next <= end {
            lemma_range_blocks_ascending(next, end, width, k + 1);
        } else {
            assert(rest =~= Seq::<(nat, nat)>::empty());
        }
    }
}

/// A range in a space of `width` bits decomposes into at most `2 * width`
/// blocks.
pub proof fn lemma_range_blocks_len(start: nat, end: nat, width: nat)
    requires
        width >= 1,
        start <= end,
        end < pow2(width),
    ensures
        1 <= range_blocks(start, end, width).len() <= 2 * width,
{
    vstd::arithmetic::power2::lemma2_to64();
    lemma_range_blocks(start, end, width);
    lemma_range_blocks_ascending(start, end, width, 0);
}

/// Blocks of IPv4 addresses as pairs of numbers.
pub open spec fn blocks_v4(pairs: Seq<(u32, u8)>) -> Seq<(nat, nat)> {
    pairs.map_values(|p: (u32, u8)| (p.0 as nat, p.1 as nat))
}

/// Blocks of IPv6 addresses as pairs of numbers.
pub open spec fn blocks_v6(pairs: Seq<(u128, u8)>) -> Seq<(nat, nat)> {
    pairs.map_values(|p: (u128, u8)| (p.0 as nat, p.1 as nat))
}

/// The number of blocks that a decomposition hands out under a ceiling: all
/// of them while they are at most `limit`, else one more than `limit`.
pub open spec fn capped_len(len: nat, limit: usize) -> nat {
    if len <= limit {
        len
    } else {
        (limit + 1) as nat
    }
}

/// Finds the host bits of the largest block that fits at `cur`.
fn largest_fit_v4(cur: u32, end: u32) -> (k: u8)
    requires
        cur <= end,
    ensures
        k <= 32,
        k == largest_fit(cur as nat, end as nat, 32),
        fits(cur as nat, end as nat, k as nat),
        cur | !mask_v4((32 - k) as u8) == cur + pow2(k as nat) - 1,
{
    let mut k: u8 = 32;
    let mut found = false;
    while k > 0 && !found
        invariant
            k <= 32,
            cur <= end,
            found ==> fits(cur as nat, end as nat, k as nat),
            largest_fit(cur as nat, end as nat, 32) == largest_fit(cur as nat, end as nat, k as nat),
        decreases k + (if found { 0int } else { 1int }),
    {
        let mask = ipv4_mask(32 - k);
        proof {
            lemma_network_v4(cur, (32 - k) as u8);
            lemma_mask_v4((32 - k) as u8);
            lemma_aligned_base(cur as nat, k as nat);
        }
        if (cur & mask) == cur && !mask <= end - cur {
            found = true;
        } else {
            k = k - 1;
        }
    }
    proof {
        lemma_largest_fit(cur as nat, end as nat, k as nat);
        lemma_network_v4(cur, (32 - k) as u8);
        lemma_mask_v4((32 - k) as u8);
        lemma_aligned_base(cur as nat, k as nat);
    }
    k
}

/// Finds the host bits of the largest block that fits at `cur`.
fn largest_fit_v6(cur: u128, end: u128) -> (k: u8)
    requires
        cur <= end,
    ensures
        k <= 128,
        k == largest_fit(cur as nat, end as nat, 128),
        fits(cur as nat, end as nat, k as nat),
        cur | !mask_v6((128 - k) as u8) == cur + pow2(k as nat) - 1,
{
    let mut k: u8 = 128;
    let mut found = false;
    while k > 0 && !found
        invariant
            k <= 128,
            cur <= end,
            found ==> fits(cur as nat, end as nat, k as nat),
            largest_fit(cur as nat, end as nat, 128) == largest_fit(
                cur as nat,
                end as nat,
                k as nat,
            ),
        decreases k + (if found { 0int } else { 1int }),
    {
        let mask = ipv6_mask(128 - k);
        proof {
            lemma_network_v6(cur, (128 - k) as u8);
            lemma_mask_v6((128 - k) as u8);
            lemma_aligned_base(cur as nat, k as nat);
        }
        if (cur & mask) == cur && !mask <= end - cur {
            found = true;
        } else {
            k = k - 1;
        }
    }
    proof {
        lemma_largest_fit(cur as nat, end as nat, k as nat);
        lemma_network_v6(cur, (128 - k) as u8);
        lemma_mask_v6((128 - k) as u8);
        lemma_aligned_base(cur as nat, k as nat);
    }
    k
}

/// Decomposes the IPv4 range from `start` to `end` into blocks, each a pair
/// of network address and prefix length. Stops as soon as more than `limit`
/// blocks have been produced; the result then holds `limit + 1` of them.
pub fn range_to_cidrs_v4(start: u32, end: u32, limit: usize) -> (result: Vec<(u32, u8)>)
    ensures
        blocks_v4(result@) == range_blocks(start as nat, end as nat, 32).take(
            result@.len() as int,
        ),
        result@.len() == capped_len(range_blocks(start as nat, end as nat, 32).len(), limit),
        forall|i: int| 0 <= i < result@.len() ==> (#[trigger] result@[i]).1 <= 32,
{
    let ghost full = range_blocks(start as nat, end as nat, 32);
    let mut result: Vec<(u32, u8)> = Vec::new();
    let mut cur = start;
    let mut done = start > end;
    proof {
        assert(blocks_v4(result@) =~= Seq::<(nat, nat)>::empty());
        assert(full =~= blocks_v4(result@) + full);
    }
    while !done && result.len() <= limit
        invariant
            !done ==> start <= cur <= end,
            full == range_blocks(start as nat, end as nat, 32),
            !done ==> full == blocks_v4(result@) + range_blocks(cur as nat, end as nat, 32),
            done ==> full == blocks_v4(result@),
            result@.len() <= limit + 1,
            forall|i: int| 0 <= i < result@.len() ==> (#[trigger] result@[i]).1 <= 32,
        decreases
                (if done {
                    0int
                } else {
                    end - cur + 1
                }),
    {
        let k = largest_fit_v4(cur, end);
        let last = cur | !ipv4_mask(32 - k);
        let ghost before = blocks_v4(result@);
        let ghost rest = range_blocks(cur as nat + pow2(k as nat), end as nat, 32);
        proof {
            lemma_pow2_pos(k as nat);
            assert(range_blocks(cur as nat, end as nat, 32) =~= seq![
                (cur as nat, (32 - k) as nat),
            ].add(rest));
        }
        result.push((cur, 32 - k));
        proof {
            assert(blocks_v4(result@) =~= before.push((cur as nat, (32 - k) as nat)));
            assert(full =~= blocks_v4(result@) + rest);
        }
        if last == end {
            done = true;
            proof {
                assert(rest =~= Seq::<(nat, nat)>::empty());
                assert(full =~= blocks_v4(result@));
            }
        } else {
            cur = last + 1;
        }
    }
    proof {
        if !done {
            lemma_range_blocks(cur as nat, end as nat, 32);
        }
        assert(blocks_v4(result@) =~= full.take(result@.len() as int));
    }
    result
}

/// Decomposes the IPv6 range from `start` to `end` into blocks, each a pair
/// of network address and prefix length. Stops as soon as more than `limit`
/// blocks have been produced; the result then holds `limit + 1` of them.
pub fn range_to_cidrs_v6(start: u128, end: u128, limit: usize) -> (result: Vec<(u128, u8)>)
    ensures
        blocks_v6(result@) == range_blocks(start as nat, end as nat, 128).take(
            result@.len() as int,
        ),
        result@.len() == capped_len(range_blocks(start as nat, end as nat, 128).len(), limit),
        forall|i: int| 0 <= i < result@.len() ==> (#[trigger] result@[i]).1 <= 128,
{
    let ghost full = range_blocks(start as nat, end as nat, 128);
    let mut result: Vec<(u128, u8)> = Vec::new();
    let mut cur = start;
    let mut done = start > end;
    proof {
        assert(blocks_v6(result@) =~= Seq::<(nat, nat)>::empty());
        assert(full =~= blocks_v6(result@) + full);
    }
    while !done && result.len() <= limit
        invariant
            !done ==> start <= cur <= end,
            full == range_blocks(start as nat, end as nat, 128),
            !done ==> full == blocks_v6(result@) + range_blocks(cur as nat, end as nat, 128),
            done ==> full == blocks_v6(result@),
            result@.len() <= limit + 1,
            forall|i: int| 0 <= i < result@.len() ==> (#[trigger] result@[i]).1 <= 128,
        decreases
                (if done {
                    0int
                } else {
                    end - cur + 1
                }),
    {
        let k = largest_fit_v6(cur, end);
        let last = cur | !ipv6_mask(128 - k);
        let ghost before = blocks_v6(result@);
        let ghost rest = range_blocks(cur as nat + pow2(k as nat), end as nat, 128);
        proof {
            lemma_pow2_pos(k as nat);
            assert(range_blocks(cur as nat, end as nat, 128) =~= seq![
                (cur as nat, (128 - k) as nat),
            ].add(rest));
        }
        result.push((cur, 128 - k));
        proof {
            assert(blocks_v6(result@) =~= before.push((cur as nat, (128 - k) as nat)));
            assert(full =~= blocks_v6(result@) + rest);
        }
        if last == end {
            done = true;
            proof {
                assert(rest =~= Seq::<(nat, nat)>::empty());
                assert(full =~= blocks_v6(result@));
            }
        } else {
            cur = last + 1;
        }
    }
    proof {
        if !done {
            lemma_range_blocks(cur as nat, end as nat, 128);
        }
        assert(blocks_v6(result@) =~= full.take(result@.len() as int));
    }
    result
}

/// The blocks that cover an IPv4 range.
#[derive(Debug, Clone, PartialEq, Eq)]
pub struct Ipv4FromRangeResult {
    /// First address of the range.
    pub start_address: String,
    /// Last address of the range.
    pub end_address: String,
    /// Number of blocks.
    pub cidr_count: usize,
    /// The blocks, in ascending order.
    pub cidrs: Vec<Ipv4Subnet>,
}

/// The blocks that cover an IPv6 range.
#[derive(Debug, Clone, PartialEq, Eq)]
pub struct Ipv6FromRangeResult {
    /// First address of the range.
    pub start_address: String,
    /// Last address of the range.
    pub end_address: String,
    /// Number of blocks.
    pub cidr_count: usize,
    /// The blocks, in ascending order.
    pub cidrs: Vec<Ipv6Subnet>,
}

/// An IPv4 decomposition with its texts as character sequences.
pub struct Ipv4FromRangeView {
    pub start_address: Seq<char>,
    pub end_address: Seq<char>,
    pub cidr_count: usize,
    pub cidrs: Seq<Ipv4SubnetView>,
}

/// An IPv6 decomposition with its texts as character sequences.
pub struct Ipv6FromRangeView {
    pub start_address: Seq<char>,
    pub end_address: Seq<char>,
    pub cidr_count: usize,
    pub cidrs: Seq<Ipv6SubnetView>,
}

/// The IPv4 subnets of a list of blocks.
pub open spec fn ipv4_subnets_of(blocks: Seq<(nat, nat)>) -> Seq<Ipv4SubnetView> {
    blocks.map_values(|b: (nat, nat)| ipv4_subnet_of(b.0 as u32, b.1 as u8))
}

/// The IPv6 subnets of a list of blocks.
pub open spec fn ipv6_subnets_of(blocks: Seq<(nat, nat)>) -> Seq<Ipv6SubnetView> {
    blocks.map_values(|b: (nat, nat)| ipv6_subnet_of(b.0 as u128, b.1 as u8))
}

impl View for Ipv4FromRangeResult {
    type V = Ipv4FromRangeView;

    open spec fn view(&self) -> Ipv4FromRangeView {
        Ipv4FromRangeView {
            start_address: self.start_address@,
            end_address: self.end_address@,
            cidr_count: self.cidr_count,
            cidrs: ipv4_subnet_views(self.cidrs@),
        }
    }
}

impl View for Ipv6FromRangeResult {
    type V = Ipv6FromRangeView;

    open spec fn view(&self) -> Ipv6FromRangeView {
        Ipv6FromRangeView {
            start_address: self.start_address@,
            end_address: self.end_address@,
            cidr_count: self.cidr_count,
            cidrs: ipv6_subnet_views(self.cidrs@),
        }
    }
}

/// What the decomposition of an IPv4 range given as two texts yields. Both
/// texts must be addresses, the first not after the second, and the blocks
/// must number at most `max_cidrs`.
pub open spec fn ipv4_range_value(
    start: Seq<char>,
    end: Seq<char>,
    max_cidrs: usize,
) -> core::result::Result<
    Ipv4FromRangeView,
    ErrorView,
> {
    let s = ipv4_text_value(start);
    let e = ipv4_text_value(end);
    if s is None {
        Err(ErrorView::InvalidIpv4Address(start))
    } else if e is None {
        Err(ErrorView::InvalidIpv4Address(end))
    } else if s->0 > e->0 {
        Err(ErrorView::InvalidRange(start, end))
    } else {
        let blocks = range_blocks(s->0 as nat, e->0 as nat, 32);
        if blocks.len() > max_cidrs {
            Err(
                ErrorView::FromRangeLimitExceeded {
                    count: (max_cidrs + 1) as usize,
                    limit: max_cidrs,
                },
            )
        } else {
            Ok(
                Ipv4FromRangeView {
                    start_address: ipv4_text(s->0),
                    end_address: ipv4_text(e->0),
                    cidr_count: blocks.len() as usize,
                    cidrs: ipv4_subnets_of(blocks),
                },
            )
        }
    }
}

/// What the decomposition of an IPv6 range given as two texts yields.
pub open spec fn ipv6_range_value(
    start: Seq<char>,
    end: Seq<char>,
    max_cidrs: usize,
) -> core::result::Result<
    Ipv6FromRangeView,
    ErrorView,
> {
    let s = ipv6_text_value(start);
    let e = ipv6_text_value(end);
    if s is None {
        Err(ErrorView::InvalidIpv6Address(start))
    } else if e is None {
        Err(ErrorView::InvalidIpv6Address(end))
    } else if s->0 > e->0 {
        Err(ErrorView::InvalidRange(start, end))
    } else {
        let blocks = range_blocks(s->0 as nat, e->0 as nat, 128);
        if blocks.len() > max_cidrs {
            Err(
                ErrorView::FromRangeLimitExceeded {
                    count: (max_cidrs + 1) as usize,
                    limit: max_cidrs,
                },
            )
        } else {
            Ok(
                Ipv6FromRangeView {
                    start_address: ipv6_text(s->0),
                    end_address: ipv6_text(e->0),
                    cidr_count: blocks.len() as usize,
                    cidrs: ipv6_subnets_of(blocks),
                },
            )
        }
    }
}

/// An IPv4 decomposition or its error, as views.
pub open spec fn ipv4_range_outcome(r: Result<Ipv4FromRangeResult>) -> core::result::Result<
    Ipv4FromRangeView,
    ErrorView,
> {
    match r {
        Ok(v) => Ok(v@),
        Err(e) => Err(e@),
    }
}

/// An IPv6 decomposition or its error, as views.
pub open spec fn ipv6_range_outcome(r: Result<Ipv6FromRangeResult>) -> core::result::Result<
    Ipv6FromRangeView,
    ErrorView,
> {
    match r {
        Ok(v) => Ok(v@),
        Err(e) => Err(e@),
    }
}

/// Covers the IPv4 range between two addresses with the fewest blocks, at
/// most a million of them.
pub fn from_range_ipv4(start: &str, end: &str) -> (r: Result<Ipv4FromRangeResult>)
    ensures
        ipv4_range_outcome(r) == ipv4_range_value(start@, end@, DEFAULT_MAX_GENERATED_CIDRS),
{
    from_range_ipv4_with_limit(start, end, DEFAULT_MAX_GENERATED_CIDRS)
}

/// Covers the IPv4 range between two addresses with the fewest blocks, at
/// most `max_cidrs` of them.
pub fn from_range_ipv4_with_limit(start: &str, end: &str, max_cidrs: usize) -> (r: Result<
    Ipv4FromRangeResult,
>)
    ensures
        ipv4_range_outcome(r) == ipv4_range_value(start@, end@, max_cidrs),
{
    let start_addr = match parse_ipv4_str(start) {
        Some(a) => a,
        None => {
            return Err(IpCalcError::InvalidIpv4Address(start.to_owned()));
        },
    };
    let end_addr = match parse_ipv4_str(end) {
        Some(a) => a,
        None => {
            return Err(IpCalcError::InvalidIpv4Address(end.to_owned()));
        },
    };
    if start_addr > end_addr {
        return Err(IpCalcError::InvalidRange(start.to_owned(), end.to_owned()));
    }
    let pairs = range_to_cidrs_v4(start_addr, end_addr, max_cidrs);
    if pairs.len() > max_cidrs {
        return Err(IpCalcError::FromRangeLimitExceeded { count: pairs.len(), limit: max_cidrs });
    }
    let ghost blocks = range_blocks(start_addr as nat, end_addr as nat, 32);
    assert(blocks_v4(pairs@) =~= blocks);
    let mut cidrs: Vec<Ipv4Subnet> = Vec::new();
    let mut i: usize = 0;
    while i < pairs.len()
        invariant
            0 <= i <= pairs.len(),
            blocks_v4(pairs@) == blocks,
            forall|j: int| 0 <= j < pairs@.len() ==> (#[trigger] pairs@[j]).1 <= 32,
            cidrs@.len() == i,
            forall|j: int|
                0 <= j < i ==> (#[trigger] cidrs@[j])@ == ipv4_subnet_of(pairs@[j].0, pairs@[j].1),
        decreases pairs.len() - i,
    {
        let pair = pairs[i];
        match Ipv4Subnet::new(pair.0, pair.1) {
            Ok(subnet) => {
                cidrs.push(subnet);
            },
            Err(e) => {
                return Err(e);
            },
        }
        i = i + 1;
    }
    proof {
        assert forall|j: int| 0 <= j < blocks.len() implies ipv4_subnet_views(cidrs@)[j]
            == ipv4_subnets_of(blocks)[j] by {
            assert(blocks[j] == blocks_v4(pairs@)[j]);
        }
        assert(ipv4_subnet_views(cidrs@) =~= ipv4_subnets_of(blocks));
    }
    Ok(
        Ipv4FromRangeResult {
            start_address: ipv4_to_string(start_addr),
            end_address: ipv4_to_string(end_addr),
            cidr_count: cidrs.len(),
            cidrs,
        },
    )
}

/// Covers the IPv6 range between two addresses with the fewest blocks, at
/// most a million of them.
pub fn from_range_ipv6(start: &str, end: &str) -> (r: Result<Ipv6FromRangeResult>)
    ensures
        ipv6_range_outcome(r) == ipv6_range_value(start@, end@, DEFAULT_MAX_GENERATED_CIDRS),
{
    from_range_ipv6_with_limit(start, end, DEFAULT_MAX_GENERATED_CIDRS)
}

/// Covers the IPv6 range between two addresses with the fewest blocks, at
/// most `max_cidrs` of them.
pub fn from_range_ipv6_with_limit(start: &str, end: &str, max_cidrs: usize) -> (r: Result<
    Ipv6FromRangeResult,
>)
    ensures
        ipv6_range_outcome(r) == ipv6_range_value(start@, end@, max_cidrs),
{
    let start_addr = match parse_ipv6_str(start) {
        Some(a) => a,
        None => {
            return Err(IpCalcError::InvalidIpv6Address(start.to_owned()));
        },
    };
    let end_addr = match parse_ipv6_str(end) {
        Some(a) => a,
        None => {
            return Err(IpCalcError::InvalidIpv6Address(end.to_owned()));
        },
    };
    if start_addr > end_addr {
        return Err(IpCalcError::InvalidRange(start.to_owned(), end.to_owned()));
    }
    let pairs = range_to_cidrs_v6(start_addr, end_addr, max_cidrs);
    if pairs.len() > max_cidrs {
        return Err(IpCalcError::FromRangeLimitExceeded { count: pairs.len(), limit: max_cidrs });
    }
    let ghost blocks = range_blocks(start_addr as nat, end_addr as nat, 128);
    assert(blocks_v6(pairs@) =~= blocks);
    let mut cidrs: Vec<Ipv6Subnet> = Vec::new();
    let mut i: usize = 0;
    while i < pairs.len()
        invariant
            0 <= i <= pairs.len(),
            blocks_v6(pairs@) == blocks,
            forall|j: int| 0 <= j < pairs@.len() ==> (#[trigger] pairs@[j]).1 <= 128,
            cidrs@.len() == i,
            forall|j: int|
                0 <= j < i ==> (#[trigger] cidrs@[j])@ == ipv6_subnet_of(pairs@[j].0, pairs@[j].1),
        decreases pairs.len() - i,
    {
        let pair = pairs[i];
        match Ipv6Subnet::new(pair.0, pair.1) {
            Ok(subnet) => {
                cidrs.push(subnet);
            },
            Err(e) => {
                return Err(e);
            },
        }
        i = i + 1;
    }
    proof {
        assert forall|j: int| 0 <= j < blocks.len() implies ipv6_subnet_views(cidrs@)[j]
            == ipv6_subnets_of(blocks)[j] by {
            assert(blocks[j] == blocks_v6(pairs@)[j]);
        }
        assert(ipv6_subnet_views(cidrs@) =~= ipv6_subnets_of(blocks));
    }
    Ok(
        Ipv6FromRangeResult {
            start_address: ipv6_to_string(start_addr),
            end_address: ipv6_to_string(end_addr),
            cidr_count: cidrs.len(),
            cidrs,
        },
    )
}

/// The subnets of the decomposition of an IPv4 range are its blocks: subnet
/// `i` has the network address and the prefix length of block `i`, and its
/// last address is the last address of that block. So the first subnet
/// starts at the start of the range, each subnet starts right after the
/// one before, and the last subnet ends at the end of the range.
pub proof fn lemma_ipv4_range_subnets(start: u32, end: u32, i: int)
    requires
        start <= end,
        0 <= i < range_blocks(start as nat, end as nat, 32).len(),
    ensures
        ipv4_subnets_of(range_blocks(start as nat, end as nat, 32))[i].network == range_blocks(
            start as nat,
            end as nat,
            32,
        )[i].0,
        ipv4_subnets_of(range_blocks(start as nat, end as nat, 32))[i].prefix_length
            == range_blocks(start as nat, end as nat, 32)[i].1,
        ipv4_subnets_of(range_blocks(start as nat, end as nat, 32))[i].broadcast + 1 == block_end(
            range_blocks(start as nat, end as nat, 32)[i],
            32,
        ),
{
    let blocks = range_blocks(start as nat, end as nat, 32);
    let b = blocks[i];
    lemma_range_blocks(start as nat, end as nat, 32);
    lemma_pow2_widths();
    lemma_network_v4(b.0 as u32, b.1 as u8);
    lemma_aligned_base(b.0, (32 - b.1) as nat);
}

/// The subnets of the decomposition of an IPv6 range are its blocks: subnet
/// `i` has the network address and the prefix length of block `i`, and its
/// last address is the last address of that block. So the first subnet
/// starts at the start of the range, each subnet starts right after the
/// one before, and the last subnet ends at the end of the range.
pub proof fn lemma_ipv6_range_subnets(start: u128, end: u128, i: int)
    requires
        start <= end,
        0 <= i < range_blocks(start as nat, end as nat, 128).len(),
    ensures
        ipv6_subnets_of(range_blocks(start as nat, end as nat, 128))[i].network == range_blocks(
            start as nat,
            end as nat,
            128,
        )[i].0,
        ipv6_subnets_of(range_blocks(start as nat, end as nat, 128))[i].prefix_length
            == range_blocks(start as nat, end as nat, 128)[i].1,
        ipv6_subnets_of(range_blocks(start as nat, end as nat, 128))[i].last + 1 == block_end(
            range_blocks(start as nat, end as nat, 128)[i],
            128,
        ),
{
    let blocks = range_blocks(start as nat, end as nat, 128);
    let b = blocks[i];
    lemma_range_blocks(start as nat, end as nat, 128);
    lemma_pow2_widths();
    lemma_network_v6(b.0 as u128, b.1 as u8);
    lemma_aligned_base(b.0, (128 - b.1) as nat);
}

/// A range of IPv4 addresses decomposes into at most 64 blocks, so a
/// ceiling of 64 or more never refuses a range: where both texts are
/// addresses and the first is not after the second, the decomposition
/// succeeds.
pub proof fn lemma_ipv4_range_succeeds(start: Seq<char>, end: Seq<char>, max_cidrs: usize)
    requires
        ipv4_text_value(start) is Some,
        ipv4_text_value(end) is Some,
        ipv4_text_value(start)->0 <= ipv4_text_value(end)->0,
        max_cidrs >= 64,
    ensures
        range_blocks(
            ipv4_text_value(start)->0 as nat,
            ipv4_text_value(end)->0 as nat,
            32,
        ).len() <= 64,
        ipv4_range_value(start, end, max_cidrs) is Ok,
{
    lemma_pow2_widths();
    lemma_range_blocks_len(
        ipv4_text_value(start)->0 as nat,
        ipv4_text_value(end)->0 as nat,
        32,
    );
}

/// A range of IPv6 addresses decomposes into at most 256 blocks, so a
/// ceiling of 256 or more never refuses a range: where both texts are
/// addresses and the first is not after the second, the decomposition
/// succeeds.
pub proof fn lemma_ipv6_range_succeeds(start: Seq<char>, end: Seq<char>, max_cidrs: usize)
    requires
        ipv6_text_value(start) is Some,
        ipv6_text_value(end) is Some,
        ipv6_text_value(start)->0 <= ipv6_text_value(end)->0,
        max_cidrs >= 256,
    ensures
        range_blocks(
            ipv6_text_value(start)->0 as nat,
            ipv6_text_value(end)->0 as nat,
            128,
        ).len() <= 256,
        ipv6_range_value(start, end, max_cidrs) is Ok,
{
    lemma_pow2_widths();
    lemma_range_blocks_len(
        ipv6_text_value(start)->0 as nat,
        ipv6_text_value(end)->0 as nat,
        128,
    );
}

} // verus!
