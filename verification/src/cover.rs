//! Lists of blocks and the addresses they cover.
//!
//! An entry is a pair of an address and a prefix length in a space of `bits`
//! bits. It stands for the block of its prefix length that holds the
//! address. This module says when a list of entries is the summary of a set
//! of addresses, and proves that a set has only one summary.

use vstd::prelude::*;
use vstd::arithmetic::power2::{lemma_pow2_pos, pow2};
use crate::space::{
    aligned, block_base, block_last, lemma_aligned_apart, lemma_aligned_base, lemma_aligned_down,
    lemma_block_within, lemma_same_block, lemma_upper_half,
};

verus! {

/// The prefix length is within the width and the address within the space.
pub open spec fn entry_valid(e: (u128, u8), bits: u8) -> bool {
    e.1 <= bits && (e.0 as nat) < pow2(bits as nat)
}

/// Number of host bits of an entry.
pub open spec fn entry_bits(e: (u128, u8), bits: u8) -> nat {
    (bits - e.1) as nat
}

/// First address of the block of an entry.
pub open spec fn entry_first(e: (u128, u8), bits: u8) -> nat {
    block_base(e.0 as nat, entry_bits(e, bits))
}

/// Last address of the block of an entry.
pub open spec fn entry_last(e: (u128, u8), bits: u8) -> nat {
    block_last(e.0 as nat, entry_bits(e, bits))
}

/// The block of the entry holds the address.
pub open spec fn entry_covers(e: (u128, u8), bits: u8, a: nat) -> bool {
    entry_first(e, bits) <= a <= entry_last(e, bits)
}

/// The entry is valid and its address is the first of its block.
pub open spec fn entry_normal(e: (u128, u8), bits: u8) -> bool {
    entry_valid(e, bits) && aligned(e.0 as nat, entry_bits(e, bits))
}

/// Some entry of the list covers the address.
pub open spec fn covered(s: Seq<(u128, u8)>, bits: u8, a: nat) -> bool {
    exists|i: int| 0 <= i < s.len() && entry_covers(#[trigger] s[i], bits, a)
}

/// The two lists cover the same addresses.
pub open spec fn same_cover(x: Seq<(u128, u8)>, y: Seq<(u128, u8)>, bits: u8) -> bool {
    forall|a: nat| covered(x, bits, a) <==> covered(y, bits, a)
}

/// Every entry of the list is valid.
pub open spec fn all_valid(s: Seq<(u128, u8)>, bits: u8) -> bool {
    forall|i: int| 0 <= i < s.len() ==> entry_valid(#[trigger] s[i], bits)
}

/// Every entry of the list is normal.
pub open spec fn all_normal(s: Seq<(u128, u8)>, bits: u8) -> bool {
    forall|i: int| 0 <= i < s.len() ==> entry_normal(#[trigger] s[i], bits)
}

/// Each block ends before the next one starts: the blocks are in ascending
/// order and no two of them overlap.
pub open spec fn ascending_disjoint(s: Seq<(u128, u8)>, bits: u8) -> bool {
    forall|i: int, j: int|
        0 <= i < j < s.len() ==> entry_last(#[trigger] s[i], bits) < (#[trigger] s[j]).0
}

/// The two entries are the halves of one block: they have the same prefix
/// length, which is not zero, and the same block of the next shorter prefix.
pub open spec fn siblings(a: (u128, u8), b: (u128, u8), bits: u8) -> bool {
    a.1 == b.1 && a.1 > 0 && block_base(a.0 as nat, entry_bits(a, bits) + 1) == block_base(
        b.0 as nat,
        entry_bits(b, bits) + 1,
    )
}

/// No two neighbours in the list could be merged into one block.
pub open spec fn no_adjacent_siblings(s: Seq<(u128, u8)>, bits: u8) -> bool {
    forall|i: int, j: int|
        0 <= i && j == i + 1 && j < s.len() ==> !siblings(#[trigger] s[i], #[trigger] s[j], bits)
}

/// The list is a summary: normal blocks in ascending order, none overlapping
/// another, no two neighbours mergeable. A set of addresses has at most one
/// summary, and no list that covers the same addresses is shorter.
pub open spec fn is_summary(s: Seq<(u128, u8)>, bits: u8) -> bool {
    all_normal(s, bits) && ascending_disjoint(s, bits) && no_adjacent_siblings(s, bits)
}

/// The block of a normal entry runs from the entry's address over `2^k`
/// addresses.
pub proof fn lemma_normal_span(e: (u128, u8), bits: u8)
    requires
        entry_normal(e, bits),
    ensures
        entry_first(e, bits) == e.0,
        entry_last(e, bits) == e.0 + pow2(entry_bits(e, bits)) - 1,
        e.0 <= entry_last(e, bits),
{
    lemma_aligned_base(e.0 as nat, entry_bits(e, bits));
    lemma_pow2_pos(entry_bits(e, bits));
}

/// In a summary, an entry that starts where an aligned, fully covered block
/// starts, and is no larger than that block, is that block.
pub proof fn lemma_tile(s: Seq<(u128, u8)>, bits: u8, i: int, r: nat, k: nat)
    requires
        is_summary(s, bits),
        0 <= i < s.len(),
        s[i].0 == r,
        entry_bits(s[i], bits) <= k <= bits,
        aligned(r, k),
        forall|a: nat| r <= a < r + pow2(k) ==> covered(s, bits, a),
    ensures
        entry_bits(s[i], bits) == k,
    decreases k,
{
    let ki = entry_bits(s[i], bits);
    if ki < k {
        let h = (k - 1) as nat;
        let half = pow2(h);
        lemma_upper_half(r, k, 0);
        lemma_pow2_pos(h);
        lemma_tile(s, bits, i, r, h);
        let r2 = r + half;
        lemma_normal_span(s[i], bits);
        assert(covered(s, bits, r2));
        let j = choose|j: int| 0 <= j < s.len() && entry_covers(#[trigger] s[j], bits, r2);
        lemma_normal_span(s[j], bits);
        if j < i {
            assert(entry_last(s[j], bits) < s[i].0);
        }
        assert(j > i);
        let n = i + 1;
        lemma_normal_span(s[n], bits);
        assert(entry_last(s[i], bits) < s[n].0);
        if n < j {
            assert(entry_last(s[n], bits) < s[j].0);
        }
        assert(s[n].0 == r2);
        let k2 = entry_bits(s[n], bits);
        lemma_upper_half(r, k, k2);
        assert forall|a: nat| r2 <= a < r2 + pow2(h) implies covered(s, bits, a) by {
            assert(r <= a < r + pow2(k));
        }
        lemma_tile(s, bits, n, r2, h);
        lemma_aligned_base(r, k);
        lemma_same_block(r, r2, k);
        assert(siblings(s[i], s[n], bits));
    }
}

/// Where two summaries that cover the same addresses agree on their first
/// `i` entries and the first has a further entry, the second has the same
/// entry there.
pub proof fn lemma_summary_unique_at(x: Seq<(u128, u8)>, y: Seq<(u128, u8)>, bits: u8, i: int)
    requires
        is_summary(x, bits),
        is_summary(y, bits),
        same_cover(x, y, bits),
        0 <= i < x.len(),
        i <= y.len(),
        forall|j: int| 0 <= j < i ==> x[j] == y[j],
    ensures
        i < y.len(),
        x[i] == y[i],
{
    lemma_normal_span(x[i], bits);
    let a = x[i].0 as nat;
    assert(entry_covers(x[i], bits, a));
    assert(covered(x, bits, a));
    assert(covered(y, bits, a));
    let j = choose|j: int| 0 <= j < y.len() && entry_covers(#[trigger] y[j], bits, a);
    lemma_normal_span(y[j], bits);
    if j < i {
        assert(x[j] == y[j]);
        assert(entry_last(x[j], bits) < x[i].0);
    }
    assert(i <= j);
    lemma_normal_span(y[i], bits);
    if i < j {
        assert(entry_last(y[i], bits) < y[j].0);
    }
    assert(y[i].0 <= x[i].0);
    let b = y[i].0 as nat;
    assert(entry_covers(y[i], bits, b));
    assert(covered(y, bits, b));
    assert(covered(x, bits, b));
    let m = choose|m: int| 0 <= m < x.len() && entry_covers(#[trigger] x[m], bits, b);
    lemma_normal_span(x[m], bits);
    if m < i {
        assert(x[m] == y[m]);
        assert(entry_last(y[m], bits) < y[i].0);
    }
    if i < m {
        assert(entry_last(x[i], bits) < x[m].0);
    }
    assert(x[i].0 == y[i].0);
    let kx = entry_bits(x[i], bits);
    let ky = entry_bits(y[i], bits);
    if kx < ky {
        assert forall|c: nat| a <= c < a + pow2(ky) implies covered(x, bits, c) by {
            assert(entry_covers(y[i], bits, c));
            assert(covered(y, bits, c));
        }
        lemma_tile(x, bits, i, a, ky);
    } else if ky < kx {
        assert forall|c: nat| a <= c < a + pow2(kx) implies covered(y, bits, c) by {
            assert(entry_covers(x[i], bits, c));
            assert(covered(x, bits, c));
        }
        lemma_tile(y, bits, i, a, kx);
    }
}

/// Two summaries that cover the same addresses agree on their first `n`
/// entries, as far as the first one reaches.
pub proof fn lemma_summary_unique_prefix(
    x: Seq<(u128, u8)>,
    y: Seq<(u128, u8)>,
    bits: u8,
    n: int,
)
    requires
        is_summary(x, bits),
        is_summary(y, bits),
        same_cover(x, y, bits),
        0 <= n <= x.len(),
    ensures
        n <= y.len(),
        forall|j: int| 0 <= j < n ==> x[j] == y[j],
    decreases n,
{
    if n > 0 {
        lemma_summary_unique_prefix(x, y, bits, n - 1);
        lemma_summary_unique_at(x, y, bits, n - 1);
    }
}

/// A set of addresses has only one summary: two summaries that cover the
/// same addresses are the same list.
pub proof fn lemma_summary_unique(x: Seq<(u128, u8)>, y: Seq<(u128, u8)>, bits: u8)
    requires
        is_summary(x, bits),
        is_summary(y, bits),
        same_cover(x, y, bits),
    ensures
        x == y,
{
    lemma_summary_unique_prefix(x, y, bits, x.len() as int);
    lemma_summary_unique_prefix(y, x, bits, y.len() as int);
    assert(x =~= y);
}

/// The block of a valid entry starts at a multiple of its size and runs over
/// `2^k` addresses.
pub proof fn lemma_valid_span(e: (u128, u8), bits: u8)
    requires
        entry_valid(e, bits),
    ensures
        aligned(entry_first(e, bits), entry_bits(e, bits)),
        entry_last(e, bits) == entry_first(e, bits) + pow2(entry_bits(e, bits)) - 1,
        entry_first(e, bits) <= entry_last(e, bits),
{
    lemma_same_block(e.0 as nat, e.0 as nat, entry_bits(e, bits));
    lemma_pow2_pos(entry_bits(e, bits));
}

/// Where a list covers what a summary covers, an entry of the list that
/// covers the first address of a block of the summary starts there, too.
pub proof fn lemma_holder_starts_with(
    x: Seq<(u128, u8)>,
    y: Seq<(u128, u8)>,
    bits: u8,
    i: int,
    j: int,
)
    requires
        is_summary(x, bits),
        all_valid(y, bits),
        same_cover(x, y, bits),
        0 <= i < x.len(),
        0 <= j < y.len(),
        entry_covers(y[j], bits, x[i].0 as nat),
    ensures
        entry_first(y[j], bits) == x[i].0,
{
    let fy = entry_first(y[j], bits);
    let ky = entry_bits(y[j], bits);
    let kx = entry_bits(x[i], bits);
    let a = x[i].0 as nat;
    lemma_valid_span(y[j], bits);
    lemma_normal_span(x[i], bits);
    assert forall|c: nat| fy <= c < fy + pow2(ky) implies covered(x, bits, c) by {
        assert(entry_covers(y[j], bits, c));
        assert(covered(y, bits, c));
    }
    if ky <= kx {
        lemma_aligned_down(a, kx, ky);
        if fy < a {
            lemma_aligned_apart(fy, a, ky);
        }
    } else if fy == a {
        lemma_tile(x, bits, i, fy, ky);
    } else {
        assert(covered(x, bits, fy));
        let m = choose|m: int| 0 <= m < x.len() && entry_covers(#[trigger] x[m], bits, fy);
        let km = entry_bits(x[m], bits);
        lemma_normal_span(x[m], bits);
        if m > i {
            assert(entry_last(x[i], bits) < x[m].0);
        }
        assert(m < i);
        assert(entry_last(x[m], bits) < x[i].0);
        if km >= ky {
            lemma_block_within(fy, ky, x[m].0 as nat, km);
        } else {
            lemma_aligned_down(fy, ky, km);
            if x[m].0 < fy {
                lemma_aligned_apart(x[m].0 as nat, fy, km);
            }
            lemma_tile(x, bits, m, fy, ky);
        }
    }
}

/// A function that maps `n` numbers to `m` numbers and never gives one
/// result twice needs `n <= m`.
pub proof fn lemma_pigeonhole(n: int, m: int, f: spec_fn(int) -> int)
    requires
        0 <= n,
        0 <= m,
        forall|i: int| 0 <= i < n ==> 0 <= #[trigger] f(i) < m,
        forall|i: int, j: int| 0 <= i < j < n ==> #[trigger] f(i) != #[trigger] f(j),
    ensures
        n <= m,
    decreases m,
{
    if n > 0 {
        assert(0 <= f(0) < m);
        if exists|i: int| 0 <= i < n && #[trigger] f(i) == m - 1 {
            let k = choose|i: int| 0 <= i < n && #[trigger] f(i) == m - 1;
            let g = |i: int|
                if i < k {
                    f(i)
                } else {
                    f(i + 1)
                };
            assert forall|i: int| 0 <= i < n - 1 implies 0 <= #[trigger] g(i) < m - 1 by {
                if i < k {
                    assert(f(i) != f(k));
                } else {
                    assert(f(k) != f(i + 1));
                }
            }
            assert forall|i: int, j: int| 0 <= i < j < n - 1 implies #[trigger] g(i)
                != #[trigger] g(j) by {
                let a = if i < k {
                    i
                } else {
                    i + 1
                };
                let b = if j < k {
                    j
                } else {
                    j + 1
                };
                assert(f(a) != f(b));
            }
            lemma_pigeonhole(n - 1, m - 1, g);
        } else {
            assert forall|i: int| 0 <= i < n implies 0 <= #[trigger] f(i) < m - 1 by {
                assert(0 <= f(i) < m);
            }
            lemma_pigeonhole(n, m - 1, f);
        }
    }
}

/// A summary is as short as can be: no list of valid entries that covers
/// the same addresses has fewer entries.
pub proof fn lemma_summary_minimal(x: Seq<(u128, u8)>, y: Seq<(u128, u8)>, bits: u8)
    requires
        is_summary(x, bits),
        all_valid(y, bits),
        same_cover(x, y, bits),
    ensures
        x.len() <= y.len(),
{
    let f = |i: int|
        choose|j: int| 0 <= j < y.len() && entry_covers(#[trigger] y[j], bits, x[i].0 as nat);
    assert forall|i: int| 0 <= i < x.len() implies 0 <= #[trigger] f(i) < y.len() && entry_first(
        y[f(i)],
        bits,
    ) == x[i].0 by {
        lemma_normal_span(x[i], bits);
        assert(entry_covers(x[i], bits, x[i].0 as nat));
        assert(covered(x, bits, x[i].0 as nat));
        assert(covered(y, bits, x[i].0 as nat));
        lemma_holder_starts_with(x, y, bits, i, f(i));
    }
    assert forall|i: int, j: int| 0 <= i < j < x.len() implies #[trigger] f(i) != #[trigger] f(
        j,
    ) by {
        lemma_normal_span(x[i], bits);
        assert(entry_last(x[i], bits) < x[j].0);
        assert(entry_first(y[f(i)], bits) == x[i].0);
        assert(entry_first(y[f(j)], bits) == x[j].0);
    }
    lemma_pigeonhole(x.len() as int, y.len() as int, f);
}

} // verus!
