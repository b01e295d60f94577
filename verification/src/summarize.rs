//! Route summarization: the shortest list of blocks that covers exactly the
//! addresses of a list of CIDRs.
//!
//! The entries are normalized, sorted and freed of duplicates; entries that
//! lie inside another are dropped; then neighbours that are the two halves
//! of one block are merged until none are left.

use vstd::prelude::*;
use vstd::string::*;
use vstd::arithmetic::power2::{lemma_pow2_pos, lemma_pow2_unfold, pow2};
use vstd::arithmetic::div_mod::lemma_fundamental_div_mod;
use crate::cover::{
    all_normal, all_valid, ascending_disjoint, covered, entry_bits, entry_covers, entry_first,
    entry_last, entry_normal, entry_valid, is_summary, lemma_normal_span, lemma_summary_unique,
    no_adjacent_siblings, same_cover, siblings,
};
use crate::error::{ErrorView, IpCalcError, Result};
use crate::ipv4::{
    ipv4_cidr_value, ipv4_subnet_of, ipv4_subnet_views, lemma_ipv4_cidr_round_trip, Ipv4Subnet,
    Ipv4SubnetView,
};
use crate::ipv6::{ipv6_cidr_value, ipv6_subnet_of, ipv6_subnet_views, Ipv6Subnet, Ipv6SubnetView};
use crate::ipv6_laws::lemma_ipv6_cidr_round_trip;
use crate::space::{
    aligned, block_base, ipv4_mask, ipv6_mask, lemma_aligned_base, lemma_aligned_down,
    lemma_block_within, lemma_network_v4, lemma_network_v6, lemma_pow2_widths, lemma_same_block,
    mask_v4, mask_v6,
};
use crate::text::string_views;

verus! {

/// Ceiling on the number of CIDRs of a summarization, unless the caller sets
/// another.
pub const DEFAULT_MAX_SUMMARIZE_INPUTS: usize = 10_000;

/// The width is that of IPv4 or of IPv6.
pub open spec fn width_ok(bits: u8) -> bool {
    bits == 32 || bits == 128
}

/// The network mask of a prefix length in the space of the given width.
pub open spec fn mask_for(bits: u8, prefix: u8) -> u128 {
    if bits == 32 {
        mask_v4(prefix) as u128
    } else {
        mask_v6(prefix)
    }
}

/// The entry with its host bits cleared.
pub open spec fn normal_form(e: (u128, u8), bits: u8) -> (u128, u8) {
    (e.0 & mask_for(bits, e.1), e.1)
}

/// The entries with their host bits cleared.
pub open spec fn normal_forms(s: Seq<(u128, u8)>, bits: u8) -> Seq<(u128, u8)> {
    s.map_values(|e: (u128, u8)| normal_form(e, bits))
}

/// The order of entries: by address, then by prefix length.
pub open spec fn entry_lt(a: (u128, u8), b: (u128, u8)) -> bool {
    a.0 < b.0 || (a.0 == b.0 && a.1 < b.1)
}

/// Each entry is less than every later one.
pub open spec fn strictly_sorted(s: Seq<(u128, u8)>) -> bool {
    forall|i: int, j: int| 0 <= i < j < s.len() ==> entry_lt(#[trigger] s[i], #[trigger] s[j])
}

/// The block of `e` lies inside the block of `l`.
pub open spec fn inside(e: (u128, u8), l: (u128, u8), bits: u8) -> bool {
    entry_first(l, bits) <= entry_first(e, bits) && entry_last(e, bits) <= entry_last(l, bits)
}

/// The block of `e` lies inside the block of some entry of `s`.
pub open spec fn held_by(s: Seq<(u128, u8)>, e: (u128, u8), bits: u8) -> bool {
    exists|m: int| 0 <= m < s.len() && inside(e, #[trigger] s[m], bits)
}

/// Some entry of `s` from position `i` on covers the address.
pub open spec fn covered_from(s: Seq<(u128, u8)>, bits: u8, i: int, a: nat) -> bool {
    exists|j: int| i <= j < s.len() && entry_covers(#[trigger] s[j], bits, a)
}

/// Masking an address yields the first address of its block.
pub proof fn lemma_entry_network(n: u128, prefix: u8, bits: u8)
    requires
        width_ok(bits),
        entry_valid((n, prefix), bits),
    ensures
        n & mask_for(bits, prefix) == block_base(n as nat, (bits - prefix) as nat),
        n & mask_for(bits, prefix) <= n,
        aligned(block_base(n as nat, (bits - prefix) as nat), (bits - prefix) as nat),
        entry_normal(normal_form((n, prefix), bits), bits),
        forall|a: nat|
            entry_covers(normal_form((n, prefix), bits), bits, a) == entry_covers(
                (n, prefix),
                bits,
                a,
            ),
{
    let k = (bits - prefix) as nat;
    lemma_pow2_widths();
    if bits == 32 {
        let m = mask_v4(prefix);
        assert(n & (m as u128) == ((n as u32) & m) as u128) by (bit_vector)
            requires
                n < 0x1_0000_0000u128,
        ;
        lemma_network_v4(n as u32, prefix);
    } else {
        lemma_network_v6(n, prefix);
    }
    lemma_same_block(n as nat, n as nat, k);
    lemma_aligned_base(block_base(n as nat, k), k);
}

/// Computes the network mask of a prefix length in the space of the given
/// width.
pub fn entry_mask(bits: u8, prefix: u8) -> (m: u128)
    requires
        width_ok(bits),
        prefix <= bits,
    ensures
        m == mask_for(bits, prefix),
{
    if bits == 32 {
        ipv4_mask(prefix) as u128
    } else {
        ipv6_mask(prefix)
    }
}

/// An entry whose address lies in a normal block no smaller than its own
/// lies inside that block.
pub proof fn lemma_inside(e: (u128, u8), l: (u128, u8), bits: u8)
    requires
        entry_normal(e, bits),
        entry_normal(l, bits),
        e.1 >= l.1,
        block_base(e.0 as nat, entry_bits(l, bits)) == l.0,
    ensures
        inside(e, l, bits),
{
    lemma_normal_span(e, bits);
    lemma_normal_span(l, bits);
    lemma_same_block(e.0 as nat, e.0 as nat, entry_bits(l, bits));
    lemma_block_within(e.0 as nat, entry_bits(e, bits), l.0 as nat, entry_bits(l, bits));
}

/// A later entry in sorted order that does not lie inside an earlier one
/// starts after that one ends.
pub proof fn lemma_after(e: (u128, u8), l: (u128, u8), bits: u8)
    requires
        entry_normal(e, bits),
        entry_normal(l, bits),
        entry_lt(l, e),
        !(e.1 >= l.1 && block_base(e.0 as nat, entry_bits(l, bits)) == l.0),
    ensures
        entry_last(l, bits) < e.0,
{
    lemma_normal_span(e, bits);
    lemma_normal_span(l, bits);
    let kl = entry_bits(l, bits);
    if e.0 <= entry_last(l, bits) {
        lemma_aligned_base(l.0 as nat, kl);
        lemma_same_block(l.0 as nat, e.0 as nat, kl);
        assert(block_base(e.0 as nat, kl) == l.0);
        lemma_aligned_down(e.0 as nat, entry_bits(e, bits), kl);
        lemma_aligned_base(e.0 as nat, kl);
    }
}

/// The two halves of a block: the lower one starts where the block starts,
/// the upper one half a block later, and together they are the block.
pub proof fn lemma_sibling_halves(a: (u128, u8), b: (u128, u8), bits: u8)
    requires
        entry_normal(a, bits),
        entry_normal(b, bits),
        siblings(a, b, bits),
        a.0 < b.0,
    ensures
        a.0 == block_base(a.0 as nat, entry_bits(a, bits) + 1),
        b.0 == a.0 + pow2(entry_bits(a, bits)),
        pow2(entry_bits(a, bits) + 1) == 2 * pow2(entry_bits(a, bits)),
        aligned(a.0 as nat, entry_bits(a, bits) + 1),
{
    let k = entry_bits(a, bits);
    let p = block_base(a.0 as nat, k + 1);
    let d = pow2(k) as int;
    lemma_pow2_unfold(k + 1);
    lemma_pow2_pos(k);
    lemma_same_block(a.0 as nat, a.0 as nat, k + 1);
    lemma_same_block(b.0 as nat, b.0 as nat, k + 1);
    lemma_aligned_down(p, k + 1, k);
    lemma_fundamental_div_mod(a.0 as int, d);
    lemma_fundamental_div_mod(b.0 as int, d);
    lemma_fundamental_div_mod(p as int, d);
    let qa = (a.0 as int) / d;
    let qb = (b.0 as int) / d;
    let qp = (p as int) / d;
    assert(qa == qp && qb == qp + 1) by (nonlinear_arith)
        requires
            a.0 == d * qa,
            b.0 == d * qb,
            p == d * qp,
            d > 0,
            p <= a.0 < b.0 < p + 2 * d,
    ;
    assert(b.0 == a.0 + d) by (nonlinear_arith)
        requires
            a.0 == d * qa,
            b.0 == d * qb,
            qb == qa + 1,
    ;
}

/// What a list with one more entry covers.
pub proof fn lemma_covered_push(s: Seq<(u128, u8)>, e: (u128, u8), bits: u8)
    ensures
        forall|a: nat| covered(s.push(e), bits, a) <==> covered(s, bits, a) || entry_covers(e, bits, a),
{
    let t = s.push(e);
    assert forall|a: nat| covered(t, bits, a) <==> covered(s, bits, a) || entry_covers(
        e,
        bits,
        a,
    ) by {
        if covered(t, bits, a) {
            let i = choose|i: int| 0 <= i < t.len() && entry_covers(#[trigger] t[i], bits, a);
            if i < s.len() {
                assert(entry_covers(s[i], bits, a));
            }
        }
        if covered(s, bits, a) {
            let i = choose|i: int| 0 <= i < s.len() && entry_covers(#[trigger] s[i], bits, a);
            assert(entry_covers(t[i], bits, a));
        }
        if entry_covers(e, bits, a) {
            assert(entry_covers(t[s.len() as int], bits, a));
        }
    }
}

/// What the entries from a position on cover: what the entry there covers,
/// and what the entries after it cover.
pub proof fn lemma_covered_from_step(s: Seq<(u128, u8)>, bits: u8, i: int)
    requires
        0 <= i < s.len(),
    ensures
        forall|a: nat|
            covered_from(s, bits, i, a) <==> entry_covers(s[i], bits, a) || covered_from(
                s,
                bits,
                i + 1,
                a,
            ),
{
    assert forall|a: nat|
        covered_from(s, bits, i, a) <==> entry_covers(s[i], bits, a) || covered_from(
            s,
            bits,
            i + 1,
            a,
        ) by {
        if covered_from(s, bits, i, a) {
            let j = choose|j: int| i <= j < s.len() && entry_covers(#[trigger] s[j], bits, a);
            if j > i {
                assert(covered_from(s, bits, i + 1, a));
            }
        }
        if covered_from(s, bits, i + 1, a) {
            let j = choose|j: int| i + 1 <= j < s.len() && entry_covers(#[trigger] s[j], bits, a);
            assert(entry_covers(s[j], bits, a));
        }
    }
}

/// A list whose blocks ascend without overlap stays so when an entry is
/// added that starts after the last block ends.
pub proof fn lemma_push_disjoint(s: Seq<(u128, u8)>, e: (u128, u8), bits: u8)
    requires
        all_normal(s, bits),
        ascending_disjoint(s, bits),
        s.len() > 0 ==> entry_last(s.last(), bits) < e.0,
    ensures
        ascending_disjoint(s.push(e), bits),
        forall|m: int| 0 <= m < s.len() ==> entry_last(#[trigger] s[m], bits) < e.0,
{
    let t = s.push(e);
    assert forall|m: int| 0 <= m < s.len() implies entry_last(#[trigger] s[m], bits) < e.0 by {
        let top = s.len() - 1;
        lemma_normal_span(s[top], bits);
        if m < top {
            assert(entry_last(s[m], bits) < s[top].0);
        }
    }
    assert forall|a: int, b: int| 0 <= a < b < t.len() implies entry_last(#[trigger] t[a], bits) < (
    #[trigger] t[b]).0 by {
        if b < s.len() {
            assert(entry_last(s[a], bits) < s[b].0);
        } else {
            assert(entry_last(s[a], bits) < e.0);
        }
    }
}

/// Inserts `e` into a sorted list without duplicates, unless it is there.
fn sorted_insert(sorted: &mut Vec<(u128, u8)>, e: (u128, u8))
    requires
        strictly_sorted(old(sorted)@),
    ensures
        strictly_sorted(final(sorted)@),
        forall|x: (u128, u8)| final(sorted)@.contains(x) <==> old(sorted)@.contains(x) || x == e,
        final(sorted)@.len() <= old(sorted)@.len() + 1,
{
    let mut pos: usize = sorted.len();
    while pos > 0 && (e.0 < sorted[pos - 1].0 || (e.0 == sorted[pos - 1].0 && e.1 < sorted[pos
        - 1].1))
        invariant
            0 <= pos <= sorted.len(),
            sorted@ == old(sorted)@,
            forall|idx: int| pos <= idx < sorted@.len() ==> entry_lt(e, #[trigger] sorted@[idx]),
        decreases pos,
    {
        pos = pos - 1;
    }
    let ghost s = sorted@;
    if pos > 0 && sorted[pos - 1].0 == e.0 && sorted[pos - 1].1 == e.1 {
        assert(s[pos - 1] == e);
        return ;
    }
    sorted.insert(pos, e);
    proof {
        let t = sorted@;
        s.insert_ensures(pos as int, e);
        assert forall|i: int| 0 <= i < pos implies entry_lt(#[trigger] s[i], e) by {
            if i < pos - 1 {
                assert(entry_lt(s[i], s[pos - 1]));
            }
        }
        assert forall|i: int, j: int| 0 <= i < j < t.len() implies entry_lt(
            #[trigger] t[i],
            #[trigger] t[j],
        ) by {
            if j < pos {
                assert(t[i] == s[i] && t[j] == s[j]);
            } else if j == pos {
                assert(t[i] == s[i]);
            } else {
                assert(t[j] == s[j - 1]);
                if i < pos {
                    assert(t[i] == s[i]);
                    assert(entry_lt(s[i], e));
                    assert(entry_lt(e, s[j - 1]));
                } else if i == pos {
                    assert(entry_lt(e, s[j - 1]));
                } else {
                    assert(t[i] == s[i - 1]);
                }
            }
        }
        assert forall|x: (u128, u8)| t.contains(x) <==> s.contains(x) || x == e by {
            if t.contains(x) {
                let i = choose|i: int| 0 <= i < t.len() && t[i] == x;
                if i < pos {
                    assert(s[i] == x);
                } else if i > pos {
                    assert(t[i] == s[i - 1]);
                    assert(s[i - 1] == x);
                }
            }
            if s.contains(x) {
                let i = choose|i: int| 0 <= i < s.len() && s[i] == x;
                if i < pos {
                    assert(t[i] == x);
                } else {
                    assert(t[i + 1] == s[i]);
                }
            }
            if x == e {
                assert(t[pos as int] == e);
            }
        }
    }
}

/// Clears the host bits of every entry, sorts the entries by address and
/// prefix length, and drops duplicates.
pub fn normalize_and_sort(entries: &mut Vec<(u128, u8)>, bits: u8)
    requires
        width_ok(bits),
        all_valid(old(entries)@, bits),
    ensures
        all_normal(final(entries)@, bits),
        strictly_sorted(final(entries)@),
        forall|e: (u128, u8)|
            final(entries)@.contains(e) <==> normal_forms(old(entries)@, bits).contains(e),
        same_cover(old(entries)@, final(entries)@, bits),
        final(entries)@.len() <= old(entries)@.len(),
{
    let mut sorted: Vec<(u128, u8)> = Vec::new();
    let mut i: usize = 0;
    while i < entries.len()
        invariant
            0 <= i <= entries.len(),
            entries@ == old(entries)@,
            width_ok(bits),
            all_valid(entries@, bits),
            all_normal(sorted@, bits),
            strictly_sorted(sorted@),
            forall|e: (u128, u8)|
                sorted@.contains(e) <==> normal_forms(entries@.take(i as int), bits).contains(e),
            sorted@.len() <= i,
        decreases entries.len() - i,
    {
        let raw = entries[i];
        let mask = entry_mask(bits, raw.1);
        let e = (raw.0 & mask, raw.1);
        let ghost before = sorted@;
        proof {
            lemma_entry_network(raw.0, raw.1, bits);
        }
        sorted_insert(&mut sorted, e);
        proof {
            let prev = normal_forms(entries@.take(i as int), bits);
            let next = normal_forms(entries@.take(i + 1), bits);
            assert(entries@.take(i + 1) =~= entries@.take(i as int).push(raw));
            assert(next =~= prev.push(e));
            assert forall|x: (u128, u8)| sorted@.contains(x) <==> next.contains(x) by {
                if next.contains(x) {
                    let j = choose|j: int| 0 <= j < next.len() && next[j] == x;
                    if j < prev.len() {
                        assert(prev[j] == x);
                    }
                }
                if prev.contains(x) {
                    let j = choose|j: int| 0 <= j < prev.len() && prev[j] == x;
                    assert(next[j] == x);
                }
                if x == e {
                    assert(next[prev.len() as int] == e);
                }
            }
            assert forall|j: int| 0 <= j < sorted@.len() implies entry_normal(
                #[trigger] sorted@[j],
                bits,
            ) by {
                let x = sorted@[j];
                assert(sorted@.contains(x));
                if before.contains(x) {
                    let m = choose|m: int| 0 <= m < before.len() && before[m] == x;
                    assert(entry_normal(before[m], bits));
                }
            }
        }
        i = i + 1;
    }
    proof {
        assert(entries@.take(entries@.len() as int) =~= entries@);
        let old_entries = entries@;
        let forms = normal_forms(old_entries, bits);
        assert forall|a: nat| covered(old_entries, bits, a) <==> covered(sorted@, bits, a) by {
            if covered(old_entries, bits, a) {
                let j = choose|j: int|
                    0 <= j < old_entries.len() && entry_covers(#[trigger] old_entries[j], bits, a);
                lemma_entry_network(old_entries[j].0, old_entries[j].1, bits);
                assert(forms[j] == normal_form(old_entries[j], bits));
                assert(forms.contains(forms[j]));
                assert(sorted@.contains(forms[j]));
                let m = choose|m: int| 0 <= m < sorted@.len() && sorted@[m] == forms[j];
                assert(entry_covers(sorted@[m], bits, a));
            }
            if covered(sorted@, bits, a) {
                let m = choose|m: int|
                    0 <= m < sorted@.len() && entry_covers(#[trigger] sorted@[m], bits, a);
                assert(sorted@.contains(sorted@[m]));
                assert(forms.contains(sorted@[m]));
                let j = choose|j: int| 0 <= j < forms.len() && forms[j] == sorted@[m];
                lemma_entry_network(old_entries[j].0, old_entries[j].1, bits);
                assert(entry_covers(old_entries[j], bits, a));
            }
        }
    }
    *entries = sorted;
}

/// Drops every entry that lies inside another one. The entries must be
/// normal and sorted without duplicates, as `normalize_and_sort` leaves
/// them; one sweep from left to right then suffices.
pub fn remove_contained(entries: &mut Vec<(u128, u8)>, bits: u8)
    requires
        width_ok(bits),
        all_normal(old(entries)@, bits),
        strictly_sorted(old(entries)@),
    ensures
        all_normal(final(entries)@, bits),
        ascending_disjoint(final(entries)@, bits),
        forall|i: int|
            0 <= i < final(entries)@.len() ==> old(entries)@.contains(#[trigger] final(entries)@[i]),
        forall|j: int|
            0 <= j < old(entries)@.len() ==> held_by(
                final(entries)@,
                #[trigger] old(entries)@[j],
                bits,
            ),
        same_cover(old(entries)@, final(entries)@, bits),
        final(entries)@.len() <= old(entries)@.len(),
{
    if entries.len() == 0 {
        return ;
    }
    let mut kept: Vec<(u128, u8)> = Vec::new();
    kept.push(entries[0]);
    let ghost mut source: Seq<int> = seq![0int];
    let ghost mut holder: Seq<int> = seq![0int];
    proof {
        lemma_normal_span(entries@[0], bits);
        assert(inside(entries@[0], kept@[0], bits));
    }
    let mut i: usize = 1;
    while i < entries.len()
        invariant
            1 <= i <= entries.len(),
            entries@ == old(entries)@,
            width_ok(bits),
            all_normal(entries@, bits),
            strictly_sorted(entries@),
            1 <= kept@.len() <= i,
            all_normal(kept@, bits),
            ascending_disjoint(kept@, bits),
            source.len() == kept@.len(),
            forall|m: int|
                0 <= m < kept@.len() ==> 0 <= #[trigger] source[m] < i && entries@[source[m]]
                    == kept@[m],
            holder.len() == i,
            forall|j: int|
                0 <= j < i ==> 0 <= #[trigger] holder[j] < kept@.len() && inside(
                    entries@[j],
                    kept@[holder[j]],
                    bits,
                ),
        decreases entries.len() - i,
    {
        let entry = entries[i];
        let last = kept[kept.len() - 1];
        let mask = entry_mask(bits, last.1);
        let ghost before = kept@;
        let ghost top = kept@.len() - 1;
        proof {
            lemma_entry_network(entry.0, last.1, bits);
            assert(entries@[source[top]] == last);
            assert(entry_lt(entries@[source[top]], entries@[i as int]));
        }
        if entry.1 >= last.1 && (entry.0 & mask) == last.0 {
            proof {
                lemma_inside(entry, last, bits);
                holder = holder.push(top);
            }
        } else {
            proof {
                lemma_after(entry, last, bits);
                lemma_normal_span(entry, bits);
                lemma_normal_span(last, bits);
            }
            kept.push(entry);
            proof {
                lemma_push_disjoint(before, entry, bits);
                source = source.push(i as int);
                holder = holder.push(top + 1);
            }
        }
        i = i + 1;
    }
    proof {
        let old_entries = entries@;
        assert forall|m: int| 0 <= m < kept@.len() implies old_entries.contains(
            #[trigger] kept@[m],
        ) by {
            assert(old_entries[source[m]] == kept@[m]);
        }
        assert forall|j: int| 0 <= j < old_entries.len() implies held_by(
            kept@,
            #[trigger] old_entries[j],
            bits,
        ) by {
            assert(inside(old_entries[j], kept@[holder[j]], bits));
        }
        assert forall|a: nat| covered(old_entries, bits, a) <==> covered(kept@, bits, a) by {
            if covered(old_entries, bits, a) {
                let j = choose|j: int|
                    0 <= j < old_entries.len() && entry_covers(#[trigger] old_entries[j], bits, a);
                assert(inside(old_entries[j], kept@[holder[j]], bits));
                assert(entry_covers(kept@[holder[j]], bits, a));
            }
            if covered(kept@, bits, a) {
                let m = choose|m: int|
                    0 <= m < kept@.len() && entry_covers(#[trigger] kept@[m], bits, a);
                assert(entry_covers(old_entries[source[m]], bits, a));
            }
        }
    }
    *entries = kept;
}

/// One pass over neighbouring entries: each pair that makes up the two
/// halves of a block is replaced by that block. Tells whether any pair was
/// merged.
fn merge_pass(entries: &Vec<(u128, u8)>, bits: u8) -> (out: (Vec<(u128, u8)>, bool))
    requires
        width_ok(bits),
        all_normal(entries@, bits),
        ascending_disjoint(entries@, bits),
    ensures
        all_normal(out.0@, bits),
        ascending_disjoint(out.0@, bits),
        same_cover(entries@, out.0@, bits),
        out.0@.len() <= entries@.len(),
        out.1 ==> out.0@.len() < entries@.len(),
        !out.1 ==> out.0@ == entries@ && no_adjacent_siblings(entries@, bits),
{
    let n = entries.len();
    let mut result: Vec<(u128, u8)> = Vec::new();
    let mut merged = false;
    let mut i: usize = 0;
    while i < n
        invariant
            0 <= i <= n,
            n == entries@.len(),
            width_ok(bits),
            all_normal(entries@, bits),
            ascending_disjoint(entries@, bits),
            all_normal(result@, bits),
            ascending_disjoint(result@, bits),
            i < n ==> forall|m: int|
                0 <= m < result@.len() ==> entry_last(#[trigger] result@[m], bits)
                    < entries@[i as int].0,
            forall|a: nat|
                covered(entries@, bits, a) <==> covered(result@, bits, a) || covered_from(
                    entries@,
                    bits,
                    i as int,
                    a,
                ),
            result@.len() <= i,
            merged ==> result@.len() < i,
            !merged ==> result@ == entries@.take(i as int),
            !merged ==> forall|x: int, y: int|
                0 <= x && y == x + 1 && y < n && x < i ==> !siblings(
                    #[trigger] entries@[x],
                    #[trigger] entries@[y],
                    bits,
                ),
        decreases n - i,
    {
        let a = entries[i];
        let ghost before = result@;
        let mut pair = false;
        if i + 1 < n {
            let b = entries[i + 1];
            if a.1 == b.1 && a.1 > 0 {
                let parent_mask = entry_mask(bits, a.1 - 1);
                proof {
                    lemma_entry_network(a.0, (a.1 - 1) as u8, bits);
                    lemma_entry_network(b.0, (b.1 - 1) as u8, bits);
                }
                if (a.0 & parent_mask) == (b.0 & parent_mask) {
                    pair = true;
                    let parent = (a.0 & parent_mask, a.1 - 1);
                    proof {
                        lemma_normal_span(a, bits);
                        lemma_normal_span(b, bits);
                        assert(entry_last(entries@[i as int], bits) < entries@[i + 1].0);
                        assert(siblings(a, b, bits));
                        lemma_sibling_halves(a, b, bits);
                        assert(parent.0 == a.0);
                        assert(entry_normal(parent, bits));
                        lemma_normal_span(parent, bits);
                        lemma_covered_push(before, parent, bits);
                        lemma_covered_from_step(entries@, bits, i as int);
                        lemma_covered_from_step(entries@, bits, i + 1);
                        assert forall|x: nat|
                            entry_covers(parent, bits, x) <==> entry_covers(a, bits, x)
                                || entry_covers(b, bits, x) by {}
                    }
                    result.push(parent);
                    proof {
                        assert forall|x: int, y: int| 0 <= x < y < result@.len() implies entry_last(
                            #[trigger] result@[x],
                            bits,
                        ) < (#[trigger] result@[y]).0 by {
                            if y == before.len() {
                                assert(entry_last(before[x], bits) < entries@[i as int].0);
                            } else {
                                assert(entry_last(before[x], bits) < before[y].0);
                            }
                        }
                        if i + 2 < n {
                            assert(entry_last(entries@[i + 1], bits) < entries@[i + 2].0);
                            assert(entry_last(entries@[i as int], bits) < entries@[i + 2].0);
                            assert forall|m: int| 0 <= m < result@.len() implies entry_last(
                                #[trigger] result@[m],
                                bits,
                            ) < entries@[i + 2].0 by {
                                if m < before.len() {
                                    assert(entry_last(before[m], bits) < entries@[i as int].0);
                                }
                            }
                        }
                    }
                    merged = true;
                    i = i + 2;
                }
            }
        }
        if !pair {
            proof {
                lemma_normal_span(a, bits);
                lemma_covered_push(before, a, bits);
                lemma_covered_from_step(entries@, bits, i as int);
            }
            result.push(a);
            proof {
                assert forall|x: int, y: int| 0 <= x < y < result@.len() implies entry_last(
                    #[trigger] result@[x],
                    bits,
                ) < (#[trigger] result@[y]).0 by {
                    if y == before.len() {
                        assert(entry_last(before[x], bits) < entries@[i as int].0);
                    } else {
                        assert(entry_last(before[x], bits) < before[y].0);
                    }
                }
                if i + 1 < n {
                    assert(entry_last(entries@[i as int], bits) < entries@[i + 1].0);
                    assert forall|m: int| 0 <= m < result@.len() implies entry_last(
                        #[trigger] result@[m],
                        bits,
                    ) < entries@[i + 1].0 by {
                        if m < before.len() {
                            assert(entry_last(before[m], bits) < entries@[i as int].0);
                        }
                    }
                }
                if !merged {
                    assert(result@ =~= entries@.take(i + 1));
                }
            }
            i = i + 1;
        }
    }
    proof {
        assert forall|a: nat| covered(entries@, bits, a) <==> covered(result@, bits, a) by {
            if covered_from(entries@, bits, n as int, a) {
                let j = choose|j: int|
                    n <= j < entries@.len() && entry_covers(#[trigger] entries@[j], bits, a);
            }
        }
        if !merged {
            assert(entries@.take(n as int) =~= entries@);
        }
    }
    (result, merged)
}

/// Merges neighbouring entries that are the two halves of one block, again
/// and again until no two neighbours can be merged. The entries must be
/// normal, ascending and free of overlap, as `remove_contained` leaves them.
pub fn merge_siblings(entries: &mut Vec<(u128, u8)>, bits: u8)
    requires
        width_ok(bits),
        all_normal(old(entries)@, bits),
        ascending_disjoint(old(entries)@, bits),
    ensures
        is_summary(final(entries)@, bits),
        same_cover(old(entries)@, final(entries)@, bits),
        final(entries)@.len() <= old(entries)@.len(),
{
    let mut merged = true;
    while merged
        invariant
            width_ok(bits),
            all_normal(entries@, bits),
            ascending_disjoint(entries@, bits),
            same_cover(old(entries)@, entries@, bits),
            entries@.len() <= old(entries)@.len(),
            !merged ==> no_adjacent_siblings(entries@, bits),
        decreases entries@.len(), (if merged { 1int } else { 0int }),
    {
        let (next, did) = merge_pass(entries, bits);
        *entries = next;
        merged = did;
    }
}

/// Reduces a list of entries to the summary of the addresses they cover.
pub fn summarize_entries(entries: &mut Vec<(u128, u8)>, bits: u8)
    requires
        width_ok(bits),
        all_valid(old(entries)@, bits),
    ensures
        is_summary(final(entries)@, bits),
        same_cover(old(entries)@, final(entries)@, bits),
        final(entries)@.len() <= old(entries)@.len(),
{
    if entries.len() == 0 {
        return ;
    }
    normalize_and_sort(entries, bits);
    remove_contained(entries, bits);
    merge_siblings(entries, bits);
}

/// The error that the size of a list of CIDRs earns, if any.
pub open spec fn summarize_check(n: nat, max_inputs: usize) -> Option<ErrorView> {
    if n == 0 {
        Some(ErrorView::EmptyCidrList)
    } else if n > max_inputs {
        Some(ErrorView::SummarizeInputLimitExceeded { count: n as usize, limit: max_inputs })
    } else {
        None
    }
}

/// Summarizing is idempotent: the summary of a summary is that summary.
/// Here `y` is a summary of `x`, and `z` a summary of `y`.
pub proof fn lemma_summary_idempotent(
    x: Seq<(u128, u8)>,
    y: Seq<(u128, u8)>,
    z: Seq<(u128, u8)>,
    bits: u8,
)
    requires
        is_summary(y, bits),
        same_cover(x, y, bits),
        is_summary(z, bits),
        same_cover(y, z, bits),
    ensures
        z == y,
{
    lemma_summary_unique(y, z, bits);
}

/// Lists with the same entries in any order cover the same addresses.
pub proof fn lemma_permutation_cover(x: Seq<(u128, u8)>, p: Seq<(u128, u8)>, bits: u8)
    requires
        x.to_multiset() == p.to_multiset(),
    ensures
        same_cover(x, p, bits),
{
    x.to_multiset_ensures();
    p.to_multiset_ensures();
    assert forall|a: nat| covered(x, bits, a) <==> covered(p, bits, a) by {
        if covered(x, bits, a) {
            let i = choose|i: int| 0 <= i < x.len() && entry_covers(#[trigger] x[i], bits, a);
            assert(x.contains(x[i]));
            assert(x.to_multiset().count(x[i]) > 0);
            assert(p.to_multiset().count(x[i]) > 0);
            assert(p.contains(x[i]));
            let j = choose|j: int| 0 <= j < p.len() && p[j] == x[i];
            assert(entry_covers(p[j], bits, a));
        }
        if covered(p, bits, a) {
            let i = choose|i: int| 0 <= i < p.len() && entry_covers(#[trigger] p[i], bits, a);
            assert(p.contains(p[i]));
            assert(p.to_multiset().count(p[i]) > 0);
            assert(x.to_multiset().count(p[i]) > 0);
            assert(x.contains(p[i]));
            let j = choose|j: int| 0 <= j < x.len() && x[j] == p[i];
            assert(entry_covers(x[j], bits, a));
        }
    }
}

/// Summarizing does not depend on the order of the entries: where `p` holds
/// the entries of `x` in another order, a summary of `p` is a summary of `x`.
pub proof fn lemma_summary_order_independent(
    x: Seq<(u128, u8)>,
    p: Seq<(u128, u8)>,
    sx: Seq<(u128, u8)>,
    sp: Seq<(u128, u8)>,
    bits: u8,
)
    requires
        x.to_multiset() == p.to_multiset(),
        is_summary(sx, bits),
        same_cover(x, sx, bits),
        is_summary(sp, bits),
        same_cover(p, sp, bits),
    ensures
        sx == sp,
{
    lemma_permutation_cover(x, p, bits);
    assert(same_cover(sx, sp, bits));
    lemma_summary_unique(sx, sp, bits);
}

/// The summary of a list of IPv4 CIDRs.
#[derive(Debug, Clone, PartialEq, Eq)]
pub struct Ipv4SummaryResult {
    /// Number of CIDRs that were given.
    pub input_count: usize,
    /// Number of blocks of the summary.
    pub output_count: usize,
    /// The blocks of the summary, in ascending order.
    pub cidrs: Vec<Ipv4Subnet>,
}

/// An IPv4 summary with its texts as character sequences.
pub struct Ipv4SummaryView {
    pub input_count: usize,
    pub output_count: usize,
    pub cidrs: Seq<Ipv4SubnetView>,
}

impl View for Ipv4SummaryResult {
    type V = Ipv4SummaryView;

    open spec fn view(&self) -> Ipv4SummaryView {
        Ipv4SummaryView {
            input_count: self.input_count,
            output_count: self.output_count,
            cidrs: ipv4_subnet_views(self.cidrs@),
        }
    }
}

/// The entries that a list of IPv4 CIDR texts denotes, each with its host
/// bits cleared, or the error of the first text that is no CIDR.
pub open spec fn ipv4_entries(cidrs: Seq<Seq<char>>) -> core::result::Result<
    Seq<(u128, u8)>,
    ErrorView,
>
    decreases cidrs.len(),
{
    if cidrs.len() == 0 {
        Ok(Seq::empty())
    } else {
        match ipv4_entries(cidrs.drop_last()) {
            Err(e) => Err(e),
            Ok(es) => match ipv4_cidr_value(cidrs.last()) {
                Err(e) => Err(e),
                Ok(_) => Ok(es.push(ipv4_entry(cidrs.last()))),
            },
        }
    }
}

/// The error that a list of IPv4 CIDR texts earns, if any: an empty list, a
/// list longer than the ceiling, or the error of its first bad text.
pub open spec fn ipv4_summarize_error(cidrs: Seq<Seq<char>>, max_inputs: usize) -> Option<
    ErrorView,
> {
    if summarize_check(cidrs.len(), max_inputs) is Some {
        summarize_check(cidrs.len(), max_inputs)
    } else {
        match ipv4_entries(cidrs) {
            Err(e) => Some(e),
            Ok(_) => None,
        }
    }
}

/// The blocks of a list of IPv4 subnets as entries.
pub open spec fn ipv4_summary_entries(cidrs: Seq<Ipv4SubnetView>) -> Seq<(u128, u8)> {
    cidrs.map_values(|s: Ipv4SubnetView| (s.network as u128, s.prefix_length))
}

/// The result is the summary of the entries: its blocks are a summary, cover
/// the addresses that the entries cover and no others, and each carries what
/// follows from its network address and prefix length.
pub open spec fn is_ipv4_summary(res: Ipv4SummaryView, entries: Seq<(u128, u8)>) -> bool {
    &&& res.input_count == entries.len()
    &&& res.output_count == res.cidrs.len()
    &&& is_summary(ipv4_summary_entries(res.cidrs), 32)
    &&& same_cover(entries, ipv4_summary_entries(res.cidrs), 32)
    &&& forall|i: int|
        0 <= i < res.cidrs.len() ==> #[trigger] res.cidrs[i] == ipv4_subnet_of(
            res.cidrs[i].network,
            res.cidrs[i].prefix_length,
        )
}

/// An error among the first texts of a list is the error of the list.
pub proof fn lemma_ipv4_entries_prefix(cidrs: Seq<Seq<char>>, n: int)
    requires
        0 <= n <= cidrs.len(),
        ipv4_entries(cidrs.take(n)) is Err,
    ensures
        ipv4_entries(cidrs) == ipv4_entries(cidrs.take(n)),
    decreases cidrs.len() - n,
{
    if n == cidrs.len() {
        assert(cidrs.take(n) =~= cidrs);
    } else {
        assert(cidrs.drop_last().take(n) =~= cidrs.take(n));
        lemma_ipv4_entries_prefix(cidrs.drop_last(), n);
    }
}

/// Two results that summarize lists of entries covering the same addresses
/// hold the same blocks.
pub proof fn lemma_ipv4_summary_determined(
    r1: Ipv4SummaryView,
    e1: Seq<(u128, u8)>,
    r2: Ipv4SummaryView,
    e2: Seq<(u128, u8)>,
)
    requires
        is_ipv4_summary(r1, e1),
        is_ipv4_summary(r2, e2),
        same_cover(e1, e2, 32),
    ensures
        r1.cidrs == r2.cidrs,
{
    let x = ipv4_summary_entries(r1.cidrs);
    let y = ipv4_summary_entries(r2.cidrs);
    assert(same_cover(x, y, 32));
    lemma_summary_unique(x, y, 32);
    assert forall|i: int| 0 <= i < r1.cidrs.len() implies r1.cidrs[i] == r2.cidrs[i] by {
        assert(x[i] == y[i]);
    }
    assert(r1.cidrs =~= r2.cidrs);
}

/// Summarizes a list of IPv4 CIDRs, at most ten thousand of them.
pub fn summarize_ipv4(cidrs: &[String]) -> (r: Result<Ipv4SummaryResult>)
    ensures
        match r {
            Ok(res) => ipv4_summarize_error(string_views(cidrs@), DEFAULT_MAX_SUMMARIZE_INPUTS)
                is None && is_ipv4_summary(res@, ipv4_entries(string_views(cidrs@))->Ok_0),
            Err(e) => ipv4_summarize_error(string_views(cidrs@), DEFAULT_MAX_SUMMARIZE_INPUTS)
                == Some(e@),
        },
{
    summarize_ipv4_with_limit(cidrs, DEFAULT_MAX_SUMMARIZE_INPUTS)
}

/// Summarizes a list of IPv4 CIDRs, at most `max_inputs` of them: returns
/// the shortest list of blocks that covers exactly the addresses of the
/// given networks, in ascending order.
pub fn summarize_ipv4_with_limit(cidrs: &[String], max_inputs: usize) -> (r: Result<
    Ipv4SummaryResult,
>)
    ensures
        match r {
            Ok(res) => ipv4_summarize_error(string_views(cidrs@), max_inputs) is None
                && is_ipv4_summary(res@, ipv4_entries(string_views(cidrs@))->Ok_0),
            Err(e) => ipv4_summarize_error(string_views(cidrs@), max_inputs) == Some(e@),
        },
{
    if cidrs.len() == 0 {
        return Err(IpCalcError::EmptyCidrList);
    }
    if cidrs.len() > max_inputs {
        return Err(
            IpCalcError::SummarizeInputLimitExceeded { count: cidrs.len(), limit: max_inputs },
        );
    }
    let input_count = cidrs.len();
    let ghost texts = string_views(cidrs@);
    let mut entries: Vec<(u128, u8)> = Vec::new();
    let mut i: usize = 0;
    proof {
        assert(texts.take(0) =~= Seq::<Seq<char>>::empty());
    }
    while i < cidrs.len()
        invariant
            0 <= i <= cidrs.len(),
            0 < cidrs.len() <= max_inputs,
            texts == string_views(cidrs@),
            ipv4_entries(texts.take(i as int)) == Ok::<Seq<(u128, u8)>, ErrorView>(entries@),
            all_valid(entries@, 32),
            entries@.len() == i,
        decreases cidrs.len() - i,
    {
        proof {
            assert(texts.take(i + 1).drop_last() =~= texts.take(i as int));
            assert(texts.take(i + 1).last() == cidrs@[i as int]@);
        }
        match parse_entry_v4(cidrs[i].as_str()) {
            Ok(entry) => {
                entries.push(entry);
            },
            Err(e) => {
                proof {
                    lemma_ipv4_entries_prefix(texts, i + 1);
                }
                return Err(e);
            },
        }
        i = i + 1;
    }
    proof {
        assert(texts.take(cidrs@.len() as int) =~= texts);
    }
    summarize_entries(&mut entries, 32);
    let mut result_cidrs: Vec<Ipv4Subnet> = Vec::new();
    let mut j: usize = 0;
    while j < entries.len()
        invariant
            0 <= j <= entries.len(),
            is_summary(entries@, 32),
            result_cidrs@.len() == j,
            forall|m: int|
                0 <= m < j ==> (#[trigger] result_cidrs@[m])@ == ipv4_subnet_of(
                    entries@[m].0 as u32,
                    entries@[m].1,
                ) && result_cidrs@[m].network == entries@[m].0 && result_cidrs@[m].prefix_length
                    == entries@[m].1,
        decreases entries.len() - j,
    {
        assert(entry_normal(entries@[j as int], 32));
        match subnet_of_entry_v4(entries[j]) {
            Ok(subnet) => {
                result_cidrs.push(subnet);
            },
            Err(e) => {
                return Err(e);
            },
        }
        j = j + 1;
    }
    let result = Ipv4SummaryResult {
        input_count,
        output_count: result_cidrs.len(),
        cidrs: result_cidrs,
    };
    proof {
        assert(ipv4_summary_entries(result@.cidrs) =~= entries@);
    }
    Ok(result)
}

/// Reads one CIDR text as an entry with its host bits cleared.
fn parse_entry_v4(cidr: &str) -> (r: Result<(u128, u8)>)
    ensures
        match r {
            Ok(e) => ipv4_cidr_value(cidr@) is Ok && e == (
                (ipv4_cidr_value(cidr@)->Ok_0.0 & mask_v4(ipv4_cidr_value(cidr@)->Ok_0.1)) as u128,
                ipv4_cidr_value(cidr@)->Ok_0.1,
            ) && entry_valid(e, 32),
            Err(e) => ipv4_cidr_value(cidr@) == Err::<(u32, u8), ErrorView>(e@),
        },
{
    match Ipv4Subnet::from_cidr(cidr) {
        Ok(subnet) => {
            proof {
                let v = ipv4_cidr_value(cidr@)->Ok_0;
                lemma_pow2_widths();
                lemma_network_v4(v.0, v.1);
            }
            Ok((subnet.network as u128, subnet.prefix_length))
        },
        Err(e) => Err(e),
    }
}

/// Builds the subnet of a normal entry.
fn subnet_of_entry_v4(entry: (u128, u8)) -> (r: Result<Ipv4Subnet>)
    requires
        entry_normal(entry, 32),
    ensures
        r matches Ok(subnet) && subnet@ == ipv4_subnet_of(entry.0 as u32, entry.1)
            && subnet.network == entry.0 && subnet.prefix_length == entry.1,
{
    proof {
        lemma_pow2_widths();
        lemma_network_v4(entry.0 as u32, entry.1);
        lemma_aligned_base(entry.0 as nat, (32 - entry.1) as nat);
    }
    Ipv4Subnet::new(entry.0 as u32, entry.1)
}

/// The summary of a list of IPv6 CIDRs.
#[derive(Debug, Clone, PartialEq, Eq)]
pub struct Ipv6SummaryResult {
    /// Number of CIDRs that were given.
    pub input_count: usize,
    /// Number of blocks of the summary.
    pub output_count: usize,
    /// The blocks of the summary, in ascending order.
    pub cidrs: Vec<Ipv6Subnet>,
}

/// An IPv6 summary with its texts as character sequences.
pub struct Ipv6SummaryView {
    pub input_count: usize,
    pub output_count: usize,
    pub cidrs: Seq<Ipv6SubnetView>,
}

impl View for Ipv6SummaryResult {
    type V = Ipv6SummaryView;

    open spec fn view(&self) -> Ipv6SummaryView {
        Ipv6SummaryView {
            input_count: self.input_count,
            output_count: self.output_count,
            cidrs: ipv6_subnet_views(self.cidrs@),
        }
    }
}

/// The entries that a list of IPv6 CIDR texts denotes, each with its host
/// bits cleared, or the error of the first text that is no CIDR.
pub open spec fn ipv6_entries(cidrs: Seq<Seq<char>>) -> core::result::Result<
    Seq<(u128, u8)>,
    ErrorView,
>
    decreases cidrs.len(),
{
    if cidrs.len() == 0 {
        Ok(Seq::empty())
    } else {
        match ipv6_entries(cidrs.drop_last()) {
            Err(e) => Err(e),
            Ok(es) => match ipv6_cidr_value(cidrs.last()) {
                Err(e) => Err(e),
                Ok(_) => Ok(es.push(ipv6_entry(cidrs.last()))),
            },
        }
    }
}

/// The error that a list of IPv6 CIDR texts earns, if any: an empty list, a
/// list longer than the ceiling, or the error of its first bad text.
pub open spec fn ipv6_summarize_error(cidrs: Seq<Seq<char>>, max_inputs: usize) -> Option<
    ErrorView,
> {
    if summarize_check(cidrs.len(), max_inputs) is Some {
        summarize_check(cidrs.len(), max_inputs)
    } else {
        match ipv6_entries(cidrs) {
            Err(e) => Some(e),
            Ok(_) => None,
        }
    }
}

/// The blocks of a list of IPv6 subnets as entries.
pub open spec fn ipv6_summary_entries(cidrs: Seq<Ipv6SubnetView>) -> Seq<(u128, u8)> {
    cidrs.map_values(|s: Ipv6SubnetView| (s.network as u128, s.prefix_length))
}

/// The result is the summary of the entries: its blocks are a summary, cover
/// the addresses that the entries cover and no others, and each carries what
/// follows from its network address and prefix length.
pub open spec fn is_ipv6_summary(res: Ipv6SummaryView, entries: Seq<(u128, u8)>) -> bool {
    &&& res.input_count == entries.len()
    &&& res.output_count == res.cidrs.len()
    &&& is_summary(ipv6_summary_entries(res.cidrs), 128)
    &&& same_cover(entries, ipv6_summary_entries(res.cidrs), 128)
    &&& forall|i: int|
        0 <= i < res.cidrs.len() ==> #[trigger] res.cidrs[i] == ipv6_subnet_of(
            res.cidrs[i].network,
            res.cidrs[i].prefix_length,
        )
}

/// An error among the first texts of a list is the error of the list.
pub proof fn lemma_ipv6_entries_prefix(cidrs: Seq<Seq<char>>, n: int)
    requires
        0 <= n <= cidrs.len(),
        ipv6_entries(cidrs.take(n)) is Err,
    ensures
        ipv6_entries(cidrs) == ipv6_entries(cidrs.take(n)),
    decreases cidrs.len() - n,
{
    if n == cidrs.len() {
        assert(cidrs.take(n) =~= cidrs);
    } else {
        assert(cidrs.drop_last().take(n) =~= cidrs.take(n));
        lemma_ipv6_entries_prefix(cidrs.drop_last(), n);
    }
}

/// Two results that summarize lists of entries covering the same addresses
/// hold the same blocks.
pub proof fn lemma_ipv6_summary_determined(
    r1: Ipv6SummaryView,
    e1: Seq<(u128, u8)>,
    r2: Ipv6SummaryView,
    e2: Seq<(u128, u8)>,
)
    requires
        is_ipv6_summary(r1, e1),
        is_ipv6_summary(r2, e2),
        same_cover(e1, e2, 128),
    ensures
        r1.cidrs == r2.cidrs,
{
    let x = ipv6_summary_entries(r1.cidrs);
    let y = ipv6_summary_entries(r2.cidrs);
    assert(same_cover(x, y, 128));
    lemma_summary_unique(x, y, 128);
    assert forall|i: int| 0 <= i < r1.cidrs.len() implies r1.cidrs[i] == r2.cidrs[i] by {
        assert(x[i] == y[i]);
    }
    assert(r1.cidrs =~= r2.cidrs);
}

/// Summarizes a list of IPv6 CIDRs, at most ten thousand of them.
pub fn summarize_ipv6(cidrs: &[String]) -> (r: Result<Ipv6SummaryResult>)
    ensures
        match r {
            Ok(res) => ipv6_summarize_error(string_views(cidrs@), DEFAULT_MAX_SUMMARIZE_INPUTS)
                is None && is_ipv6_summary(res@, ipv6_entries(string_views(cidrs@))->Ok_0),
            Err(e) => ipv6_summarize_error(string_views(cidrs@), DEFAULT_MAX_SUMMARIZE_INPUTS)
                == Some(e@),
        },
{
    summarize_ipv6_with_limit(cidrs, DEFAULT_MAX_SUMMARIZE_INPUTS)
}

/// Summarizes a list of IPv6 CIDRs, at most `max_inputs` of them: returns
/// the shortest list of blocks that covers exactly the addresses of the
/// given networks, in ascending order.
pub fn summarize_ipv6_with_limit(cidrs: &[String], max_inputs: usize) -> (r: Result<
    Ipv6SummaryResult,
>)
    ensures
        match r {
            Ok(res) => ipv6_summarize_error(string_views(cidrs@), max_inputs) is None
                && is_ipv6_summary(res@, ipv6_entries(string_views(cidrs@))->Ok_0),
            Err(e) => ipv6_summarize_error(string_views(cidrs@), max_inputs) == Some(e@),
        },
{
    if cidrs.len() == 0 {
        return Err(IpCalcError::EmptyCidrList);
    }
    if cidrs.len() > max_inputs {
        return Err(
            IpCalcError::SummarizeInputLimitExceeded { count: cidrs.len(), limit: max_inputs },
        );
    }
    let input_count = cidrs.len();
    let ghost texts = string_views(cidrs@);
    let mut entries: Vec<(u128, u8)> = Vec::new();
    let mut i: usize = 0;
    proof {
        assert(texts.take(0) =~= Seq::<Seq<char>>::empty());
    }
    while i < cidrs.len()
        invariant
            0 <= i <= cidrs.len(),
            0 < cidrs.len() <= max_inputs,
            texts == string_views(cidrs@),
            ipv6_entries(texts.take(i as int)) == Ok::<Seq<(u128, u8)>, ErrorView>(entries@),
            all_valid(entries@, 128),
            entries@.len() == i,
        decreases cidrs.len() - i,
    {
        proof {
            assert(texts.take(i + 1).drop_last() =~= texts.take(i as int));
            assert(texts.take(i + 1).last() == cidrs@[i as int]@);
        }
        match parse_entry_v6(cidrs[i].as_str()) {
            Ok(entry) => {
                entries.push(entry);
            },
            Err(e) => {
                proof {
                    lemma_ipv6_entries_prefix(texts, i + 1);
                }
                return Err(e);
            },
        }
        i = i + 1;
    }
    proof {
        assert(texts.take(cidrs@.len() as int) =~= texts);
    }
    summarize_entries(&mut entries, 128);
    let mut result_cidrs: Vec<Ipv6Subnet> = Vec::new();
    let mut j: usize = 0;
    while j < entries.len()
        invariant
            0 <= j <= entries.len(),
            is_summary(entries@, 128),
            result_cidrs@.len() == j,
            forall|m: int|
                0 <= m < j ==> (#[trigger] result_cidrs@[m])@ == ipv6_subnet_of(
                    entries@[m].0 as u128,
                    entries@[m].1,
                ) && result_cidrs@[m].network == entries@[m].0 && result_cidrs@[m].prefix_length
                    == entries@[m].1,
        decreases entries.len() - j,
    {
        assert(entry_normal(entries@[j as int], 128));
        match subnet_of_entry_v6(entries[j]) {
            Ok(subnet) => {
                result_cidrs.push(subnet);
            },
            Err(e) => {
                return Err(e);
            },
        }
        j = j + 1;
    }
    let result = Ipv6SummaryResult {
        input_count,
        output_count: result_cidrs.len(),
        cidrs: result_cidrs,
    };
    proof {
        assert(ipv6_summary_entries(result@.cidrs) =~= entries@);
    }
    Ok(result)
}

/// Reads one CIDR text as an entry with its host bits cleared.
fn parse_entry_v6(cidr: &str) -> (r: Result<(u128, u8)>)
    ensures
        match r {
            Ok(e) => ipv6_cidr_value(cidr@) is Ok && e == (
                (ipv6_cidr_value(cidr@)->Ok_0.0 & mask_v6(ipv6_cidr_value(cidr@)->Ok_0.1)) as u128,
                ipv6_cidr_value(cidr@)->Ok_0.1,
            ) && entry_valid(e, 128),
            Err(e) => ipv6_cidr_value(cidr@) == Err::<(u128, u8), ErrorView>(e@),
        },
{
    match Ipv6Subnet::from_cidr(cidr) {
        Ok(subnet) => {
            proof {
                let v = ipv6_cidr_value(cidr@)->Ok_0;
                lemma_pow2_widths();
                lemma_network_v6(v.0, v.1);
            }
            Ok((subnet.network as u128, subnet.prefix_length))
        },
        Err(e) => Err(e),
    }
}

/// Builds the subnet of a normal entry.
fn subnet_of_entry_v6(entry: (u128, u8)) -> (r: Result<Ipv6Subnet>)
    requires
        entry_normal(entry, 128),
    ensures
        r matches Ok(subnet) && subnet@ == ipv6_subnet_of(entry.0 as u128, entry.1)
            && subnet.network == entry.0 && subnet.prefix_length == entry.1,
{
    proof {
        lemma_pow2_widths();
        lemma_network_v6(entry.0 as u128, entry.1);
        lemma_aligned_base(entry.0 as nat, (128 - entry.1) as nat);
    }
    Ipv6Subnet::new(entry.0 as u128, entry.1)
}

/// The CIDR texts of a list of IPv4 subnets: the `input` of each.
pub open spec fn ipv4_inputs(cidrs: Seq<Ipv4SubnetView>) -> Seq<Seq<char>> {
    cidrs.map_values(|c: Ipv4SubnetView| c.input)
}

/// The CIDR texts of the blocks of a summary denote those blocks.
pub proof fn lemma_ipv4_entries_of_inputs(cidrs: Seq<Ipv4SubnetView>)
    requires
        all_normal(ipv4_summary_entries(cidrs), 32),
        forall|i: int|
            0 <= i < cidrs.len() ==> #[trigger] cidrs[i] == ipv4_subnet_of(
                cidrs[i].network,
                cidrs[i].prefix_length,
            ),
    ensures
        ipv4_entries(ipv4_inputs(cidrs)) == Ok::<Seq<(u128, u8)>, ErrorView>(
            ipv4_summary_entries(cidrs),
        ),
    decreases cidrs.len(),
{
    let texts = ipv4_inputs(cidrs);
    let entries = ipv4_summary_entries(cidrs);
    if cidrs.len() == 0 {
        assert(entries =~= Seq::<(u128, u8)>::empty());
    } else {
        let front = cidrs.drop_last();
        let last = cidrs.last();
        assert(texts.drop_last() =~= ipv4_inputs(front));
        assert(entries.drop_last() =~= ipv4_summary_entries(front));
        assert forall|i: int| 0 <= i < front.len() implies entry_normal(
            #[trigger] ipv4_summary_entries(front)[i],
            32,
        ) by {
            assert(ipv4_summary_entries(front)[i] == entries[i]);
        }
        assert forall|i: int| 0 <= i < front.len() implies #[trigger] front[i] == ipv4_subnet_of(
            front[i].network,
            front[i].prefix_length,
        ) by {
            assert(front[i] == cidrs[i]);
        }
        lemma_ipv4_entries_of_inputs(front);
        let e = entries.last();
        assert(entry_normal(entries[entries.len() - 1], 32));
        assert(last == cidrs[cidrs.len() - 1]);
        lemma_pow2_widths();
        lemma_ipv4_cidr_round_trip(last.network, last.prefix_length);
        lemma_network_v4(last.network, last.prefix_length);
        lemma_aligned_base(last.network as nat, (32 - last.prefix_length) as nat);
        assert(texts.last() == last.input);
        assert(entries =~= ipv4_summary_entries(front).push(e));
    }
}

/// Summarizing is idempotent for whole results: where the CIDR texts of a
/// summary are summarized again, the result holds the same blocks. Here
/// `first` is a summary of any entries, and `second` is what summarizing
/// the texts of `first` yields.
pub proof fn lemma_ipv4_summarize_idempotent(
    first: Ipv4SummaryView,
    entries: Seq<(u128, u8)>,
    second: Ipv4SummaryView,
)
    requires
        is_ipv4_summary(first, entries),
        ipv4_entries(ipv4_inputs(first.cidrs)) is Ok ==> is_ipv4_summary(
            second,
            ipv4_entries(ipv4_inputs(first.cidrs))->Ok_0,
        ),
    ensures
        ipv4_entries(ipv4_inputs(first.cidrs)) is Ok,
        second.cidrs == first.cidrs,
{
    lemma_ipv4_entries_of_inputs(first.cidrs);
    let x = ipv4_summary_entries(first.cidrs);
    lemma_ipv4_summary_determined(first, entries, second, x);
}

/// The CIDR texts of a list of IPv6 subnets: the `input` of each.
pub open spec fn ipv6_inputs(cidrs: Seq<Ipv6SubnetView>) -> Seq<Seq<char>> {
    cidrs.map_values(|c: Ipv6SubnetView| c.input)
}

/// The CIDR texts of the blocks of a summary denote those blocks.
pub proof fn lemma_ipv6_entries_of_inputs(cidrs: Seq<Ipv6SubnetView>)
    requires
        all_normal(ipv6_summary_entries(cidrs), 128),
        forall|i: int|
            0 <= i < cidrs.len() ==> #[trigger] cidrs[i] == ipv6_subnet_of(
                cidrs[i].network,
                cidrs[i].prefix_length,
            ),
    ensures
        ipv6_entries(ipv6_inputs(cidrs)) == Ok::<Seq<(u128, u8)>, ErrorView>(
            ipv6_summary_entries(cidrs),
        ),
    decreases cidrs.len(),
{
    let texts = ipv6_inputs(cidrs);
    let entries = ipv6_summary_entries(cidrs);
    if cidrs.len() == 0 {
        assert(entries =~= Seq::<(u128, u8)>::empty());
    } else {
        let front = cidrs.drop_last();
        let last = cidrs.last();
        assert(texts.drop_last() =~= ipv6_inputs(front));
        assert(entries.drop_last() =~= ipv6_summary_entries(front));
        assert forall|i: int| 0 <= i < front.len() implies entry_normal(
            #[trigger] ipv6_summary_entries(front)[i],
            128,
        ) by {
            assert(ipv6_summary_entries(front)[i] == entries[i]);
        }
        assert forall|i: int| 0 <= i < front.len() implies #[trigger] front[i] == ipv6_subnet_of(
            front[i].network,
            front[i].prefix_length,
        ) by {
            assert(front[i] == cidrs[i]);
        }
        lemma_ipv6_entries_of_inputs(front);
        let e = entries.last();
        assert(entry_normal(entries[entries.len() - 1], 128));
        assert(last == cidrs[cidrs.len() - 1]);
        lemma_pow2_widths();
        lemma_ipv6_cidr_round_trip(last.network, last.prefix_length);
        lemma_network_v6(last.network, last.prefix_length);
        lemma_aligned_base(last.network as nat, (128 - last.prefix_length) as nat);
        assert(texts.last() == last.input);
        assert(entries =~= ipv6_summary_entries(front).push(e));
    }
}

/// Summarizing is idempotent for whole results: where the CIDR texts of a
/// summary are summarized again, the result holds the same blocks. Here
/// `first` is a summary of any entries, and `second` is what summarizing
/// the texts of `first` yields.
pub proof fn lemma_ipv6_summarize_idempotent(
    first: Ipv6SummaryView,
    entries: Seq<(u128, u8)>,
    second: Ipv6SummaryView,
)
    requires
        is_ipv6_summary(first, entries),
        ipv6_entries(ipv6_inputs(first.cidrs)) is Ok ==> is_ipv6_summary(
            second,
            ipv6_entries(ipv6_inputs(first.cidrs))->Ok_0,
        ),
    ensures
        ipv6_entries(ipv6_inputs(first.cidrs)) is Ok,
        second.cidrs == first.cidrs,
{
    lemma_ipv6_entries_of_inputs(first.cidrs);
    let x = ipv6_summary_entries(first.cidrs);
    lemma_ipv6_summary_determined(first, entries, second, x);
}

/// The entry that an IPv4 CIDR text denotes, its host bits cleared.
pub open spec fn ipv4_entry(text: Seq<char>) -> (u128, u8) {
    let v = ipv4_cidr_value(text)->Ok_0;
    ((v.0 & mask_v4(v.1)) as u128, v.1)
}

/// Where a list of IPv4 CIDR texts denotes entries, each text is a CIDR,
/// and the entries are those of the texts, in order.
pub proof fn lemma_ipv4_entries_of_items(texts: Seq<Seq<char>>)
    requires
        ipv4_entries(texts) is Ok,
    ensures
        ipv4_entries(texts)->Ok_0.len() == texts.len(),
        forall|i: int| 0 <= i < texts.len() ==> ipv4_cidr_value(#[trigger] texts[i]) is Ok,
        forall|i: int|
            0 <= i < texts.len() ==> (#[trigger] ipv4_entries(texts)->Ok_0[i]) == ipv4_entry(
                texts[i],
            ),
    decreases texts.len(),
{
    if texts.len() > 0 {
        let front = texts.drop_last();
        let last = texts.last();
        assert(ipv4_entries(front) is Ok);
        lemma_ipv4_entries_of_items(front);
        let es = ipv4_entries(front)->Ok_0;
        assert(ipv4_entries(texts)->Ok_0 == es.push(ipv4_entry(last)));
        assert forall|i: int| 0 <= i < texts.len() implies ipv4_cidr_value(
            #[trigger] texts[i],
        ) is Ok by {
            if i < front.len() {
                assert(front[i] == texts[i]);
            } else {
                assert(texts[i] == last);
            }
        }
        assert forall|i: int| 0 <= i < texts.len() implies (#[trigger] ipv4_entries(
            texts,
        )->Ok_0[i]) == ipv4_entry(texts[i]) by {
            if i < front.len() {
                assert(front[i] == texts[i]);
                assert(es.push(ipv4_entry(last))[i] == es[i]);
            } else {
                assert(texts[i] == last);
            }
        }
    }
}

/// A list of IPv4 CIDR texts of which each is a CIDR denotes entries.
pub proof fn lemma_ipv4_entries_ok(texts: Seq<Seq<char>>)
    requires
        forall|i: int| 0 <= i < texts.len() ==> ipv4_cidr_value(#[trigger] texts[i]) is Ok,
    ensures
        ipv4_entries(texts) is Ok,
    decreases texts.len(),
{
    if texts.len() > 0 {
        let front = texts.drop_last();
        assert forall|i: int| 0 <= i < front.len() implies ipv4_cidr_value(
            #[trigger] front[i],
        ) is Ok by {
            assert(front[i] == texts[i]);
        }
        lemma_ipv4_entries_ok(front);
        assert(ipv4_cidr_value(texts[texts.len() - 1]) is Ok);
    }
}

/// Summarizing does not depend on the order of the CIDR texts: where a
/// list of CIDRs is given in another order, the result holds the same
/// blocks.
pub proof fn lemma_ipv4_summarize_order_independent(
    texts: Seq<Seq<char>>,
    permuted: Seq<Seq<char>>,
    first: Ipv4SummaryView,
    second: Ipv4SummaryView,
)
    requires
        texts.to_multiset() == permuted.to_multiset(),
        ipv4_entries(texts) is Ok,
        is_ipv4_summary(first, ipv4_entries(texts)->Ok_0),
        ipv4_entries(permuted) is Ok ==> is_ipv4_summary(second, ipv4_entries(permuted)->Ok_0),
    ensures
        ipv4_entries(permuted) is Ok,
        first.cidrs == second.cidrs,
{
    texts.to_multiset_ensures();
    permuted.to_multiset_ensures();
    lemma_ipv4_entries_of_items(texts);
    assert forall|i: int| 0 <= i < permuted.len() implies ipv4_cidr_value(
        #[trigger] permuted[i],
    ) is Ok by {
        assert(permuted.contains(permuted[i]));
        assert(permuted.to_multiset().count(permuted[i]) > 0);
        assert(texts.to_multiset().count(permuted[i]) > 0);
        assert(texts.contains(permuted[i]));
        let j = choose|j: int| 0 <= j < texts.len() && texts[j] == permuted[i];
        assert(ipv4_cidr_value(texts[j]) is Ok);
    }
    lemma_ipv4_entries_ok(permuted);
    lemma_ipv4_entries_of_items(permuted);
    let x = ipv4_entries(texts)->Ok_0;
    let y = ipv4_entries(permuted)->Ok_0;
    assert forall|a: nat| covered(x, 32, a) <==> covered(y, 32, a) by {
        if covered(x, 32, a) {
            let i = choose|i: int| 0 <= i < x.len() && entry_covers(#[trigger] x[i], 32, a);
            assert(texts.contains(texts[i]));
            assert(texts.to_multiset().count(texts[i]) > 0);
            assert(permuted.to_multiset().count(texts[i]) > 0);
            assert(permuted.contains(texts[i]));
            let j = choose|j: int| 0 <= j < permuted.len() && permuted[j] == texts[i];
            assert(y[j] == ipv4_entry(permuted[j]));
            assert(x[i] == ipv4_entry(texts[i]));
            assert(entry_covers(y[j], 32, a));
        }
        if covered(y, 32, a) {
            let i = choose|i: int| 0 <= i < y.len() && entry_covers(#[trigger] y[i], 32, a);
            assert(permuted.contains(permuted[i]));
            assert(permuted.to_multiset().count(permuted[i]) > 0);
            assert(texts.to_multiset().count(permuted[i]) > 0);
            assert(texts.contains(permuted[i]));
            let j = choose|j: int| 0 <= j < texts.len() && texts[j] == permuted[i];
            assert(x[j] == ipv4_entry(texts[j]));
            assert(y[i] == ipv4_entry(permuted[i]));
            assert(entry_covers(x[j], 32, a));
        }
    }
    lemma_ipv4_summary_determined(first, x, second, y);
}

/// The entry that an IPv6 CIDR text denotes, its host bits cleared.
pub open spec fn ipv6_entry(text: Seq<char>) -> (u128, u8) {
    let v = ipv6_cidr_value(text)->Ok_0;
    ((v.0 & mask_v6(v.1)) as u128, v.1)
}

/// Where a list of IPv6 CIDR texts denotes entries, each text is a CIDR,
/// and the entries are those of the texts, in order.
pub proof fn lemma_ipv6_entries_of_items(texts: Seq<Seq<char>>)
    requires
        ipv6_entries(texts) is Ok,
    ensures
        ipv6_entries(texts)->Ok_0.len() == texts.len(),
        forall|i: int| 0 <= i < texts.len() ==> ipv6_cidr_value(#[trigger] texts[i]) is Ok,
        forall|i: int|
            0 <= i < texts.len() ==> (#[trigger] ipv6_entries(texts)->Ok_0[i]) == ipv6_entry(
                texts[i],
            ),
    decreases texts.len(),
{
    if texts.len() > 0 {
        let front = texts.drop_last();
        let last = texts.last();
        assert(ipv6_entries(front) is Ok);
        lemma_ipv6_entries_of_items(front);
        let es = ipv6_entries(front)->Ok_0;
        assert(ipv6_entries(texts)->Ok_0 == es.push(ipv6_entry(last)));
        assert forall|i: int| 0 <= i < texts.len() implies ipv6_cidr_value(
            #[trigger] texts[i],
        ) is Ok by {
            if i < front.len() {
                assert(front[i] == texts[i]);
            } else {
                assert(texts[i] == last);
            }
        }
        assert forall|i: int| 0 <= i < texts.len() implies (#[trigger] ipv6_entries(
            texts,
        )->Ok_0[i]) == ipv6_entry(texts[i]) by {
            if i < front.len() {
                assert(front[i] == texts[i]);
                assert(es.push(ipv6_entry(last))[i] == es[i]);
            } else {
                assert(texts[i] == last);
            }
        }
    }
}

/// A list of IPv6 CIDR texts of which each is a CIDR denotes entries.
pub proof fn lemma_ipv6_entries_ok(texts: Seq<Seq<char>>)
    requires
        forall|i: int| 0 <= i < texts.len() ==> ipv6_cidr_value(#[trigger] texts[i]) is Ok,
    ensures
        ipv6_entries(texts) is Ok,
    decreases texts.len(),
{
    if texts.len() > 0 {
        let front = texts.drop_last();
        assert forall|i: int| 0 <= i < front.len() implies ipv6_cidr_value(
            #[trigger] front[i],
        ) is Ok by {
            assert(front[i] == texts[i]);
        }
        lemma_ipv6_entries_ok(front);
        assert(ipv6_cidr_value(texts[texts.len() - 1]) is Ok);
    }
}

/// Summarizing does not depend on the order of the CIDR texts: where a
/// list of CIDRs is given in another order, the result holds the same
/// blocks.
pub proof fn lemma_ipv6_summarize_order_independent(
    texts: Seq<Seq<char>>,
    permuted: Seq<Seq<char>>,
    first: Ipv6SummaryView,
    second: Ipv6SummaryView,
)
    requires
        texts.to_multiset() == permuted.to_multiset(),
        ipv6_entries(texts) is Ok,
        is_ipv6_summary(first, ipv6_entries(texts)->Ok_0),
        ipv6_entries(permuted) is Ok ==> is_ipv6_summary(second, ipv6_entries(permuted)->Ok_0),
    ensures
        ipv6_entries(permuted) is Ok,
        first.cidrs == second.cidrs,
{
    texts.to_multiset_ensures();
    permuted.to_multiset_ensures();
    lemma_ipv6_entries_of_items(texts);
    assert forall|i: int| 0 <= i < permuted.len() implies ipv6_cidr_value(
        #[trigger] permuted[i],
    ) is Ok by {
        assert(permuted.contains(permuted[i]));
        assert(permuted.to_multiset().count(permuted[i]) > 0);
        assert(texts.to_multiset().count(permuted[i]) > 0);
        assert(texts.contains(permuted[i]));
        let j = choose|j: int| 0 <= j < texts.len() && texts[j] == permuted[i];
        assert(ipv6_cidr_value(texts[j]) is Ok);
    }
    lemma_ipv6_entries_ok(permuted);
    lemma_ipv6_entries_of_items(permuted);
    let x = ipv6_entries(texts)->Ok_0;
    let y = ipv6_entries(permuted)->Ok_0;
    assert forall|a: nat| covered(x, 128, a) <==> covered(y, 128, a) by {
        if covered(x, 128, a) {
            let i = choose|i: int| 0 <= i < x.len() && entry_covers(#[trigger] x[i], 128, a);
            assert(texts.contains(texts[i]));
            assert(texts.to_multiset().count(texts[i]) > 0);
            assert(permuted.to_multiset().count(texts[i]) > 0);
            assert(permuted.contains(texts[i]));
            let j = choose|j: int| 0 <= j < permuted.len() && permuted[j] == texts[i];
            assert(y[j] == ipv6_entry(permuted[j]));
            assert(x[i] == ipv6_entry(texts[i]));
            assert(entry_covers(y[j], 128, a));
        }
        if covered(y, 128, a) {
            let i = choose|i: int| 0 <= i < y.len() && entry_covers(#[trigger] y[i], 128, a);
            assert(permuted.contains(permuted[i]));
            assert(permuted.to_multiset().count(permuted[i]) > 0);
            assert(texts.to_multiset().count(permuted[i]) > 0);
            assert(texts.contains(permuted[i]));
            let j = choose|j: int| 0 <= j < texts.len() && texts[j] == permuted[i];
            assert(x[j] == ipv6_entry(texts[j]));
            assert(y[i] == ipv6_entry(permuted[i]));
            assert(entry_covers(x[j], 128, a));
        }
    }
    lemma_ipv6_summary_determined(first, x, second, y);
}

} // verus!
