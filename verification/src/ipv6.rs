//! IPv6 subnets: the colon-hexadecimal grammar, its canonical rendering, the
//! subnet derived from an address and a prefix length, and its
//! classification.

use vstd::prelude::*;
use vstd::string::*;
use vstd::arithmetic::power2::pow2;
use crate::classify::{classify, first_label, rule_views, AddressRule, RuleView};
use crate::error::{ErrorView, IpCalcError, Result};
use crate::ipv4::{ipv4_text, ipv4_text_value, parse_ipv4, push_ipv4};
use crate::space::{
    block_base, block_last, ipv6_mask, lemma_mask_v6, lemma_network_v6, lemma_pow2_le,
    lemma_pow2_widths, lemma_u128_shl_is_mul, mask_v6,
};
use crate::text::{
    all_hex_digits, byte_len, capped_u8, chars_of, decimal_text, digit_value, find_char,
    first_index, hex4_text, hex_text, is_hex_digit, numeral_text_value, numeral_value,
    parse_capped_u8, parse_numeral, piece_views, push_decimal, push_hex, push_hex4, slice_chars,
    split, split_chars, string_views, MAX_INPUT_LENGTH,
};

verus! {

/// `2^112`, the weight of the first 16-bit group of an address.
pub const GROUP_0: u128 = 0x1_0000_0000_0000_0000_0000_0000_0000;

/// `2^96`, the weight of the second group.
pub const GROUP_1: u128 = 0x1_0000_0000_0000_0000_0000_0000;

/// `2^80`, the weight of the third group.
pub const GROUP_2: u128 = 0x1_0000_0000_0000_0000_0000;

/// `2^64`, the weight of the fourth group.
pub const GROUP_3: u128 = 0x1_0000_0000_0000_0000;

/// `2^48`, the weight of the fifth group.
pub const GROUP_4: u128 = 0x1_0000_0000_0000;

/// `2^32`, the weight of the sixth group.
pub const GROUP_5: u128 = 0x1_0000_0000;

/// `2^16`, the weight of the seventh group.
pub const GROUP_6: u128 = 0x1_0000;

/// The eight 16-bit groups of an address, most significant first.
pub open spec fn ipv6_segments(a: u128) -> Seq<u16> {
    seq![
        (a / GROUP_0) as u16,
        ((a / GROUP_1) % 65536) as u16,
        ((a / GROUP_2) % 65536) as u16,
        ((a / GROUP_3) % 65536) as u16,
        ((a / GROUP_4) % 65536) as u16,
        ((a / GROUP_5) % 65536) as u16,
        ((a / GROUP_6) % 65536) as u16,
        (a % 65536) as u16,
    ]
}

/// The address that eight groups make up.
pub open spec fn segments_value(g: Seq<u16>) -> u128 {
    (g[0] * GROUP_0 + g[1] * GROUP_1 + g[2] * GROUP_2 + g[3] * GROUP_3 + g[4] * GROUP_4 + g[5]
        * GROUP_5 + g[6] * GROUP_6 + g[7]) as u128
}

/// The groups in hexadecimal without leading zeros, with a colon between
/// neighbours.
pub open spec fn hex_join(g: Seq<u16>) -> Seq<char>
    decreases g.len(),
{
    if g.len() == 0 {
        Seq::empty()
    } else if g.len() == 1 {
        hex_text(g[0] as nat)
    } else {
        hex_join(g.drop_last()) + seq![':'] + hex_text(g.last() as nat)
    }
}

/// The groups as four hexadecimal digits each, with a colon between
/// neighbours.
pub open spec fn hex4_join(g: Seq<u16>) -> Seq<char>
    decreases g.len(),
{
    if g.len() == 0 {
        Seq::empty()
    } else if g.len() == 1 {
        hex4_text(g[0])
    } else {
        hex4_join(g.drop_last()) + seq![':'] + hex4_text(g.last())
    }
}

/// Number of zero groups in a row from position `i` on.
pub open spec fn zero_run_at(g: Seq<u16>, i: int) -> nat
    decreases g.len() - i,
{
    if 0 <= i < g.len() && g[i] == 0 {
        1 + zero_run_at(g, i + 1)
    } else {
        0
    }
}

/// Start and length of the longest run of zero groups that starts at `i` or
/// later; of several longest runs, the first. `(0, 0)` where no group from
/// `i` on is zero.
pub open spec fn longest_zero_run(g: Seq<u16>, i: int) -> (int, nat)
    decreases g.len() - i,
{
    if 0 <= i < g.len() {
        let later = longest_zero_run(g, i + 1);
        let here = zero_run_at(g, i);
        if here > 0 && here >= later.1 {
            (i, here)
        } else {
            later
        }
    } else {
        (0, 0)
    }
}

/// The address maps an IPv4 address: 80 zero bits, 16 one bits, then the
/// IPv4 address.
pub open spec fn is_ipv4_mapped(g: Seq<u16>) -> bool {
    g[0] == 0 && g[1] == 0 && g[2] == 0 && g[3] == 0 && g[4] == 0 && g[5] == 0xffff
}

/// The canonical text of an address.
///
/// An address that maps an IPv4 address is `::ffff:` and that address in
/// dotted decimal. Any other is its groups in hexadecimal without leading
/// zeros, where the longest run of two or more zero groups, the first of
/// several, is written as `::`.
pub open spec fn ipv6_text(a: u128) -> Seq<char> {
    let g = ipv6_segments(a);
    let run = longest_zero_run(g, 0);
    if is_ipv4_mapped(g) {
        "::ffff:"@ + ipv4_text((g[6] * 65536 + g[7]) as u32)
    } else if run.1 > 1 {
        hex_join(g.take(run.0)) + seq![':', ':'] + hex_join(g.skip(run.0 + run.1))
    } else {
        hex_join(g)
    }
}

/// The text of an address in full: eight groups of four hexadecimal digits.
pub open spec fn ipv6_full_text(a: u128) -> Seq<char> {
    hex4_join(ipv6_segments(a))
}

/// Splits an address into its eight groups.
pub fn segments_of(a: u128) -> (g: Vec<u16>)
    ensures
        g@ == ipv6_segments(a),
{
    let mut g: Vec<u16> = Vec::new();
    g.push((a / GROUP_0) as u16);
    g.push(((a / GROUP_1) % 65536) as u16);
    g.push(((a / GROUP_2) % 65536) as u16);
    g.push(((a / GROUP_3) % 65536) as u16);
    g.push(((a / GROUP_4) % 65536) as u16);
    g.push(((a / GROUP_5) % 65536) as u16);
    g.push(((a / GROUP_6) % 65536) as u16);
    g.push((a % 65536) as u16);
    assert(g@ =~= ipv6_segments(a));
    g
}

/// Appends the groups from `from` up to `to` in hexadecimal, separated by
/// colons.
fn push_hex_join(out: &mut String, g: &Vec<u16>, from: usize, to: usize)
    requires
        from <= to <= g.len(),
    ensures
        final(out)@ == old(out)@ + hex_join(g@.subrange(from as int, to as int)),
{
    proof {
        reveal_strlit(":");
    }
    let mut i: usize = from;
    assert(g@.subrange(from as int, from as int) =~= Seq::<u16>::empty());
    assert(out@ =~= old(out)@ + hex_join(g@.subrange(from as int, i as int)));
    while i < to
        invariant
            from <= i <= to <= g.len(),
            out@ == old(out)@ + hex_join(g@.subrange(from as int, i as int)),
            ":"@ == seq![':'],
        decreases to - i,
    {
        let ghost before = g@.subrange(from as int, i as int);
        let ghost after = g@.subrange(from as int, i + 1);
        proof {
            assert(after.drop_last() =~= before);
            assert(after.last() == g@[i as int]);
        }
        if i > from {
            out.append(":");
        }
        push_hex(out, g[i]);
        i = i + 1;
        proof {
            assert(out@ =~= old(out)@ + hex_join(after));
        }
    }
}

/// Appends the groups as four hexadecimal digits each, separated by colons.
fn push_hex4_join(out: &mut String, g: &Vec<u16>)
    ensures
        final(out)@ == old(out)@ + hex4_join(g@),
{
    proof {
        reveal_strlit(":");
    }
    let mut i: usize = 0;
    assert(g@.take(0) =~= Seq::<u16>::empty());
    assert(out@ =~= old(out)@ + hex4_join(g@.take(0)));
    while i < g.len()
        invariant
            0 <= i <= g.len(),
            out@ == old(out)@ + hex4_join(g@.take(i as int)),
            ":"@ == seq![':'],
        decreases g.len() - i,
    {
        let ghost before = g@.take(i as int);
        let ghost after = g@.take(i + 1);
        proof {
            assert(after.drop_last() =~= before);
            assert(after.last() == g@[i as int]);
        }
        if i > 0 {
            out.append(":");
        }
        push_hex4(out, g[i]);
        i = i + 1;
        proof {
            assert(out@ =~= old(out)@ + hex4_join(after));
        }
    }
    assert(g@.take(g@.len() as int) =~= g@);
}

/// Finds the longest run of zero groups, the first of several.
fn find_zero_run(g: &Vec<u16>) -> (run: (usize, usize))
    requires
        g.len() <= 8,
    ensures
        (run.0 as int, run.1 as nat) == longest_zero_run(g@, 0),
        run.0 + run.1 <= g.len(),
{
    let mut best: (usize, usize) = (0, 0);
    let mut here: usize = 0;
    let mut i: usize = g.len();
    while i > 0
        invariant
            0 <= i <= g.len() <= 8,
            here == zero_run_at(g@, i as int),
            i + here <= g.len(),
            (best.0 as int, best.1 as nat) == longest_zero_run(g@, i as int),
            best.0 + best.1 <= g.len(),
        decreases i,
    {
        i = i - 1;
        if g[i] == 0 {
            here = here + 1;
        } else {
            here = 0;
        }
        if here > 0 && here >= best.1 {
            best = (i, here);
        }
    }
    best
}

/// Appends the canonical text of `a`.
pub fn push_ipv6(out: &mut String, a: u128)
    ensures
        final(out)@ == old(out)@ + ipv6_text(a),
{
    let g = segments_of(a);
    if g[0] == 0 && g[1] == 0 && g[2] == 0 && g[3] == 0 && g[4] == 0 && g[5] == 0xffff {
        out.append("::ffff:");
        push_ipv4(out, (g[6] as u32) * 65536 + (g[7] as u32));
        assert(out@ =~= old(out)@ + ipv6_text(a));
        return ;
    }
    let run = find_zero_run(&g);
    if run.1 > 1 {
        proof {
            reveal_strlit("::");
            assert(g@.subrange(0, run.0 as int) =~= g@.take(run.0 as int));
            assert(g@.subrange(run.0 + run.1, g@.len() as int) =~= g@.skip(run.0 + run.1));
        }
        push_hex_join(out, &g, 0, run.0);
        out.append("::");
        push_hex_join(out, &g, run.0 + run.1, g.len());
        assert(out@ =~= old(out)@ + ipv6_text(a));
    } else {
        proof {
            assert(g@.subrange(0, g@.len() as int) =~= g@);
        }
        push_hex_join(out, &g, 0, g.len());
    }
}

/// The canonical text of `a` as a string.
pub fn ipv6_to_string(a: u128) -> (r: String)
    ensures
        r@ == ipv6_text(a),
{
    let mut r = String::new();
    push_ipv6(&mut r, a);
    assert(r@ =~= ipv6_text(a));
    r
}

/// The text of `a` in full as a string.
pub fn ipv6_to_full_string(a: u128) -> (r: String)
    ensures
        r@ == ipv6_full_text(a),
{
    let g = segments_of(a);
    let mut r = String::new();
    push_hex4_join(&mut r, &g);
    assert(r@ =~= ipv6_full_text(a));
    r
}

/// What one piece of a colon-hexadecimal address denotes: one to four
/// hexadecimal digits of either case.
pub open spec fn hextet_text_value(t: Seq<char>) -> Option<u16> {
    if 1 <= t.len() <= 4 && all_hex_digits(t) {
        Some(numeral_value(t, 16) as u16)
    } else {
        None
    }
}

/// Every piece is a group of hexadecimal digits.
pub open spec fn hextets_valid(p: Seq<Seq<char>>) -> bool {
    forall|i: int| 0 <= i < p.len() ==> hextet_text_value(#[trigger] p[i]) is Some
}

/// The values of pieces that are groups of hexadecimal digits.
pub open spec fn hextets_of(p: Seq<Seq<char>>) -> Seq<u16> {
    Seq::new(p.len(), |i: int| hextet_text_value(p[i])->0)
}

/// The two groups that an IPv4 address fills.
pub open spec fn ipv4_groups(a: u32) -> Seq<u16> {
    seq![(a / 65536) as u16, (a % 65536) as u16]
}

/// The groups that the pieces between single colons denote. Each piece is a
/// group of hexadecimal digits; where `v4_tail` allows it, the last piece may
/// instead be a dotted-decimal IPv4 address, which stands for two groups.
pub open spec fn group_list_value(p: Seq<Seq<char>>, v4_tail: bool) -> Option<Seq<u16>> {
    if v4_tail && p.len() >= 1 && ipv4_text_value(p.last()) is Some {
        if hextets_valid(p.drop_last()) {
            Some(hextets_of(p.drop_last()) + ipv4_groups(ipv4_text_value(p.last())->0))
        } else {
            None
        }
    } else if hextets_valid(p) {
        Some(hextets_of(p))
    } else {
        None
    }
}

/// Index of the first place where `c` stands twice in a row, or the length
/// of `s` where there is none.
pub open spec fn first_pair(s: Seq<char>, c: char) -> int
    decreases s.len(),
{
    if s.len() < 2 {
        s.len() as int
    } else if s[0] == c && s[1] == c {
        0
    } else {
        1 + first_pair(s.skip(1), c)
    }
}

/// The groups of one side of a `::`: none for an empty side, else what the
/// pieces between its single colons denote.
pub open spec fn side_value(side: Seq<char>, v4_tail: bool) -> Option<Seq<u16>> {
    if side.len() == 0 {
        Some(Seq::empty())
    } else {
        group_list_value(split(side, ':'), v4_tail)
    }
}

/// What a colon-hexadecimal text denotes.
///
/// Without `::` the text is eight groups between single colons, of which the
/// last two may be written as a dotted-decimal IPv4 address. With `::`, which
/// stands for one or more zero groups, the groups before it and after it
/// number at most seven together; only the side after it may end in an IPv4
/// address.
#[verifier::opaque]
pub open spec fn ipv6_text_value(s: Seq<char>) -> Option<u128> {
    let k = first_pair(s, ':');
    if 0 <= k < s.len() {
        let head = side_value(s.take(k), false);
        let tail = side_value(s.skip(k + 2), true);
        if head is Some && tail is Some && head->0.len() + tail->0.len() <= 7 {
            Some(
                segments_value(
                    head->0 + Seq::new(
                        (8 - head->0.len() - tail->0.len()) as nat,
                        |i: int| 0u16,
                    ) + tail->0,
                ),
            )
        } else {
            None
        }
    } else {
        let g = group_list_value(split(s, ':'), true);
        if g is Some && g->0.len() == 8 {
            Some(segments_value(g->0))
        } else {
            None
        }
    }
}

/// `first_pair` is the one position that holds `c` twice with no such place
/// before it.
pub proof fn lemma_first_pair(s: Seq<char>, c: char, k: int)
    requires
        0 <= k <= s.len(),
        forall|j: int| 0 <= j < k && j + 1 < s.len() ==> !(#[trigger] s[j] == c && s[j + 1] == c),
        k < s.len() ==> k + 1 < s.len() && s[k] == c && s[k + 1] == c,
    ensures
        first_pair(s, c) == k,
    decreases s.len(),
{
    if s.len() >= 2 && !(s[0] == c && s[1] == c) {
        let t = s.skip(1);
        assert forall|j: int| 0 <= j < k - 1 && j + 1 < t.len() implies !(#[trigger] t[j] == c
            && t[j + 1] == c) by {
            assert(t[j] == s[j + 1]);
            assert(t[j + 1] == s[j + 2]);
        }
        lemma_first_pair(t, c, k - 1);
    }
}

/// A hexadecimal numeral of at most four digits fits in sixteen bits.
pub proof fn lemma_hextet_bound(t: Seq<char>)
    requires
        t.len() <= 4,
        all_hex_digits(t),
    ensures
        numeral_value(t, 16) < (if t.len() == 0 {
            1nat
        } else if t.len() == 1 {
            16nat
        } else if t.len() == 2 {
            256nat
        } else if t.len() == 3 {
            4096nat
        } else {
            65536nat
        }),
    decreases t.len(),
{
    if t.len() > 0 {
        let d = t.drop_last();
        assert forall|i: int| 0 <= i < d.len() implies is_hex_digit(#[trigger] d[i]) by {
            assert(d[i] == t[i]);
        }
        lemma_hextet_bound(d);
        assert(is_hex_digit(t[t.len() - 1]));
        assert(digit_value(t.last()) < 16);
    }
}

/// Reads one group of hexadecimal digits.
fn parse_hextet(t: &Vec<char>) -> (r: Option<u16>)
    ensures
        r == hextet_text_value(t@),
{
    proof {
        if t@.len() <= 4 && all_hex_digits(t@) {
            lemma_hextet_bound(t@);
        }
    }
    match parse_numeral(t, true, 4, 0xffff) {
        Some(v) => Some(v as u16),
        None => None,
    }
}

/// Reads the first `n` pieces as groups of hexadecimal digits.
fn parse_hextets(pieces: &Vec<Vec<char>>, n: usize) -> (r: Option<Vec<u16>>)
    requires
        n <= pieces.len(),
    ensures
        r is Some <==> hextets_valid(piece_views(pieces@).take(n as int)),
        r matches Some(g) ==> g@ == hextets_of(piece_views(pieces@).take(n as int)),
{
    let ghost p = piece_views(pieces@).take(n as int);
    let mut g: Vec<u16> = Vec::new();
    let mut i: usize = 0;
    while i < n
        invariant
            0 <= i <= n <= pieces.len(),
            p == piece_views(pieces@).take(n as int),
            g@.len() == i,
            forall|j: int| 0 <= j < i ==> hextet_text_value(#[trigger] p[j]) == Some(g@[j]),
        decreases n - i,
    {
        assert(p[i as int] == pieces@[i as int]@);
        match parse_hextet(&pieces[i]) {
            Some(v) => {
                g.push(v);
            },
            None => {
                return None;
            },
        }
        i = i + 1;
    }
    assert(g@ =~= hextets_of(p));
    Some(g)
}

/// Reads the pieces between single colons as groups.
fn parse_groups(pieces: &Vec<Vec<char>>, v4_tail: bool) -> (r: Option<Vec<u16>>)
    ensures
        r is Some <==> group_list_value(piece_views(pieces@), v4_tail) is Some,
        r matches Some(g) ==> group_list_value(piece_views(pieces@), v4_tail) == Some(g@),
{
    let ghost p = piece_views(pieces@);
    let n = pieces.len();
    assert(p.take(n as int) =~= p);
    if v4_tail && n >= 1 {
        assert(p.last() == pieces@[n - 1]@);
        assert(p.take(n - 1) =~= p.drop_last());
        match parse_ipv4(&pieces[n - 1]) {
            Some(a) => {
                return match parse_hextets(pieces, n - 1) {
                    Some(g) => {
                        let mut g = g;
                        g.push((a / 65536) as u16);
                        g.push((a % 65536) as u16);
                        assert(g@ =~= hextets_of(p.drop_last()) + ipv4_groups(a));
                        Some(g)
                    },
                    None => None,
                };
            },
            None => {},
        }
    }
    parse_hextets(pieces, n)
}

/// Reads one side of a `::`.
fn parse_side(side: &Vec<char>, v4_tail: bool) -> (r: Option<Vec<u16>>)
    ensures
        r is Some <==> side_value(side@, v4_tail) is Some,
        r matches Some(g) ==> side_value(side@, v4_tail) == Some(g@),
{
    if side.len() == 0 {
        let g: Vec<u16> = Vec::new();
        assert(g@ =~= Seq::<u16>::empty());
        return Some(g);
    }
    let pieces = split_chars(side, ':');
    parse_groups(&pieces, v4_tail)
}

/// Position of the first `::`-like pair of `c` in `s`, or the length of `s`.
fn find_pair(s: &Vec<char>, c: char) -> (k: usize)
    ensures
        k == first_pair(s@, c),
        k <= s.len(),
        k < s.len() ==> k + 2 <= s.len(),
{
    let mut i: usize = 0;
    while i < s.len() && i + 1 < s.len()
        invariant
            0 <= i <= s.len(),
            forall|j: int| 0 <= j < i && j + 1 < s.len() ==> !(#[trigger] s@[j] == c && s@[j + 1] == c),
        decreases s.len() - i,
    {
        if s[i] == c && s[i + 1] == c {
            proof {
                lemma_first_pair(s@, c, i as int);
            }
            return i;
        }
        i = i + 1;
    }
    proof {
        lemma_first_pair(s@, c, s@.len() as int);
    }
    s.len()
}

/// The address that eight groups make up.
fn value_of_segments(g: &Vec<u16>) -> (a: u128)
    requires
        g.len() == 8,
    ensures
        a == segments_value(g@),
{
    (g[0] as u128) * GROUP_0 + (g[1] as u128) * GROUP_1 + (g[2] as u128) * GROUP_2 + (g[3] as u128)
        * GROUP_3 + (g[4] as u128) * GROUP_4 + (g[5] as u128) * GROUP_5 + (g[6] as u128) * GROUP_6
        + (g[7] as u128)
}

/// Reads a colon-hexadecimal address.
pub fn parse_ipv6(s: &Vec<char>) -> (r: Option<u128>)
    ensures
        r == ipv6_text_value(s@),
{
    proof {
        reveal(ipv6_text_value);
    }
    let k = find_pair(s, ':');
    if k < s.len() {
        let head_chars = slice_chars(s, 0, k);
        let tail_chars = slice_chars(s, k + 2, s.len());
        proof {
            assert(head_chars@ =~= s@.take(k as int));
            assert(tail_chars@ =~= s@.skip(k + 2));
        }
        let head = match parse_side(&head_chars, false) {
            Some(g) => g,
            None => {
                return None;
            },
        };
        let tail = match parse_side(&tail_chars, true) {
            Some(g) => g,
            None => {
                return None;
            },
        };
        if head.len() > 7 || tail.len() > 7 - head.len() {
            return None;
        }
        let gap = 8 - head.len() - tail.len();
        let mut g = head;
        let ghost head_groups = g@;
        let mut i: usize = 0;
        while i < gap
            invariant
                0 <= i <= gap,
                g@ == head_groups + Seq::new(i as nat, |j: int| 0u16),
            decreases gap - i,
        {
            g.push(0);
            i = i + 1;
            assert(g@ =~= head_groups + Seq::new(i as nat, |j: int| 0u16));
        }
        let mut j: usize = 0;
        while j < tail.len()
            invariant
                0 <= j <= tail.len(),
                g@ == head_groups + Seq::new(gap as nat, |j: int| 0u16) + tail@.take(j as int),
            decreases tail.len() - j,
        {
            g.push(tail[j]);
            j = j + 1;
            assert(g@ =~= head_groups + Seq::new(gap as nat, |j: int| 0u16) + tail@.take(
                j as int,
            ));
        }
        assert(tail@.take(tail@.len() as int) =~= tail@);
        Some(value_of_segments(&g))
    } else {
        let pieces = split_chars(s, ':');
        match parse_groups(&pieces, true) {
            Some(g) => {
                if g.len() == 8 {
                    Some(value_of_segments(&g))
                } else {
                    None
                }
            },
            None => None,
        }
    }
}

/// Reads a colon-hexadecimal address from a string slice.
pub fn parse_ipv6_str(s: &str) -> (r: Option<u128>)
    ensures
        r == ipv6_text_value(s@),
{
    let chars = chars_of(s);
    parse_ipv6(&chars)
}

/// The classification table of IPv6 addresses, in the order in which the
/// rows are tried.
pub open spec fn ipv6_rule_table() -> Seq<RuleView> {
    seq![
        RuleView {
            mask: 0xffff_ffff_ffff_ffff_ffff_ffff_ffff_ffff,
            value: 1,
            label: "Loopback (RFC 4291)"@,
        },
        RuleView {
            mask: 0xffff_ffff_ffff_ffff_ffff_ffff_ffff_ffff,
            value: 0,
            label: "Unspecified (RFC 4291)"@,
        },
        RuleView {
            mask: 0xff00_0000_0000_0000_0000_0000_0000_0000,
            value: 0xff00_0000_0000_0000_0000_0000_0000_0000,
            label: "Multicast (RFC 4291)"@,
        },
        RuleView {
            mask: 0xffc0_0000_0000_0000_0000_0000_0000_0000,
            value: 0xfe80_0000_0000_0000_0000_0000_0000_0000,
            label: "Link-Local Unicast (RFC 4291)"@,
        },
        RuleView {
            mask: 0xfe00_0000_0000_0000_0000_0000_0000_0000,
            value: 0xfc00_0000_0000_0000_0000_0000_0000_0000,
            label: "Unique Local Address (RFC 4193)"@,
        },
        RuleView {
            mask: 0xffff_ffff_0000_0000_0000_0000_0000_0000,
            value: 0x2001_0db8_0000_0000_0000_0000_0000_0000,
            label: "Documentation (RFC 3849)"@,
        },
        RuleView {
            mask: 0xe000_0000_0000_0000_0000_0000_0000_0000,
            value: 0x2000_0000_0000_0000_0000_0000_0000_0000,
            label: "Global Unicast (RFC 4291)"@,
        },
    ]
}

/// The kind of an IPv6 network address: the label of the first matching row
/// of the table, `Other` where no row matches.
pub open spec fn ipv6_address_type(network: u128) -> Seq<char> {
    first_label(ipv6_rule_table(), network, "Other"@)
}

/// Builds the IPv6 classification table.
pub fn ipv6_address_rules() -> (rules: Vec<AddressRule>)
    ensures
        rule_views(rules@) == ipv6_rule_table(),
{
    let mut rules: Vec<AddressRule> = Vec::new();
    rules.push(
        AddressRule {
            mask: 0xffff_ffff_ffff_ffff_ffff_ffff_ffff_ffff,
            value: 1,
            label: "Loopback (RFC 4291)",
        },
    );
    rules.push(
        AddressRule {
            mask: 0xffff_ffff_ffff_ffff_ffff_ffff_ffff_ffff,
            value: 0,
            label: "Unspecified (RFC 4291)",
        },
    );
    rules.push(
        AddressRule {
            mask: 0xff00_0000_0000_0000_0000_0000_0000_0000,
            value: 0xff00_0000_0000_0000_0000_0000_0000_0000,
            label: "Multicast (RFC 4291)",
        },
    );
    rules.push(
        AddressRule {
            mask: 0xffc0_0000_0000_0000_0000_0000_0000_0000,
            value: 0xfe80_0000_0000_0000_0000_0000_0000_0000,
            label: "Link-Local Unicast (RFC 4291)",
        },
    );
    rules.push(
        AddressRule {
            mask: 0xfe00_0000_0000_0000_0000_0000_0000_0000,
            value: 0xfc00_0000_0000_0000_0000_0000_0000_0000,
            label: "Unique Local Address (RFC 4193)",
        },
    );
    rules.push(
        AddressRule {
            mask: 0xffff_ffff_0000_0000_0000_0000_0000_0000,
            value: 0x2001_0db8_0000_0000_0000_0000_0000_0000,
            label: "Documentation (RFC 3849)",
        },
    );
    rules.push(
        AddressRule {
            mask: 0xe000_0000_0000_0000_0000_0000_0000_0000,
            value: 0x2000_0000_0000_0000_0000_0000_0000_0000,
            label: "Global Unicast (RFC 4291)",
        },
    );
    assert(rule_views(rules@) =~= ipv6_rule_table());
    rules
}

/// An IPv6 network with everything that follows from its address and prefix
/// length.
#[derive(Debug, Clone, PartialEq, Eq)]
pub struct Ipv6Subnet {
    /// The address and prefix length as they were given, in CIDR notation.
    pub input: String,
    /// First address of the block: the given address with its host bits cleared.
    pub network: u128,
    /// The network address written in full.
    pub network_address_full: String,
    /// Last address of the block: the network with all host bits set.
    pub last: u128,
    /// The last address written in full.
    pub last_address_full: String,
    /// Number of leading bits that name the network.
    pub prefix_length: u8,
    /// Number of addresses in the block: the number itself up to `2^64`, the
    /// power `2^k` beyond.
    pub total_addresses: String,
    /// The eight groups of the network address, four hexadecimal digits each.
    pub hextets: Vec<String>,
    /// The kind of the network, from the classification table.
    pub address_type: String,
}

/// An IPv6 subnet with its texts as character sequences.
pub struct Ipv6SubnetView {
    pub input: Seq<char>,
    pub network: u128,
    pub network_address_full: Seq<char>,
    pub last: u128,
    pub last_address_full: Seq<char>,
    pub prefix_length: u8,
    pub total_addresses: Seq<char>,
    pub hextets: Seq<Seq<char>>,
    pub address_type: Seq<char>,
}

impl View for Ipv6Subnet {
    type V = Ipv6SubnetView;

    open spec fn view(&self) -> Ipv6SubnetView {
        Ipv6SubnetView {
            input: self.input@,
            network: self.network,
            network_address_full: self.network_address_full@,
            last: self.last,
            last_address_full: self.last_address_full@,
            prefix_length: self.prefix_length,
            total_addresses: self.total_addresses@,
            hextets: string_views(self.hextets@),
            address_type: self.address_type@,
        }
    }
}

/// The number of addresses of a block as a text: the number itself while
/// there are at most 64 host bits, the power of two beyond.
pub open spec fn ipv6_total_text(prefix: u8) -> Seq<char> {
    power_of_two_text((128 - prefix) as nat)
}

/// A power of two as a text: the number itself while the exponent is at most
/// 64, `2^` and the exponent beyond.
pub open spec fn power_of_two_text(bits: nat) -> Seq<char> {
    if bits <= 64 {
        decimal_text(pow2(bits))
    } else {
        "2^"@ + decimal_text(bits)
    }
}

/// The subnet that an address and a prefix length of at most 128 determine.
pub open spec fn ipv6_subnet_of(addr: u128, prefix: u8) -> Ipv6SubnetView {
    let mask = mask_v6(prefix);
    let network = addr & mask;
    let last = network | !mask;
    Ipv6SubnetView {
        input: ipv6_text(addr) + seq!['/'] + decimal_text(prefix as nat),
        network: network,
        network_address_full: ipv6_full_text(network),
        last: last,
        last_address_full: ipv6_full_text(last),
        prefix_length: prefix,
        total_addresses: ipv6_total_text(prefix),
        hextets: Seq::new(8, |i: int| hex4_text(ipv6_segments(network)[i])),
        address_type: ipv6_address_type(network),
    }
}

/// The address and prefix length that a CIDR text denotes, or the error that
/// it earns. The text is cut at its first `/`; what stands before must be a
/// colon-hexadecimal address, what follows a decimal numeral. A numeral above
/// 128 is a prefix length out of range, whatever its size; the error carries
/// its value, and 255 in place of a larger one.
pub open spec fn ipv6_cidr_value(s: Seq<char>) -> core::result::Result<(u128, u8), ErrorView> {
    let i = first_index(s, '/');
    if byte_len(s) > MAX_INPUT_LENGTH {
        Err(ErrorView::InputTooLong { length: byte_len(s), limit: MAX_INPUT_LENGTH })
    } else if !(0 <= i < s.len()) {
        Err(ErrorView::InvalidCidr(s))
    } else if ipv6_text_value(s.take(i)) is None {
        Err(ErrorView::InvalidIpv6Address(s.take(i)))
    } else if numeral_text_value(s.skip(i + 1)) is None {
        Err(ErrorView::InvalidCidr(s))
    } else if numeral_text_value(s.skip(i + 1))->0 > 128 {
        Err(ErrorView::InvalidPrefixLength(capped_u8(numeral_text_value(s.skip(i + 1))->0)))
    } else {
        Ok((ipv6_text_value(s.take(i))->0, numeral_text_value(s.skip(i + 1))->0 as u8))
    }
}

/// The subnet that a CIDR text denotes, or the error that it earns.
pub open spec fn ipv6_cidr_subnet(s: Seq<char>) -> core::result::Result<Ipv6SubnetView, ErrorView> {
    match ipv6_cidr_value(s) {
        Ok((addr, prefix)) => Ok(ipv6_subnet_of(addr, prefix)),
        Err(e) => Err(e),
    }
}

/// A result of this library with its value and its error as views.
pub open spec fn ipv6_outcome(r: Result<Ipv6Subnet>) -> core::result::Result<
    Ipv6SubnetView,
    ErrorView,
> {
    match r {
        Ok(s) => Ok(s@),
        Err(e) => Err(e@),
    }
}

/// Renders the number of addresses of a block.
pub fn ipv6_total_addresses(prefix: u8) -> (r: String)
    requires
        prefix <= 128,
    ensures
        r@ == ipv6_total_text(prefix),
{
    power_of_two_string(128 - prefix)
}

/// Renders a power of two: in full up to `2^64`, as `2^k` beyond.
pub fn power_of_two_string(bits: u8) -> (r: String)
    ensures
        r@ == power_of_two_text(bits as nat),
{
    let mut r = String::new();
    if bits <= 64 {
        proof {
            lemma_pow2_widths();
            lemma_pow2_le(bits as nat, 64);
            assert(1 * pow2(bits as nat) == pow2(bits as nat));
            lemma_u128_shl_is_mul(1u128, bits as u128);
        }
        push_decimal(&mut r, 1u128 << (bits as u128));
    } else {
        r.append("2^");
        push_decimal(&mut r, bits as u128);
    }
    assert(r@ =~= power_of_two_text(bits as nat));
    r
}

impl Ipv6Subnet {
    /// Reads a subnet in CIDR notation, such as `2001:db8::/32`.
    ///
    /// A text of more than 256 bytes is refused unread. The address may have
    /// host bits set; the network is the address with those cleared.
    pub fn from_cidr(cidr: &str) -> (r: Result<Ipv6Subnet>)
        ensures
            ipv6_outcome(r) == ipv6_cidr_subnet(cidr@),
    {
        if cidr.len() > MAX_INPUT_LENGTH {
            return Err(IpCalcError::InputTooLong { length: cidr.len(), limit: MAX_INPUT_LENGTH });
        }
        let chars = chars_of(cidr);
        let i = find_char(&chars, '/');
        if i >= chars.len() {
            return Err(IpCalcError::InvalidCidr(cidr.to_owned()));
        }
        let addr_chars = slice_chars(&chars, 0, i);
        let prefix_chars = slice_chars(&chars, i + 1, chars.len());
        proof {
            assert(addr_chars@ =~= cidr@.take(i as int));
            assert(prefix_chars@ =~= cidr@.skip(i + 1));
        }
        let addr = match parse_ipv6(&addr_chars) {
            Some(a) => a,
            None => {
                let addr_text = cidr.substring_char(0, i);
                assert(addr_text@ =~= cidr@.take(i as int));
                return Err(IpCalcError::InvalidIpv6Address(addr_text.to_owned()));
            },
        };
        let prefix = match parse_capped_u8(&prefix_chars) {
            Some(p) => p,
            None => {
                return Err(IpCalcError::InvalidCidr(cidr.to_owned()));
            },
        };
        Ipv6Subnet::new(addr, prefix)
    }

    /// Derives the subnet of an address and a prefix length.
    pub fn new(addr: u128, prefix: u8) -> (r: Result<Ipv6Subnet>)
        ensures
            prefix <= 128 ==> ipv6_outcome(r) == Ok::<Ipv6SubnetView, ErrorView>(
                ipv6_subnet_of(addr, prefix),
            ),
            prefix > 128 ==> ipv6_outcome(r) == Err::<Ipv6SubnetView, ErrorView>(
                ErrorView::InvalidPrefixLength(prefix),
            ),
    {
        if prefix > 128 {
            return Err(IpCalcError::InvalidPrefixLength(prefix));
        }
        let mask = ipv6_mask(prefix);
        let network = addr & mask;
        let last = network | !mask;
        let segments = segments_of(network);
        let mut hextets: Vec<String> = Vec::new();
        let mut i: usize = 0;
        while i < 8
            invariant
                0 <= i <= 8,
                segments@ == ipv6_segments(network),
                hextets@.len() == i,
                forall|j: int| 0 <= j < i ==> (#[trigger] hextets@[j])@ == hex4_text(segments@[j]),
            decreases 8 - i,
        {
            let mut h = String::new();
            push_hex4(&mut h, segments[i]);
            assert(h@ =~= hex4_text(segments@[i as int]));
            hextets.push(h);
            i = i + 1;
        }
        let rules = ipv6_address_rules();
        let address_type = classify(&rules, network, "Other");
        let mut input = String::new();
        push_ipv6(&mut input, addr);
        proof {
            reveal_strlit("/");
        }
        input.append("/");
        push_decimal(&mut input, prefix as u128);
        assert(input@ =~= ipv6_text(addr) + seq!['/'] + decimal_text(prefix as nat));
        let subnet = Ipv6Subnet {
            input,
            network,
            network_address_full: ipv6_to_full_string(network),
            last,
            last_address_full: ipv6_to_full_string(last),
            prefix_length: prefix,
            total_addresses: ipv6_total_addresses(prefix),
            hextets,
            address_type: address_type.to_owned(),
        };
        assert(subnet@.hextets =~= ipv6_subnet_of(addr, prefix).hextets);
        assert(subnet@ == ipv6_subnet_of(addr, prefix));
        Ok(subnet)
    }
}

impl Ipv6Subnet {
    /// The network address as a number.
    pub fn network_addr(&self) -> (a: u128)
        ensures
            a == self.network,
    {
        self.network
    }

    /// The network address in canonical text.
    pub fn network_address(&self) -> (r: String)
        ensures
            r@ == ipv6_text(self.network),
    {
        ipv6_to_string(self.network)
    }

    /// The last address of the block in canonical text.
    pub fn last_address(&self) -> (r: String)
        ensures
            r@ == ipv6_text(self.last),
    {
        ipv6_to_string(self.last)
    }
}

/// What holds of every IPv6 subnet: the mask has exactly `prefix` leading
/// one-bits, the network is the address under the mask, the last address is
/// the network with the remaining bits set, and the address lies between the
/// two.
pub proof fn lemma_ipv6_subnet_bounds(addr: u128, prefix: u8)
    requires
        prefix <= 128,
    ensures
        mask_v6(prefix) == pow2(128) - pow2((128 - prefix) as nat),
        ipv6_subnet_of(addr, prefix).network == addr & mask_v6(prefix),
        ipv6_subnet_of(addr, prefix).last == ipv6_subnet_of(addr, prefix).network | !mask_v6(
            prefix,
        ),
        ipv6_subnet_of(addr, prefix).network <= addr <= ipv6_subnet_of(addr, prefix).last,
        ipv6_subnet_of(addr, prefix).network == block_base(addr as nat, (128 - prefix) as nat),
        ipv6_subnet_of(addr, prefix).last == block_last(addr as nat, (128 - prefix) as nat),
        ipv6_subnet_of(addr, prefix).last - ipv6_subnet_of(addr, prefix).network + 1 == pow2(
            (128 - prefix) as nat,
        ),
{
    lemma_mask_v6(prefix);
    lemma_network_v6(addr, prefix);
}

/// The views of a list of IPv6 subnets.
pub open spec fn ipv6_subnet_views(v: Seq<Ipv6Subnet>) -> Seq<Ipv6SubnetView> {
    v.map_values(|s: Ipv6Subnet| s@)
}

/// The text has a colon, the mark of an IPv6 address.
pub open spec fn looks_like_ipv6(s: Seq<char>) -> bool {
    s.contains(':')
}

/// Tells the family of a CIDR text by the presence of a colon.
pub fn has_colon(s: &str) -> (r: bool)
    ensures
        r == looks_like_ipv6(s@),
{
    let chars = chars_of(s);
    let mut i: usize = 0;
    while i < chars.len()
        invariant
            0 <= i <= chars.len(),
            chars@ == s@,
            forall|j: int| 0 <= j < i ==> chars@[j] != ':',
        decreases chars.len() - i,
    {
        if chars[i] == ':' {
            return true;
        }
        i = i + 1;
    }
    false
}

} // verus!
