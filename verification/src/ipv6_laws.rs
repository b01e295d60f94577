//! The canonical text of an IPv6 address reads back as the address.

use vstd::prelude::*;
use crate::error::ErrorView;
use crate::ipv4::{
    ipv4_octets, ipv4_text, ipv4_text_value, lemma_ipv4_text_chars, lemma_ipv4_text_round_trip,
};
use crate::ipv6::{
    first_pair, group_list_value, hex_join, hextet_text_value, hextets_of, hextets_valid,
    ipv4_groups, ipv6_cidr_subnet, ipv6_cidr_value, ipv6_segments, ipv6_subnet_of, ipv6_text,
    ipv6_text_value, is_ipv4_mapped, lemma_first_pair, longest_zero_run, segments_value,
    side_value, zero_run_at, Ipv6SubnetView, GROUP_0, GROUP_1, GROUP_2, GROUP_3, GROUP_4,
    GROUP_5, GROUP_6,
};
use crate::text::{
    address_chars, all_hex_digits, decimal_text, digit_char, digit_value, first_index, hex_text,
    is_digit, is_hex_digit, lemma_address_chars_concat, lemma_cidr_text_parts,
    lemma_decimal_text, lemma_first_index, lemma_first_index_bounds, lemma_numeral_push,
    lemma_split_first, lemma_split_whole, numeral_value, split,
};

verus! {

/// The hexadecimal numeral of a 16-bit value has one to four digits, all
/// of them lower-case hexadecimal digits, and is worth the value.
pub proof fn lemma_hex_text(n: nat)
    requires
        n < 65536,
    ensures
        1 <= hex_text(n).len() <= 4,
        n < 16 ==> hex_text(n).len() == 1,
        n < 256 ==> hex_text(n).len() <= 2,
        n < 4096 ==> hex_text(n).len() <= 3,
        all_hex_digits(hex_text(n)),
        numeral_value(hex_text(n), 16) == n,
        hextet_text_value(hex_text(n)) == Some(n as u16),
        forall|i: int|
            0 <= i < hex_text(n).len() ==> hex_text(n)[i] != ':' && hex_text(n)[i] != '.',
    decreases n,
{
    let t = hex_text(n);
    if n < 16 {
        assert(t =~= seq![digit_char(n)]);
        assert(t.drop_last() =~= Seq::<char>::empty());
        assert(numeral_value(t.drop_last(), 16) == 0);
        assert(numeral_value(t, 16) == numeral_value(t.drop_last(), 16) * 16 + digit_value(
            t.last(),
        ));
        assert(is_hex_digit(t[0]));
    } else {
        let p = hex_text(n / 16);
        lemma_hex_text(n / 16);
        lemma_numeral_push(p, digit_char(n % 16), 16);
        assert(is_hex_digit(digit_char(n % 16)));
        assert forall|i: int| 0 <= i < t.len() implies is_hex_digit(#[trigger] t[i]) && t[i] != ':'
            && t[i] != '.' by {
            if i < p.len() {
                assert(t[i] == p[i]);
            }
        }
    }
    assert forall|i: int| 0 <= i < t.len() implies t[i] != ':' && t[i] != '.' by {
        assert(is_hex_digit(t[i]));
    }
}

/// The pieces of a text that ends with the separator and a piece free of
/// it: the pieces of what stands before, then that piece.
pub proof fn lemma_split_last(x: Seq<char>, c: char, t: Seq<char>)
    requires
        forall|i: int| 0 <= i < t.len() ==> t[i] != c,
    ensures
        split(x + seq![c] + t, c) == split(x, c).push(t),
    decreases x.len(),
{
    let s = x + seq![c] + t;
    lemma_first_index_bounds(x, c);
    let i = first_index(x, c);
    if i >= x.len() {
        lemma_split_first(x, c, t);
        lemma_split_whole(t, c);
        lemma_split_whole(x, c);
        assert(seq![x] + seq![t] =~= seq![x].push(t));
    } else {
        assert forall|j: int| 0 <= j < i implies s[j] != c by {
            assert(s[j] == x[j]);
        }
        assert(s[i] == x[i]);
        lemma_first_index(s, c, i);
        let rest = x.skip(i + 1);
        assert(s.take(i) =~= x.take(i));
        assert(s.skip(i + 1) =~= rest + seq![c] + t);
        lemma_split_last(rest, c, t);
        assert(split(s, c) == seq![x.take(i)].add(split(rest + seq![c] + t, c)));
        assert(split(x, c) == seq![x.take(i)].add(split(rest, c)));
        assert(seq![x.take(i)].add(split(rest, c).push(t)) =~= seq![x.take(i)].add(
            split(rest, c),
        ).push(t));
    }
}

/// The text is not empty, neither starts nor ends with a colon, holds no
/// two colons in a row, and holds no dot.
pub open spec fn plain(s: Seq<char>) -> bool {
    &&& s.len() >= 1
    &&& s[0] != ':'
    &&& s.last() != ':'
    &&& forall|j: int| 0 <= j && j + 1 < s.len() ==> !(#[trigger] s[j] == ':' && s[j + 1] == ':')
    &&& forall|j: int| 0 <= j < s.len() ==> s[j] != '.'
}

/// The hexadecimal numerals of the groups.
pub open spec fn hex_texts(g: Seq<u16>) -> Seq<Seq<char>> {
    g.map_values(|v: u16| hex_text(v as nat))
}

/// The groups joined by colons are a plain text whose pieces are the
/// numerals of the groups.
pub proof fn lemma_hex_join(g: Seq<u16>)
    requires
        g.len() >= 1,
    ensures
        plain(hex_join(g)),
        split(hex_join(g), ':') == hex_texts(g),
    decreases g.len(),
{
    let s = hex_join(g);
    let t = hex_text(g.last() as nat);
    lemma_hex_text(g.last() as nat);
    if g.len() == 1 {
        assert(s == t);
        lemma_split_whole(t, ':');
        assert(seq![t] =~= hex_texts(g));
    } else {
        let d = g.drop_last();
        let x = hex_join(d);
        lemma_hex_join(d);
        assert(s == x + seq![':'] + t);
        lemma_split_last(x, ':', t);
        assert(hex_texts(d).push(t) =~= hex_texts(g));
        assert(s[0] == x[0]);
        assert(s.last() == t.last());
        assert forall|j: int| 0 <= j && j + 1 < s.len() implies !(#[trigger] s[j] == ':' && s[j
            + 1] == ':') by {
            if j + 1 < x.len() {
                assert(s[j] == x[j] && s[j + 1] == x[j + 1]);
            } else if j + 1 == x.len() {
                assert(s[j] == x.last());
            } else if j == x.len() {
                assert(s[j + 1] == t[0]);
            } else {
                assert(s[j] == t[j - x.len() - 1]);
            }
        }
        assert forall|j: int| 0 <= j < s.len() implies s[j] != '.' by {
            if j < x.len() {
                assert(s[j] == x[j]);
            } else if j > x.len() {
                assert(s[j] == t[j - x.len() - 1]);
            }
        }
    }
}

/// What the groups joined by colons denote as one side of a `::`, or as a
/// whole address: the groups.
pub proof fn lemma_hex_join_value(g: Seq<u16>, v4_tail: bool)
    ensures
        side_value(hex_join(g), v4_tail) == Some(g),
        g.len() >= 1 ==> group_list_value(split(hex_join(g), ':'), v4_tail) == Some(g),
{
    if g.len() == 0 {
        assert(hex_join(g) =~= Seq::<char>::empty());
        assert(g =~= Seq::<u16>::empty());
    } else {
        lemma_hex_join(g);
        let p = hex_texts(g);
        assert forall|i: int| 0 <= i < p.len() implies hextet_text_value(#[trigger] p[i]) == Some(
            g[i],
        ) by {
            lemma_hex_text(g[i] as nat);
        }
        assert(hextets_valid(p));
        assert(hextets_of(p) =~= g);
        let last = p.last();
        lemma_hex_text(g.last() as nat);
        lemma_split_whole(last, '.');
        assert(ipv4_text_value(last) is None);
    }
}

/// A run of zero groups is made of zero groups and lies inside the list.
pub proof fn lemma_zero_run(g: Seq<u16>, i: int)
    requires
        0 <= i <= g.len(),
    ensures
        i + zero_run_at(g, i) <= g.len(),
        forall|j: int| i <= j < i + zero_run_at(g, i) ==> g[j] == 0,
    decreases g.len() - i,
{
    if i < g.len() && g[i] == 0 {
        lemma_zero_run(g, i + 1);
    }
}

/// The longest run of zero groups, where there is one, is made of zero
/// groups and lies inside the list.
pub proof fn lemma_longest_zero_run(g: Seq<u16>, i: int)
    requires
        0 <= i <= g.len(),
    ensures
        longest_zero_run(g, i).1 > 0 ==> i <= longest_zero_run(g, i).0 && longest_zero_run(g, i).0
            + longest_zero_run(g, i).1 <= g.len() && forall|j: int|
            longest_zero_run(g, i).0 <= j < longest_zero_run(g, i).0 + longest_zero_run(g, i).1
                ==> g[j] == 0,
    decreases g.len() - i,
{
    if i < g.len() {
        lemma_longest_zero_run(g, i + 1);
        lemma_zero_run(g, i);
    }
}

/// An address is made up of its eight groups.
pub proof fn lemma_segments_value(a: u128)
    ensures
        ipv6_segments(a).len() == 8,
        segments_value(ipv6_segments(a)) == a,
{
    assert(a / GROUP_0 < 65536 && (a / GROUP_0) * GROUP_0 + ((a / GROUP_1) % 65536) * GROUP_1 + ((a
        / GROUP_2) % 65536) * GROUP_2 + ((a / GROUP_3) % 65536) * GROUP_3 + ((a / GROUP_4) % 65536)
        * GROUP_4 + ((a / GROUP_5) % 65536) * GROUP_5 + ((a / GROUP_6) % 65536) * GROUP_6 + a
        % 65536 == a) by (bit_vector);
}

/// A text made of two sides and a `::` between them, each side empty or
/// plain, is cut at that `::`.
pub proof fn lemma_first_pair_between(h: Seq<char>, t: Seq<char>)
    requires
        h.len() == 0 || plain(h),
        t.len() == 0 || plain(t),
    ensures
        first_pair(h + seq![':', ':'] + t, ':') == h.len(),
        (h + seq![':', ':'] + t).take(h.len() as int) == h,
        (h + seq![':', ':'] + t).skip(h.len() as int + 2) == t,
{
    let s = h + seq![':', ':'] + t;
    let k = h.len() as int;
    assert(s[k] == ':');
    assert(s[k + 1] == ':');
    assert forall|j: int| 0 <= j < k && j + 1 < s.len() implies !(#[trigger] s[j] == ':' && s[j + 1]
        == ':') by {
        if j + 1 < k {
            assert(s[j] == h[j] && s[j + 1] == h[j + 1]);
        } else {
            assert(s[j] == h.last());
        }
    }
    lemma_first_pair(s, ':', k);
    assert(s.take(k) =~= h);
    assert(s.skip(k + 2) =~= t);
}

/// A plain text holds no `::`.
pub proof fn lemma_first_pair_none(s: Seq<char>)
    requires
        plain(s),
    ensures
        first_pair(s, ':') == s.len(),
{
    lemma_first_pair(s, ':', s.len() as int);
}

/// The dotted-decimal text of an address holds no colon.
pub proof fn lemma_ipv4_text_has_no_colon(v: u32)
    ensures
        forall|i: int| 0 <= i < ipv4_text(v).len() ==> ipv4_text(v)[i] != ':',
{
    let o = ipv4_octets(v);
    lemma_decimal_text(o.0);
    lemma_decimal_text(o.1);
    lemma_decimal_text(o.2);
    lemma_decimal_text(o.3);
    let d0 = decimal_text(o.0);
    let d1 = decimal_text(o.1);
    let d2 = decimal_text(o.2);
    let d3 = decimal_text(o.3);
    let s = ipv4_text(v);
    assert forall|i: int| 0 <= i < s.len() implies s[i] != ':' by {
        let n0 = d0.len() as int;
        let n1 = n0 + 1 + d1.len();
        let n2 = n1 + 1 + d2.len();
        if i < n0 {
            assert(s[i] == d0[i]);
            assert(is_digit(d0[i]));
        } else if i == n0 {
        } else if i < n1 {
            assert(s[i] == d1[i - n0 - 1]);
            assert(is_digit(d1[i - n0 - 1]));
        } else if i == n1 {
        } else if i < n2 {
            assert(s[i] == d2[i - n1 - 1]);
            assert(is_digit(d2[i - n1 - 1]));
        } else if i == n2 {
        } else {
            assert(s[i] == d3[i - n2 - 1]);
            assert(is_digit(d3[i - n2 - 1]));
        }
    }
}

/// The text of an address that maps an IPv4 address reads back as the
/// address.
proof fn lemma_mapped_round_trip(a: u128)
    requires
        is_ipv4_mapped(ipv6_segments(a)),
    ensures
        ipv6_text_value(ipv6_text(a)) == Some(a),
{
    reveal(ipv6_text_value);
    let g = ipv6_segments(a);
    lemma_segments_value(a);
    let v = (g[6] * 65536 + g[7]) as u32;
    let v4 = ipv4_text(v);
    let s = "::ffff:"@ + v4;
    reveal_strlit("::ffff:");
    assert(ipv6_text(a) == s);
    assert(s[0] == ':' && s[1] == ':');
    assert(first_pair(s, ':') == 0);
    assert(s.take(0) =~= Seq::<char>::empty());
    let f = seq!['f', 'f', 'f', 'f'];
    let tail = s.skip(2);
    assert(tail =~= f + seq![':'] + v4);
    lemma_ipv4_text_has_no_colon(v);
    lemma_split_first(f, ':', v4);
    lemma_split_whole(v4, ':');
    let p = split(tail, ':');
    assert(p =~= seq![f, v4]);
    lemma_ipv4_text_round_trip(v);
    lemma_hex_text(65535);
    reveal_with_fuel(hex_text, 5);
    assert(hex_text(65535) =~= f);
    assert(p.drop_last() =~= seq![f]);
    assert(hextets_valid(p.drop_last()));
    assert(hextets_of(p.drop_last()) =~= seq![65535u16]);
    let tg = seq![65535u16] + ipv4_groups(v);
    assert(group_list_value(p, true) == Some(tg));
    assert(v / 65536 == g[6] && v % 65536 == g[7]) by {
        let hi = g[6] as u32;
        let lo = g[7] as u32;
        assert(v / 65536 == hi && v % 65536 == lo) by (bit_vector)
            requires
                hi < 65536,
                lo < 65536,
                v == hi * 65536 + lo,
        ;
    }
    let all = Seq::<u16>::empty() + Seq::new(5, |i: int| 0u16) + tg;
    assert(all =~= g);
}

/// Reading the canonical text of an address yields the address.
pub proof fn lemma_ipv6_text_round_trip(a: u128)
    ensures
        ipv6_text_value(ipv6_text(a)) == Some(a),
{
    reveal(ipv6_text_value);
    let g = ipv6_segments(a);
    lemma_segments_value(a);
    let run = longest_zero_run(g, 0);
    if is_ipv4_mapped(g) {
        lemma_mapped_round_trip(a);
    } else if run.1 > 1 {
        lemma_longest_zero_run(g, 0);
        let hg = g.take(run.0);
        let tg = g.skip(run.0 + run.1);
        let h = hex_join(hg);
        let t = hex_join(tg);
        if hg.len() > 0 {
            lemma_hex_join(hg);
        } else {
            assert(h =~= Seq::<char>::empty());
        }
        if tg.len() > 0 {
            lemma_hex_join(tg);
        } else {
            assert(t =~= Seq::<char>::empty());
        }
        lemma_first_pair_between(h, t);
        lemma_hex_join_value(hg, false);
        lemma_hex_join_value(tg, true);
        let all = hg + Seq::new((8 - hg.len() - tg.len()) as nat, |i: int| 0u16) + tg;
        assert(all =~= g);
    } else {
        lemma_hex_join(g);
        lemma_first_pair_none(hex_join(g));
        lemma_hex_join_value(g, true);
    }
}

/// The groups joined by colons are made of address characters, at most
/// five for each group.
pub proof fn lemma_hex_join_chars(g: Seq<u16>)
    ensures
        address_chars(hex_join(g)),
        hex_join(g).len() <= 5 * g.len(),
    decreases g.len(),
{
    if g.len() == 0 {
    } else {
        lemma_hex_text(g.last() as nat);
        let t = hex_text(g.last() as nat);
        assert(address_chars(t)) by {
            assert forall|i: int| 0 <= i < t.len() implies is_hex_digit(#[trigger] t[i]) || t[i]
                == ':' || t[i] == '.' by {}
        }
        if g.len() > 1 {
            lemma_hex_join_chars(g.drop_last());
            let colon = seq![':'];
            assert(address_chars(colon));
            lemma_address_chars_concat(hex_join(g.drop_last()), colon);
            lemma_address_chars_concat(hex_join(g.drop_last()) + colon, t);
        }
    }
}

/// The canonical text of an address is made of address characters, at
/// most forty-five of them.
pub proof fn lemma_ipv6_text_chars(a: u128)
    ensures
        address_chars(ipv6_text(a)),
        ipv6_text(a).len() <= 45,
{
    let g = ipv6_segments(a);
    let run = longest_zero_run(g, 0);
    if is_ipv4_mapped(g) {
        let v = (g[6] * 65536 + g[7]) as u32;
        reveal_strlit("::ffff:");
        let head = "::ffff:"@;
        assert(address_chars(head)) by {
            assert forall|i: int| 0 <= i < head.len() implies is_hex_digit(#[trigger] head[i])
                || head[i] == ':' || head[i] == '.' by {}
        }
        lemma_ipv4_text_chars(v);
        lemma_address_chars_concat(head, ipv4_text(v));
    } else if run.1 > 1 {
        lemma_longest_zero_run(g, 0);
        let hg = g.take(run.0);
        let tg = g.skip(run.0 + run.1);
        lemma_hex_join_chars(hg);
        lemma_hex_join_chars(tg);
        let pair = seq![':', ':'];
        assert(address_chars(pair));
        lemma_address_chars_concat(hex_join(hg), pair);
        lemma_address_chars_concat(hex_join(hg) + pair, hex_join(tg));
    } else {
        lemma_hex_join_chars(g);
    }
}

/// The CIDR text of an address and a prefix length reads back as that
/// address and prefix length; so the `input` of a subnet denotes the subnet.
pub proof fn lemma_ipv6_cidr_round_trip(addr: u128, prefix: u8)
    requires
        prefix <= 128,
    ensures
        ipv6_cidr_value(ipv6_text(addr) + seq!['/'] + decimal_text(prefix as nat)) == Ok::<
            (u128, u8),
            ErrorView,
        >((addr, prefix)),
        ipv6_cidr_subnet(ipv6_subnet_of(addr, prefix).input) == Ok::<Ipv6SubnetView, ErrorView>(
            ipv6_subnet_of(addr, prefix),
        ),
{
    lemma_ipv6_text_chars(addr);
    lemma_ipv6_text_round_trip(addr);
    lemma_cidr_text_parts(ipv6_text(addr), prefix);
}

} // verus!
