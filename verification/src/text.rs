//! Characters, digits and numerals: the textual building blocks shared by the
//! address grammars and by everything that renders a number.

use vstd::prelude::*;
use vstd::string::*;

verus! {

/// The character that writes the digit `d` in bases up to sixteen, lower case.
pub open spec fn digit_char(d: nat) -> char {
    if d == 0 {
        '0'
    } else if d == 1 {
        '1'
    } else if d == 2 {
        '2'
    } else if d == 3 {
        '3'
    } else if d == 4 {
        '4'
    } else if d == 5 {
        '5'
    } else if d == 6 {
        '6'
    } else if d == 7 {
        '7'
    } else if d == 8 {
        '8'
    } else if d == 9 {
        '9'
    } else if d == 10 {
        'a'
    } else if d == 11 {
        'b'
    } else if d == 12 {
        'c'
    } else if d == 13 {
        'd'
    } else if d == 14 {
        'e'
    } else {
        'f'
    }
}

/// The decimal numeral of `n`, without sign or leading zeros.
pub open spec fn decimal_text(n: nat) -> Seq<char>
    decreases n,
{
    if n < 10 {
        seq![digit_char(n)]
    } else {
        decimal_text(n / 10).push(digit_char(n % 10))
    }
}

/// The lower-case hexadecimal numeral of `n`, without leading zeros.
pub open spec fn hex_text(n: nat) -> Seq<char>
    decreases n,
{
    if n < 16 {
        seq![digit_char(n)]
    } else {
        hex_text(n / 16).push(digit_char(n % 16))
    }
}

/// The four-digit lower-case hexadecimal numeral of a 16-bit value.
pub open spec fn hex4_text(v: u16) -> Seq<char> {
    seq![
        digit_char((v / 4096) as nat),
        digit_char(((v / 256) % 16) as nat),
        digit_char(((v / 16) % 16) as nat),
        digit_char((v % 16) as nat),
    ]
}

/// `c` is one of the ten decimal digits.
pub open spec fn is_digit(c: char) -> bool {
    '0' <= c && c <= '9'
}

/// `c` is a hexadecimal digit of either case.
pub open spec fn is_hex_digit(c: char) -> bool {
    is_digit(c) || ('a' <= c && c <= 'f') || ('A' <= c && c <= 'F')
}

/// The value of a decimal or hexadecimal digit.
pub open spec fn digit_value(c: char) -> nat {
    if is_digit(c) {
        (c as u32 - '0' as u32) as nat
    } else if 'a' <= c && c <= 'f' {
        (c as u32 - 'a' as u32 + 10) as nat
    } else if 'A' <= c && c <= 'F' {
        (c as u32 - 'A' as u32 + 10) as nat
    } else {
        0
    }
}

/// Every character of `s` is a decimal digit.
pub open spec fn all_digits(s: Seq<char>) -> bool {
    forall|i: int| 0 <= i < s.len() ==> is_digit(#[trigger] s[i])
}

/// Every character of `s` is a hexadecimal digit.
pub open spec fn all_hex_digits(s: Seq<char>) -> bool {
    forall|i: int| 0 <= i < s.len() ==> is_hex_digit(#[trigger] s[i])
}

/// The number that the digits of `s` write in the given base, most
/// significant digit first.
pub open spec fn numeral_value(s: Seq<char>, base: nat) -> nat
    decreases s.len(),
{
    if s.len() == 0 {
        0
    } else {
        numeral_value(s.drop_last(), base) * base + digit_value(s.last())
    }
}

/// What an unsigned 8-bit decimal numeral denotes: an optional `+`, then one
/// or more decimal digits whose value is at most 255.
pub open spec fn u8_text_value(s: Seq<char>) -> Option<u8> {
    let digits = if s.len() > 0 && s[0] == '+' {
        s.skip(1)
    } else {
        s
    };
    if digits.len() > 0 && all_digits(digits) && numeral_value(digits, 10) <= 255 {
        Some(numeral_value(digits, 10) as u8)
    } else {
        None
    }
}

/// What an unsigned decimal numeral of any length denotes: an optional `+`,
/// then one or more decimal digits.
pub open spec fn numeral_text_value(s: Seq<char>) -> Option<nat> {
    let digits = if s.len() > 0 && s[0] == '+' {
        s.skip(1)
    } else {
        s
    };
    if digits.len() > 0 && all_digits(digits) {
        Some(numeral_value(digits, 10))
    } else {
        None
    }
}

/// A number as eight bits can carry it: itself up to 255, and 255 for
/// every larger one.
pub open spec fn capped_u8(n: nat) -> u8 {
    if n > 255 {
        255u8
    } else {
        n as u8
    }
}

/// Index of the first `c` in `s`, or the length of `s` where there is none.
pub open spec fn first_index(s: Seq<char>, c: char) -> int
    decreases s.len(),
{
    if s.len() == 0 {
        0
    } else if s[0] == c {
        0
    } else {
        1 + first_index(s.skip(1), c)
    }
}

/// The pieces of `s` between occurrences of the separator `c`. A text without
/// separator is its own single piece; `n` separators give `n + 1` pieces, some
/// of which may be empty.
pub open spec fn split(s: Seq<char>, c: char) -> Seq<Seq<char>>
    decreases s.len(),
{
    let i = first_index(s, c);
    if 0 <= i < s.len() {
        seq![s.take(i)].add(split(s.skip(i + 1), c))
    } else {
        seq![s]
    }
}

/// Length of a text in bytes, as UTF-8 encodes it: what `len` returns for a
/// string that holds the text.
pub open spec fn byte_len(s: Seq<char>) -> usize {
    vstd::utf8::encode_utf8(s).len() as usize
}

/// The views of a list of strings.
pub open spec fn string_views(v: Seq<String>) -> Seq<Seq<char>> {
    v.map_values(|s: String| s@)
}

/// The views of a vector of character vectors.
pub open spec fn piece_views(pieces: Seq<Vec<char>>) -> Seq<Seq<char>> {
    pieces.map_values(|p: Vec<char>| p@)
}

/// `first_index` is the one position that holds `c` with no `c` before it.
pub proof fn lemma_first_index(s: Seq<char>, c: char, k: int)
    requires
        0 <= k <= s.len(),
        forall|j: int| 0 <= j < k ==> s[j] != c,
        k < s.len() ==> s[k] == c,
    ensures
        first_index(s, c) == k,
    decreases s.len(),
{
    if s.len() > 0 && s[0] != c {
        let t = s.skip(1);
        assert forall|j: int| 0 <= j < k - 1 implies t[j] != c by {
            assert(t[j] == s[j + 1]);
        }
        lemma_first_index(t, c, k - 1);
    }
}

/// Bounds of `first_index`, and what stands at and before it.
pub proof fn lemma_first_index_bounds(s: Seq<char>, c: char)
    ensures
        0 <= first_index(s, c) <= s.len(),
        forall|j: int| 0 <= j < first_index(s, c) ==> s[j] != c,
        first_index(s, c) < s.len() ==> s[first_index(s, c)] == c,
    decreases s.len(),
{
    if s.len() > 0 && s[0] != c {
        let t = s.skip(1);
        lemma_first_index_bounds(t, c);
        assert forall|j: int| 0 <= j < first_index(s, c) implies s[j] != c by {
            if j > 0 {
                assert(t[j - 1] == s[j]);
            }
        }
    }
}

/// Appending a digit multiplies the value by the base and adds the digit.
pub proof fn lemma_numeral_push(s: Seq<char>, c: char, base: nat)
    ensures
        numeral_value(s.push(c), base) == numeral_value(s, base) * base + digit_value(c),
{
    assert(s.push(c).drop_last() =~= s);
}

/// A numeral is worth at least as much as any of its prefixes.
pub proof fn lemma_numeral_prefix(s: Seq<char>, n: int, base: nat)
    requires
        0 <= n <= s.len(),
        base >= 1,
    ensures
        numeral_value(s.take(n), base) <= numeral_value(s, base),
    decreases s.len() - n,
{
    if n == s.len() {
        assert(s.take(n) =~= s);
    } else {
        lemma_numeral_prefix(s, n + 1, base);
        assert(s.take(n + 1) =~= s.take(n).push(s[n]));
        lemma_numeral_push(s.take(n), s[n], base);
        assert(numeral_value(s.take(n), base) <= numeral_value(s.take(n), base) * base)
            by (nonlinear_arith)
            requires
                base >= 1,
        ;
    }
}

/// Collects the characters of a string slice.
pub fn chars_of(s: &str) -> (v: Vec<char>)
    ensures
        v@ == s@,
{
    let mut v: Vec<char> = Vec::new();
    for c in it: s.chars()
        invariant
            v@ == it.seq().take(it.index@),
    {
        v.push(c);
    }
    v
}

/// The value of `c` as a decimal digit, if it is one.
pub fn decimal_digit(c: char) -> (r: Option<u8>)
    ensures
        r is Some <==> is_digit(c),
        r matches Some(d) ==> d == digit_value(c) && d < 10,
{
    if '0' <= c && c <= '9' {
        let d: u32 = (c as u32) - ('0' as u32);
        Some(d as u8)
    } else {
        None
    }
}

/// The value of `c` as a hexadecimal digit, if it is one.
pub fn hex_digit(c: char) -> (r: Option<u8>)
    ensures
        r is Some <==> is_hex_digit(c),
        r matches Some(d) ==> d == digit_value(c) && d < 16,
{
    if '0' <= c && c <= '9' {
        let d: u32 = (c as u32) - ('0' as u32);
        Some(d as u8)
    } else if 'a' <= c && c <= 'f' {
        let d: u32 = (c as u32) - ('a' as u32) + 10;
        Some(d as u8)
    } else if 'A' <= c && c <= 'F' {
        let d: u32 = (c as u32) - ('A' as u32) + 10;
        Some(d as u8)
    } else {
        None
    }
}

/// The one-character text of a digit below sixteen.
pub fn digit_str(d: u8) -> (r: &'static str)
    requires
        d < 16,
    ensures
        r@ == seq![digit_char(d as nat)],
{
    proof {
        reveal_strlit("0");
        reveal_strlit("1");
        reveal_strlit("2");
        reveal_strlit("3");
        reveal_strlit("4");
        reveal_strlit("5");
        reveal_strlit("6");
        reveal_strlit("7");
        reveal_strlit("8");
        reveal_strlit("9");
        reveal_strlit("a");
        reveal_strlit("b");
        reveal_strlit("c");
        reveal_strlit("d");
        reveal_strlit("e");
        reveal_strlit("f");
    }
    let r = if d == 0 {
        "0"
    } else if d == 1 {
        "1"
    } else if d == 2 {
        "2"
    } else if d == 3 {
        "3"
    } else if d == 4 {
        "4"
    } else if d == 5 {
        "5"
    } else if d == 6 {
        "6"
    } else if d == 7 {
        "7"
    } else if d == 8 {
        "8"
    } else if d == 9 {
        "9"
    } else if d == 10 {
        "a"
    } else if d == 11 {
        "b"
    } else if d == 12 {
        "c"
    } else if d == 13 {
        "d"
    } else if d == 14 {
        "e"
    } else {
        "f"
    };
    assert(r@ =~= seq![digit_char(d as nat)]);
    r
}

/// Appends the decimal numeral of `v`.
pub fn push_decimal(out: &mut String, v: u128)
    ensures
        final(out)@ == old(out)@ + decimal_text(v as nat),
    decreases v,
{
    if v >= 10 {
        push_decimal(out, v / 10);
    }
    out.append(digit_str((v % 10) as u8));
    assert(out@ =~= old(out)@ + decimal_text(v as nat));
}

/// Appends the hexadecimal numeral of `v`, lower case, without leading zeros.
pub fn push_hex(out: &mut String, v: u16)
    ensures
        final(out)@ == old(out)@ + hex_text(v as nat),
    decreases v,
{
    if v >= 16 {
        push_hex(out, v / 16);
    }
    out.append(digit_str((v % 16) as u8));
    assert(out@ =~= old(out)@ + hex_text(v as nat));
}

/// Appends the four hexadecimal digits of `v`, lower case.
pub fn push_hex4(out: &mut String, v: u16)
    ensures
        final(out)@ == old(out)@ + hex4_text(v),
{
    out.append(digit_str((v / 4096) as u8));
    out.append(digit_str(((v / 256) % 16) as u8));
    out.append(digit_str(((v / 16) % 16) as u8));
    out.append(digit_str((v % 16) as u8));
    assert(out@ =~= old(out)@ + hex4_text(v));
}

/// The decimal numeral of `v` as a string of its own.
pub fn decimal_string(v: u128) -> (r: String)
    ensures
        r@ == decimal_text(v as nat),
{
    let mut r = String::new();
    push_decimal(&mut r, v);
    assert(r@ =~= decimal_text(v as nat));
    r
}

/// Cuts `s` at every occurrence of `sep`.
pub fn split_chars(s: &Vec<char>, sep: char) -> (pieces: Vec<Vec<char>>)
    ensures
        piece_views(pieces@) == split(s@, sep),
{
    let mut pieces: Vec<Vec<char>> = Vec::new();
    let mut cur: Vec<char> = Vec::new();
    let mut start: usize = 0;
    let mut i: usize = 0;
    proof {
        assert(s@.skip(0) =~= s@);
        assert(piece_views(pieces@) + split(s@, sep) =~= split(s@, sep));
    }
    while i < s.len()
        invariant
            0 <= start <= i <= s.len(),
            cur@ == s@.subrange(start as int, i as int),
            forall|j: int| start <= j < i ==> s@[j] != sep,
            split(s@, sep) == piece_views(pieces@) + split(s@.skip(start as int), sep),
        decreases s.len() - i,
    {
        let c = s[i];
        if c == sep {
            proof {
                let t = s@.skip(start as int);
                lemma_first_index(t, sep, i - start);
                assert(t.take(i - start) =~= cur@);
                assert(t.skip(i - start + 1) =~= s@.skip(i + 1));
                assert(piece_views(pieces@.push(cur)) =~= piece_views(pieces@).push(cur@));
                assert(split(t, sep) == seq![cur@].add(split(s@.skip(i + 1), sep)));
                assert(piece_views(pieces@).push(cur@) + split(s@.skip(i + 1), sep)
                    =~= piece_views(pieces@) + split(t, sep));
            }
            pieces.push(cur);
            cur = Vec::new();
            start = i + 1;
        } else {
            cur.push(c);
        }
        i = i + 1;
        proof {
            assert(cur@ =~= s@.subrange(start as int, i as int));
        }
    }
    proof {
        let t = s@.skip(start as int);
        lemma_first_index(t, sep, t.len() as int);
        assert(t =~= cur@);
        assert(piece_views(pieces@.push(cur)) =~= piece_views(pieces@).push(cur@));
        assert(piece_views(pieces@).push(cur@) =~= piece_views(pieces@) + split(t, sep));
    }
    pieces.push(cur);
    pieces
}

/// Reads a run of digits in the given base, at most `max_len` of them, whose
/// value is at most `limit`.
pub fn parse_numeral(s: &Vec<char>, hex: bool, max_len: usize, limit: u32) -> (r: Option<u32>)
    requires
        limit <= 0xffff,
    ensures
        r is Some <==> (1 <= s@.len() <= max_len && (if hex {
            all_hex_digits(s@)
        } else {
            all_digits(s@)
        }) && numeral_value(s@, if hex { 16 } else { 10 }) <= limit),
        r matches Some(v) ==> v == numeral_value(s@, if hex { 16 } else { 10 }),
{
    let ghost base: nat = if hex { 16 } else { 10 };
    if s.len() == 0 || s.len() > max_len {
        return None;
    }
    let mut acc: u32 = 0;
    let mut i: usize = 0;
    while i < s.len()
        invariant
            0 <= i <= s.len(),
            limit <= 0xffff,
            base == (if hex { 16nat } else { 10nat }),
            acc == numeral_value(s@.take(i as int), base),
            acc <= limit,
            forall|j: int| 0 <= j < i ==> (if hex { is_hex_digit(#[trigger] s@[j]) } else { is_digit(s@[j]) }),
        decreases s.len() - i,
    {
        let d = if hex {
            hex_digit(s[i])
        } else {
            decimal_digit(s[i])
        };
        match d {
            None => {
                return None;
            },
            Some(d) => {
                proof {
                    assert(s@.take(i + 1) =~= s@.take(i as int).push(s@[i as int]));
                    lemma_numeral_push(s@.take(i as int), s@[i as int], base);
                    lemma_numeral_prefix(s@, i + 1, base);
                }
                let next: u32 = acc * (if hex { 16 } else { 10 }) + d as u32;
                if next > limit {
                    return None;
                }
                acc = next;
            },
        }
        i = i + 1;
    }
    proof {
        assert(s@.take(s@.len() as int) =~= s@);
    }
    Some(acc)
}

/// Reads an unsigned decimal numeral of any length, with an optional
/// leading `+`, and returns its value as far as eight bits carry it.
pub fn parse_capped_u8(s: &Vec<char>) -> (r: Option<u8>)
    ensures
        r == (match numeral_text_value(s@) {
            Some(n) => Some(capped_u8(n)),
            None => None,
        }),
{
    let from: usize = if s.len() > 0 && s[0] == '+' {
        1
    } else {
        0
    };
    if s.len() == from {
        return None;
    }
    let ghost digits = s@.skip(from as int);
    proof {
        assert(s@.skip(0) =~= s@);
    }
    let mut acc: u32 = 0;
    let mut i: usize = from;
    while i < s.len()
        invariant
            from <= i <= s.len(),
            digits == s@.skip(from as int),
            digits == (if s@.len() > 0 && s@[0] == '+' {
                s@.skip(1)
            } else {
                s@
            }),
            acc == capped_u8(numeral_value(digits.take(i - from), 10)),
            forall|j: int| 0 <= j < i - from ==> is_digit(#[trigger] digits[j]),
        decreases s.len() - i,
    {
        assert(digits[i - from] == s@[i as int]);
        match decimal_digit(s[i]) {
            None => {
                assert(!is_digit(digits[i - from]));
                assert(!all_digits(digits));
                return None;
            },
            Some(d) => {
                proof {
                    assert(digits.take(i - from + 1) =~= digits.take(i - from).push(
                        digits[i - from],
                    ));
                    lemma_numeral_push(digits.take(i - from), digits[i - from], 10);
                }
                let next: u32 = acc * 10 + d as u32;
                acc = if next > 255 {
                    255
                } else {
                    next
                };
            },
        }
        i = i + 1;
    }
    proof {
        assert(digits.take(digits.len() as int) =~= digits);
    }
    Some(acc as u8)
}

/// Reads an unsigned 8-bit decimal numeral with an optional leading `+`.
pub fn parse_u8(s: &Vec<char>) -> (r: Option<u8>)
    ensures
        r == u8_text_value(s@),
{
    let mut digits: Vec<char> = Vec::new();
    let from: usize = if s.len() > 0 && s[0] == '+' {
        1
    } else {
        0
    };
    let mut i: usize = from;
    while i < s.len()
        invariant
            from <= i <= s.len(),
            digits@ == s@.subrange(from as int, i as int),
        decreases s.len() - i,
    {
        digits.push(s[i]);
        i = i + 1;
        proof {
            assert(digits@ =~= s@.subrange(from as int, i as int));
        }
    }
    proof {
        assert(digits@ =~= s@.skip(from as int));
        assert(s@.skip(0) =~= s@);
    }
    let max_len = digits.len();
    match parse_numeral(&digits, false, max_len, 255) {
        Some(v) => Some(v as u8),
        None => None,
    }
}

/// `c` is white space as Unicode defines it: a character with the property
/// `White_Space`.
pub open spec fn is_whitespace(c: char) -> bool {
    let u = c as u32;
    (0x09 <= u <= 0x0d) || u == 0x20 || u == 0x85 || u == 0xa0 || u == 0x1680 || (0x2000 <= u
        <= 0x200a) || u == 0x2028 || u == 0x2029 || u == 0x202f || u == 0x205f || u == 0x3000
}

/// The text without its leading white space.
pub open spec fn trim_front(s: Seq<char>) -> Seq<char>
    decreases s.len(),
{
    if s.len() > 0 && is_whitespace(s[0]) {
        trim_front(s.skip(1))
    } else {
        s
    }
}

/// The text without its trailing white space.
pub open spec fn trim_back(s: Seq<char>) -> Seq<char>
    decreases s.len(),
{
    if s.len() > 0 && is_whitespace(s.last()) {
        trim_back(s.drop_last())
    } else {
        s
    }
}

/// The text without leading and trailing white space.
pub open spec fn trimmed(s: Seq<char>) -> Seq<char> {
    trim_back(trim_front(s))
}

/// Where the first `a` characters are white space and the next one is not,
/// trimming the front drops exactly those.
pub proof fn lemma_trim_front(s: Seq<char>, a: int)
    requires
        0 <= a <= s.len(),
        forall|j: int| 0 <= j < a ==> is_whitespace(s[j]),
        a < s.len() ==> !is_whitespace(s[a]),
    ensures
        trim_front(s) == s.skip(a),
    decreases a,
{
    if a == 0 {
        assert(s.skip(0) =~= s);
    } else {
        let t = s.skip(1);
        assert forall|j: int| 0 <= j < a - 1 implies is_whitespace(t[j]) by {
            assert(t[j] == s[j + 1]);
        }
        lemma_trim_front(t, a - 1);
        assert(t.skip(a - 1) =~= s.skip(a));
    }
}

/// Where the characters from `b` on are white space and the one before is
/// not, trimming the back keeps exactly the first `b`.
pub proof fn lemma_trim_back(s: Seq<char>, b: int)
    requires
        0 <= b <= s.len(),
        forall|j: int| b <= j < s.len() ==> is_whitespace(s[j]),
        b > 0 ==> !is_whitespace(s[b - 1]),
    ensures
        trim_back(s) == s.take(b),
    decreases s.len() - b,
{
    if b == s.len() {
        assert(s.take(b) =~= s);
    } else {
        let t = s.drop_last();
        assert forall|j: int| b <= j < t.len() implies is_whitespace(t[j]) by {
            assert(t[j] == s[j]);
        }
        lemma_trim_back(t, b);
        assert(t.take(b) =~= s.take(b));
    }
}

/// Tells whether `c` is white space.
pub fn whitespace(c: char) -> (r: bool)
    ensures
        r == is_whitespace(c),
{
    let u = c as u32;
    (0x09 <= u && u <= 0x0d) || u == 0x20 || u == 0x85 || u == 0xa0 || u == 0x1680 || (0x2000 <= u
        && u <= 0x200a) || u == 0x2028 || u == 0x2029 || u == 0x202f || u == 0x205f || u == 0x3000
}

/// Copies a text without its leading and trailing white space.
pub fn trim_string(s: &str) -> (r: String)
    ensures
        r@ == trimmed(s@),
{
    let chars = chars_of(s);
    let mut start: usize = 0;
    while start < chars.len() && whitespace(chars[start])
        invariant
            0 <= start <= chars.len(),
            forall|j: int| 0 <= j < start ==> is_whitespace(chars@[j]),
        decreases chars.len() - start,
    {
        start = start + 1;
    }
    let mut end: usize = chars.len();
    while end > start && whitespace(chars[end - 1])
        invariant
            start <= end <= chars.len(),
            forall|j: int| end <= j < chars@.len() ==> is_whitespace(chars@[j]),
        decreases end - start,
    {
        end = end - 1;
    }
    proof {
        lemma_trim_front(s@, start as int);
        let t = s@.skip(start as int);
        assert forall|j: int| end - start <= j < t.len() implies is_whitespace(t[j]) by {
            assert(t[j] == s@[j + start]);
        }
        if end > start {
            assert(t[end - start - 1] == s@[end - 1]);
        }
        lemma_trim_back(t, end - start);
        assert(t.take(end - start) =~= s@.subrange(start as int, end as int));
    }
    s.substring_char(start, end).to_owned()
}

/// Tells whether two texts are the same.
pub fn text_equals(a: &str, b: &str) -> (r: bool)
    ensures
        r == (a@ == b@),
{
    a.to_owned() == b.to_owned()
}

/// What `str::to_lowercase` makes of a text.
pub uninterp spec fn lowercase_text(s: Seq<char>) -> Seq<char>;

/// Calls `str::to_lowercase` of the standard library, which returns the
/// text with every character replaced by its Unicode lower-case mapping.
/// The mapping is too long to state here; the contract gives the result a
/// name and claims only that it depends on the text alone.
#[verifier::external_body]
pub(crate) fn to_lowercase(s: &str) -> (r: String)
    ensures
        r@ == lowercase_text(s@),
{
    s.to_lowercase()
}

/// Calls `String::push` of the standard library, which appends one
/// character to the string.
#[verifier::external_body]
pub(crate) fn push_char(s: &mut String, c: char)
    ensures
        final(s)@ == old(s)@.push(c),
{
    s.push(c)
}

/// Drops the last character of a string, if it has one.
pub fn drop_last_char(s: &mut String)
    ensures
        final(s)@ == (if old(s)@.len() == 0 {
            old(s)@
        } else {
            old(s)@.drop_last()
        }),
{
    let n = s.as_str().unicode_len();
    if n > 0 {
        let shorter = s.as_str().substring_char(0, n - 1).to_owned();
        proof {
            assert(shorter@ =~= s@.drop_last());
        }
        *s = shorter;
    }
}

/// What an unsigned 64-bit decimal numeral denotes: an optional `+`, then
/// one or more decimal digits whose value fits in 64 bits.
pub open spec fn u64_text_value(s: Seq<char>) -> Option<u64> {
    let digits = if s.len() > 0 && s[0] == '+' {
        s.skip(1)
    } else {
        s
    };
    if digits.len() > 0 && all_digits(digits) && numeral_value(digits, 10) <= u64::MAX {
        Some(numeral_value(digits, 10) as u64)
    } else {
        None
    }
}

/// Reads an unsigned 64-bit decimal numeral with an optional leading `+`.
pub fn parse_u64(s: &Vec<char>) -> (r: Option<u64>)
    ensures
        r == u64_text_value(s@),
{
    let from: usize = if s.len() > 0 && s[0] == '+' {
        1
    } else {
        0
    };
    if s.len() == from {
        return None;
    }
    let ghost digits = s@.skip(from as int);
    proof {
        assert(s@.skip(0) =~= s@);
    }
    let mut acc: u128 = 0;
    let mut i: usize = from;
    while i < s.len()
        invariant
            from <= i <= s.len(),
            digits == s@.skip(from as int),
            digits == (if s@.len() > 0 && s@[0] == '+' {
                s@.skip(1)
            } else {
                s@
            }),
            acc == numeral_value(digits.take(i - from), 10),
            acc <= u64::MAX,
            forall|j: int| 0 <= j < i - from ==> is_digit(#[trigger] digits[j]),
        decreases s.len() - i,
    {
        assert(digits[i - from] == s@[i as int]);
        match decimal_digit(s[i]) {
            None => {
                assert(!is_digit(digits[i - from]));
                assert(!all_digits(digits));
                return None;
            },
            Some(d) => {
                proof {
                    assert(digits.take(i - from + 1) =~= digits.take(i - from).push(
                        digits[i - from],
                    ));
                    lemma_numeral_push(digits.take(i - from), digits[i - from], 10);
                    lemma_numeral_prefix(digits, i - from + 1, 10);
                }
                let next: u128 = acc * 10 + d as u128;
                if next > 0xffff_ffff_ffff_ffff {
                    return None;
                }
                acc = next;
            },
        }
        i = i + 1;
    }
    proof {
        assert(digits.take(digits.len() as int) =~= digits);
    }
    Some(acc as u64)
}

/// A piece of a list is kept as an item: its trimmed text is not empty
/// and, where comments are skipped, does not start with `#`.
pub open spec fn is_item(piece: Seq<char>, skip_comments: bool) -> bool {
    trimmed(piece).len() > 0 && !(skip_comments && trimmed(piece)[0] == '#')
}

/// The items among the pieces of a list: the pieces trimmed, without those
/// that are empty then and, where comments are skipped, without those that
/// start with `#`.
pub open spec fn list_items(pieces: Seq<Seq<char>>, skip_comments: bool) -> Seq<Seq<char>>
    decreases pieces.len(),
{
    if pieces.len() == 0 {
        Seq::empty()
    } else if is_item(pieces.last(), skip_comments) {
        list_items(pieces.drop_last(), skip_comments).push(trimmed(pieces.last()))
    } else {
        list_items(pieces.drop_last(), skip_comments)
    }
}

/// Trims one piece of a list and appends it to the items if it is one.
fn push_item(items: &mut Vec<String>, piece: &str, skip_comments: bool)
    ensures
        string_views(final(items)@) == (if is_item(piece@, skip_comments) {
            string_views(old(items)@).push(trimmed(piece@))
        } else {
            string_views(old(items)@)
        }),
{
    let item = trim_string(piece);
    let n = item.as_str().unicode_len();
    let ghost before = string_views(items@);
    if n > 0 && !(skip_comments && item.as_str().get_char(0) == '#') {
        items.push(item);
        proof {
            assert(string_views(items@) =~= before.push(trimmed(piece@)));
        }
    }
}

/// Cuts a text at every `sep` and returns the items among the pieces.
pub fn split_items(text: &str, sep: char, skip_comments: bool) -> (items: Vec<String>)
    ensures
        string_views(items@) == list_items(split(text@, sep), skip_comments),
{
    let chars = chars_of(text);
    let ghost pieces = split(text@, sep);
    let mut items: Vec<String> = Vec::new();
    let mut start: usize = 0;
    let mut i: usize = 0;
    let ghost mut done: Seq<Seq<char>> = Seq::empty();
    proof {
        assert(text@.skip(0) =~= text@);
        assert(done + split(text@, sep) =~= pieces);
        assert(string_views(items@) =~= list_items(done, skip_comments));
    }
    while i < chars.len()
        invariant
            0 <= start <= i <= chars.len(),
            chars@ == text@,
            forall|j: int| start <= j < i ==> chars@[j] != sep,
            pieces == done + split(text@.skip(start as int), sep),
            string_views(items@) == list_items(done, skip_comments),
        decreases chars.len() - i,
    {
        if chars[i] == sep {
            let piece = text.substring_char(start, i);
            proof {
                let t = text@.skip(start as int);
                lemma_first_index(t, sep, i - start);
                assert(t.take(i - start) =~= piece@);
                assert(t.skip(i - start + 1) =~= text@.skip(i + 1));
                assert(split(t, sep) == seq![piece@].add(split(text@.skip(i + 1), sep)));
                assert(done.push(piece@) + split(text@.skip(i + 1), sep) =~= done + split(t, sep));
                assert(done.push(piece@).drop_last() =~= done);
            }
            push_item(&mut items, piece, skip_comments);
            proof {
                done = done.push(piece@);
            }
            start = i + 1;
        }
        i = i + 1;
    }
    let piece = text.substring_char(start, chars.len());
    proof {
        let t = text@.skip(start as int);
        lemma_first_index(t, sep, t.len() as int);
        assert(t =~= piece@);
        assert(done.push(piece@) =~= pieces);
        assert(done.push(piece@).drop_last() =~= done);
    }
    push_item(&mut items, piece, skip_comments);
    items
}

/// Cuts a comma-separated list into its items.
pub fn split_list(text: &str) -> (items: Vec<String>)
    ensures
        string_views(items@) == list_items(split(text@, ','), false),
{
    split_items(text, ',', false)
}

/// Cuts an input text into the items of its lines. Empty lines and lines
/// that start with `#` are left out.
pub fn input_lines(text: &str) -> (items: Vec<String>)
    ensures
        string_views(items@) == list_items(split(text@, '\n'), true),
{
    split_items(text, '\n', true)
}

/// The decimal numeral of a number is made of digits, has no leading zero
/// unless the number is below ten, has as many digits as the number needs,
/// and is worth the number.
pub proof fn lemma_decimal_text(n: nat)
    ensures
        decimal_text(n).len() >= 1,
        all_digits(decimal_text(n)),
        numeral_value(decimal_text(n), 10) == n,
        n >= 10 ==> decimal_text(n)[0] != '0',
        n < 10 ==> decimal_text(n).len() == 1,
        n < 100 ==> decimal_text(n).len() <= 2,
        n < 1000 ==> decimal_text(n).len() <= 3,
    decreases n,
{
    let t = decimal_text(n);
    if n < 10 {
        assert(t =~= seq![digit_char(n)]);
        assert(t.drop_last() =~= Seq::<char>::empty());
        assert(numeral_value(t, 10) == numeral_value(t.drop_last(), 10) * 10 + digit_value(
            t.last(),
        ));
    } else {
        let p = decimal_text(n / 10);
        lemma_decimal_text(n / 10);
        lemma_numeral_push(p, digit_char(n % 10), 10);
        assert(t[0] == p[0]);
        assert forall|i: int| 0 <= i < t.len() implies is_digit(#[trigger] t[i]) by {
            if i < p.len() {
                assert(t[i] == p[i]);
            }
        }
    }
}

/// A numeral without a leading zero is the decimal numeral of its value.
pub proof fn lemma_canonical_numeral(t: Seq<char>)
    requires
        t.len() >= 1,
        all_digits(t),
        t.len() == 1 || t[0] != '0',
    ensures
        t == decimal_text(numeral_value(t, 10)),
        t.len() > 1 ==> numeral_value(t, 10) >= 10,
        t[0] != '0' ==> numeral_value(t, 10) >= 1,
    decreases t.len(),
{
    let c = t.last();
    let p = t.drop_last();
    assert(is_digit(t[t.len() - 1]));
    assert(t =~= p.push(c));
    if t.len() == 1 {
        assert(p =~= Seq::<char>::empty());
        assert(numeral_value(p, 10) == 0);
        assert(numeral_value(t, 10) == numeral_value(p, 10) * 10 + digit_value(c));
        assert(numeral_value(t, 10) == digit_value(c));
        assert(decimal_text(digit_value(c)) =~= seq![digit_char(digit_value(c))]);
        assert(digit_char(digit_value(c)) == c);
    } else {
        assert forall|i: int| 0 <= i < p.len() implies is_digit(#[trigger] p[i]) by {
            assert(p[i] == t[i]);
        }
        assert(p[0] == t[0]);
        lemma_canonical_numeral(p);
        let n = numeral_value(t, 10);
        assert(n == numeral_value(p, 10) * 10 + digit_value(c));
        assert(n / 10 == numeral_value(p, 10));
        assert(n % 10 == digit_value(c));
        assert(digit_char(digit_value(c)) == c);
    }
}

/// A text without the separator is its own single piece.
pub proof fn lemma_split_whole(t: Seq<char>, c: char)
    requires
        forall|i: int| 0 <= i < t.len() ==> t[i] != c,
    ensures
        split(t, c) == seq![t],
{
    lemma_first_index(t, c, t.len() as int);
}

/// The pieces of a text that starts with a piece free of the separator,
/// then the separator: that piece, then the pieces of the rest.
pub proof fn lemma_split_first(t: Seq<char>, c: char, rest: Seq<char>)
    requires
        forall|i: int| 0 <= i < t.len() ==> t[i] != c,
    ensures
        split(t + seq![c] + rest, c) == seq![t] + split(rest, c),
{
    let s = t + seq![c] + rest;
    assert forall|j: int| 0 <= j < t.len() implies s[j] != c by {
        assert(s[j] == t[j]);
    }
    assert(s[t.len() as int] == c);
    lemma_first_index(s, c, t.len() as int);
    assert(s.take(t.len() as int) =~= t);
    assert(s.skip(t.len() as int + 1) =~= rest);
}

/// A text is its first piece, then, where there is a separator, the
/// separator and the text behind it, whose pieces are the other pieces.
pub proof fn lemma_split_parts(s: Seq<char>, c: char)
    ensures
        split(s, c).len() >= 1,
        forall|i: int| 0 <= i < split(s, c)[0].len() ==> split(s, c)[0][i] != c,
        split(s, c).len() == 1 ==> s == split(s, c)[0],
        split(s, c).len() > 1 ==> s == split(s, c)[0] + seq![c] + s.skip(
            split(s, c)[0].len() as int + 1,
        ) && split(s.skip(split(s, c)[0].len() as int + 1), c) == split(s, c).skip(1),
{
    lemma_first_index_bounds(s, c);
    let i = first_index(s, c);
    if i < s.len() {
        let rest = s.skip(i + 1);
        assert(split(s, c) =~= seq![s.take(i)].add(split(rest, c)));
        assert(split(s, c).skip(1) =~= split(rest, c));
        assert(s =~= s.take(i) + seq![c] + rest);
        lemma_split_nonempty(rest, c);
    } else {
        assert(split(s, c) =~= seq![s]);
    }
}

/// Every text has at least one piece.
pub proof fn lemma_split_nonempty(s: Seq<char>, c: char)
    ensures
        split(s, c).len() >= 1,
{
    lemma_first_index_bounds(s, c);
}

/// Every character of the text is a hexadecimal digit, a colon or a dot:
/// the characters that addresses are written with.
pub open spec fn address_chars(s: Seq<char>) -> bool {
    forall|i: int| 0 <= i < s.len() ==> is_hex_digit(#[trigger] s[i]) || s[i] == ':' || s[i] == '.'
}

/// Two texts of address characters make one.
pub proof fn lemma_address_chars_concat(a: Seq<char>, b: Seq<char>)
    requires
        address_chars(a),
        address_chars(b),
    ensures
        address_chars(a + b),
{
    let s = a + b;
    assert forall|i: int| 0 <= i < s.len() implies is_hex_digit(#[trigger] s[i]) || s[i] == ':'
        || s[i] == '.' by {
        if i < a.len() {
            assert(s[i] == a[i]);
        } else {
            assert(s[i] == b[i - a.len()]);
        }
    }
}

/// A decimal numeral is made of address characters.
pub proof fn lemma_decimal_address_chars(n: nat)
    ensures
        address_chars(decimal_text(n)),
{
    lemma_decimal_text(n);
    let t = decimal_text(n);
    assert forall|i: int| 0 <= i < t.len() implies is_hex_digit(#[trigger] t[i]) || t[i] == ':'
        || t[i] == '.' by {
        assert(is_digit(t[i]));
    }
}

/// An address text, a slash and the decimal numeral of a prefix length are
/// cut at the slash, take as many bytes as characters, and have the prefix
/// length as the value of what follows the slash.
pub proof fn lemma_cidr_text_parts(address: Seq<char>, prefix: u8)
    requires
        address_chars(address),
        address.len() <= 250,
    ensures
        first_index(address + seq!['/'] + decimal_text(prefix as nat), '/') == address.len(),
        (address + seq!['/'] + decimal_text(prefix as nat)).take(address.len() as int) == address,
        (address + seq!['/'] + decimal_text(prefix as nat)).skip(address.len() as int + 1)
            == decimal_text(prefix as nat),
        byte_len(address + seq!['/'] + decimal_text(prefix as nat)) <= 254,
        numeral_text_value(decimal_text(prefix as nat)) == Some(prefix as nat),
{
    let d = decimal_text(prefix as nat);
    let s = address + seq!['/'] + d;
    let n = address.len() as int;
    lemma_decimal_text(prefix as nat);
    assert forall|j: int| 0 <= j < n implies s[j] != '/' by {
        assert(s[j] == address[j]);
    }
    assert(s[n] == '/');
    lemma_first_index(s, '/', n);
    assert(s.take(n) =~= address);
    assert(s.skip(n + 1) =~= d);
    assert forall|i: int| 0 <= i < s.len() implies '\0' <= #[trigger] s[i] <= '\u{7f}' by {
        if i < n {
            assert(s[i] == address[i]);
        } else if i > n {
            assert(s[i] == d[i - n - 1]);
            assert(is_digit(d[i - n - 1]));
        }
    }
    vstd::utf8::is_ascii_chars_encode_utf8(s);
    assert(is_digit(d[0]));
    assert(d.skip(0) =~= d);
}

/// Position of the first `sep` in `s`, or the length of `s`.
pub fn find_char(s: &Vec<char>, sep: char) -> (i: usize)
    ensures
        i == first_index(s@, sep),
        i <= s.len(),
{
    let mut i: usize = 0;
    while i < s.len() && s[i] != sep
        invariant
            0 <= i <= s.len(),
            forall|j: int| 0 <= j < i ==> s@[j] != sep,
        decreases s.len() - i,
    {
        i = i + 1;
    }
    proof {
        lemma_first_index(s@, sep, i as int);
    }
    i
}

/// Copies the characters of `s` from `from` up to `to`.
pub fn slice_chars(s: &Vec<char>, from: usize, to: usize) -> (r: Vec<char>)
    requires
        from <= to <= s.len(),
    ensures
        r@ == s@.subrange(from as int, to as int),
{
    let mut r: Vec<char> = Vec::new();
    let mut i: usize = from;
    while i < to
        invariant
            from <= i <= to <= s.len(),
            r@ == s@.subrange(from as int, i as int),
        decreases to - i,
    {
        r.push(s[i]);
        i = i + 1;
        proof {
            assert(r@ =~= s@.subrange(from as int, i as int));
        }
    }
    r
}

/// Longest CIDR text, in bytes, that is looked at.
pub const MAX_INPUT_LENGTH: usize = 256;

} // verus!
