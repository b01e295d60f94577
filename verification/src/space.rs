//! The two address spaces and their prefix arithmetic.
//!
//! An address is an unsigned integer of width 32 (IPv4) or 128 (IPv6). A
//! prefix of length `p` in a space of width `w` leaves `k = w - p` host bits
//! and names the block of `2^k` consecutive addresses that starts at a
//! multiple of `2^k`. Executable code computes with masks and shifts; the
//! lemmas of this module tie those to plain arithmetic on `2^k`.

use vstd::prelude::*;
use vstd::arithmetic::power2::*;
use vstd::arithmetic::div_mod::*;
use vstd::arithmetic::mul::*;
use vstd::bits::*;

verus! {

/// First address of the block with `k` host bits that holds `a`.
pub open spec fn block_base(a: nat, k: nat) -> nat {
    (a / pow2(k)) * pow2(k)
}

/// Last address of the block with `k` host bits that holds `a`.
pub open spec fn block_last(a: nat, k: nat) -> nat {
    (block_base(a, k) + pow2(k) - 1) as nat
}

/// `base` is the first address of some block with `k` host bits.
pub open spec fn aligned(base: nat, k: nat) -> bool {
    base % pow2(k) == 0
}

/// `a` lies in the block of `k` host bits that starts at `base`.
pub open spec fn in_block(base: nat, k: nat, a: nat) -> bool {
    base <= a < base + pow2(k)
}

/// The IPv4 network mask of a prefix length: `prefix` one-bits, then zeros.
pub open spec fn mask_v4(prefix: u8) -> u32 {
    if prefix == 0 {
        0u32
    } else {
        !0u32 << ((32 - prefix) as u32)
    }
}

/// The IPv6 network mask of a prefix length: `prefix` one-bits, then zeros.
pub open spec fn mask_v6(prefix: u8) -> u128 {
    if prefix == 0 {
        0u128
    } else {
        !0u128 << ((128 - prefix) as u128)
    }
}

/// Computes the IPv4 network mask for `prefix`.
pub fn ipv4_mask(prefix: u8) -> (m: u32)
    requires
        prefix <= 32,
    ensures
        m == mask_v4(prefix),
        m == pow2(32) - pow2((32 - prefix) as nat),
{
    proof {
        lemma_mask_v4(prefix);
    }
    if prefix == 0 {
        0
    } else {
        !0u32 << ((32 - prefix) as u32)
    }
}

/// Computes the IPv6 network mask for `prefix`.
pub fn ipv6_mask(prefix: u8) -> (m: u128)
    requires
        prefix <= 128,
    ensures
        m == mask_v6(prefix),
        m == pow2(128) - pow2((128 - prefix) as nat),
{
    proof {
        lemma_mask_v6(prefix);
    }
    if prefix == 0 {
        0
    } else {
        !0u128 << ((128 - prefix) as u128)
    }
}

/// `2^32` and `2^128` as numbers.
pub proof fn lemma_pow2_widths()
    ensures
        pow2(32) == 0x1_0000_0000,
        pow2(64) == 0x1_0000_0000_0000_0000,
        pow2(128) == 0x1_0000_0000_0000_0000_0000_0000_0000_0000,
{
    lemma2_to64();
    lemma_pow2_adds(64, 64);
}

/// Powers of two grow with the exponent.
pub proof fn lemma_pow2_le(a: nat, b: nat)
    requires
        a <= b,
    ensures
        0 < pow2(a) <= pow2(b),
{
    lemma_pow2_pos(a);
    if a < b {
        lemma_pow2_strictly_increases(a, b);
    }
}

/// A left shift of a 128-bit value multiplies by a power of two, as long as
/// the product fits.
pub proof fn lemma_u128_shl_is_mul(x: u128, shift: u128)
    requires
        shift < 128,
        x * pow2(shift as nat) <= u128::MAX,
    ensures
        x << shift == x * pow2(shift as nat),
    decreases shift,
{
    if shift == 0 {
        assert(x << 0u128 == x) by (bit_vector);
        lemma2_to64();
    } else {
        let prev = (shift - 1) as u128;
        lemma_pow2_unfold(shift as nat);
        lemma_pow2_pos(prev as nat);
        assert(x * pow2(shift as nat) == 2 * (x * pow2(prev as nat))) by (nonlinear_arith)
            requires
                pow2(shift as nat) == 2 * pow2(prev as nat),
        ;
        lemma_u128_shl_is_mul(x, prev);
        let y = x << prev;
        assert(x << shift == (x << prev) << 1u128) by (bit_vector)
            requires
                0 < shift < 128,
                prev == shift - 1,
        ;
        assert(y << 1u128 == y * 2) by (bit_vector)
            requires
                y <= 0x7fff_ffff_ffff_ffff_ffff_ffff_ffff_ffffu128,
        ;
    }
}

/// The value of the IPv4 mask and of its complement, the wildcard mask.
pub proof fn lemma_mask_v4(prefix: u8)
    requires
        prefix <= 32,
    ensures
        mask_v4(prefix) == pow2(32) - pow2((32 - prefix) as nat),
        !mask_v4(prefix) == pow2((32 - prefix) as nat) - 1,
{
    lemma_pow2_widths();
    if prefix == 0 {
        assert(!0u32 == 0xffff_ffffu32) by (bit_vector);
    } else {
        let k = (32 - prefix) as u32;
        lemma_u32_pow2_no_overflow(k as nat);
        lemma_u32_shl_is_mul(1u32, k);
        let one = 1u32 << k;
        assert(!0u32 << k == 0x1_0000_0000 - (1u32 << k)) by (bit_vector)
            requires
                k < 32,
        ;
        assert(!(!0u32 << k) == (1u32 << k) - 1) by (bit_vector)
            requires
                k < 32,
        ;
    }
}

/// The value of the IPv6 mask and of its complement.
pub proof fn lemma_mask_v6(prefix: u8)
    requires
        prefix <= 128,
    ensures
        mask_v6(prefix) == pow2(128) - pow2((128 - prefix) as nat),
        !mask_v6(prefix) == pow2((128 - prefix) as nat) - 1,
{
    lemma_pow2_widths();
    if prefix == 0 {
        assert(!0u128 == 0xffff_ffff_ffff_ffff_ffff_ffff_ffff_ffffu128) by (bit_vector);
    } else {
        let k = (128 - prefix) as u128;
        lemma_pow2_strictly_increases(k as nat, 128);
        lemma_u128_shl_is_mul(1u128, k);
        assert(!0u128 << k == 0x1_0000_0000_0000_0000_0000_0000_0000_0000 - (1u128 << k))
            by (bit_vector)
            requires
                k < 128,
        ;
        assert(!(!0u128 << k) == (1u128 << k) - 1) by (bit_vector)
            requires
                k < 128,
        ;
    }
}

/// Masking an IPv4 address yields the base of its block, and setting the
/// wildcard bits of that base yields the block's last address.
pub proof fn lemma_network_v4(addr: u32, prefix: u8)
    requires
        prefix <= 32,
    ensures
        addr & mask_v4(prefix) == block_base(addr as nat, (32 - prefix) as nat),
        (addr & mask_v4(prefix)) | !mask_v4(prefix) == block_last(
            addr as nat,
            (32 - prefix) as nat,
        ),
        block_base(addr as nat, (32 - prefix) as nat) <= addr <= block_last(
            addr as nat,
            (32 - prefix) as nat,
        ) < pow2(32),
{
    let kk = (32 - prefix) as nat;
    lemma_pow2_widths();
    lemma_pow2_pos(kk);
    lemma_mask_v4(prefix);
    lemma_fundamental_div_mod(addr as int, pow2(kk) as int);
    lemma_mod_bound(addr as int, pow2(kk) as int);
    lemma_mul_is_commutative((addr as int) / (pow2(kk) as int), pow2(kk) as int);
    if prefix == 0 {
        lemma_basic_div(addr as int, pow2(32) as int);
        assert(addr & 0u32 == 0u32) by (bit_vector);
        assert(0u32 | !0u32 == 0xffff_ffffu32) by (bit_vector);
    } else {
        let k = (32 - prefix) as u32;
        let q = addr >> k;
        lemma_u32_shr_is_div(addr, k);
        lemma_u32_shl_is_mul(q, k);
        assert(addr & (!0u32 << k) == (addr >> k) << k) by (bit_vector)
            requires
                k < 32,
        ;
        let n = q << k;
        let w = !(!0u32 << k);
        assert(((addr >> k) << k) | !(!0u32 << k) == ((addr >> k) << k) + !(!0u32 << k))
            by (bit_vector)
            requires
                k < 32,
        ;
    }
}

/// Masking an IPv6 address yields the base of its block, and setting the
/// complement bits of that base yields the block's last address.
pub proof fn lemma_network_v6(addr: u128, prefix: u8)
    requires
        prefix <= 128,
    ensures
        addr & mask_v6(prefix) == block_base(addr as nat, (128 - prefix) as nat),
        (addr & mask_v6(prefix)) | !mask_v6(prefix) == block_last(
            addr as nat,
            (128 - prefix) as nat,
        ),
        block_base(addr as nat, (128 - prefix) as nat) <= addr <= block_last(
            addr as nat,
            (128 - prefix) as nat,
        ) < pow2(128),
{
    let kk = (128 - prefix) as nat;
    lemma_pow2_widths();
    lemma_pow2_pos(kk);
    lemma_mask_v6(prefix);
    lemma_fundamental_div_mod(addr as int, pow2(kk) as int);
    lemma_mod_bound(addr as int, pow2(kk) as int);
    lemma_mul_is_commutative((addr as int) / (pow2(kk) as int), pow2(kk) as int);
    if prefix == 0 {
        lemma_basic_div(addr as int, pow2(128) as int);
        assert(addr & 0u128 == 0u128) by (bit_vector);
        assert(0u128 | !0u128 == 0xffff_ffff_ffff_ffff_ffff_ffff_ffff_ffffu128) by (bit_vector);
    } else {
        let k = (128 - prefix) as u128;
        let q = addr >> k;
        lemma_u128_shr_is_div(addr, k);
        lemma_u128_shl_is_mul(q, k);
        assert(addr & (!0u128 << k) == (addr >> k) << k) by (bit_vector)
            requires
                k < 128,
        ;
        assert(((addr >> k) << k) | !(!0u128 << k) == ((addr >> k) << k) + !(!0u128 << k))
            by (bit_vector)
            requires
                k < 128,
        ;
    }
}

/// Two addresses have the same block base exactly when the second lies in
/// the block of the first.
pub proof fn lemma_same_block(a: nat, x: nat, k: nat)
    ensures
        block_base(x, k) == block_base(a, k) <==> in_block(block_base(a, k), k, x),
        aligned(block_base(a, k), k),
        in_block(block_base(a, k), k, a),
{
    let d = pow2(k) as int;
    lemma_pow2_pos(k);
    lemma_fundamental_div_mod(a as int, d);
    lemma_fundamental_div_mod(x as int, d);
    lemma_mod_bound(a as int, d);
    lemma_mod_bound(x as int, d);
    let qa = (a as int) / d;
    let qx = (x as int) / d;
    lemma_mul_is_commutative(qa, d);
    lemma_mul_is_commutative(qx, d);
    lemma_mod_multiples_basic(qa, d);
    if in_block(block_base(a, k), k, x) {
        lemma_fundamental_div_mod_converse(x as int, d, qa, x - qa * d);
    }
}

/// The mask test for containment is the interval test: `x` has the network
/// of `a` under the IPv4 mask exactly when it lies between that network and
/// its broadcast address.
pub proof fn lemma_contains_v4(a: u32, x: u32, prefix: u8)
    requires
        prefix <= 32,
    ensures
        (x & mask_v4(prefix) == a & mask_v4(prefix)) <==> (a & mask_v4(prefix)) <= x <= ((a
            & mask_v4(prefix)) | !mask_v4(prefix)),
{
    lemma_network_v4(a, prefix);
    lemma_network_v4(x, prefix);
    lemma_same_block(a as nat, x as nat, (32 - prefix) as nat);
}

/// The mask test for containment is the interval test, for IPv6.
pub proof fn lemma_contains_v6(a: u128, x: u128, prefix: u8)
    requires
        prefix <= 128,
    ensures
        (x & mask_v6(prefix) == a & mask_v6(prefix)) <==> (a & mask_v6(prefix)) <= x <= ((a
            & mask_v6(prefix)) | !mask_v6(prefix)),
{
    lemma_network_v6(a, prefix);
    lemma_network_v6(x, prefix);
    lemma_same_block(a as nat, x as nat, (128 - prefix) as nat);
}

/// An address is aligned to `2^k` exactly when it is the base of its own
/// block.
pub proof fn lemma_aligned_base(a: nat, k: nat)
    ensures
        aligned(a, k) <==> block_base(a, k) == a,
        aligned(a, k) ==> block_last(a, k) == a + pow2(k) - 1,
{
    let d = pow2(k) as int;
    lemma_pow2_pos(k);
    lemma_fundamental_div_mod(a as int, d);
    lemma_mod_bound(a as int, d);
    lemma_mul_is_commutative((a as int) / d, d);
}

/// An address aligned to a power of two is aligned to every smaller one.
pub proof fn lemma_aligned_down(n: nat, k: nat, j: nat)
    requires
        aligned(n, k),
        j <= k,
    ensures
        aligned(n, j),
{
    let d = pow2(k) as int;
    let e = pow2(j) as int;
    let f = pow2((k - j) as nat) as int;
    lemma_pow2_pos(k);
    lemma_pow2_pos(j);
    lemma_pow2_adds((k - j) as nat, j);
    lemma_fundamental_div_mod(n as int, d);
    let q = (n as int) / d;
    assert(n == (q * f) * e) by (nonlinear_arith)
        requires
            n == d * q,
            d == f * e,
    ;
    lemma_mod_multiples_basic(q * f, e);
}

/// The upper half of an aligned block starts at a multiple of the half's
/// size, and at no multiple of a larger power of two.
pub proof fn lemma_upper_half(r: nat, k: nat, j: nat)
    requires
        k >= 1,
        aligned(r, k),
    ensures
        pow2(k) == 2 * pow2((k - 1) as nat),
        aligned(r, (k - 1) as nat),
        aligned(r + pow2((k - 1) as nat), (k - 1) as nat),
        aligned(r + pow2((k - 1) as nat), j) ==> j <= k - 1,
{
    let half = pow2((k - 1) as nat) as int;
    let d = pow2(k) as int;
    lemma_pow2_unfold(k);
    lemma_pow2_pos((k - 1) as nat);
    lemma_aligned_down(r, k, (k - 1) as nat);
    lemma_fundamental_div_mod(r as int, half);
    let q = (r as int) / half;
    assert(r + half == (q + 1) * half) by (nonlinear_arith)
        requires
            r == half * q,
    ;
    lemma_mod_multiples_basic(q + 1, half);
    if aligned(r + pow2((k - 1) as nat), j) && j >= k {
        lemma_aligned_down(r + pow2((k - 1) as nat), j, k);
        lemma_fundamental_div_mod(r as int, d);
        lemma_fundamental_div_mod(r + half, d);
        let q1 = (r as int) / d;
        let q2 = (r + half) / d;
        assert(half == d * (q2 - q1)) by (nonlinear_arith)
            requires
                r == d * q1,
                r + half == d * q2,
        ;
        assert(false) by (nonlinear_arith)
            requires
                half == d * (q2 - q1),
                d == 2 * half,
                half > 0,
        ;
    }
}

/// A block that starts inside a block at least as large lies inside it.
pub proof fn lemma_block_within(a: nat, ka: nat, b: nat, kb: nat)
    requires
        aligned(a, ka),
        aligned(b, kb),
        ka <= kb,
        b <= a < b + pow2(kb),
    ensures
        a + pow2(ka) <= b + pow2(kb),
{
    let d = pow2(ka) as int;
    let f = pow2((kb - ka) as nat) as int;
    let w = pow2(kb) as int;
    lemma_pow2_pos(ka);
    lemma_pow2_pos(kb);
    lemma_pow2_adds((kb - ka) as nat, ka);
    lemma_fundamental_div_mod(a as int, d);
    lemma_fundamental_div_mod(b as int, w);
    let qa = (a as int) / d;
    let qb = (b as int) / w;
    let t = f * qb + f;
    assert(b + w == d * t) by (nonlinear_arith)
        requires
            b == w * qb,
            w == f * d,
            t == f * qb + f,
    ;
    assert(qa < t) by (nonlinear_arith)
        requires
            d * qa < d * t,
            d > 0,
    ;
    assert(d * qa + d <= d * t) by (nonlinear_arith)
        requires
            qa + 1 <= t,
            d > 0,
    ;
}

/// Two different multiples of `2^k` are at least `2^k` apart.
pub proof fn lemma_aligned_apart(a: nat, b: nat, k: nat)
    requires
        aligned(a, k),
        aligned(b, k),
        a < b,
    ensures
        a + pow2(k) <= b,
{
    let d = pow2(k) as int;
    lemma_pow2_pos(k);
    lemma_fundamental_div_mod(a as int, d);
    lemma_fundamental_div_mod(b as int, d);
    let qa = (a as int) / d;
    let qb = (b as int) / d;
    assert(qa < qb) by (nonlinear_arith)
        requires
            d * qa < d * qb,
            d > 0,
    ;
    assert(d * qa + d <= d * qb) by (nonlinear_arith)
        requires
            qa + 1 <= qb,
            d > 0,
    ;
}

} // verus!
