//! The byte-level model of the wire format.
//!
//! Every contract of the codec is stated over these functions: an unsigned
//! value laid out as little-endian bytes ([`le_bytes_of`]), the value read
//! back from such bytes ([`le_value_of`]), and their byte-order-aware
//! counterparts [`wire_bytes`] and [`wire_value`]. Signed values go through
//! the two's-complement maps [`to_unsigned`] and [`from_unsigned`].

use vstd::prelude::*;
use vstd::arithmetic::power2::{pow2, lemma_pow2_adds, lemma_pow2_pos};
use crate::config::{Config, EndiannessStrategy};

verus! {

/// The `n` little-endian bytes of `v % pow2(8 * n)`: least significant byte
/// first.
pub open spec fn le_bytes_of(v: nat, n: nat) -> Seq<u8>
    decreases n,
{
    if n == 0 {
        Seq::empty()
    } else {
        seq![(v % 256) as u8] + le_bytes_of(v / 256, (n - 1) as nat)
    }
}

/// The unsigned value denoted by `s` read as little-endian bytes.
pub open spec fn le_value_of(s: Seq<u8>) -> nat
    decreases s.len(),
{
    if s.len() == 0 {
        0
    } else {
        (s[0] + 256 * le_value_of(s.skip(1))) as nat
    }
}

/// The `n` bytes of `v % pow2(8 * n)` in the byte order `e`.
pub open spec fn wire_bytes(v: nat, n: nat, e: EndiannessStrategy) -> Seq<u8> {
    match e {
        EndiannessStrategy::Little => le_bytes_of(v, n),
        EndiannessStrategy::Big => le_bytes_of(v, n).reverse(),
    }
}

/// The unsigned value denoted by `s` read in the byte order `e`.
pub open spec fn wire_value(s: Seq<u8>, e: EndiannessStrategy) -> nat {
    match e {
        EndiannessStrategy::Little => le_value_of(s),
        EndiannessStrategy::Big => le_value_of(s.reverse()),
    }
}

/// The two's-complement image of `v` in `n` bytes: a negative value is
/// shifted up by `pow2(8 * n)`.
pub open spec fn to_unsigned(v: int, n: nat) -> nat {
    if v >= 0 {
        v as nat
    } else {
        (v + pow2((8 * n) as nat)) as nat
    }
}

/// The signed value whose two's-complement image in `n` bytes is
/// `u % pow2(8 * n)`.
pub open spec fn from_unsigned(u: nat, n: nat) -> int {
    let m = u % pow2((8 * n) as nat);
    if m < pow2((8 * n - 1) as nat) {
        m as int
    } else {
        m - pow2((8 * n) as nat)
    }
}

/// The concrete values of the powers of two at the 128-bit boundary, which
/// the widest scalar layouts need.
pub proof fn lemma_pow2_128()
    ensures
        pow2(120) == 0x1000000_00000000_00000000_00000000,
        pow2(127) == 0x80000000_00000000_00000000_00000000,
        pow2(128) == 0x1_00000000_00000000_00000000_00000000,
{
    vstd::arithmetic::power2::lemma2_to64();
    vstd::arithmetic::power2::lemma2_to64_rest();
    lemma_pow2_adds(64, 56);
    lemma_pow2_adds(64, 63);
    lemma_pow2_adds(64, 64);
}

/// Whether an output of `n` bytes respects the byte budget of `c`.
pub open spec fn within_limit(c: Config, n: nat) -> bool {
    match c.limit {
        None => true,
        Some(limit) => n <= limit,
    }
}

/// The length prefix written before a variable-length container holding
/// `len` elements or bytes: the configured width, in the configured byte
/// order, the length truncated to that width.
pub open spec fn len_prefix(c: Config, len: nat) -> Seq<u8> {
    wire_bytes(len, c.container_length_strategy.spec_width(), c.endianness_strategy)
}

pub broadcast proof fn lemma_le_bytes_of_len(v: nat, n: nat)
    ensures
        #[trigger] le_bytes_of(v, n).len() == n,
    decreases n,
{
    if n > 0 {
        lemma_le_bytes_of_len(v / 256, (n - 1) as nat);
    }
}

/// Byte `i` of the little-endian layout is digit `i` in base 256.
pub proof fn lemma_le_bytes_of_index(v: nat, n: nat, i: int)
    requires
        0 <= i < n,
    ensures
        le_bytes_of(v, n)[i] == (v / pow2((8 * i) as nat)) % 256,
    decreases n,
{
    broadcast use lemma_le_bytes_of_len;

    vstd::arithmetic::power2::lemma2_to64();
    if i == 0 {
        assert(pow2(0) == 1);
        assert(v / 1 == v) by (nonlinear_arith);
    } else {
        lemma_le_bytes_of_index(v / 256, (n - 1) as nat, i - 1);
        assert(le_bytes_of(v, n)[i] == le_bytes_of(v / 256, (n - 1) as nat)[i - 1]);
        lemma_pow2_adds(8, (8 * (i - 1)) as nat);
        lemma_pow2_pos((8 * (i - 1)) as nat);
        assert(pow2(8) == 256);
        let p: nat = pow2((8 * (i - 1)) as nat);
        assert((v / 256) / p == v / (256 * p)) by (nonlinear_arith)
            requires p > 0;
    }
}

/// Reading back the little-endian layout of `v` gives `v` truncated to the
/// laid-out width.
pub proof fn lemma_le_round_trip(v: nat, n: nat)
    ensures
        le_value_of(le_bytes_of(v, n)) == v % pow2((8 * n) as nat),
    decreases n,
{
    broadcast use lemma_le_bytes_of_len;

    vstd::arithmetic::power2::lemma2_to64();
    if n == 0 {
        assert(pow2(0) == 1);
    } else {
        lemma_le_round_trip(v / 256, (n - 1) as nat);
        let s = le_bytes_of(v, n);
        assert(s.skip(1) =~= le_bytes_of(v / 256, (n - 1) as nat));
        let p: nat = pow2((8 * (n - 1)) as nat);
        lemma_pow2_adds(8, (8 * (n - 1)) as nat);
        lemma_pow2_pos((8 * (n - 1)) as nat);
        assert(le_value_of(s) == v % 256 + 256 * ((v / 256) % p));
        vstd::arithmetic::div_mod::lemma_breakdown(v as int, 256, p as int);
    }
}

/// The value read from `n` bytes is below `pow2(8 * n)`.
pub proof fn lemma_le_value_of_bound(s: Seq<u8>)
    ensures
        le_value_of(s) < pow2((8 * s.len()) as nat),
    decreases s.len(),
{
    vstd::arithmetic::power2::lemma2_to64();
    if s.len() == 0 {
        assert(pow2(0) == 1);
    } else {
        lemma_le_value_of_bound(s.skip(1));
        let p: nat = pow2((8 * (s.len() - 1)) as nat);
        lemma_pow2_adds(8, (8 * (s.len() - 1)) as nat);
        assert(s[0] + 256 * le_value_of(s.skip(1)) < 256 * p) by (nonlinear_arith)
            requires s[0] < 256, le_value_of(s.skip(1)) < p;
    }
}

/// The bytes whose little-endian reading is `s` are `s` itself: the inverse
/// direction of [`lemma_le_round_trip`].
pub proof fn lemma_le_bytes_of_value(s: Seq<u8>)
    ensures
        le_bytes_of(le_value_of(s), s.len()) == s,
    decreases s.len(),
{
    if s.len() > 0 {
        lemma_le_bytes_of_value(s.skip(1));
        let v: nat = le_value_of(s);
        assert(v == s[0] + 256 * le_value_of(s.skip(1)));
        assert(v % 256 == s[0] && v / 256 == le_value_of(s.skip(1))) by (nonlinear_arith)
            requires v == s[0] + 256 * le_value_of(s.skip(1)), 0 <= s[0] < 256;
        assert(le_bytes_of(v, s.len()) =~= s);
    }
}

/// Laying out one more byte appends digit `n` in base 256.
pub proof fn lemma_le_bytes_of_snoc(v: nat, n: nat)
    ensures
        le_bytes_of(v, n + 1) == le_bytes_of(v, n).push(((v / pow2((8 * n) as nat)) % 256) as u8),
    decreases n,
{
    vstd::arithmetic::power2::lemma2_to64();
    broadcast use lemma_le_bytes_of_len;

    if n == 0 {
        assert(v / pow2(0) == v);
        assert(le_bytes_of(v, 1) =~= le_bytes_of(v, 0).push((v % 256) as u8));
    } else {
        lemma_le_bytes_of_snoc(v / 256, (n - 1) as nat);
        lemma_pow2_adds(8, (8 * (n - 1)) as nat);
        lemma_pow2_pos((8 * (n - 1)) as nat);
        let p: nat = pow2((8 * (n - 1)) as nat);
        assert((v / 256) / p == v / (256 * p)) by (nonlinear_arith)
            requires p > 0;
        assert(le_bytes_of(v, n + 1) =~= le_bytes_of(v, n).push(
            ((v / pow2((8 * n) as nat)) % 256) as u8,
        ));
    }
}

/// A prefix of a little-endian layout is the layout at the shorter width.
pub proof fn lemma_le_bytes_of_prefix(v: nat, n: nat, k: nat)
    requires
        k <= n,
    ensures
        le_bytes_of(v, n).take(k as int) == le_bytes_of(v, k),
{
    broadcast use lemma_le_bytes_of_len;

    assert forall|i: int| 0 <= i < k implies le_bytes_of(v, n).take(k as int)[i] == le_bytes_of(
        v,
        k,
    )[i] by {
        lemma_le_bytes_of_index(v, n, i);
        lemma_le_bytes_of_index(v, k, i);
    }
    assert(le_bytes_of(v, n).take(k as int) =~= le_bytes_of(v, k));
}

/// Splitting a little-endian reading at byte `k` splits the value at bit
/// `8 * k`: the first `k` bytes are the low digits, the rest the high ones.
pub proof fn lemma_le_value_of_split(s: Seq<u8>, k: nat)
    requires
        k <= s.len(),
    ensures
        le_value_of(s.take(k as int)) == le_value_of(s) % pow2((8 * k) as nat),
        le_value_of(s.skip(k as int)) == le_value_of(s) / pow2((8 * k) as nat),
    decreases k,
{
    vstd::arithmetic::power2::lemma2_to64();
    if k == 0 {
        assert(s.take(0) =~= Seq::<u8>::empty());
        assert(s.skip(0) =~= s);
        assert(le_value_of(s) / pow2(0) == le_value_of(s));
        assert(le_value_of(s) % pow2(0) == 0) by {
            assert(pow2(0) == 1);
            assert(le_value_of(s) % 1 == 0) by (nonlinear_arith);
        }
    } else {
        lemma_le_value_of_split(s.skip(1), (k - 1) as nat);
        let p: nat = pow2((8 * (k - 1)) as nat);
        lemma_pow2_adds(8, (8 * (k - 1)) as nat);
        lemma_pow2_pos((8 * (k - 1)) as nat);
        assert(s.take(k as int).skip(1) =~= s.skip(1).take(k - 1));
        assert(s.skip(k as int) =~= s.skip(1).skip(k - 1));
        let v: nat = le_value_of(s);
        let t: nat = le_value_of(s.skip(1));
        assert(v == s[0] + 256 * t);
        // low part: s[0] + 256 * (t % p) == v % (256 * p)
        vstd::arithmetic::div_mod::lemma_breakdown(v as int, 256, p as int);
        vstd::arithmetic::div_mod::lemma_fundamental_div_mod_converse(
            v as int,
            256,
            t as int,
            s[0] as int,
        );
        assert((v / 256) / p == v / (256 * p)) by (nonlinear_arith)
            requires p > 0;
    }
}

/// Byte order: the big-endian layout of a value is the byte-wise reversal of
/// its little-endian layout; the two have equal length; and reading either
/// back under its own order recovers the value, truncated to the width.
pub proof fn lemma_byte_order(v: nat, n: nat)
    ensures
        wire_bytes(v, n, EndiannessStrategy::Big) == wire_bytes(
            v,
            n,
            EndiannessStrategy::Little,
        ).reverse(),
        wire_bytes(v, n, EndiannessStrategy::Big).len() == n,
        wire_bytes(v, n, EndiannessStrategy::Little).len() == n,
        forall|e: EndiannessStrategy|
            wire_value(#[trigger] wire_bytes(v, n, e), e) == v % pow2((8 * n) as nat),
{
    broadcast use lemma_le_bytes_of_len;

    lemma_le_round_trip(v, n);
    assert(le_bytes_of(v, n).reverse().reverse() =~= le_bytes_of(v, n));
}

/// `wire_value` after `wire_bytes` truncates to the width, in either order.
pub proof fn lemma_wire_round_trip(v: nat, n: nat, e: EndiannessStrategy)
    ensures
        wire_bytes(v, n, e).len() == n,
        wire_value(wire_bytes(v, n, e), e) == v % pow2((8 * n) as nat),
{
    lemma_byte_order(v, n);
}

/// Two's complement round trip: a signed value in range is recovered from
/// its unsigned image.
pub proof fn lemma_signed_round_trip(v: int, n: nat)
    requires
        n >= 1,
        -pow2((8 * n - 1) as nat) <= v < pow2((8 * n - 1) as nat),
    ensures
        to_unsigned(v, n) < pow2((8 * n) as nat),
        from_unsigned(to_unsigned(v, n), n) == v,
{
    let w: nat = (8 * n) as nat;
    lemma_pow2_adds((w - 1) as nat, 1);
    vstd::arithmetic::power2::lemma2_to64();
    assert(pow2(w) == pow2((w - 1) as nat) * 2);
    let u: nat = to_unsigned(v, n);
    vstd::arithmetic::div_mod::lemma_small_mod(u, pow2(w));
}

} // verus!
