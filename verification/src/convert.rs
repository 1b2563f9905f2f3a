//! Fixed-width byte-order conversion: the helper contract behind the
//! decoder's primitive reads, exposed for callers that already hold the
//! exact bytes of one scalar.
//!
//! Each implementing type names its byte width and how it interprets an
//! unsigned reading; `from_le_bytes` and `from_be_bytes` then turn exactly
//! that many bytes into a value, in either byte order.

use vstd::prelude::*;
use vstd::arithmetic::power2::{pow2, lemma_pow2_adds, lemma_pow2_pos, lemma2_to64};
use crate::wire::{from_unsigned, le_value_of, lemma_le_value_of_bound, lemma_pow2_128};

verus! {

/// A scalar of fixed byte width that can be read from raw bytes in either
/// byte order.
pub trait ByteOrderConvertible: Sized {
    /// The fixed width of the type in bytes.
    spec fn width() -> nat;

    /// The value the type gives to an unsigned reading of its bytes.
    spec fn of_nat(v: nat) -> Self;

    fn from_le_bytes(bytes: &[u8]) -> (r: Self)
        requires
            bytes@.len() == Self::width(),
        ensures
            r == Self::of_nat(le_value_of(bytes@)),
    ;

    fn from_be_bytes(bytes: &[u8]) -> (r: Self)
        requires
            bytes@.len() == Self::width(),
        ensures
            r == Self::of_nat(le_value_of(bytes@.reverse())),
    ;
}

/// Accumulates up to 16 bytes as a little-endian unsigned value.
#[verifier::loop_isolation(false)]
fn read_le(bytes: &[u8]) -> (r: u128)
    requires
        bytes@.len() <= 16,
    ensures
        r as nat == le_value_of(bytes@),
        (r as nat) < pow2((8 * bytes@.len()) as nat),
{
    proof {
        lemma2_to64();
        lemma_pow2_128();
        lemma_le_value_of_bound(bytes@);
    }
    let n: usize = bytes.len();
    let mut acc: u128 = 0;
    let mut j: usize = n;
    while j > 0
        invariant
            j <= n,
            (acc as nat) == le_value_of(bytes@.subrange(j as int, n as int)),
            (acc as nat) < pow2((8 * (n - j)) as nat),
        decreases j,
    {
        proof {
            let sub = bytes@.subrange(j - 1, n as int);
            assert(sub.skip(1) =~= bytes@.subrange(j as int, n as int));
            lemma_pow2_adds((8 * (n - j)) as nat, 8);
            lemma_pow2_pos((8 * (n - j)) as nat);
            assert(pow2((8 * (n - j)) as nat) * 256 <= pow2(128)) by {
                if 8 * (n - j) + 8 < 128 {
                    vstd::arithmetic::power2::lemma_pow2_strictly_increases(
                        (8 * (n - j) + 8) as nat,
                        128,
                    );
                }
            }
        }
        j = j - 1;
        let b: u8 = bytes[j];
        acc = acc * 256 + (b as u128);
    }
    proof {
        assert(bytes@.subrange(0, n as int) =~= bytes@);
    }
    acc
}

/// Accumulates up to 16 bytes as a big-endian unsigned value.
#[verifier::loop_isolation(false)]
fn read_be(bytes: &[u8]) -> (r: u128)
    requires
        bytes@.len() <= 16,
    ensures
        r as nat == le_value_of(bytes@.reverse()),
        (r as nat) < pow2((8 * bytes@.len()) as nat),
{
    proof {
        lemma2_to64();
        lemma_pow2_128();
        lemma_le_value_of_bound(bytes@.reverse());
    }
    let n: usize = bytes.len();
    let mut acc: u128 = 0;
    let mut i: usize = 0;
    while i < n
        invariant
            i <= n,
            (acc as nat) == le_value_of(bytes@.take(i as int).reverse()),
            (acc as nat) < pow2((8 * i) as nat),
        decreases n - i,
    {
        proof {
            assert(bytes@.take(i + 1).reverse() =~= seq![bytes@[i as int]] + bytes@.take(
                i as int,
            ).reverse());
            assert((seq![bytes@[i as int]] + bytes@.take(i as int).reverse()).skip(1)
                =~= bytes@.take(i as int).reverse());
            lemma_pow2_adds((8 * i) as nat, 8);
            lemma_pow2_pos((8 * i) as nat);
            assert(pow2((8 * i) as nat) * 256 <= pow2(128)) by {
                if 8 * i + 8 < 128 {
                    vstd::arithmetic::power2::lemma_pow2_strictly_increases((8 * i + 8) as nat, 128);
                }
            }
        }
        let b: u8 = bytes[i];
        acc = acc * 256 + (b as u128);
        i = i + 1;
    }
    proof {
        assert(bytes@.take(n as int) =~= bytes@);
    }
    acc
}

impl ByteOrderConvertible for u8 {
    open spec fn width() -> nat {
        1
    }

    open spec fn of_nat(v: nat) -> u8 {
        v as u8
    }

    fn from_le_bytes(bytes: &[u8]) -> (r: u8) {
        proof {
            lemma2_to64();
        }
        read_le(bytes) as u8
    }

    fn from_be_bytes(bytes: &[u8]) -> (r: u8) {
        proof {
            lemma2_to64();
        }
        read_be(bytes) as u8
    }
}

impl ByteOrderConvertible for u16 {
    open spec fn width() -> nat {
        2
    }

    open spec fn of_nat(v: nat) -> u16 {
        v as u16
    }

    fn from_le_bytes(bytes: &[u8]) -> (r: u16) {
        proof {
            lemma2_to64();
        }
        read_le(bytes) as u16
    }

    fn from_be_bytes(bytes: &[u8]) -> (r: u16) {
        proof {
            lemma2_to64();
        }
        read_be(bytes) as u16
    }
}

impl ByteOrderConvertible for u32 {
    open spec fn width() -> nat {
        4
    }

    open spec fn of_nat(v: nat) -> u32 {
        v as u32
    }

    fn from_le_bytes(bytes: &[u8]) -> (r: u32) {
        proof {
            lemma2_to64();
        }
        read_le(bytes) as u32
    }

    fn from_be_bytes(bytes: &[u8]) -> (r: u32) {
        proof {
            lemma2_to64();
        }
        read_be(bytes) as u32
    }
}

impl ByteOrderConvertible for u64 {
    open spec fn width() -> nat {
        8
    }

    open spec fn of_nat(v: nat) -> u64 {
        v as u64
    }

    fn from_le_bytes(bytes: &[u8]) -> (r: u64) {
        proof {
            lemma2_to64();
            vstd::arithmetic::power2::lemma2_to64_rest();
        }
        read_le(bytes) as u64
    }

    fn from_be_bytes(bytes: &[u8]) -> (r: u64) {
        proof {
            lemma2_to64();
            vstd::arithmetic::power2::lemma2_to64_rest();
        }
        read_be(bytes) as u64
    }
}

impl ByteOrderConvertible for u128 {
    open spec fn width() -> nat {
        16
    }

    open spec fn of_nat(v: nat) -> u128 {
        v as u128
    }

    fn from_le_bytes(bytes: &[u8]) -> (r: u128) {
        read_le(bytes)
    }

    fn from_be_bytes(bytes: &[u8]) -> (r: u128) {
        read_be(bytes)
    }
}

/// Reinterprets an unsigned reading of `n` bytes as a signed value, two's
/// complement.
#[verifier::loop_isolation(false)]
fn to_signed(u: u128, n: usize) -> (r: i128)
    requires
        1 <= n <= 16,
        (u as nat) < pow2((8 * n) as nat),
    ensures
        r as int == from_unsigned(u as nat, n as nat),
{
    proof {
        lemma2_to64();
        vstd::arithmetic::power2::lemma2_to64_rest();
        lemma_pow2_128();
        vstd::arithmetic::div_mod::lemma_small_mod(u as nat, pow2((8 * n) as nat));
        lemma_pow2_adds((8 * n - 1) as nat, 1);
        if 8 * n < 128 {
            vstd::arithmetic::power2::lemma_pow2_strictly_increases((8 * n) as nat, 128);
        }
    }
    let half: u128 = {
        let mut m: u128 = 1;
        let mut i: usize = 0;
        while i < 8 * n - 1
            invariant
                n <= 16,
                i <= 8 * n - 1,
                (m as nat) == pow2(i as nat),
            decreases 8 * n - 1 - i,
        {
            proof {
                lemma_pow2_adds(i as nat, 1);
                assert(pow2((i + 1) as nat) == pow2(i as nat) * 2);
                assert(pow2((i + 1) as nat) <= pow2(127)) by {
                    if i + 1 < 127 {
                        vstd::arithmetic::power2::lemma_pow2_strictly_increases((i + 1) as nat, 127);
                    }
                }
            }
            m = m * 2;
            i = i + 1;
        }
        m
    };
    if u < half {
        u as i128
    } else {
        proof {
            assert((u as nat) - pow2((8 * n) as nat) >= i128::MIN) by {
                lemma_pow2_128();
            }
        }
        if n == 16 {
            (-((u128::MAX - u) as i128)) - 1
        } else {
            proof {
                if 8 * n < 120 {
                    vstd::arithmetic::power2::lemma_pow2_strictly_increases((8 * n) as nat, 120);
                }
                lemma_pow2_adds((8 * n - 1) as nat, 1);
            }
            // u - 2^(8n) sits below zero but well inside i128
            (u as i128) - ((half as i128) + (half as i128))
        }
    }
}

impl ByteOrderConvertible for i8 {
    open spec fn width() -> nat {
        1
    }

    open spec fn of_nat(v: nat) -> i8 {
        from_unsigned(v, 1) as i8
    }

    fn from_le_bytes(bytes: &[u8]) -> (r: i8) {
        proof {
            lemma2_to64();
        }
        to_signed(read_le(bytes), 1) as i8
    }

    fn from_be_bytes(bytes: &[u8]) -> (r: i8) {
        proof {
            lemma2_to64();
        }
        to_signed(read_be(bytes), 1) as i8
    }
}

impl ByteOrderConvertible for i16 {
    open spec fn width() -> nat {
        2
    }

    open spec fn of_nat(v: nat) -> i16 {
        from_unsigned(v, 2) as i16
    }

    fn from_le_bytes(bytes: &[u8]) -> (r: i16) {
        proof {
            lemma2_to64();
        }
        to_signed(read_le(bytes), 2) as i16
    }

    fn from_be_bytes(bytes: &[u8]) -> (r: i16) {
        proof {
            lemma2_to64();
        }
        to_signed(read_be(bytes), 2) as i16
    }
}

impl ByteOrderConvertible for i32 {
    open spec fn width() -> nat {
        4
    }

    open spec fn of_nat(v: nat) -> i32 {
        from_unsigned(v, 4) as i32
    }

    fn from_le_bytes(bytes: &[u8]) -> (r: i32) {
        proof {
            lemma2_to64();
        }
        to_signed(read_le(bytes), 4) as i32
    }

    fn from_be_bytes(bytes: &[u8]) -> (r: i32) {
        proof {
            lemma2_to64();
        }
        to_signed(read_be(bytes), 4) as i32
    }
}

impl ByteOrderConvertible for i64 {
    open spec fn width() -> nat {
        8
    }

    open spec fn of_nat(v: nat) -> i64 {
        from_unsigned(v, 8) as i64
    }

    fn from_le_bytes(bytes: &[u8]) -> (r: i64) {
        proof {
            lemma2_to64();
            vstd::arithmetic::power2::lemma2_to64_rest();
        }
        to_signed(read_le(bytes), 8) as i64
    }

    fn from_be_bytes(bytes: &[u8]) -> (r: i64) {
        proof {
            lemma2_to64();
            vstd::arithmetic::power2::lemma2_to64_rest();
        }
        to_signed(read_be(bytes), 8) as i64
    }
}

impl ByteOrderConvertible for i128 {
    open spec fn width() -> nat {
        16
    }

    open spec fn of_nat(v: nat) -> i128 {
        from_unsigned(v, 16) as i128
    }

    fn from_le_bytes(bytes: &[u8]) -> (r: i128) {
        proof {
            lemma_pow2_128();
        }
        to_signed(read_le(bytes), 16)
    }

    fn from_be_bytes(bytes: &[u8]) -> (r: i128) {
        proof {
            lemma_pow2_128();
        }
        to_signed(read_be(bytes), 16)
    }
}

} // verus!
