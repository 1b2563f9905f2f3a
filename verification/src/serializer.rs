//! The encoder: appends bytes to a growable output buffer under a [`Config`].
//!
//! Every primitive write states exactly which bytes it appends, in terms of
//! the model in [`crate::wire`], and exactly when it reports the byte budget
//! as exceeded. The budget is checked after each primitive write, so the
//! offending bytes are already in the buffer when `LimitExceeded` is raised.

use vstd::prelude::*;
use vstd::arithmetic::power2::{pow2, lemma_pow2_adds, lemma_pow2_pos, lemma2_to64, lemma2_to64_rest};
use vstd::utf8::{encode_scalar, char_is_scalar};
use crate::config::{Config, ContainerLengthStrategy, EndiannessStrategy};
use crate::error::Error;
use crate::wire::{
    le_bytes_of, len_prefix, lemma_le_bytes_of_index, lemma_le_bytes_of_len, to_unsigned,
    wire_bytes, within_limit,
};

verus! {

broadcast use crate::wire::lemma_le_bytes_of_len;

/// The error raised when an output of `n` bytes breaks the budget of `c`.
pub open spec fn limit_error(c: Config, n: nat) -> Error
    recommends
        c.limit is Some,
{
    Error::LimitExceeded { limit: c.limit.unwrap(), size: n as usize }
}

/// The single byte encoding a boolean.
pub open spec fn bool_byte(v: bool) -> u8 {
    if v {
        1
    } else {
        0
    }
}

/// The UTF-8 bytes of one character, written with no length prefix.
pub open spec fn char_wire(c: char) -> Seq<u8> {
    encode_scalar(c as u32)
}

/// Truncating `v` before laying it out does not change the laid-out bytes.
pub proof fn lemma_le_bytes_of_mod(v: nat, n: nat)
    ensures
        le_bytes_of(v % pow2((8 * n) as nat), n) == le_bytes_of(v, n),
    decreases n,
{
    lemma2_to64();
    if n > 0 {
        let p: nat = pow2((8 * (n - 1)) as nat);
        lemma_pow2_adds(8, (8 * (n - 1)) as nat);
        lemma_pow2_pos((8 * (n - 1)) as nat);
        let m: nat = v % pow2((8 * n) as nat);
        vstd::arithmetic::div_mod::lemma_breakdown(v as int, 256, p as int);
        vstd::arithmetic::div_mod::lemma_fundamental_div_mod_converse(
            m as int,
            256,
            ((v / 256) % p) as int,
            (v % 256) as int,
        );
        lemma_le_bytes_of_mod(v / 256, (n - 1) as nat);
        assert(le_bytes_of(m, n) =~= le_bytes_of(v, n));
    }
}

/// Truncating before laying out does not change the bytes, in either order.
pub proof fn lemma_wire_bytes_mod(v: nat, n: nat, e: EndiannessStrategy)
    ensures
        wire_bytes(v % pow2((8 * n) as nat), n, e) == wire_bytes(v, n, e),
{
    lemma_le_bytes_of_mod(v, n);
}

/// The encoder of one session: owns the output buffer and a copy of the
/// configuration, both private; contracts speak of them through
/// [`Self::bytes`] and [`Self::cfg`].
#[derive(Debug)]
pub struct BinarySerializer {
    output: Vec<u8>,
    config: Config,
}

impl BinarySerializer {
    /// The bytes emitted so far.
    pub closed spec fn written(&self) -> Seq<u8> {
        self.output@
    }

    /// The configuration of this session, fixed at construction.
    pub closed spec fn cfg(&self) -> Config {
        self.config
    }

    pub fn new(config: Config) -> (s: BinarySerializer)
        ensures
            s.written() == Seq::<u8>::empty(),
            s.cfg() == config,
    {
        let s = BinarySerializer { output: Vec::new(), config };
        proof {
            assert(s.output@ =~= Seq::<u8>::empty());
        }
        s
    }

    /// Consumes the serializer and yields the final byte sequence.
    pub fn output(self) -> (r: Vec<u8>)
        ensures
            r@ == self.written(),
    {
        self.output
    }

    pub fn config(&self) -> (c: &Config)
        ensures
            *c == self.cfg(),
    {
        &self.config
    }

    /// The number of bytes emitted so far.
    pub fn size(&self) -> (n: usize)
        ensures
            n == self.written().len(),
    {
        self.output.len()
    }

    pub fn is_empty(&self) -> (r: bool)
        ensures
            r == (self.written().len() == 0),
    {
        self.output.len() == 0
    }

    /// The soft budget check run after each primitive write: reports
    /// `LimitExceeded` exactly when the output has grown past the configured
    /// limit.
    pub fn check_limit(&self) -> (r: Result<(), Error>)
        ensures
            r is Ok <==> within_limit(self.cfg(), self.written().len()),
            r matches Err(e) ==> e == limit_error(self.cfg(), self.written().len()),
    {
        match self.config.limit {
            None => Ok(()),
            Some(limit) => {
                if self.output.len() > limit {
                    Err(Error::LimitExceeded { limit, size: self.output.len() })
                } else {
                    Ok(())
                }
            },
        }
    }

    /// Appends the `n`-byte layout of `v` in the configured byte order.
    /// No budget check: callers check after the whole primitive value.
    #[verifier::loop_isolation(false)]
    fn write_uint(&mut self, v: u128, n: usize)
        requires
            n <= 16,
        ensures
            final(self).cfg() == old(self).cfg(),
            final(self).written() == old(self).written() + wire_bytes(
                v as nat,
                n as nat,
                old(self).cfg().endianness_strategy,
            ),
    {
        broadcast use lemma_le_bytes_of_len;

        let ghost le: Seq<u8> = le_bytes_of(v as nat, n as nat);
        proof {
            lemma2_to64();
            assert((v as nat) / pow2(0) == v as nat);
        }
        let mut tmp: Vec<u8> = Vec::new();
        let mut x: u128 = v;
        let mut i: usize = 0;
        while i < n
            invariant
                i <= n <= 16,
                tmp@ =~= le_bytes_of(v as nat, n as nat).take(i as int),
                x as nat == (v as nat) / pow2((8 * i) as nat),
            decreases n - i,
        {
            proof {
                lemma_le_bytes_of_index(v as nat, n as nat, i as int);
                lemma_pow2_adds((8 * i) as nat, 8);
                lemma_pow2_pos((8 * i) as nat);
                lemma2_to64();
                let p: nat = pow2((8 * i) as nat);
                assert(((v as nat) / p) / 256 == (v as nat) / (p * 256)) by (nonlinear_arith)
                    requires p > 0;
                assert(le.take(i + 1) =~= le.take(i as int).push(le[i as int]));
            }
            let b: u8 = (x % 256) as u8;
            tmp.push(b);
            x = x / 256;
            i = i + 1;
        }
        proof {
            assert(le.take(n as int) =~= le);
        }
        match self.config.endianness_strategy {
            EndiannessStrategy::Little => {
                let mut k: usize = 0;
                while k < tmp.len()
                    invariant
                        k <= tmp@.len(),
                        tmp@ == le,
                        self.config == old(self).config,
                        self.output@ =~= old(self).output@ + le.take(k as int),
                    decreases tmp@.len() - k,
                {
                    proof {
                        assert(le.take(k + 1) =~= le.take(k as int).push(le[k as int]));
                    }
                    let b: u8 = tmp[k];
                    self.output.push(b);
                    k = k + 1;
                }
                proof {
                    assert(le.take(le.len() as int) =~= le);
                }
            },
            EndiannessStrategy::Big => {
                let ghost rev: Seq<u8> = le.reverse();
                let mut j: usize = tmp.len();
                while j > 0
                    invariant
                        j <= tmp@.len(),
                        tmp@ == le,
                        rev == le.reverse(),
                        self.config == old(self).config,
                        self.output@ =~= old(self).output@ + rev.take((tmp@.len() - j) as int),
                    decreases j,
                {
                    let ghost k: int = tmp@.len() - j;
                    proof {
                        assert(rev[k] == le[le.len() - k - 1]);
                        assert(rev.take(k + 1) =~= rev.take(k).push(rev[k]));
                    }
                    j = j - 1;
                    let b: u8 = tmp[j];
                    self.output.push(b);
                }
                proof {
                    assert(rev.take(rev.len() as int) =~= rev);
                }
            },
        }
    }

    /// Writes the length prefix of a variable-length container: the
    /// configured width, in the configured byte order, `length` truncated to
    /// that width. No budget check: the caller checks after the container's
    /// payload.
    pub fn container_length(&mut self, length: usize)
        ensures
            final(self).cfg() == old(self).cfg(),
            final(self).written() == old(self).written() + len_prefix(old(self).cfg(), length as nat),
    {
        proof {
            lemma2_to64();
            lemma2_to64_rest();
            lemma_wire_bytes_mod(
                length as nat,
                old(self).cfg().container_length_strategy.spec_width(),
                old(self).cfg().endianness_strategy,
            );
        }
        match self.config.container_length_strategy {
            ContainerLengthStrategy::OneByte => {
                let t: u128 = (length % 256) as u128;
                proof {
                    assert((length as nat) % pow2(8) == (length % 256) as nat);
                }
                self.write_uint(t, 1);
            },
            ContainerLengthStrategy::TwoBytes => {
                let t: u128 = (length % 65536) as u128;
                proof {
                    assert((length as nat) % pow2(16) == (length % 65536) as nat);
                }
                self.write_uint(t, 2);
            },
            ContainerLengthStrategy::FourBytes => {
                let t: u128 = (length as u128) % 0x1_0000_0000;
                proof {
                    assert((length as nat) % pow2(32) == ((length as u128) % 0x1_0000_0000) as nat);
                }
                self.write_uint(t, 4);
            },
            ContainerLengthStrategy::EightBytes => {
                let t: u128 = (length as u128) % 0x1_0000_0000_0000_0000;
                proof {
                    assert((length as nat) % pow2(64) == ((length as u128)
                        % 0x1_0000_0000_0000_0000) as nat);
                }
                self.write_uint(t, 8);
            },
            ContainerLengthStrategy::SixteenBytes => {
                let t: u128 = length as u128;
                proof {
                    crate::wire::lemma_pow2_128();
                    vstd::arithmetic::div_mod::lemma_small_mod(t as nat, pow2(128));
                }
                self.write_uint(t, 16);
            },
        }
    }

    /// Writes a boolean as one byte: 1 for true, 0 for false.
    pub fn bool(&mut self, v: bool) -> (r: Result<(), Error>)
        ensures
            final(self).cfg() == old(self).cfg(),
            final(self).written() == old(self).written() + seq![bool_byte(v)],
            r is Ok <==> within_limit(old(self).cfg(), old(self).written().len() + 1),
            r matches Err(e) ==> e == limit_error(old(self).cfg(), old(self).written().len() + 1),
    {
        self.output.push(if v { 1 } else { 0 });
        self.check_limit()
    }

    pub fn u8(&mut self, v: u8) -> (r: Result<(), Error>)
        ensures
            final(self).cfg() == old(self).cfg(),
            final(self).written() == old(self).written() + seq![v],
            r is Ok <==> within_limit(old(self).cfg(), old(self).written().len() + 1),
            r matches Err(e) ==> e == limit_error(old(self).cfg(), old(self).written().len() + 1),
    {
        self.output.push(v);
        self.check_limit()
    }

    pub fn u16(&mut self, v: u16) -> (r: Result<(), Error>)
        ensures
            final(self).cfg() == old(self).cfg(),
            final(self).written() == old(self).written() + wire_bytes(
                v as nat,
                2,
                old(self).cfg().endianness_strategy,
            ),
            r is Ok <==> within_limit(old(self).cfg(), old(self).written().len() + 2),
            r matches Err(e) ==> e == limit_error(old(self).cfg(), old(self).written().len() + 2),
    {
        proof {
            broadcast use lemma_le_bytes_of_len;

        }
        self.write_uint(v as u128, 2);
        self.check_limit()
    }

    pub fn u32(&mut self, v: u32) -> (r: Result<(), Error>)
        ensures
            final(self).cfg() == old(self).cfg(),
            final(self).written() == old(self).written() + wire_bytes(
                v as nat,
                4,
                old(self).cfg().endianness_strategy,
            ),
            r is Ok <==> within_limit(old(self).cfg(), old(self).written().len() + 4),
            r matches Err(e) ==> e == limit_error(old(self).cfg(), old(self).written().len() + 4),
    {
        proof {
            broadcast use lemma_le_bytes_of_len;

        }
        self.write_uint(v as u128, 4);
        self.check_limit()
    }

    pub fn u64(&mut self, v: u64) -> (r: Result<(), Error>)
        ensures
            final(self).cfg() == old(self).cfg(),
            final(self).written() == old(self).written() + wire_bytes(
                v as nat,
                8,
                old(self).cfg().endianness_strategy,
            ),
            r is Ok <==> within_limit(old(self).cfg(), old(self).written().len() + 8),
            r matches Err(e) ==> e == limit_error(old(self).cfg(), old(self).written().len() + 8),
    {
        proof {
            broadcast use lemma_le_bytes_of_len;

        }
        self.write_uint(v as u128, 8);
        self.check_limit()
    }

    pub fn u128(&mut self, v: u128) -> (r: Result<(), Error>)
        ensures
            final(self).cfg() == old(self).cfg(),
            final(self).written() == old(self).written() + wire_bytes(
                v as nat,
                16,
                old(self).cfg().endianness_strategy,
            ),
            r is Ok <==> within_limit(old(self).cfg(), old(self).written().len() + 16),
            r matches Err(e) ==> e == limit_error(old(self).cfg(), old(self).written().len() + 16),
    {
        proof {
            broadcast use lemma_le_bytes_of_len;

        }
        self.write_uint(v, 16);
        self.check_limit()
    }

    pub fn i8(&mut self, v: i8) -> (r: Result<(), Error>)
        ensures
            final(self).cfg() == old(self).cfg(),
            final(self).written() == old(self).written() + seq![to_unsigned(v as int, 1) as u8],
            r is Ok <==> within_limit(old(self).cfg(), old(self).written().len() + 1),
            r matches Err(e) ==> e == limit_error(old(self).cfg(), old(self).written().len() + 1),
    {
        proof {
            lemma2_to64();
        }
        let u: u8 = if v >= 0 {
            v as u8
        } else {
            (((v as i16) + 256) as u8)
        };
        self.output.push(u);
        self.check_limit()
    }

    pub fn i16(&mut self, v: i16) -> (r: Result<(), Error>)
        ensures
            final(self).cfg() == old(self).cfg(),
            final(self).written() == old(self).written() + wire_bytes(
                to_unsigned(v as int, 2),
                2,
                old(self).cfg().endianness_strategy,
            ),
            r is Ok <==> within_limit(old(self).cfg(), old(self).written().len() + 2),
            r matches Err(e) ==> e == limit_error(old(self).cfg(), old(self).written().len() + 2),
    {
        proof {
            lemma2_to64();
        }
        let u: u16 = if v >= 0 {
            v as u16
        } else {
            (((v as i32) + 0x10000) as u16)
        };
        self.write_uint(u as u128, 2);
        self.check_limit()
    }

    pub fn i32(&mut self, v: i32) -> (r: Result<(), Error>)
        ensures
            final(self).cfg() == old(self).cfg(),
            final(self).written() == old(self).written() + wire_bytes(
                to_unsigned(v as int, 4),
                4,
                old(self).cfg().endianness_strategy,
            ),
            r is Ok <==> within_limit(old(self).cfg(), old(self).written().len() + 4),
            r matches Err(e) ==> e == limit_error(old(self).cfg(), old(self).written().len() + 4),
    {
        proof {
            lemma2_to64();
        }
        let u: u32 = if v >= 0 {
            v as u32
        } else {
            (((v as i64) + 0x1_0000_0000) as u32)
        };
        self.write_uint(u as u128, 4);
        self.check_limit()
    }

    pub fn i64(&mut self, v: i64) -> (r: Result<(), Error>)
        ensures
            final(self).cfg() == old(self).cfg(),
            final(self).written() == old(self).written() + wire_bytes(
                to_unsigned(v as int, 8),
                8,
                old(self).cfg().endianness_strategy,
            ),
            r is Ok <==> within_limit(old(self).cfg(), old(self).written().len() + 8),
            r matches Err(e) ==> e == limit_error(old(self).cfg(), old(self).written().len() + 8),
    {
        proof {
            lemma2_to64();
            lemma2_to64_rest();
        }
        let u: u64 = if v >= 0 {
            v as u64
        } else {
            (((v as i128) + 0x1_0000_0000_0000_0000) as u64)
        };
        self.write_uint(u as u128, 8);
        self.check_limit()
    }

    pub fn i128(&mut self, v: i128) -> (r: Result<(), Error>)
        ensures
            final(self).cfg() == old(self).cfg(),
            final(self).written() == old(self).written() + wire_bytes(
                to_unsigned(v as int, 16),
                16,
                old(self).cfg().endianness_strategy,
            ),
            r is Ok <==> within_limit(old(self).cfg(), old(self).written().len() + 16),
            r matches Err(e) ==> e == limit_error(old(self).cfg(), old(self).written().len() + 16),
    {
        proof {
            lemma2_to64();
            crate::wire::lemma_pow2_128();
        }
        let u: u128 = if v >= 0 {
            v as u128
        } else {
            u128::MAX - ((-(v + 1)) as u128)
        };
        proof {
            assert(u as nat == to_unsigned(v as int, 16));
        }
        self.write_uint(u, 16);
        self.check_limit()
    }

    /// Writes one character as its UTF-8 byte sequence, with no length
    /// prefix: the sequence is self-delimiting on decode.
    pub fn char(&mut self, v: char) -> (r: Result<(), Error>)
        ensures
            final(self).cfg() == old(self).cfg(),
            final(self).written() == old(self).written() + char_wire(v),
            r is Ok <==> within_limit(
                old(self).cfg(),
                old(self).written().len() + char_wire(v).len(),
            ),
            r matches Err(e) ==> e == limit_error(
                old(self).cfg(),
                old(self).written().len() + char_wire(v).len(),
            ),
    {
        proof {
            char_is_scalar(v);
        }
        let s: u32 = v as u32;
        if s <= 0x7F {
            self.output.push((s & 0x7F) as u8);
        } else if s <= 0x7FF {
            self.output.push(0xC0 | (((s >> 6) & 0x1F) as u8));
            self.output.push(0x80 | ((s & 0x3F) as u8));
        } else if s <= 0xFFFF {
            self.output.push(0xE0 | (((s >> 12) & 0x0F) as u8));
            self.output.push(0x80 | (((s >> 6) & 0x3F) as u8));
            self.output.push(0x80 | ((s & 0x3F) as u8));
        } else {
            self.output.push(0xF0 | (((s >> 18) & 0x7) as u8));
            self.output.push(0x80 | (((s >> 12) & 0x3F) as u8));
            self.output.push(0x80 | (((s >> 6) & 0x3F) as u8));
            self.output.push(0x80 | ((s & 0x3F) as u8));
        }
        proof {
            assert(final(self).written() =~= old(self).written() + char_wire(v));
        }
        self.check_limit()
    }

    /// Writes a string: a length prefix carrying the UTF-8 byte count, then
    /// the UTF-8 bytes.
    pub fn str(&mut self, v: &str) -> (r: Result<(), Error>)
        ensures
            final(self).cfg() == old(self).cfg(),
            final(self).written() == old(self).written() + len_prefix(
                old(self).cfg(),
                vstd::utf8::encode_utf8(v@).len(),
            ) + vstd::utf8::encode_utf8(v@),
            r is Ok <==> within_limit(
                old(self).cfg(),
                old(self).written().len() + len_prefix(
                    old(self).cfg(),
                    vstd::utf8::encode_utf8(v@).len(),
                ).len() + vstd::utf8::encode_utf8(v@).len(),
            ),
            r matches Err(e) ==> e == limit_error(
                old(self).cfg(),
                old(self).written().len() + len_prefix(
                    old(self).cfg(),
                    vstd::utf8::encode_utf8(v@).len(),
                ).len() + vstd::utf8::encode_utf8(v@).len(),
            ),
    {
        let b: &[u8] = v.as_bytes();
        self.container_length(b.len());
        self.output.extend_from_slice(b);
        proof {
            assert(final(self).written() =~= old(self).written() + len_prefix(
                old(self).cfg(),
                vstd::utf8::encode_utf8(v@).len(),
            ) + vstd::utf8::encode_utf8(v@));
        }
        self.check_limit()
    }

    /// Appends raw bytes with no length prefix.
    pub fn bytes(&mut self, v: &[u8]) -> (r: Result<(), Error>)
        ensures
            final(self).cfg() == old(self).cfg(),
            final(self).written() == old(self).written() + v@,
            r is Ok <==> within_limit(old(self).cfg(), old(self).written().len() + v@.len()),
            r matches Err(e) ==> e == limit_error(
                old(self).cfg(),
                old(self).written().len() + v@.len(),
            ),
    {
        self.output.extend_from_slice(v);
        self.check_limit()
    }
}

} // verus!
