//! The decoder: bounds-checked primitive reads from a borrowed byte slice
//! under a [`Config`].
//!
//! The cursor is a position into the borrowed slice; each successful read
//! advances it by exactly the number of bytes its contract names, and a
//! failed read advances it by exactly the amount its contract names (most
//! reads leave it untouched on failure; a boolean read consumes the
//! offending byte). Contracts are stated over the model in [`crate::wire`]
//! and, for text, over the UTF-8 model of `vstd::utf8`.

use vstd::prelude::*;
use vstd::arithmetic::power2::{pow2, lemma_pow2_adds, lemma_pow2_pos, lemma2_to64};
use vstd::slice::{slice_subrange, slice_to_vec};
use vstd::string::StrSliceExecFns;
use vstd::utf8::{char_is_scalar, decode_utf8, encode_scalar, encode_utf8, valid_utf8};
use crate::config::{Config, ContainerLengthStrategy, EndiannessStrategy};
use crate::error::Error;
use crate::wire::{
    from_unsigned, le_value_of, lemma_le_value_of_bound, lemma_pow2_128, wire_value,
};

verus! {

/// The width in bytes of the configured container-length prefix.
pub open spec fn prefix_width(c: Config) -> nat {
    c.container_length_strategy.spec_width()
}

/// The container length denoted by the prefix at the front of `data`: the
/// prefix read in the configured order, truncated into `usize` as the
/// machine's pointer width allows.
pub open spec fn parsed_len(c: Config, data: Seq<u8>) -> nat
    recommends
        data.len() >= prefix_width(c),
{
    wire_value(data.take(prefix_width(c) as int), c.endianness_strategy) % (usize::MAX as nat + 1)
}

/// The window a character decode inspects: up to four leading bytes.
pub open spec fn char_window(data: Seq<u8>) -> Seq<u8> {
    if data.len() < 4 {
        data
    } else {
        data.take(4)
    }
}

/// What a character decode yields on `data`: the bytes it consumes and the
/// character, or `None` with zero consumption when `data` is empty or its
/// window is not UTF-8.
pub open spec fn char_parse(data: Seq<u8>) -> (nat, Option<char>) {
    if data.len() == 0 {
        (0, None)
    } else if !valid_utf8(char_window(data)) {
        (0, None)
    } else {
        let c = decode_utf8(char_window(data))[0];
        (encode_scalar(c as u32).len(), Some(c))
    }
}

/// Whether `e` is `InvalidUtf8` carrying exactly the bytes `b`.
pub open spec fn is_invalid_utf8_with(e: Error, b: Seq<u8>) -> bool {
    match e {
        Error::InvalidUtf8 { value } => value@ == b,
        _ => false,
    }
}

/// Relies on `core::str::from_utf8`: it returns `Ok` exactly on UTF-8 input,
/// and the returned string view is the decoding of that input.
pub assume_specification[ core::str::from_utf8 ](v: &[u8]) -> (r: Result<
    &str,
    core::str::Utf8Error,
>)
    ensures
        r is Ok <==> valid_utf8(v@),
        r matches Ok(s) ==> s@ == decode_utf8(v@) && encode_utf8(s@) == v@,
;

/// The error type of `core::str::from_utf8`, opaque to the codec: only its
/// presence is ever inspected.
#[verifier::external_type_specification]
#[verifier::external_body]
pub struct ExUtf8Error(core::str::Utf8Error);

/// Builds the string whose characters are `chars`, handed their ASCII
/// bytes: the verified route from a rendered digit sequence to a `String`.
pub(crate) fn ascii_string(bytes: &Vec<u8>, Ghost(chars): Ghost<Seq<char>>) -> (r: String)
    requires
        vstd::utf8::is_ascii_chars(chars),
        bytes@.len() == chars.len(),
        forall|i: int| 0 <= i < bytes@.len() ==> bytes@[i] == chars[i] as u8,
    ensures
        r@ == chars,
{
    proof {
        vstd::utf8::is_ascii_chars_encode_utf8(chars);
        assert(encode_utf8(chars) =~= bytes@);
        vstd::utf8::encode_utf8_valid_utf8(chars);
        vstd::utf8::encode_utf8_decode_utf8(chars);
    }
    match core::str::from_utf8(bytes.as_slice()) {
        Ok(s) => s.to_owned(),
        Err(_) => {
            // never reached: ASCII bytes are valid UTF-8
            String::new()
        },
    }
}

/// The decoder of one session: a borrowed view of the input bytes, the
/// cursor, and a copy of the configuration, all private; contracts speak of
/// them through [`Self::data`], [`Self::cursor`], [`Self::remaining`] and
/// [`Self::cfg`].
pub struct BinaryParser<'de> {
    input: &'de [u8],
    pos: usize,
    config: Config,
}

impl<'de> BinaryParser<'de> {
    /// The whole input of the session, never modified.
    pub closed spec fn data(&self) -> Seq<u8> {
        self.input@
    }

    /// How many bytes have been consumed.
    pub closed spec fn cursor(&self) -> nat {
        self.pos as nat
    }

    /// The bytes not yet consumed.
    pub open spec fn remaining(&self) -> Seq<u8> {
        self.data().skip(self.cursor() as int)
    }

    /// The configuration of this session, fixed at construction.
    pub closed spec fn cfg(&self) -> Config {
        self.config
    }

    /// The cursor never passes the end of the input.
    pub open spec fn wf(&self) -> bool {
        self.cursor() <= self.data().len()
    }

    pub fn new(input: &'de [u8], config: Config) -> (p: BinaryParser<'de>)
        ensures
            p.wf(),
            p.data() == input@,
            p.cursor() == 0,
            p.cfg() == config,
    {
        BinaryParser { input, pos: 0, config }
    }

    pub fn config(&self) -> (c: &Config)
        ensures
            *c == self.cfg(),
    {
        &self.config
    }

    /// How many bytes have been consumed so far.
    pub fn size(&self) -> (n: usize)
        ensures
            n == self.cursor(),
    {
        self.pos
    }

    /// Reads `n` bytes as an unsigned value in the configured byte order.
    /// The cursor does not move on failure.
    #[verifier::loop_isolation(false)]
    #[verifier::rlimit(30)]
    fn read_uint(&mut self, n: usize) -> (r: Result<u128, Error>)
        requires
            old(self).wf(),
            n <= 16,
        ensures
            final(self).wf(),
            final(self).data() == old(self).data(),
            final(self).cfg() == old(self).cfg(),
            r is Ok <==> old(self).remaining().len() >= n,
            r matches Ok(v) ==> final(self).cursor() == old(self).cursor() + n && v as nat
                == wire_value(
                old(self).remaining().take(n as int),
                old(self).cfg().endianness_strategy,
            ),
            r matches Err(e) ==> final(self).cursor() == old(self).cursor() && e == (
            Error::NoEnoughData {
                expected: n,
                available: old(self).remaining().len() as usize,
            }),
    {
        let avail: usize = self.input.len() - self.pos;
        if avail < n {
            return Err(Error::NoEnoughData { expected: n, available: avail });
        }
        let ghost w: Seq<u8> = self.remaining().take(n as int);
        proof {
            lemma2_to64();
            lemma_pow2_128();
        }
        let mut acc: u128 = 0;
        match self.config.endianness_strategy {
            EndiannessStrategy::Little => {
                let mut j: usize = n;
                while j > 0
                    invariant
                        j <= n,
                        acc as nat == le_value_of(w.subrange(j as int, n as int)),
                        (acc as nat) < pow2((8 * (n - j)) as nat),
                    decreases j,
                {
                    proof {
                        let sub = w.subrange(j - 1, n as int);
                        assert(sub.skip(1) =~= w.subrange(j as int, n as int));
                        lemma_pow2_adds((8 * (n - j)) as nat, 8);
                        lemma_pow2_pos((8 * (n - j)) as nat);
                        assert(pow2((8 * (n - j)) as nat) * 256 <= pow2(128)) by {
                            if 8 * (n - j) + 8 < 128 {
                                vstd::arithmetic::power2::lemma_pow2_strictly_increases(
                                    (8 * (n - j) + 8) as nat,
                                    128,
                                );
                            }
                        }
                    }
                    j = j - 1;
                    let b: u8 = self.input[self.pos + j];
                    acc = acc * 256 + (b as u128);
                }
                proof {
                    assert(w.subrange(0, n as int) =~= w);
                }
            },
            EndiannessStrategy::Big => {
                let mut i: usize = 0;
                while i < n
                    invariant
                        i <= n,
                        acc as nat == le_value_of(w.take(i as int).reverse()),
                        (acc as nat) < pow2((8 * i) as nat),
                    decreases n - i,
                {
                    proof {
                        assert(w.take(i + 1).reverse() =~= seq![w[i as int]] + w.take(
                            i as int,
                        ).reverse());
                        assert((seq![w[i as int]] + w.take(i as int).reverse()).skip(1) =~= w.take(
                            i as int,
                        ).reverse());
                        lemma_pow2_adds((8 * i) as nat, 8);
                        lemma_pow2_pos((8 * i) as nat);
                        assert(pow2((8 * i) as nat) * 256 <= pow2(128)) by {
                            if 8 * i + 8 < 128 {
                                vstd::arithmetic::power2::lemma_pow2_strictly_increases(
                                    (8 * i + 8) as nat,
                                    128,
                                );
                            }
                        }
                    }
                    let b: u8 = self.input[self.pos + i];
                    acc = acc * 256 + (b as u128);
                    i = i + 1;
                }
                proof {
                    assert(w.take(n as int) =~= w);
                }
            },
        }
        self.pos = self.pos + n;
        Ok(acc)
    }

    /// Reads one byte and accepts only 0 or 1. A byte that is neither is
    /// consumed and reported as `InvalidBoolValue`.
    pub fn bool(&mut self) -> (r: Result<bool, Error>)
        requires
            old(self).wf(),
        ensures
            final(self).wf(),
            final(self).data() == old(self).data(),
            final(self).cfg() == old(self).cfg(),
            r is Ok <==> old(self).remaining().len() >= 1 && (old(self).remaining()[0] == 0 || old(
                self,
            ).remaining()[0] == 1),
            r matches Ok(v) ==> final(self).cursor() == old(self).cursor() + 1 && v == (old(
                self,
            ).remaining()[0] == 1),
            r matches Err(e) ==> (if old(self).remaining().len() == 0 {
                final(self).cursor() == old(self).cursor() && e == (Error::NoEnoughData {
                    expected: 1,
                    available: 0,
                })
            } else {
                final(self).cursor() == old(self).cursor() + 1 && e == Error::InvalidBoolValue(
                    old(self).remaining()[0],
                )
            }),
    {
        if self.pos >= self.input.len() {
            return Err(Error::NoEnoughData { expected: 1, available: 0 });
        }
        let b: u8 = self.input[self.pos];
        self.pos = self.pos + 1;
        match b {
            0 => Ok(false),
            1 => Ok(true),
            _ => Err(Error::InvalidBoolValue(b)),
        }
    }

    pub fn u8(&mut self) -> (r: Result<u8, Error>)
        requires
            old(self).wf(),
        ensures
            final(self).wf(),
            final(self).data() == old(self).data(),
            final(self).cfg() == old(self).cfg(),
            r is Ok <==> old(self).remaining().len() >= 1,
            r matches Ok(v) ==> final(self).cursor() == old(self).cursor() + 1 && v == old(
                self,
            ).remaining()[0],
            r matches Err(e) ==> final(self).cursor() == old(self).cursor() && e == (
            Error::NoEnoughData { expected: 1, available: 0 }),
    {
        if self.pos >= self.input.len() {
            return Err(Error::NoEnoughData { expected: 1, available: 0 });
        }
        let b: u8 = self.input[self.pos];
        self.pos = self.pos + 1;
        Ok(b)
    }

    pub fn u16(&mut self) -> (r: Result<u16, Error>)
        requires
            old(self).wf(),
        ensures
            final(self).wf(),
            final(self).data() == old(self).data(),
            final(self).cfg() == old(self).cfg(),
            r is Ok <==> old(self).remaining().len() >= 2,
            r matches Ok(v) ==> final(self).cursor() == old(self).cursor() + 2 && v as nat
                == wire_value(old(self).remaining().take(2), old(self).cfg().endianness_strategy),
            r matches Err(e) ==> final(self).cursor() == old(self).cursor() && e == (
            Error::NoEnoughData {
                expected: 2,
                available: old(self).remaining().len() as usize,
            }),
    {
        match self.read_uint(2) {
            Ok(v) => {
                proof {
                    lemma2_to64();
                    vstd::arithmetic::power2::lemma2_to64_rest();
                    lemma_uint_fits(
                        old(self).remaining(),
                        2,
                        old(self).cfg().endianness_strategy,
                        16,
                    );
                }
                Ok(v as u16)
            },
            Err(e) => Err(e),
        }
    }

    pub fn u32(&mut self) -> (r: Result<u32, Error>)
        requires
            old(self).wf(),
        ensures
            final(self).wf(),
            final(self).data() == old(self).data(),
            final(self).cfg() == old(self).cfg(),
            r is Ok <==> old(self).remaining().len() >= 4,
            r matches Ok(v) ==> final(self).cursor() == old(self).cursor() + 4 && v as nat
                == wire_value(old(self).remaining().take(4), old(self).cfg().endianness_strategy),
            r matches Err(e) ==> final(self).cursor() == old(self).cursor() && e == (
            Error::NoEnoughData {
                expected: 4,
                available: old(self).remaining().len() as usize,
            }),
    {
        match self.read_uint(4) {
            Ok(v) => {
                proof {
                    lemma2_to64();
                    vstd::arithmetic::power2::lemma2_to64_rest();
                    lemma_uint_fits(
                        old(self).remaining(),
                        4,
                        old(self).cfg().endianness_strategy,
                        32,
                    );
                }
                Ok(v as u32)
            },
            Err(e) => Err(e),
        }
    }

    pub fn u64(&mut self) -> (r: Result<u64, Error>)
        requires
            old(self).wf(),
        ensures
            final(self).wf(),
            final(self).data() == old(self).data(),
            final(self).cfg() == old(self).cfg(),
            r is Ok <==> old(self).remaining().len() >= 8,
            r matches Ok(v) ==> final(self).cursor() == old(self).cursor() + 8 && v as nat
                == wire_value(old(self).remaining().take(8), old(self).cfg().endianness_strategy),
            r matches Err(e) ==> final(self).cursor() == old(self).cursor() && e == (
            Error::NoEnoughData {
                expected: 8,
                available: old(self).remaining().len() as usize,
            }),
    {
        match self.read_uint(8) {
            Ok(v) => {
                proof {
                    lemma2_to64();
                    vstd::arithmetic::power2::lemma2_to64_rest();
                    lemma_uint_fits(
                        old(self).remaining(),
                        8,
                        old(self).cfg().endianness_strategy,
                        64,
                    );
                }
                Ok(v as u64)
            },
            Err(e) => Err(e),
        }
    }

    pub fn u128(&mut self) -> (r: Result<u128, Error>)
        requires
            old(self).wf(),
        ensures
            final(self).wf(),
            final(self).data() == old(self).data(),
            final(self).cfg() == old(self).cfg(),
            r is Ok <==> old(self).remaining().len() >= 16,
            r matches Ok(v) ==> final(self).cursor() == old(self).cursor() + 16 && v as nat
                == wire_value(old(self).remaining().take(16), old(self).cfg().endianness_strategy),
            r matches Err(e) ==> final(self).cursor() == old(self).cursor() && e == (
            Error::NoEnoughData {
                expected: 16,
                available: old(self).remaining().len() as usize,
            }),
    {
        self.read_uint(16)
    }

    pub fn i8(&mut self) -> (r: Result<i8, Error>)
        requires
            old(self).wf(),
        ensures
            final(self).wf(),
            final(self).data() == old(self).data(),
            final(self).cfg() == old(self).cfg(),
            r is Ok <==> old(self).remaining().len() >= 1,
            r matches Ok(v) ==> final(self).cursor() == old(self).cursor() + 1 && v as int
                == from_unsigned(old(self).remaining()[0] as nat, 1),
            r matches Err(e) ==> final(self).cursor() == old(self).cursor() && e == (
            Error::NoEnoughData { expected: 1, available: 0 }),
    {
        proof {
            lemma2_to64();
        }
        match self.u8() {
            Err(e) => Err(e),
            Ok(u) => {
                proof {
                    vstd::arithmetic::div_mod::lemma_small_mod(u as nat, pow2(8));
                }
                if u < 0x80 {
                    Ok(u as i8)
                } else {
                    Ok((((u as i16) - 0x100) as i8))
                }
            },
        }
    }

    pub fn i16(&mut self) -> (r: Result<i16, Error>)
        requires
            old(self).wf(),
        ensures
            final(self).wf(),
            final(self).data() == old(self).data(),
            final(self).cfg() == old(self).cfg(),
            r is Ok <==> old(self).remaining().len() >= 2,
            r matches Ok(v) ==> final(self).cursor() == old(self).cursor() + 2 && v as int
                == from_unsigned(
                wire_value(old(self).remaining().take(2), old(self).cfg().endianness_strategy),
                2,
            ),
            r matches Err(e) ==> final(self).cursor() == old(self).cursor() && e == (
            Error::NoEnoughData {
                expected: 2,
                available: old(self).remaining().len() as usize,
            }),
    {
        proof {
            lemma2_to64();
        }
        match self.u16() {
            Err(e) => Err(e),
            Ok(u) => {
                proof {
                    vstd::arithmetic::div_mod::lemma_small_mod(u as nat, pow2(16));
                }
                if u < 0x8000 {
                    Ok(u as i16)
                } else {
                    Ok((((u as i32) - 0x10000) as i16))
                }
            },
        }
    }

    pub fn i32(&mut self) -> (r: Result<i32, Error>)
        requires
            old(self).wf(),
        ensures
            final(self).wf(),
            final(self).data() == old(self).data(),
            final(self).cfg() == old(self).cfg(),
            r is Ok <==> old(self).remaining().len() >= 4,
            r matches Ok(v) ==> final(self).cursor() == old(self).cursor() + 4 && v as int
                == from_unsigned(
                wire_value(old(self).remaining().take(4), old(self).cfg().endianness_strategy),
                4,
            ),
            r matches Err(e) ==> final(self).cursor() == old(self).cursor() && e == (
            Error::NoEnoughData {
                expected: 4,
                available: old(self).remaining().len() as usize,
            }),
    {
        proof {
            lemma2_to64();
        }
        match self.u32() {
            Err(e) => Err(e),
            Ok(u) => {
                proof {
                    vstd::arithmetic::div_mod::lemma_small_mod(u as nat, pow2(32));
                }
                if u < 0x8000_0000 {
                    Ok(u as i32)
                } else {
                    Ok((((u as i64) - 0x1_0000_0000) as i32))
                }
            },
        }
    }

    pub fn i64(&mut self) -> (r: Result<i64, Error>)
        requires
            old(self).wf(),
        ensures
            final(self).wf(),
            final(self).data() == old(self).data(),
            final(self).cfg() == old(self).cfg(),
            r is Ok <==> old(self).remaining().len() >= 8,
            r matches Ok(v) ==> final(self).cursor() == old(self).cursor() + 8 && v as int
                == from_unsigned(
                wire_value(old(self).remaining().take(8), old(self).cfg().endianness_strategy),
                8,
            ),
            r matches Err(e) ==> final(self).cursor() == old(self).cursor() && e == (
            Error::NoEnoughData {
                expected: 8,
                available: old(self).remaining().len() as usize,
            }),
    {
        proof {
            lemma2_to64();
            vstd::arithmetic::power2::lemma2_to64_rest();
        }
        match self.u64() {
            Err(e) => Err(e),
            Ok(u) => {
                proof {
                    vstd::arithmetic::div_mod::lemma_small_mod(u as nat, pow2(64));
                }
                if u < 0x8000_0000_0000_0000 {
                    Ok(u as i64)
                } else {
                    Ok((((u as i128) - 0x1_0000_0000_0000_0000) as i64))
                }
            },
        }
    }

    pub fn i128(&mut self) -> (r: Result<i128, Error>)
        requires
            old(self).wf(),
        ensures
            final(self).wf(),
            final(self).data() == old(self).data(),
            final(self).cfg() == old(self).cfg(),
            r is Ok <==> old(self).remaining().len() >= 16,
            r matches Ok(v) ==> final(self).cursor() == old(self).cursor() + 16 && v as int
                == from_unsigned(
                wire_value(old(self).remaining().take(16), old(self).cfg().endianness_strategy),
                16,
            ),
            r matches Err(e) ==> final(self).cursor() == old(self).cursor() && e == (
            Error::NoEnoughData {
                expected: 16,
                available: old(self).remaining().len() as usize,
            }),
    {
        proof {
            lemma2_to64();
            lemma_pow2_128();
        }
        match self.u128() {
            Err(e) => Err(e),
            Ok(u) => {
                proof {
                    vstd::arithmetic::div_mod::lemma_small_mod(u as nat, pow2(128));
                }
                if u < 0x8000_0000_0000_0000_0000_0000_0000_0000 {
                    Ok(u as i128)
                } else {
                    Ok((-((u128::MAX - u) as i128)) - 1)
                }
            },
        }
    }

    /// Reads one character: inspects up to four leading bytes, validates
    /// them as UTF-8, and consumes exactly the first character's encoded
    /// length. An empty input raises `NoEnoughData`; a window that is not
    /// UTF-8 raises `InvalidUtf8` carrying all remaining bytes, and consumes
    /// nothing.
    pub fn char(&mut self) -> (r: Result<char, Error>)
        requires
            old(self).wf(),
        ensures
            final(self).wf(),
            final(self).data() == old(self).data(),
            final(self).cfg() == old(self).cfg(),
            final(self).cursor() == old(self).cursor() + char_parse(old(self).remaining()).0,
            r is Ok <==> char_parse(old(self).remaining()).1 is Some,
            r matches Ok(c) ==> char_parse(old(self).remaining()).1 == Some(c),
            r matches Err(e) ==> (if old(self).remaining().len() == 0 {
                e == (Error::NoEnoughData { expected: 1, available: 0 })
            } else {
                is_invalid_utf8_with(e, old(self).remaining())
            }),
    {
        let avail: usize = self.input.len() - self.pos;
        if avail == 0 {
            return Err(Error::NoEnoughData { expected: 1, available: 0 });
        }
        let k: usize = if avail < 4 {
            avail
        } else {
            4
        };
        let inp: &'de [u8] = self.input;
        let window: &[u8] = slice_subrange(inp, self.pos, self.pos + k);
        proof {
            assert(window@ =~= char_window(old(self).remaining()));
        }
        match core::str::from_utf8(window) {
            Err(_) => {
                let rest: &[u8] = slice_subrange(inp, self.pos, inp.len());
                proof {
                    assert(rest@ =~= old(self).remaining());
                }
                Err(Error::InvalidUtf8 { value: slice_to_vec(rest) })
            },
            Ok(s) => {
                proof {
                    if s@.len() == 0 {
                        assert(encode_utf8(s@) =~= Seq::<u8>::empty());
                    }
                    assert(s@.len() > 0);
                }
                let c: char = s.get_char(0);
                proof {
                    char_is_scalar(c);
                    assert(encode_utf8(s@) == encode_scalar(s@[0] as u32) + encode_utf8(
                        s@.drop_first(),
                    ));
                }
                let v32: u32 = c as u32;
                let clen: usize = if v32 < 0x80 {
                    1
                } else if v32 < 0x800 {
                    2
                } else if v32 < 0x10000 {
                    3
                } else {
                    4
                };
                proof {
                    assert(clen == encode_scalar(c as u32).len());
                    assert(encode_scalar(c as u32).len() <= window@.len());
                }
                self.pos = self.pos + clen;
                Ok(c)
            },
        }
    }

    /// Reads a string: the length prefix, then that many bytes validated as
    /// UTF-8 in one pass, returned as a borrowed view into the input. On a
    /// short or invalid body the prefix stays consumed and the body does
    /// not.
    pub fn string(&mut self) -> (r: Result<&'de str, Error>)
        requires
            old(self).wf(),
        ensures
            final(self).wf(),
            final(self).data() == old(self).data(),
            final(self).cfg() == old(self).cfg(),
            ({
                let c = old(self).cfg();
                let rem = old(self).remaining();
                let w = prefix_width(c);
                let len = parsed_len(c, rem);
                let body = rem.skip(w as int).take(len as int);
                &&& (r is Ok <==> rem.len() >= w && rem.len() - w >= len && valid_utf8(body))
                &&& (r matches Ok(s) ==> final(self).cursor() == old(self).cursor() + w + len
                    && s@ == decode_utf8(body) && encode_utf8(s@) == body)
                &&& (rem.len() < w ==> final(self).cursor() == old(self).cursor()
                    && (r matches Err(e) && e == (Error::NoEnoughData {
                    expected: w as usize,
                    available: rem.len() as usize,
                })))
                &&& (rem.len() >= w && rem.len() - w < len ==> final(self).cursor()
                    == old(self).cursor() + w && (r matches Err(e) && e == (Error::NoEnoughData {
                    expected: len as usize,
                    available: (rem.len() - w) as usize,
                })))
                &&& (rem.len() >= w && rem.len() - w >= len && !valid_utf8(body)
                    ==> final(self).cursor() == old(self).cursor() + w && (r matches Err(e)
                    && is_invalid_utf8_with(e, body)))
            }),
    {
        let len: usize = match self.container_size() {
            Ok(n) => n,
            Err(e) => {
                return Err(e);
            },
        };
        let avail: usize = self.input.len() - self.pos;
        if avail < len {
            return Err(Error::NoEnoughData { expected: len, available: avail });
        }
        let inp: &'de [u8] = self.input;
        let body: &'de [u8] = slice_subrange(inp, self.pos, self.pos + len);
        proof {
            let c = old(self).cfg();
            let rem = old(self).remaining();
            assert(body@ =~= rem.skip(prefix_width(c) as int).take(parsed_len(c, rem) as int));
        }
        match core::str::from_utf8(body) {
            Err(_) => Err(Error::InvalidUtf8 { value: slice_to_vec(body) }),
            Ok(s) => {
                self.pos = self.pos + len;
                Ok(s)
            },
        }
    }

    /// Returns `size` raw bytes, borrowed from the input, and advances the
    /// cursor past them. The cursor does not move on failure.
    pub fn bytes(&mut self, size: usize) -> (r: Result<&'de [u8], Error>)
        requires
            old(self).wf(),
        ensures
            final(self).wf(),
            final(self).data() == old(self).data(),
            final(self).cfg() == old(self).cfg(),
            r is Ok <==> old(self).remaining().len() >= size,
            r matches Ok(b) ==> final(self).cursor() == old(self).cursor() + size && b@ == old(
                self,
            ).remaining().take(size as int),
            r matches Err(e) ==> final(self).cursor() == old(self).cursor() && e == (
            Error::NoEnoughData {
                expected: size,
                available: old(self).remaining().len() as usize,
            }),
    {
        let avail: usize = self.input.len() - self.pos;
        if avail < size {
            return Err(Error::NoEnoughData { expected: size, available: avail });
        }
        let inp: &'de [u8] = self.input;
        let b: &'de [u8] = slice_subrange(inp, self.pos, self.pos + size);
        proof {
            assert(b@ =~= old(self).remaining().take(size as int));
        }
        self.pos = self.pos + size;
        Ok(b)
    }

    /// Reads the container-length prefix: the configured width, in the
    /// configured byte order, truncated to `usize`. The cursor does not move
    /// on failure.
    pub fn container_size(&mut self) -> (r: Result<usize, Error>)
        requires
            old(self).wf(),
        ensures
            final(self).wf(),
            final(self).data() == old(self).data(),
            final(self).cfg() == old(self).cfg(),
            r is Ok <==> old(self).remaining().len() >= prefix_width(old(self).cfg()),
            r matches Ok(n) ==> final(self).cursor() == old(self).cursor() + prefix_width(
                old(self).cfg(),
            ) && n as nat == parsed_len(old(self).cfg(), old(self).remaining()),
            r matches Err(e) ==> final(self).cursor() == old(self).cursor() && e == (
            Error::NoEnoughData {
                expected: prefix_width(old(self).cfg()) as usize,
                available: old(self).remaining().len() as usize,
            }),
    {
        proof {
            lemma2_to64();
            vstd::arithmetic::power2::lemma2_to64_rest();
            lemma_pow2_128();
        }
        let w: usize = self.config.container_length_strategy.width();
        let ghost window = old(self).remaining().take(prefix_width(old(self).cfg()) as int);
        match self.read_uint(w) {
            Err(e) => Err(e),
            Ok(raw) => {
                let t: u128 = raw % ((usize::MAX as u128) + 1);
                Ok(t as usize)
            },
        }
    }
}

/// An `n`-byte window denotes a value that fits `bits` bits.
proof fn lemma_uint_fits(rem: Seq<u8>, n: nat, e: EndiannessStrategy, bits: nat)
    requires
        rem.len() >= n,
        8 * n == bits,
    ensures
        wire_value(rem.take(n as int), e) < pow2(bits),
{
    lemma_le_value_of_bound(rem.take(n as int));
    lemma_le_value_of_bound(rem.take(n as int).reverse());
}

} // verus!
