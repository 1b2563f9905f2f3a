//! The decode half of the value codec contract: [`BinaryParse`], with
//! built-in implementations mirroring those of [`crate::ser`].
//!
//! Each implementation fixes three things about a parse of `Self` on given
//! remaining input: exactly how many bytes it consumes, whether it succeeds,
//! and which values it may yield. Consumption is exact even on failure, so
//! the quirks of the format are part of the contract: a failed boolean read
//! consumes the offending byte, and a failed string read leaves its length
//! prefix consumed.

use vstd::prelude::*;
use vstd::utf8::{decode_utf8, encode_utf8, valid_utf8};
use crate::config::{Config, OptionalStrategy};
use crate::error::Error;
use crate::parser::{char_parse, parsed_len, prefix_width, BinaryParser};
use crate::wire::{from_unsigned, wire_value};

verus! {

/// The value codec contract, decode half. `consumed` is how far the cursor
/// moves, on success and on failure alike; `parse_ok` says on which inputs
/// the parse succeeds; `parses` says which values it may yield — exact for
/// scalars and containers, up to UTF-8 content for strings.
pub trait BinaryParse: Sized {
    /// How many bytes a parse of `Self` consumes on `data`.
    spec fn consumed(c: Config, data: Seq<u8>) -> nat;

    /// Whether a parse of `Self` succeeds on `data`.
    spec fn parse_ok(c: Config, data: Seq<u8>) -> bool;

    /// Whether a successful parse of `Self` on `data` may yield `v`.
    spec fn parses(c: Config, data: Seq<u8>, v: Self) -> bool;

    /// A parse never consumes more than the input holds.
    proof fn consumed_le(c: Config, data: Seq<u8>)
        ensures
            Self::consumed(c, data) <= data.len(),
    ;

    fn binary_parse(parser: &mut BinaryParser) -> (r: Result<Self, Error>)
        requires
            old(parser).wf(),
        ensures
            final(parser).wf(),
            final(parser).data() == old(parser).data(),
            final(parser).cfg() == old(parser).cfg(),
            final(parser).cursor() == old(parser).cursor() + Self::consumed(
                old(parser).cfg(),
                old(parser).remaining(),
            ),
            r is Ok <==> Self::parse_ok(old(parser).cfg(), old(parser).remaining()),
            r matches Ok(v) ==> Self::parses(old(parser).cfg(), old(parser).remaining(), v),
    ;

    /// Parses in place: on success the parsed value replaces `self`, on
    /// failure `self` is untouched.
    fn binary_parse_mut(&mut self, parser: &mut BinaryParser) -> (r: Result<(), Error>)
        requires
            old(parser).wf(),
        ensures
            final(parser).wf(),
            final(parser).data() == old(parser).data(),
            final(parser).cfg() == old(parser).cfg(),
            final(parser).cursor() == old(parser).cursor() + Self::consumed(
                old(parser).cfg(),
                old(parser).remaining(),
            ),
            r is Ok <==> Self::parse_ok(old(parser).cfg(), old(parser).remaining()),
            r is Ok ==> Self::parses(old(parser).cfg(), old(parser).remaining(), *final(self)),
            r is Err ==> *final(self) == *old(self),
    {
        match Self::binary_parse(parser) {
            Ok(v) => {
                *self = v;
                Ok(())
            },
            Err(e) => Err(e),
        }
    }
}

/// Parses a value of type `T` from `parser`: the free-function form of
/// [`BinaryParse::binary_parse`], with the same contract.
pub fn binary_parse<T: BinaryParse>(parser: &mut BinaryParser) -> (r: Result<T, Error>)
    requires
        old(parser).wf(),
    ensures
        final(parser).wf(),
        final(parser).data() == old(parser).data(),
        final(parser).cfg() == old(parser).cfg(),
        final(parser).cursor() == old(parser).cursor() + T::consumed(
            old(parser).cfg(),
            old(parser).remaining(),
        ),
        r is Ok <==> T::parse_ok(old(parser).cfg(), old(parser).remaining()),
        r matches Ok(v) ==> T::parses(old(parser).cfg(), old(parser).remaining(), v),
{
    T::binary_parse(parser)
}

impl BinaryParse for bool {
    open spec fn consumed(c: Config, data: Seq<u8>) -> nat {
        if data.len() == 0 {
            0
        } else {
            1
        }
    }

    open spec fn parse_ok(c: Config, data: Seq<u8>) -> bool {
        data.len() >= 1 && (data[0] == 0 || data[0] == 1)
    }

    open spec fn parses(c: Config, data: Seq<u8>, v: Self) -> bool {
        Self::parse_ok(c, data) && v == (data[0] == 1)
    }

    proof fn consumed_le(c: Config, data: Seq<u8>) {
    }

    fn binary_parse(parser: &mut BinaryParser) -> (r: Result<Self, Error>)
        ensures
            r matches Err(e) ==> (if old(parser).remaining().len() == 0 {
                e == (Error::NoEnoughData { expected: 1, available: 0 })
            } else {
                e == Error::InvalidBoolValue(old(parser).remaining()[0])
            }),
    {
        parser.bool()
    }
}

impl BinaryParse for u8 {
    open spec fn consumed(c: Config, data: Seq<u8>) -> nat {
        if data.len() >= 1 {
            1
        } else {
            0
        }
    }

    open spec fn parse_ok(c: Config, data: Seq<u8>) -> bool {
        data.len() >= 1
    }

    open spec fn parses(c: Config, data: Seq<u8>, v: Self) -> bool {
        Self::parse_ok(c, data) && v == data[0]
    }

    proof fn consumed_le(c: Config, data: Seq<u8>) {
    }

    fn binary_parse(parser: &mut BinaryParser) -> (r: Result<Self, Error>)
        ensures
            r matches Err(e) ==> e == (Error::NoEnoughData { expected: 1, available: 0 }),
    {
        parser.u8()
    }
}

impl BinaryParse for u16 {
    open spec fn consumed(c: Config, data: Seq<u8>) -> nat {
        if data.len() >= 2 {
            2
        } else {
            0
        }
    }

    open spec fn parse_ok(c: Config, data: Seq<u8>) -> bool {
        data.len() >= 2
    }

    open spec fn parses(c: Config, data: Seq<u8>, v: Self) -> bool {
        Self::parse_ok(c, data) && v as nat == wire_value(data.take(2), c.endianness_strategy)
    }

    proof fn consumed_le(c: Config, data: Seq<u8>) {
    }

    fn binary_parse(parser: &mut BinaryParser) -> (r: Result<Self, Error>)
        ensures
            r matches Err(e) ==> e == (Error::NoEnoughData {
                expected: 2,
                available: old(parser).remaining().len() as usize,
            }),
    {
        parser.u16()
    }
}

impl BinaryParse for u32 {
    open spec fn consumed(c: Config, data: Seq<u8>) -> nat {
        if data.len() >= 4 {
            4
        } else {
            0
        }
    }

    open spec fn parse_ok(c: Config, data: Seq<u8>) -> bool {
        data.len() >= 4
    }

    open spec fn parses(c: Config, data: Seq<u8>, v: Self) -> bool {
        Self::parse_ok(c, data) && v as nat == wire_value(data.take(4), c.endianness_strategy)
    }

    proof fn consumed_le(c: Config, data: Seq<u8>) {
    }

    fn binary_parse(parser: &mut BinaryParser) -> (r: Result<Self, Error>)
        ensures
            r matches Err(e) ==> e == (Error::NoEnoughData {
                expected: 4,
                available: old(parser).remaining().len() as usize,
            }),
    {
        parser.u32()
    }
}

impl BinaryParse for u64 {
    open spec fn consumed(c: Config, data: Seq<u8>) -> nat {
        if data.len() >= 8 {
            8
        } else {
            0
        }
    }

    open spec fn parse_ok(c: Config, data: Seq<u8>) -> bool {
        data.len() >= 8
    }

    open spec fn parses(c: Config, data: Seq<u8>, v: Self) -> bool {
        Self::parse_ok(c, data) && v as nat == wire_value(data.take(8), c.endianness_strategy)
    }

    proof fn consumed_le(c: Config, data: Seq<u8>) {
    }

    fn binary_parse(parser: &mut BinaryParser) -> (r: Result<Self, Error>)
        ensures
            r matches Err(e) ==> e == (Error::NoEnoughData {
                expected: 8,
                available: old(parser).remaining().len() as usize,
            }),
    {
        parser.u64()
    }
}

impl BinaryParse for u128 {
    open spec fn consumed(c: Config, data: Seq<u8>) -> nat {
        if data.len() >= 16 {
            16
        } else {
            0
        }
    }

    open spec fn parse_ok(c: Config, data: Seq<u8>) -> bool {
        data.len() >= 16
    }

    open spec fn parses(c: Config, data: Seq<u8>, v: Self) -> bool {
        Self::parse_ok(c, data) && v as nat == wire_value(data.take(16), c.endianness_strategy)
    }

    proof fn consumed_le(c: Config, data: Seq<u8>) {
    }

    fn binary_parse(parser: &mut BinaryParser) -> (r: Result<Self, Error>)
        ensures
            r matches Err(e) ==> e == (Error::NoEnoughData {
                expected: 16,
                available: old(parser).remaining().len() as usize,
            }),
    {
        parser.u128()
    }
}

impl BinaryParse for i8 {
    open spec fn consumed(c: Config, data: Seq<u8>) -> nat {
        if data.len() >= 1 {
            1
        } else {
            0
        }
    }

    open spec fn parse_ok(c: Config, data: Seq<u8>) -> bool {
        data.len() >= 1
    }

    open spec fn parses(c: Config, data: Seq<u8>, v: Self) -> bool {
        Self::parse_ok(c, data) && v as int == from_unsigned(data[0] as nat, 1)
    }

    proof fn consumed_le(c: Config, data: Seq<u8>) {
    }

    fn binary_parse(parser: &mut BinaryParser) -> (r: Result<Self, Error>)
        ensures
            r matches Err(e) ==> e == (Error::NoEnoughData { expected: 1, available: 0 }),
    {
        parser.i8()
    }
}

impl BinaryParse for i16 {
    open spec fn consumed(c: Config, data: Seq<u8>) -> nat {
        if data.len() >= 2 {
            2
        } else {
            0
        }
    }

    open spec fn parse_ok(c: Config, data: Seq<u8>) -> bool {
        data.len() >= 2
    }

    open spec fn parses(c: Config, data: Seq<u8>, v: Self) -> bool {
        Self::parse_ok(c, data) && v as int == from_unsigned(
            wire_value(data.take(2), c.endianness_strategy),
            2,
        )
    }

    proof fn consumed_le(c: Config, data: Seq<u8>) {
    }

    fn binary_parse(parser: &mut BinaryParser) -> (r: Result<Self, Error>)
        ensures
            r matches Err(e) ==> e == (Error::NoEnoughData {
                expected: 2,
                available: old(parser).remaining().len() as usize,
            }),
    {
        parser.i16()
    }
}

impl BinaryParse for i32 {
    open spec fn consumed(c: Config, data: Seq<u8>) -> nat {
        if data.len() >= 4 {
            4
        } else {
            0
        }
    }

    open spec fn parse_ok(c: Config, data: Seq<u8>) -> bool {
        data.len() >= 4
    }

    open spec fn parses(c: Config, data: Seq<u8>, v: Self) -> bool {
        Self::parse_ok(c, data) && v as int == from_unsigned(
            wire_value(data.take(4), c.endianness_strategy),
            4,
        )
    }

    proof fn consumed_le(c: Config, data: Seq<u8>) {
    }

    fn binary_parse(parser: &mut BinaryParser) -> (r: Result<Self, Error>)
        ensures
            r matches Err(e) ==> e == (Error::NoEnoughData {
                expected: 4,
                available: old(parser).remaining().len() as usize,
            }),
    {
        parser.i32()
    }
}

impl BinaryParse for i64 {
    open spec fn consumed(c: Config, data: Seq<u8>) -> nat {
        if data.len() >= 8 {
            8
        } else {
            0
        }
    }

    open spec fn parse_ok(c: Config, data: Seq<u8>) -> bool {
        data.len() >= 8
    }

    open spec fn parses(c: Config, data: Seq<u8>, v: Self) -> bool {
        Self::parse_ok(c, data) && v as int == from_unsigned(
            wire_value(data.take(8), c.endianness_strategy),
            8,
        )
    }

    proof fn consumed_le(c: Config, data: Seq<u8>) {
    }

    fn binary_parse(parser: &mut BinaryParser) -> (r: Result<Self, Error>)
        ensures
            r matches Err(e) ==> e == (Error::NoEnoughData {
                expected: 8,
                available: old(parser).remaining().len() as usize,
            }),
    {
        parser.i64()
    }
}

impl BinaryParse for i128 {
    open spec fn consumed(c: Config, data: Seq<u8>) -> nat {
        if data.len() >= 16 {
            16
        } else {
            0
        }
    }

    open spec fn parse_ok(c: Config, data: Seq<u8>) -> bool {
        data.len() >= 16
    }

    open spec fn parses(c: Config, data: Seq<u8>, v: Self) -> bool {
        Self::parse_ok(c, data) && v as int == from_unsigned(
            wire_value(data.take(16), c.endianness_strategy),
            16,
        )
    }

    proof fn consumed_le(c: Config, data: Seq<u8>) {
    }

    fn binary_parse(parser: &mut BinaryParser) -> (r: Result<Self, Error>)
        ensures
            r matches Err(e) ==> e == (Error::NoEnoughData {
                expected: 16,
                available: old(parser).remaining().len() as usize,
            }),
    {
        parser.i128()
    }
}

impl BinaryParse for char {
    open spec fn consumed(c: Config, data: Seq<u8>) -> nat {
        char_parse(data).0
    }

    open spec fn parse_ok(c: Config, data: Seq<u8>) -> bool {
        char_parse(data).1 is Some
    }

    open spec fn parses(c: Config, data: Seq<u8>, v: Self) -> bool {
        char_parse(data).1 == Some(v)
    }

    proof fn consumed_le(c: Config, data: Seq<u8>) {
        if data.len() > 0 && valid_utf8(crate::parser::char_window(data)) {
            let w = crate::parser::char_window(data);
            let chars = decode_utf8(w);
            vstd::utf8::decode_utf8_encode_utf8(w);
            if chars.len() == 0 {
                assert(encode_utf8(chars) =~= Seq::<u8>::empty());
                assert(w.len() == 0);
            }
            assert(encode_utf8(chars) == vstd::utf8::encode_scalar(chars[0] as u32) + encode_utf8(
                chars.drop_first(),
            ));
        }
    }

    fn binary_parse(parser: &mut BinaryParser) -> (r: Result<Self, Error>)
        ensures
            r matches Err(e) ==> (if old(parser).remaining().len() == 0 {
                e == (Error::NoEnoughData { expected: 1, available: 0 })
            } else {
                crate::parser::is_invalid_utf8_with(e, old(parser).remaining())
            }),
    {
        parser.char()
    }
}

impl BinaryParse for () {
    open spec fn consumed(c: Config, data: Seq<u8>) -> nat {
        0
    }

    open spec fn parse_ok(c: Config, data: Seq<u8>) -> bool {
        true
    }

    open spec fn parses(c: Config, data: Seq<u8>, v: Self) -> bool {
        true
    }

    proof fn consumed_le(c: Config, data: Seq<u8>) {
    }

    fn binary_parse(parser: &mut BinaryParser) -> (r: Result<Self, Error>) {
        Ok(())
    }
}

/// The body bytes a string parse on `data` covers: after the length prefix,
/// as many bytes as the prefix names.
pub open spec fn str_body(c: Config, data: Seq<u8>) -> Seq<u8> {
    data.skip(prefix_width(c) as int).take(parsed_len(c, data) as int)
}

impl BinaryParse for String {
    open spec fn consumed(c: Config, data: Seq<u8>) -> nat {
        if data.len() < prefix_width(c) {
            0
        } else if Self::parse_ok(c, data) {
            prefix_width(c) + parsed_len(c, data)
        } else {
            prefix_width(c)
        }
    }

    open spec fn parse_ok(c: Config, data: Seq<u8>) -> bool {
        &&& data.len() >= prefix_width(c)
        &&& data.len() - prefix_width(c) >= parsed_len(c, data)
        &&& valid_utf8(str_body(c, data))
    }

    open spec fn parses(c: Config, data: Seq<u8>, v: Self) -> bool {
        Self::parse_ok(c, data) && v@ == decode_utf8(str_body(c, data)) && encode_utf8(v@)
            == str_body(c, data)
    }

    proof fn consumed_le(c: Config, data: Seq<u8>) {
    }

    fn binary_parse(parser: &mut BinaryParser) -> (r: Result<Self, Error>)
        ensures
            r matches Err(e) ==> ({
                let c = old(parser).cfg();
                let rem = old(parser).remaining();
                let w = prefix_width(c);
                let len = parsed_len(c, rem);
                if rem.len() < w {
                    e == (Error::NoEnoughData {
                        expected: w as usize,
                        available: rem.len() as usize,
                    })
                } else if rem.len() - w < len {
                    e == (Error::NoEnoughData {
                        expected: len as usize,
                        available: (rem.len() - w) as usize,
                    })
                } else {
                    crate::parser::is_invalid_utf8_with(e, str_body(c, rem))
                }
            }),
    {
        match parser.string() {
            Err(e) => Err(e),
            Ok(s) => Ok(s.to_owned()),
        }
    }
}

impl<T: BinaryParse> BinaryParse for Option<T> {
    open spec fn consumed(c: Config, data: Seq<u8>) -> nat {
        match c.optional_strategy {
            OptionalStrategy::Tagged => {
                if data.len() == 0 {
                    0
                } else if data[0] != 1 {
                    1
                } else {
                    1 + T::consumed(c, data.skip(1))
                }
            },
            OptionalStrategy::Untagged => T::consumed(c, data),
        }
    }

    open spec fn parse_ok(c: Config, data: Seq<u8>) -> bool {
        match c.optional_strategy {
            OptionalStrategy::Tagged => data.len() >= 1 && (data[0] == 0 || (data[0] == 1
                && T::parse_ok(c, data.skip(1)))),
            OptionalStrategy::Untagged => true,
        }
    }

    open spec fn parses(c: Config, data: Seq<u8>, v: Self) -> bool {
        match c.optional_strategy {
            OptionalStrategy::Tagged => {
                &&& Self::parse_ok(c, data)
                &&& (data[0] == 0 ==> v is None)
                &&& (data[0] == 1 ==> (v matches Some(x) && T::parses(c, data.skip(1), x)))
            },
            OptionalStrategy::Untagged => {
                if T::parse_ok(c, data) {
                    v matches Some(x) && T::parses(c, data, x)
                } else {
                    v is None
                }
            },
        }
    }

    proof fn consumed_le(c: Config, data: Seq<u8>) {
        match c.optional_strategy {
            OptionalStrategy::Tagged => {
                if data.len() >= 1 && data[0] == 1 {
                    T::consumed_le(c, data.skip(1));
                }
            },
            OptionalStrategy::Untagged => {
                T::consumed_le(c, data);
            },
        }
    }

    /// An optional value. Under `Untagged`, the payload decode is always
    /// attempted and a failed attempt yields `None` — with the attempt's
    /// consumption kept, exactly as the contract's `consumed` states.
    fn binary_parse(parser: &mut BinaryParser) -> (r: Result<Self, Error>) {
        let tagged = match parser.config().optional_strategy {
            OptionalStrategy::Tagged => true,
            OptionalStrategy::Untagged => false,
        };
        if tagged {
            match parser.bool() {
                Err(e) => Err(e),
                Ok(false) => Ok(None),
                Ok(true) => {
                    proof {
                        assert(old(parser).remaining().skip(1) =~= parser.remaining());
                    }
                    match T::binary_parse(parser) {
                        Err(e) => Err(e),
                        Ok(v) => Ok(Some(v)),
                    }
                },
            }
        } else {
            match T::binary_parse(parser) {
                Err(_) => Ok(None),
                Ok(v) => Ok(Some(v)),
            }
        }
    }
}

/// Whether every successful parse of `T` under `c` consumes at least one
/// byte: the progress condition a greedy, failure-terminated decode needs
/// in order to stop. A type with an empty encoding, such as `()`, fails it,
/// and a greedy decode of such a type could never end.
pub open spec fn parse_progress<T: BinaryParse>(c: Config) -> bool {
    forall|d: Seq<u8>| #[trigger] T::parse_ok(c, d) ==> T::consumed(c, d) > 0
}

/// How many bytes a greedy decode of values of type `T` consumes on `data`:
/// elements until the first failure, that failed attempt's own consumption
/// included. The middle guard only makes the definition total: a lawful
/// implementation never consumes more than the input holds nor, under
/// [`parse_progress`], succeeds without consuming.
pub open spec fn greedy_consumed<T: BinaryParse>(c: Config, data: Seq<u8>) -> nat
    decreases data.len(),
{
    if !T::parse_ok(c, data) {
        T::consumed(c, data)
    } else if T::consumed(c, data) < 1 || T::consumed(c, data) > data.len() {
        T::consumed(c, data)
    } else {
        T::consumed(c, data) + greedy_consumed::<T>(c, data.skip(T::consumed(c, data) as int))
    }
}

/// Whether a greedy decode of values of type `T` on `data` may yield `vs`:
/// successful parses up to the first failure, which is swallowed.
pub open spec fn greedy_parses<T: BinaryParse>(c: Config, data: Seq<u8>, vs: Seq<T>) -> bool
    decreases vs.len(),
{
    if vs.len() == 0 {
        !T::parse_ok(c, data)
    } else {
        T::parse_ok(c, data) && T::parses(c, data, vs[0]) && greedy_parses(
            c,
            data.skip(T::consumed(c, data) as int),
            vs.drop_first(),
        )
    }
}

/// Parses values of type `T` until one fails, swallowing that failure: the
/// greedy mode of a prefix-free container.
pub(crate) fn parse_greedy<T: BinaryParse>(parser: &mut BinaryParser) -> (r: Vec<T>)
    requires
        old(parser).wf(),
        parse_progress::<T>(old(parser).cfg()),
    ensures
        final(parser).wf(),
        final(parser).data() == old(parser).data(),
        final(parser).cfg() == old(parser).cfg(),
        final(parser).cursor() == old(parser).cursor() + greedy_consumed::<T>(
            old(parser).cfg(),
            old(parser).remaining(),
        ),
        greedy_parses::<T>(old(parser).cfg(), old(parser).remaining(), r@),
    decreases old(parser).remaining().len(),
{
    match T::binary_parse(parser) {
        Err(_) => {
            let vs: Vec<T> = Vec::new();
            proof {
                assert(vs@.len() == 0);
            }
            vs
        },
        Ok(v) => {
            proof {
                assert(T::consumed(old(parser).cfg(), old(parser).remaining()) > 0);
                assert(parser.remaining() =~= old(parser).remaining().skip(
                    T::consumed(old(parser).cfg(), old(parser).remaining()) as int,
                ));
            }
            let mut vs = parse_greedy::<T>(parser);
            let ghost tail = vs@;
            vs.insert(0, v);
            proof {
                assert(vs@ =~= seq![v] + tail);
                assert(vs@[0] == v);
                assert(vs@.drop_first() =~= tail);
            }
            vs
        },
    }
}

/// How many bytes parsing `n` consecutive values of type `T` consumes,
/// counting a final failed attempt.
pub open spec fn elems_consumed<T: BinaryParse>(c: Config, data: Seq<u8>, n: nat) -> nat
    decreases n,
{
    if n == 0 {
        0
    } else if !T::parse_ok(c, data) {
        T::consumed(c, data)
    } else {
        T::consumed(c, data) + elems_consumed::<T>(
            c,
            data.skip(T::consumed(c, data) as int),
            (n - 1) as nat,
        )
    }
}

/// Whether `n` consecutive values of type `T` parse on `data`.
pub open spec fn elems_parse_ok<T: BinaryParse>(c: Config, data: Seq<u8>, n: nat) -> bool
    decreases n,
{
    n == 0 || (T::parse_ok(c, data) && elems_parse_ok::<T>(
        c,
        data.skip(T::consumed(c, data) as int),
        (n - 1) as nat,
    ))
}

/// Whether parsing `vs.len()` consecutive values of type `T` on `data` may
/// yield `vs`.
pub open spec fn elems_parses<T: BinaryParse>(c: Config, data: Seq<u8>, vs: Seq<T>) -> bool
    decreases vs.len(),
{
    vs.len() == 0 || (T::parse_ok(c, data) && T::parses(c, data, vs[0]) && elems_parses(
        c,
        data.skip(T::consumed(c, data) as int),
        vs.drop_first(),
    ))
}

/// Consecutive parses never consume more than the input holds.
pub proof fn lemma_elems_consumed_le<T: BinaryParse>(c: Config, data: Seq<u8>, n: nat)
    ensures
        elems_consumed::<T>(c, data, n) <= data.len(),
    decreases n,
{
    if n > 0 {
        T::consumed_le(c, data);
        if T::parse_ok(c, data) {
            lemma_elems_consumed_le::<T>(
                c,
                data.skip(T::consumed(c, data) as int),
                (n - 1) as nat,
            );
        }
    }
}

/// Parses `n` consecutive values of type `T`.
pub(crate) fn parse_elems<T: BinaryParse>(parser: &mut BinaryParser, n: usize) -> (r: Result<Vec<T>, Error>)
    requires
        old(parser).wf(),
    ensures
        final(parser).wf(),
        final(parser).data() == old(parser).data(),
        final(parser).cfg() == old(parser).cfg(),
        final(parser).cursor() == old(parser).cursor() + elems_consumed::<T>(
            old(parser).cfg(),
            old(parser).remaining(),
            n as nat,
        ),
        r is Ok <==> elems_parse_ok::<T>(old(parser).cfg(), old(parser).remaining(), n as nat),
        r matches Ok(vs) ==> vs@.len() == n && elems_parses(
            old(parser).cfg(),
            old(parser).remaining(),
            vs@,
        ),
    decreases n,
{
    if n == 0 {
        let vs: Vec<T> = Vec::new();
        proof {
            assert(vs@.len() == 0);
        }
        Ok(vs)
    } else {
        match T::binary_parse(parser) {
            Err(e) => Err(e),
            Ok(v) => {
                proof {
                    assert(parser.remaining() =~= old(parser).remaining().skip(
                        T::consumed(old(parser).cfg(), old(parser).remaining()) as int,
                    ));
                }
                match parse_elems::<T>(parser, n - 1) {
                    Err(e) => Err(e),
                    Ok(mut vs) => {
                        let ghost tail = vs@;
                        vs.insert(0, v);
                        proof {
                            assert(vs@ =~= seq![v] + tail);
                            assert(vs@[0] == v);
                            assert(vs@.drop_first() =~= tail);
                        }
                        Ok(vs)
                    },
                }
            },
        }
    }
}

impl<T: BinaryParse> BinaryParse for Vec<T> {
    open spec fn consumed(c: Config, data: Seq<u8>) -> nat {
        if data.len() < prefix_width(c) {
            0
        } else {
            prefix_width(c) + elems_consumed::<T>(
                c,
                data.skip(prefix_width(c) as int),
                parsed_len(c, data),
            )
        }
    }

    open spec fn parse_ok(c: Config, data: Seq<u8>) -> bool {
        data.len() >= prefix_width(c) && elems_parse_ok::<T>(
            c,
            data.skip(prefix_width(c) as int),
            parsed_len(c, data),
        )
    }

    open spec fn parses(c: Config, data: Seq<u8>, v: Self) -> bool {
        Self::parse_ok(c, data) && v@.len() == parsed_len(c, data) && elems_parses(
            c,
            data.skip(prefix_width(c) as int),
            v@,
        )
    }

    proof fn consumed_le(c: Config, data: Seq<u8>) {
        if data.len() >= prefix_width(c) {
            lemma_elems_consumed_le::<T>(
                c,
                data.skip(prefix_width(c) as int),
                parsed_len(c, data),
            );
        }
    }

    /// A dynamic list: the length prefix, then that many elements.
    fn binary_parse(parser: &mut BinaryParser) -> (r: Result<Self, Error>) {
        match parser.container_size() {
            Err(e) => Err(e),
            Ok(n) => {
                proof {
                    assert(parser.remaining() =~= old(parser).remaining().skip(
                        prefix_width(old(parser).cfg()) as int,
                    ));
                }
                parse_elems::<T>(parser, n)
            },
        }
    }
}

impl<T: BinaryParse + Copy + Default, const N: usize> BinaryParse for [T; N] {
    open spec fn consumed(c: Config, data: Seq<u8>) -> nat {
        elems_consumed::<T>(c, data, N as nat)
    }

    open spec fn parse_ok(c: Config, data: Seq<u8>) -> bool {
        elems_parse_ok::<T>(c, data, N as nat)
    }

    open spec fn parses(c: Config, data: Seq<u8>, v: Self) -> bool {
        elems_parses(c, data, v@)
    }

    proof fn consumed_le(c: Config, data: Seq<u8>) {
        lemma_elems_consumed_le::<T>(c, data, N as nat);
    }

    /// A fixed-size array: exactly `N` elements, no length prefix. The
    /// array is first filled with the element type's default value, then
    /// overwritten position by position with the parsed elements.
    #[verifier::loop_isolation(false)]
    fn binary_parse(parser: &mut BinaryParser) -> (r: Result<Self, Error>) {
        broadcast use vstd::array::group_array_axioms;

        match parse_elems::<T>(parser, N) {
            Err(e) => Err(e),
            Ok(vs) => {
                let mut arr: [T; N] = vstd::array::array_fill_for_copy_types::<T, N>(T::default());
                let mut i: usize = 0;
                while i < N
                    invariant
                        i <= N,
                        vs@.len() == N,
                        forall|j: int| 0 <= j < i ==> arr@[j] == vs@[j],
                    decreases N - i,
                {
                    arr[i] = vs[i];
                    i = i + 1;
                }
                proof {
                    assert(arr@ =~= vs@);
                }
                Ok(arr)
            },
        }
    }
}

impl<A: BinaryParse> BinaryParse for (A,) {
    open spec fn consumed(c: Config, data: Seq<u8>) -> nat {
        A::consumed(c, data)
    }

    open spec fn parse_ok(c: Config, data: Seq<u8>) -> bool {
        A::parse_ok(c, data)
    }

    open spec fn parses(c: Config, data: Seq<u8>, v: Self) -> bool {
        A::parses(c, data, v.0)
    }

    proof fn consumed_le(c: Config, data: Seq<u8>) {
        A::consumed_le(c, data);
    }

    fn binary_parse(parser: &mut BinaryParser) -> (r: Result<Self, Error>) {
        match A::binary_parse(parser) {
            Err(e) => Err(e),
            Ok(a) => Ok((a,)),
        }
    }
}

impl<A: BinaryParse, B: BinaryParse> BinaryParse for (A, B) {
    open spec fn consumed(c: Config, data: Seq<u8>) -> nat {
        if !A::parse_ok(c, data) {
            A::consumed(c, data)
        } else {
            A::consumed(c, data) + B::consumed(c, data.skip(A::consumed(c, data) as int))
        }
    }

    open spec fn parse_ok(c: Config, data: Seq<u8>) -> bool {
        A::parse_ok(c, data) && B::parse_ok(c, data.skip(A::consumed(c, data) as int))
    }

    open spec fn parses(c: Config, data: Seq<u8>, v: Self) -> bool {
        Self::parse_ok(c, data) && A::parses(c, data, v.0) && B::parses(
            c,
            data.skip(A::consumed(c, data) as int),
            v.1,
        )
    }

    proof fn consumed_le(c: Config, data: Seq<u8>) {
        A::consumed_le(c, data);
        if A::parse_ok(c, data) {
            B::consumed_le(c, data.skip(A::consumed(c, data) as int));
        }
    }

    fn binary_parse(parser: &mut BinaryParser) -> (r: Result<Self, Error>) {
        match A::binary_parse(parser) {
            Err(e) => Err(e),
            Ok(a) => {
                proof {
                    assert(parser.remaining() =~= old(parser).remaining().skip(
                        A::consumed(old(parser).cfg(), old(parser).remaining()) as int,
                    ));
                }
                match B::binary_parse(parser) {
                    Err(e) => Err(e),
                    Ok(b) => Ok((a, b)),
                }
            },
        }
    }
}

impl<A: BinaryParse, B: BinaryParse, C: BinaryParse> BinaryParse for (A, B, C) {
    open spec fn consumed(c: Config, data: Seq<u8>) -> nat {
        if !A::parse_ok(c, data) {
            A::consumed(c, data)
        } else {
            A::consumed(c, data) + <(B, C) as BinaryParse>::consumed(
                c,
                data.skip(A::consumed(c, data) as int),
            )
        }
    }

    open spec fn parse_ok(c: Config, data: Seq<u8>) -> bool {
        A::parse_ok(c, data) && <(B, C) as BinaryParse>::parse_ok(
            c,
            data.skip(A::consumed(c, data) as int),
        )
    }

    open spec fn parses(c: Config, data: Seq<u8>, v: Self) -> bool {
        Self::parse_ok(c, data) && A::parses(c, data, v.0) && <(B, C) as BinaryParse>::parses(
            c,
            data.skip(A::consumed(c, data) as int),
            (v.1, v.2),
        )
    }

    proof fn consumed_le(c: Config, data: Seq<u8>) {
        A::consumed_le(c, data);
        if A::parse_ok(c, data) {
            <(B, C) as BinaryParse>::consumed_le(c, data.skip(A::consumed(c, data) as int));
        }
    }

    fn binary_parse(parser: &mut BinaryParser) -> (r: Result<Self, Error>) {
        match A::binary_parse(parser) {
            Err(e) => Err(e),
            Ok(a) => {
                proof {
                    assert(parser.remaining() =~= old(parser).remaining().skip(
                        A::consumed(old(parser).cfg(), old(parser).remaining()) as int,
                    ));
                }
                match <(B, C) as BinaryParse>::binary_parse(parser) {
                    Err(e) => Err(e),
                    Ok((b, c)) => Ok((a, b, c)),
                }
            },
        }
    }
}

impl<A: BinaryParse, B: BinaryParse, C: BinaryParse, D: BinaryParse> BinaryParse for (A, B, C, D) {
    open spec fn consumed(c: Config, data: Seq<u8>) -> nat {
        if !A::parse_ok(c, data) {
            A::consumed(c, data)
        } else {
            A::consumed(c, data) + <(B, C, D) as BinaryParse>::consumed(
                c,
                data.skip(A::consumed(c, data) as int),
            )
        }
    }

    open spec fn parse_ok(c: Config, data: Seq<u8>) -> bool {
        A::parse_ok(c, data) && <(B, C, D) as BinaryParse>::parse_ok(
            c,
            data.skip(A::consumed(c, data) as int),
        )
    }

    open spec fn parses(c: Config, data: Seq<u8>, v: Self) -> bool {
        Self::parse_ok(c, data) && A::parses(c, data, v.0) && <(B, C, D) as BinaryParse>::parses(
            c,
            data.skip(A::consumed(c, data) as int),
            (v.1, v.2, v.3),
        )
    }

    proof fn consumed_le(c: Config, data: Seq<u8>) {
        A::consumed_le(c, data);
        if A::parse_ok(c, data) {
            <(B, C, D) as BinaryParse>::consumed_le(c, data.skip(A::consumed(c, data) as int));
        }
    }

    fn binary_parse(parser: &mut BinaryParser) -> (r: Result<Self, Error>) {
        match A::binary_parse(parser) {
            Err(e) => Err(e),
            Ok(a) => {
                proof {
                    assert(parser.remaining() =~= old(parser).remaining().skip(
                        A::consumed(old(parser).cfg(), old(parser).remaining()) as int,
                    ));
                }
                match <(B, C, D) as BinaryParse>::binary_parse(parser) {
                    Err(e) => Err(e),
                    Ok((b, c, d)) => Ok((a, b, c, d)),
                }
            },
        }
    }
}

} // verus!
