//! The round-trip law of the codec: decoding an encoded value yields the
//! value back.
//!
//! [`Lossless`] ties the two halves of the value codec contract together.
//! For every built-in codec type it is proved that parsing
//! `value.wire(c) + rest` succeeds, consumes exactly `value.wire(c)`, and
//! yields `value` — under the type's [`Lossless::lossless`] side condition,
//! which names exactly the known exclusions:
//!
//! - an absent optional value under the untagged strategy never round-trips
//!   (nothing is written, so decode reads whatever follows);
//! - a container longer than its length prefix can count is truncated;
//! - a character round-trips on its own (`rest` empty); with arbitrary bytes
//!   behind it, the decoder's four-byte window may fail on a cut-off
//!   trailing sequence.

use vstd::prelude::*;
use vstd::arithmetic::power2::{pow2, lemma2_to64, lemma2_to64_rest};
use vstd::arithmetic::div_mod::lemma_small_mod;
use vstd::utf8::{encode_utf8, encode_utf8_decode_utf8, encode_utf8_valid_utf8};
use crate::config::{Config, OptionalStrategy};
use crate::par::{elems_consumed, elems_parse_ok, elems_parses, BinaryParse};
use crate::parser::{char_parse, parsed_len, prefix_width};
use crate::ser::{elems_wire, BinarySerialize};
use crate::serializer::char_wire;
use crate::wire::{
    lemma_pow2_128, lemma_signed_round_trip, lemma_wire_round_trip, to_unsigned,
};

verus! {

broadcast use crate::wire::lemma_le_bytes_of_len;

/// The round-trip law: under the side condition `lossless`, parsing
/// `self.wire(c) + rest` succeeds, consumes exactly the encoding, and may
/// yield only `self` (for strings, only strings with `self`'s characters).
pub trait Lossless: BinarySerialize + BinaryParse {
    /// The inputs on which the round trip holds; everything else is a
    /// documented structural exclusion of the format.
    spec fn lossless(&self, c: Config, rest: Seq<u8>) -> bool;

    proof fn round_trip(&self, c: Config, rest: Seq<u8>)
        requires
            self.lossless(c, rest),
        ensures
            Self::parse_ok(c, self.wire(c) + rest),
            Self::consumed(c, self.wire(c) + rest) == self.wire(c).len(),
            Self::parses(c, self.wire(c) + rest, *self),
    ;
}

impl Lossless for bool {
    open spec fn lossless(&self, c: Config, rest: Seq<u8>) -> bool {
        true
    }

    proof fn round_trip(&self, c: Config, rest: Seq<u8>) {
    }
}

impl Lossless for u8 {
    open spec fn lossless(&self, c: Config, rest: Seq<u8>) -> bool {
        true
    }

    proof fn round_trip(&self, c: Config, rest: Seq<u8>) {
    }
}

impl Lossless for u16 {
    open spec fn lossless(&self, c: Config, rest: Seq<u8>) -> bool {
        true
    }

    proof fn round_trip(&self, c: Config, rest: Seq<u8>) {
        lemma2_to64();
        lemma_wire_round_trip(*self as nat, 2, c.endianness_strategy);
        lemma_small_mod(*self as nat, pow2(16));
        assert((self.wire(c) + rest).take(2) =~= self.wire(c));
    }
}

impl Lossless for u32 {
    open spec fn lossless(&self, c: Config, rest: Seq<u8>) -> bool {
        true
    }

    proof fn round_trip(&self, c: Config, rest: Seq<u8>) {
        lemma2_to64();
        lemma_wire_round_trip(*self as nat, 4, c.endianness_strategy);
        lemma_small_mod(*self as nat, pow2(32));
        assert((self.wire(c) + rest).take(4) =~= self.wire(c));
    }
}

impl Lossless for u64 {
    open spec fn lossless(&self, c: Config, rest: Seq<u8>) -> bool {
        true
    }

    proof fn round_trip(&self, c: Config, rest: Seq<u8>) {
        lemma2_to64();
        lemma_wire_round_trip(*self as nat, 8, c.endianness_strategy);
        lemma_small_mod(*self as nat, pow2(64));
        assert((self.wire(c) + rest).take(8) =~= self.wire(c));
    }
}

impl Lossless for u128 {
    open spec fn lossless(&self, c: Config, rest: Seq<u8>) -> bool {
        true
    }

    proof fn round_trip(&self, c: Config, rest: Seq<u8>) {
        lemma_pow2_128();
        lemma_wire_round_trip(*self as nat, 16, c.endianness_strategy);
        lemma_small_mod(*self as nat, pow2(128));
        assert((self.wire(c) + rest).take(16) =~= self.wire(c));
    }
}

impl Lossless for i8 {
    open spec fn lossless(&self, c: Config, rest: Seq<u8>) -> bool {
        true
    }

    proof fn round_trip(&self, c: Config, rest: Seq<u8>) {
        lemma2_to64();
        lemma_signed_round_trip(*self as int, 1);
    }
}

impl Lossless for i16 {
    open spec fn lossless(&self, c: Config, rest: Seq<u8>) -> bool {
        true
    }

    proof fn round_trip(&self, c: Config, rest: Seq<u8>) {
        lemma2_to64();
        lemma_signed_round_trip(*self as int, 2);
        lemma_wire_round_trip(to_unsigned(*self as int, 2), 2, c.endianness_strategy);
        lemma_small_mod(to_unsigned(*self as int, 2), pow2(16));
        assert((self.wire(c) + rest).take(2) =~= self.wire(c));
    }
}

impl Lossless for i32 {
    open spec fn lossless(&self, c: Config, rest: Seq<u8>) -> bool {
        true
    }

    proof fn round_trip(&self, c: Config, rest: Seq<u8>) {
        lemma2_to64();
        lemma_signed_round_trip(*self as int, 4);
        lemma_wire_round_trip(to_unsigned(*self as int, 4), 4, c.endianness_strategy);
        lemma_small_mod(to_unsigned(*self as int, 4), pow2(32));
        assert((self.wire(c) + rest).take(4) =~= self.wire(c));
    }
}

impl Lossless for i64 {
    open spec fn lossless(&self, c: Config, rest: Seq<u8>) -> bool {
        true
    }

    proof fn round_trip(&self, c: Config, rest: Seq<u8>) {
        lemma2_to64();
        lemma2_to64_rest();
        lemma_signed_round_trip(*self as int, 8);
        lemma_wire_round_trip(to_unsigned(*self as int, 8), 8, c.endianness_strategy);
        lemma_small_mod(to_unsigned(*self as int, 8), pow2(64));
        assert((self.wire(c) + rest).take(8) =~= self.wire(c));
    }
}

impl Lossless for i128 {
    open spec fn lossless(&self, c: Config, rest: Seq<u8>) -> bool {
        true
    }

    proof fn round_trip(&self, c: Config, rest: Seq<u8>) {
        lemma2_to64();
        lemma_pow2_128();
        lemma_signed_round_trip(*self as int, 16);
        lemma_wire_round_trip(to_unsigned(*self as int, 16), 16, c.endianness_strategy);
        lemma_small_mod(to_unsigned(*self as int, 16), pow2(128));
        assert((self.wire(c) + rest).take(16) =~= self.wire(c));
    }
}

impl Lossless for () {
    open spec fn lossless(&self, c: Config, rest: Seq<u8>) -> bool {
        true
    }

    proof fn round_trip(&self, c: Config, rest: Seq<u8>) {
        assert(self.wire(c) + rest =~= rest);
    }
}

impl Lossless for char {
    /// A character is decoded through a window of up to four bytes, so it
    /// round-trips when nothing follows it; bytes behind it can make the
    /// window invalid even though the character itself is intact.
    open spec fn lossless(&self, c: Config, rest: Seq<u8>) -> bool {
        rest.len() == 0
    }

    proof fn round_trip(&self, c: Config, rest: Seq<u8>) {
        let w = char_wire(*self);
        let data = w + rest;
        vstd::utf8::char_is_scalar(*self);
        assert(seq![*self].drop_first() =~= Seq::<char>::empty());
        assert(encode_utf8(seq![*self]) =~= w + encode_utf8(Seq::<char>::empty()));
        assert(encode_utf8(seq![*self]) =~= w);
        assert(data =~= w);
        assert(1 <= w.len() <= 4);
        assert(crate::parser::char_window(data) =~= data);
        encode_utf8_valid_utf8(seq![*self]);
        encode_utf8_decode_utf8(seq![*self]);
        assert(char_parse(data).1 == Some(*self));
    }
}

impl Lossless for String {
    /// A string round-trips when its UTF-8 byte count fits both the
    /// configured length-prefix width and the machine word; a longer one has
    /// its length truncated on the wire.
    open spec fn lossless(&self, c: Config, rest: Seq<u8>) -> bool {
        encode_utf8(self@).len() < pow2((8 * prefix_width(c)) as nat) && encode_utf8(self@).len()
            <= usize::MAX
    }

    proof fn round_trip(&self, c: Config, rest: Seq<u8>) {
        let w = prefix_width(c);
        let body = encode_utf8(self@);
        let data = self.wire(c) + rest;
        lemma_wire_round_trip(body.len(), w, c.endianness_strategy);
        assert(data.take(w as int) =~= crate::wire::len_prefix(c, body.len()));
        lemma_small_mod(body.len(), pow2((8 * w) as nat));
        lemma_small_mod(body.len(), (usize::MAX + 1) as nat);
        assert(parsed_len(c, data) == body.len());
        assert(data.skip(w as int).take(body.len() as int) =~= body);
        assert(crate::par::str_body(c, data) == body);
        encode_utf8_valid_utf8(self@);
        encode_utf8_decode_utf8(self@);
    }
}

impl<T: Lossless> Lossless for Option<T> {
    /// Everything round-trips but an absent value under the untagged
    /// strategy: nothing is written for it, so decode reads whatever
    /// follows. That exclusion is structural to the format.
    open spec fn lossless(&self, c: Config, rest: Seq<u8>) -> bool {
        match c.optional_strategy {
            OptionalStrategy::Tagged => match self {
                None => true,
                Some(v) => v.lossless(c, rest),
            },
            OptionalStrategy::Untagged => match self {
                None => false,
                Some(v) => v.lossless(c, rest),
            },
        }
    }

    proof fn round_trip(&self, c: Config, rest: Seq<u8>) {
        let data = self.wire(c) + rest;
        match c.optional_strategy {
            OptionalStrategy::Tagged => match self {
                None => {
                    assert(data[0] == 0);
                },
                Some(v) => {
                    let vw = v.wire(c);
                    assert(data[0] == 1);
                    assert(data.skip(1) =~= vw + rest);
                    v.round_trip(c, rest);
                },
            },
            OptionalStrategy::Untagged => match self {
                None => {
                },
                Some(v) => {
                    let vw = v.wire(c);
                    assert(data =~= vw + rest);
                    v.round_trip(c, rest);
                },
            },
        }
    }
}

/// The side conditions for a whole run of values encoded one after another:
/// each element must be lossless with everything behind it as its trailer.
pub open spec fn elems_lossless<T: Lossless>(s: Seq<T>, c: Config, rest: Seq<u8>) -> bool
    decreases s.len(),
{
    if s.len() == 0 {
        true
    } else {
        s[0].lossless(c, elems_wire(s.drop_first(), c) + rest) && elems_lossless(
            s.drop_first(),
            c,
            rest,
        )
    }
}

/// Round trip for a run of values: parsing the concatenated encodings
/// yields the values back, consuming exactly the encodings.
pub proof fn lemma_elems_round_trip<T: Lossless>(s: Seq<T>, c: Config, rest: Seq<u8>)
    requires
        elems_lossless(s, c, rest),
    ensures
        elems_parse_ok::<T>(c, elems_wire(s, c) + rest, s.len()),
        elems_consumed::<T>(c, elems_wire(s, c) + rest, s.len()) == elems_wire(s, c).len(),
        elems_parses::<T>(c, elems_wire(s, c) + rest, s),
    decreases s.len(),
{
    if s.len() > 0 {
        let tail = s.drop_first();
        let tw = elems_wire(tail, c);
        let hw = s[0].wire(c);
        let data = elems_wire(s, c) + rest;
        s[0].round_trip(c, tw + rest);
        assert(data =~= hw + (tw + rest));
        assert(data.skip(hw.len() as int) =~= tw + rest);
        lemma_elems_round_trip(tail, c, rest);
    }
}

impl<T: Lossless> Lossless for Vec<T> {
    /// A list round-trips when its element count fits both the configured
    /// length-prefix width and the machine word, and each element is
    /// lossless before what follows it.
    open spec fn lossless(&self, c: Config, rest: Seq<u8>) -> bool {
        &&& self@.len() < pow2((8 * prefix_width(c)) as nat)
        &&& self@.len() <= usize::MAX
        &&& elems_lossless(self@, c, rest)
    }

    proof fn round_trip(&self, c: Config, rest: Seq<u8>) {
        let w = prefix_width(c);
        let s = self@;
        let data = self.wire(c) + rest;
        lemma_wire_round_trip(s.len(), w, c.endianness_strategy);
        assert(data.take(w as int) =~= crate::wire::len_prefix(c, s.len()));
        lemma_small_mod(s.len(), pow2((8 * w) as nat));
        lemma_small_mod(s.len(), (usize::MAX + 1) as nat);
        assert(parsed_len(c, data) == s.len());
        assert(data.skip(w as int) =~= elems_wire(s, c) + rest);
        lemma_elems_round_trip(s, c, rest);
    }
}

impl<T: Lossless + Copy + Default, const N: usize> Lossless for [T; N] {
    /// A fixed-size array round-trips when each element is lossless before
    /// what follows it; the length is static, so no prefix can truncate.
    open spec fn lossless(&self, c: Config, rest: Seq<u8>) -> bool {
        elems_lossless(self@, c, rest)
    }

    proof fn round_trip(&self, c: Config, rest: Seq<u8>) {
        broadcast use vstd::array::group_array_axioms;

        lemma_elems_round_trip(self@, c, rest);
    }
}

impl<A: Lossless> Lossless for (A,) {
    open spec fn lossless(&self, c: Config, rest: Seq<u8>) -> bool {
        self.0.lossless(c, rest)
    }

    proof fn round_trip(&self, c: Config, rest: Seq<u8>) {
        self.0.round_trip(c, rest);
    }
}

impl<A: Lossless, B: Lossless> Lossless for (A, B) {
    open spec fn lossless(&self, c: Config, rest: Seq<u8>) -> bool {
        self.0.lossless(c, self.1.wire(c) + rest) && self.1.lossless(c, rest)
    }

    proof fn round_trip(&self, c: Config, rest: Seq<u8>) {
        let aw = self.0.wire(c);
        let bw = self.1.wire(c);
        let data = self.wire(c) + rest;
        self.0.round_trip(c, bw + rest);
        assert(data =~= aw + (bw + rest));
        assert(data.skip(aw.len() as int) =~= bw + rest);
        self.1.round_trip(c, rest);
    }
}

impl<A: Lossless, B: Lossless, C: Lossless> Lossless for (A, B, C) {
    open spec fn lossless(&self, c: Config, rest: Seq<u8>) -> bool {
        self.0.lossless(c, (self.1.wire(c) + self.2.wire(c)) + rest) && self.1.lossless(
            c,
            self.2.wire(c) + rest,
        ) && self.2.lossless(c, rest)
    }

    proof fn round_trip(&self, c: Config, rest: Seq<u8>) {
        let aw = self.0.wire(c);
        let bw = self.1.wire(c);
        let cw = self.2.wire(c);
        let data = self.wire(c) + rest;
        self.0.round_trip(c, (bw + cw) + rest);
        assert(data =~= aw + ((bw + cw) + rest));
        assert(data.skip(aw.len() as int) =~= (bw + cw) + rest);
        let pair = (self.1, self.2);
        assert(pair.wire(c) == bw + cw);
        assert(pair.lossless(c, rest)) by {
            assert((bw + cw) + rest =~= bw + (cw + rest));
        }
        pair.round_trip(c, rest);
        assert(pair.wire(c) + rest =~= (bw + cw) + rest);
    }
}

impl<A: Lossless, B: Lossless, C: Lossless, D: Lossless> Lossless for (A, B, C, D) {
    open spec fn lossless(&self, c: Config, rest: Seq<u8>) -> bool {
        &&& self.0.lossless(c, ((self.1, self.2, self.3)).wire(c) + rest)
        &&& ((self.1, self.2, self.3)).lossless(c, rest)
    }

    proof fn round_trip(&self, c: Config, rest: Seq<u8>) {
        let aw = self.0.wire(c);
        let tail = (self.1, self.2, self.3);
        let tw = tail.wire(c);
        let data = self.wire(c) + rest;
        self.0.round_trip(c, tw + rest);
        assert(data =~= aw + (tw + rest));
        assert(data.skip(aw.len() as int) =~= tw + rest);
        tail.round_trip(c, rest);
    }
}

} // verus!
