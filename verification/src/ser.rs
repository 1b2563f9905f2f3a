//! The encode half of the value codec contract: [`BinarySerialize`], with
//! built-in implementations for scalars, strings, optional values, dynamic
//! lists and tuples.
//!
//! Each implementation fixes, through [`BinarySerialize::wire`], the exact
//! byte sequence a value puts on the wire under a given configuration, and
//! through [`BinarySerialize::ser_ok`] exactly when serialization succeeds:
//! these types fail only by exceeding the byte budget.

use vstd::prelude::*;
use vstd::utf8::encode_utf8;
use crate::config::{Config, OptionalStrategy};
use crate::error::Error;
use crate::serializer::{bool_byte, char_wire, BinarySerializer};
use crate::wire::{len_prefix, to_unsigned, wire_bytes, within_limit};

verus! {

broadcast use crate::wire::lemma_le_bytes_of_len;

/// The value codec contract, encode half. `wire` is the byte image of the
/// value; `ser_ok` says on which buffer states writing it succeeds; and
/// `binary_serialize` appends exactly `wire` on success, some prefix of it
/// on failure, and succeeds exactly when `ser_ok` holds.
pub trait BinarySerialize {
    /// The bytes this value puts on the wire under `c`.
    spec fn wire(&self, c: Config) -> Seq<u8>;

    /// Whether writing this value succeeds when the buffer already holds
    /// `start` bytes: the byte budget is checked after each primitive write,
    /// never after a bare length prefix.
    spec fn ser_ok(&self, c: Config, start: nat) -> bool;

    fn binary_serialize(&self, serializer: &mut BinarySerializer) -> (r: Result<(), Error>)
        ensures
            final(serializer).cfg() == old(serializer).cfg(),
            r is Ok <==> self.ser_ok(old(serializer).cfg(), old(serializer).written().len()),
            r is Ok ==> final(serializer).written() == old(serializer).written() + self.wire(
                old(serializer).cfg(),
            ),
            r is Err ==> exists|k: int|
                0 <= k <= self.wire(old(serializer).cfg()).len() && final(serializer).written()
                    == old(serializer).written() + self.wire(old(serializer).cfg()).take(k),
    ;
}

/// Serializes `value` into `serializer`: the free-function form of
/// [`BinarySerialize::binary_serialize`], with the same contract.
pub fn binary_serialize<T: BinarySerialize>(value: &T, serializer: &mut BinarySerializer) -> (r:
    Result<(), Error>)
    ensures
        final(serializer).cfg() == old(serializer).cfg(),
        r is Ok <==> value.ser_ok(old(serializer).cfg(), old(serializer).written().len()),
        r is Ok ==> final(serializer).written() == old(serializer).written() + value.wire(
            old(serializer).cfg(),
        ),
        r is Err ==> exists|k: int|
            0 <= k <= value.wire(old(serializer).cfg()).len() && final(serializer).written() == old(
                serializer,
            ).written() + value.wire(old(serializer).cfg()).take(k),
{
    value.binary_serialize(serializer)
}

/// The concatenated wire images of a sequence of values.
pub open spec fn elems_wire<T: BinarySerialize>(s: Seq<T>, c: Config) -> Seq<u8>
    decreases s.len(),
{
    if s.len() == 0 {
        Seq::empty()
    } else {
        s[0].wire(c) + elems_wire(s.drop_first(), c)
    }
}

/// Whether writing the values of `s` one after another succeeds, starting
/// from a buffer of `start` bytes.
pub open spec fn elems_ok<T: BinarySerialize>(s: Seq<T>, c: Config, start: nat) -> bool
    decreases s.len(),
{
    if s.len() == 0 {
        true
    } else {
        s[0].ser_ok(c, start) && elems_ok(s.drop_first(), c, start + s[0].wire(c).len())
    }
}

/// The wire image of a single-element sequence is that element's image.
pub proof fn lemma_elems_wire_singleton<T: BinarySerialize>(x: T, c: Config)
    ensures
        elems_wire(seq![x], c) == x.wire(c),
{
    assert(seq![x].drop_first() =~= Seq::<T>::empty());
    assert(elems_wire(seq![x], c) == x.wire(c) + elems_wire(Seq::<T>::empty(), c));
    assert(x.wire(c) + Seq::<u8>::empty() =~= x.wire(c));
}

/// Concatenated wire images split at any index.
pub proof fn lemma_elems_wire_split<T: BinarySerialize>(s: Seq<T>, c: Config, i: int)
    requires
        0 <= i <= s.len(),
    ensures
        elems_wire(s, c) == elems_wire(s.take(i), c) + elems_wire(s.skip(i), c),
    decreases i,
{
    if i == 0 {
        assert(s.take(0) =~= Seq::<T>::empty());
        assert(s.skip(0) =~= s);
        assert(elems_wire(s, c) =~= elems_wire(s.take(0), c) + elems_wire(s.skip(0), c));
    } else {
        lemma_elems_wire_split(s.drop_first(), c, i - 1);
        assert(s.take(i).drop_first() =~= s.drop_first().take(i - 1));
        assert(s.skip(i) =~= s.drop_first().skip(i - 1));
        assert(elems_wire(s.take(i), c) == s[0].wire(c) + elems_wire(s.drop_first().take(i - 1), c));
        assert(elems_wire(s, c) =~= elems_wire(s.take(i), c) + elems_wire(s.skip(i), c));
    }
}

impl BinarySerialize for bool {
    open spec fn wire(&self, c: Config) -> Seq<u8> {
        seq![bool_byte(*self)]
    }

    open spec fn ser_ok(&self, c: Config, start: nat) -> bool {
        within_limit(c, start + 1)
    }

    fn binary_serialize(&self, serializer: &mut BinarySerializer) -> (r: Result<(), Error>)
        ensures
            r matches Err(e) ==> e == crate::serializer::limit_error(
                old(serializer).cfg(),
                old(serializer).written().len() + self.wire(old(serializer).cfg()).len(),
            ),
    {
        let r = serializer.bool(*self);
        proof {
            if r is Err {
                assert(final(serializer).written() == old(serializer).written() + self.wire(
                    old(serializer).cfg(),
                ).take(1));
            }
        }
        r
    }
}

impl BinarySerialize for u8 {
    open spec fn wire(&self, c: Config) -> Seq<u8> {
        seq![*self]
    }

    open spec fn ser_ok(&self, c: Config, start: nat) -> bool {
        within_limit(c, start + 1)
    }

    fn binary_serialize(&self, serializer: &mut BinarySerializer) -> (r: Result<(), Error>)
        ensures
            r matches Err(e) ==> e == crate::serializer::limit_error(
                old(serializer).cfg(),
                old(serializer).written().len() + self.wire(old(serializer).cfg()).len(),
            ),
    {
        let r = serializer.u8(*self);
        proof {
            if r is Err {
                assert(final(serializer).written() == old(serializer).written() + self.wire(
                    old(serializer).cfg(),
                ).take(1));
            }
        }
        r
    }
}

impl BinarySerialize for u16 {
    open spec fn wire(&self, c: Config) -> Seq<u8> {
        wire_bytes(*self as nat, 2, c.endianness_strategy)
    }

    open spec fn ser_ok(&self, c: Config, start: nat) -> bool {
        within_limit(c, start + 2)
    }

    fn binary_serialize(&self, serializer: &mut BinarySerializer) -> (r: Result<(), Error>)
        ensures
            r matches Err(e) ==> e == crate::serializer::limit_error(
                old(serializer).cfg(),
                old(serializer).written().len() + self.wire(old(serializer).cfg()).len(),
            ),
    {
        let r = serializer.u16(*self);
        proof {
            if r is Err {
                assert(final(serializer).written() == old(serializer).written() + self.wire(
                    old(serializer).cfg(),
                ).take(2));
            }
        }
        r
    }
}

impl BinarySerialize for u32 {
    open spec fn wire(&self, c: Config) -> Seq<u8> {
        wire_bytes(*self as nat, 4, c.endianness_strategy)
    }

    open spec fn ser_ok(&self, c: Config, start: nat) -> bool {
        within_limit(c, start + 4)
    }

    fn binary_serialize(&self, serializer: &mut BinarySerializer) -> (r: Result<(), Error>)
        ensures
            r matches Err(e) ==> e == crate::serializer::limit_error(
                old(serializer).cfg(),
                old(serializer).written().len() + self.wire(old(serializer).cfg()).len(),
            ),
    {
        let r = serializer.u32(*self);
        proof {
            if r is Err {
                assert(final(serializer).written() == old(serializer).written() + self.wire(
                    old(serializer).cfg(),
                ).take(4));
            }
        }
        r
    }
}

impl BinarySerialize for u64 {
    open spec fn wire(&self, c: Config) -> Seq<u8> {
        wire_bytes(*self as nat, 8, c.endianness_strategy)
    }

    open spec fn ser_ok(&self, c: Config, start: nat) -> bool {
        within_limit(c, start + 8)
    }

    fn binary_serialize(&self, serializer: &mut BinarySerializer) -> (r: Result<(), Error>)
        ensures
            r matches Err(e) ==> e == crate::serializer::limit_error(
                old(serializer).cfg(),
                old(serializer).written().len() + self.wire(old(serializer).cfg()).len(),
            ),
    {
        let r = serializer.u64(*self);
        proof {
            if r is Err {
                assert(final(serializer).written() == old(serializer).written() + self.wire(
                    old(serializer).cfg(),
                ).take(8));
            }
        }
        r
    }
}

impl BinarySerialize for u128 {
    open spec fn wire(&self, c: Config) -> Seq<u8> {
        wire_bytes(*self as nat, 16, c.endianness_strategy)
    }

    open spec fn ser_ok(&self, c: Config, start: nat) -> bool {
        within_limit(c, start + 16)
    }

    fn binary_serialize(&self, serializer: &mut BinarySerializer) -> (r: Result<(), Error>)
        ensures
            r matches Err(e) ==> e == crate::serializer::limit_error(
                old(serializer).cfg(),
                old(serializer).written().len() + self.wire(old(serializer).cfg()).len(),
            ),
    {
        let r = serializer.u128(*self);
        proof {
            if r is Err {
                assert(final(serializer).written() == old(serializer).written() + self.wire(
                    old(serializer).cfg(),
                ).take(16));
            }
        }
        r
    }
}

impl BinarySerialize for i8 {
    open spec fn wire(&self, c: Config) -> Seq<u8> {
        seq![to_unsigned(*self as int, 1) as u8]
    }

    open spec fn ser_ok(&self, c: Config, start: nat) -> bool {
        within_limit(c, start + 1)
    }

    fn binary_serialize(&self, serializer: &mut BinarySerializer) -> (r: Result<(), Error>)
        ensures
            r matches Err(e) ==> e == crate::serializer::limit_error(
                old(serializer).cfg(),
                old(serializer).written().len() + self.wire(old(serializer).cfg()).len(),
            ),
    {
        let r = serializer.i8(*self);
        proof {
            if r is Err {
                assert(final(serializer).written() == old(serializer).written() + self.wire(
                    old(serializer).cfg(),
                ).take(1));
            }
        }
        r
    }
}

impl BinarySerialize for i16 {
    open spec fn wire(&self, c: Config) -> Seq<u8> {
        wire_bytes(to_unsigned(*self as int, 2), 2, c.endianness_strategy)
    }

    open spec fn ser_ok(&self, c: Config, start: nat) -> bool {
        within_limit(c, start + 2)
    }

    fn binary_serialize(&self, serializer: &mut BinarySerializer) -> (r: Result<(), Error>)
        ensures
            r matches Err(e) ==> e == crate::serializer::limit_error(
                old(serializer).cfg(),
                old(serializer).written().len() + self.wire(old(serializer).cfg()).len(),
            ),
    {
        let r = serializer.i16(*self);
        proof {
            if r is Err {
                assert(final(serializer).written() == old(serializer).written() + self.wire(
                    old(serializer).cfg(),
                ).take(2));
            }
        }
        r
    }
}

impl BinarySerialize for i32 {
    open spec fn wire(&self, c: Config) -> Seq<u8> {
        wire_bytes(to_unsigned(*self as int, 4), 4, c.endianness_strategy)
    }

    open spec fn ser_ok(&self, c: Config, start: nat) -> bool {
        within_limit(c, start + 4)
    }

    fn binary_serialize(&self, serializer: &mut BinarySerializer) -> (r: Result<(), Error>)
        ensures
            r matches Err(e) ==> e == crate::serializer::limit_error(
                old(serializer).cfg(),
                old(serializer).written().len() + self.wire(old(serializer).cfg()).len(),
            ),
    {
        let r = serializer.i32(*self);
        proof {
            if r is Err {
                assert(final(serializer).written() == old(serializer).written() + self.wire(
                    old(serializer).cfg(),
                ).take(4));
            }
        }
        r
    }
}

impl BinarySerialize for i64 {
    open spec fn wire(&self, c: Config) -> Seq<u8> {
        wire_bytes(to_unsigned(*self as int, 8), 8, c.endianness_strategy)
    }

    open spec fn ser_ok(&self, c: Config, start: nat) -> bool {
        within_limit(c, start + 8)
    }

    fn binary_serialize(&self, serializer: &mut BinarySerializer) -> (r: Result<(), Error>)
        ensures
            r matches Err(e) ==> e == crate::serializer::limit_error(
                old(serializer).cfg(),
                old(serializer).written().len() + self.wire(old(serializer).cfg()).len(),
            ),
    {
        let r = serializer.i64(*self);
        proof {
            if r is Err {
                assert(final(serializer).written() == old(serializer).written() + self.wire(
                    old(serializer).cfg(),
                ).take(8));
            }
        }
        r
    }
}

impl BinarySerialize for i128 {
    open spec fn wire(&self, c: Config) -> Seq<u8> {
        wire_bytes(to_unsigned(*self as int, 16), 16, c.endianness_strategy)
    }

    open spec fn ser_ok(&self, c: Config, start: nat) -> bool {
        within_limit(c, start + 16)
    }

    fn binary_serialize(&self, serializer: &mut BinarySerializer) -> (r: Result<(), Error>)
        ensures
            r matches Err(e) ==> e == crate::serializer::limit_error(
                old(serializer).cfg(),
                old(serializer).written().len() + self.wire(old(serializer).cfg()).len(),
            ),
    {
        let r = serializer.i128(*self);
        proof {
            if r is Err {
                assert(final(serializer).written() == old(serializer).written() + self.wire(
                    old(serializer).cfg(),
                ).take(16));
            }
        }
        r
    }
}

impl BinarySerialize for char {
    open spec fn wire(&self, c: Config) -> Seq<u8> {
        char_wire(*self)
    }

    open spec fn ser_ok(&self, c: Config, start: nat) -> bool {
        within_limit(c, start + char_wire(*self).len())
    }

    fn binary_serialize(&self, serializer: &mut BinarySerializer) -> (r: Result<(), Error>)
        ensures
            r matches Err(e) ==> e == crate::serializer::limit_error(
                old(serializer).cfg(),
                old(serializer).written().len() + self.wire(old(serializer).cfg()).len(),
            ),
    {
        let r = serializer.char(*self);
        proof {
            if r is Err {
                let w = self.wire(old(serializer).cfg());
                assert(w.take(w.len() as int) =~= w);
            }
        }
        r
    }
}

impl BinarySerialize for String {
    open spec fn wire(&self, c: Config) -> Seq<u8> {
        len_prefix(c, encode_utf8(self@).len()) + encode_utf8(self@)
    }

    open spec fn ser_ok(&self, c: Config, start: nat) -> bool {
        within_limit(c, start + self.wire(c).len())
    }

    fn binary_serialize(&self, serializer: &mut BinarySerializer) -> (r: Result<(), Error>)
        ensures
            r matches Err(e) ==> e == crate::serializer::limit_error(
                old(serializer).cfg(),
                old(serializer).written().len() + self.wire(old(serializer).cfg()).len(),
            ),
    {
        let r = serializer.str(self.as_str());
        proof {
            if r is Err {
                let w = self.wire(old(serializer).cfg());
                assert(w.take(w.len() as int) =~= w);
            }
        }
        r
    }
}

impl<'a> BinarySerialize for &'a str {
    open spec fn wire(&self, c: Config) -> Seq<u8> {
        len_prefix(c, encode_utf8((*self)@).len()) + encode_utf8((*self)@)
    }

    open spec fn ser_ok(&self, c: Config, start: nat) -> bool {
        within_limit(c, start + self.wire(c).len())
    }

    fn binary_serialize(&self, serializer: &mut BinarySerializer) -> (r: Result<(), Error>)
        ensures
            r matches Err(e) ==> e == crate::serializer::limit_error(
                old(serializer).cfg(),
                old(serializer).written().len() + self.wire(old(serializer).cfg()).len(),
            ),
    {
        let r = serializer.str(self);
        proof {
            if r is Err {
                let w = self.wire(old(serializer).cfg());
                assert(w.take(w.len() as int) =~= w);
            }
        }
        r
    }
}

impl BinarySerialize for () {
    open spec fn wire(&self, c: Config) -> Seq<u8> {
        Seq::empty()
    }

    open spec fn ser_ok(&self, c: Config, start: nat) -> bool {
        true
    }

    fn binary_serialize(&self, serializer: &mut BinarySerializer) -> (r: Result<(), Error>) {
        proof {
            assert(serializer.written() =~= serializer.written() + Seq::<u8>::empty());
        }
        Ok(())
    }
}

impl<T: BinarySerialize> BinarySerialize for Option<T> {
    open spec fn wire(&self, c: Config) -> Seq<u8> {
        match c.optional_strategy {
            OptionalStrategy::Tagged => match self {
                None => seq![0u8],
                Some(v) => seq![1u8] + v.wire(c),
            },
            OptionalStrategy::Untagged => match self {
                None => Seq::empty(),
                Some(v) => v.wire(c),
            },
        }
    }

    open spec fn ser_ok(&self, c: Config, start: nat) -> bool {
        match c.optional_strategy {
            OptionalStrategy::Tagged => match self {
                None => within_limit(c, start + 1),
                Some(v) => within_limit(c, start + 1) && v.ser_ok(c, start + 1),
            },
            OptionalStrategy::Untagged => match self {
                None => true,
                Some(v) => v.ser_ok(c, start),
            },
        }
    }

    fn binary_serialize(&self, serializer: &mut BinarySerializer) -> (r: Result<(), Error>) {
        let ghost c = serializer.cfg();
        let ghost w = self.wire(c);
        let tagged = match serializer.config().optional_strategy {
            OptionalStrategy::Tagged => true,
            OptionalStrategy::Untagged => false,
        };
        if tagged {
            match self {
                None => {
                    let r = serializer.bool(false);
                    proof {
                        if r is Err {
                            assert(final(serializer).written() == old(serializer).written()
                                + w.take(1));
                        }
                    }
                    r
                },
                Some(v) => {
                    let r = serializer.bool(true);
                    match r {
                        Err(e) => {
                            proof {
                                assert(final(serializer).written() == old(serializer).written()
                                    + w.take(1));
                            }
                            Err(e)
                        },
                        Ok(()) => {
                            let r2 = v.binary_serialize(serializer);
                            proof {
                                let vw = v.wire(c);
                                if r2 is Ok {
                                    assert(final(serializer).written() =~= old(
                                        serializer,
                                    ).written() + w);
                                } else {
                                    let k = choose|k: int|
                                        0 <= k <= vw.len() && final(serializer).written() == (old(
                                            serializer,
                                        ).written() + seq![1u8]) + vw.take(k);
                                    assert(w.take(1 + k) =~= seq![1u8] + vw.take(k));
                                    assert(final(serializer).written() =~= old(
                                        serializer,
                                    ).written() + w.take(1 + k));
                                }
                            }
                            r2
                        },
                    }
                },
            }
        } else {
            match self {
                None => {
                    proof {
                        assert(serializer.written() =~= serializer.written() + Seq::<u8>::empty());
                    }
                    Ok(())
                },
                Some(v) => v.binary_serialize(serializer),
            }
        }
    }
}

impl<T: BinarySerialize> BinarySerialize for Vec<T> {
    open spec fn wire(&self, c: Config) -> Seq<u8> {
        len_prefix(c, self@.len()) + elems_wire(self@, c)
    }

    open spec fn ser_ok(&self, c: Config, start: nat) -> bool {
        elems_ok(self@, c, start + len_prefix(c, self@.len()).len())
    }

    /// A dynamic list: a length prefix, then the elements one after another.
    /// The budget is checked inside each element's own write, so an empty
    /// list never fails.
    #[verifier::loop_isolation(false)]
    fn binary_serialize(&self, serializer: &mut BinarySerializer) -> (r: Result<(), Error>) {
        let ghost c = serializer.cfg();
        let ghost w = self.wire(c);
        let ghost s = self@;
        let ghost prefix = len_prefix(c, s.len());
        serializer.container_length(self.len());
        proof {
            assert(s.take(0) =~= Seq::<T>::empty());
            assert(s.skip(0) =~= s);
            assert(serializer.written() =~= old(serializer).written() + prefix + elems_wire(
                s.take(0),
                c,
            ));
        }
        let mut i: usize = 0;
        while i < self.len()
            invariant
                i <= s.len(),
                serializer.cfg() == c,
                serializer.written() =~= old(serializer).written() + prefix + elems_wire(
                    s.take(i as int),
                    c,
                ),
                elems_ok(s, c, old(serializer).written().len() + prefix.len()) <==> elems_ok(
                    s.skip(i as int),
                    c,
                    serializer.written().len(),
                ),
            decreases s.len() - i,
        {
            let ghost before = serializer.written();
            let r = self[i].binary_serialize(serializer);
            proof {
                assert(s.skip(i as int).drop_first() =~= s.skip(i + 1));
                assert(s.skip(i as int)[0] == s[i as int]);
            }
            match r {
                Err(e) => {
                    proof {
                        let vw = s[i as int].wire(c);
                        let k = choose|k: int|
                            0 <= k <= vw.len() && serializer.written() == before + vw.take(k);
                        lemma_elems_wire_split(s, c, i as int);
                        lemma_elems_wire_split(s.skip(i as int), c, 1);
                        assert(s.skip(i as int).take(1) =~= seq![s[i as int]]);
                        lemma_elems_wire_singleton(s[i as int], c);
                        let kk: int = prefix.len() + elems_wire(s.take(i as int), c).len() + k;
                        assert(w.take(kk) =~= (prefix + elems_wire(s.take(i as int), c)) + vw.take(
                            k,
                        ));
                        assert(serializer.written() == old(serializer).written() + w.take(kk));
                    }
                    return Err(e);
                },
                Ok(()) => {
                    proof {
                        lemma_elems_wire_split(s.take(i + 1), c, i as int);
                        assert(s.take(i + 1).take(i as int) =~= s.take(i as int));
                        assert(s.take(i + 1).skip(i as int) =~= seq![s[i as int]]);
                        lemma_elems_wire_singleton(s[i as int], c);
                        assert(serializer.written() =~= old(serializer).written() + prefix
                            + elems_wire(s.take(i + 1), c));
                    }
                    i = i + 1;
                },
            }
        }
        proof {
            assert(s.take(s.len() as int) =~= s);
            assert(s.skip(s.len() as int) =~= Seq::<T>::empty());
            assert(old(serializer).written() + prefix + elems_wire(s, c) =~= old(
                serializer,
            ).written() + (prefix + elems_wire(s, c)));
        }
        Ok(())
    }
}

impl<T: BinarySerialize, const N: usize> BinarySerialize for [T; N] {
    open spec fn wire(&self, c: Config) -> Seq<u8> {
        elems_wire(self@, c)
    }

    open spec fn ser_ok(&self, c: Config, start: nat) -> bool {
        elems_ok(self@, c, start)
    }

    /// A fixed-size array: the elements one after another, with no length
    /// prefix — the length is static.
    #[verifier::loop_isolation(false)]
    fn binary_serialize(&self, serializer: &mut BinarySerializer) -> (r: Result<(), Error>) {
        broadcast use vstd::array::group_array_axioms;

        let ghost c = serializer.cfg();
        let ghost w = self.wire(c);
        let ghost s = self@;
        let elems: &[T] = self.as_slice();
        proof {
            assert(s.take(0) =~= Seq::<T>::empty());
            assert(s.skip(0) =~= s);
            assert(serializer.written() =~= old(serializer).written() + elems_wire(s.take(0), c));
        }
        let mut i: usize = 0;
        while i < elems.len()
            invariant
                i <= s.len(),
                elems@ == s,
                serializer.cfg() == c,
                serializer.written() =~= old(serializer).written() + elems_wire(s.take(i as int), c),
                elems_ok(s, c, old(serializer).written().len()) <==> elems_ok(
                    s.skip(i as int),
                    c,
                    serializer.written().len(),
                ),
            decreases s.len() - i,
        {
            let ghost before = serializer.written();
            let r = elems[i].binary_serialize(serializer);
            proof {
                assert(s.skip(i as int).drop_first() =~= s.skip(i + 1));
                assert(s.skip(i as int)[0] == s[i as int]);
            }
            match r {
                Err(e) => {
                    proof {
                        let vw = s[i as int].wire(c);
                        let k = choose|k: int|
                            0 <= k <= vw.len() && serializer.written() == before + vw.take(k);
                        lemma_elems_wire_split(s, c, i as int);
                        lemma_elems_wire_split(s.skip(i as int), c, 1);
                        assert(s.skip(i as int).take(1) =~= seq![s[i as int]]);
                        lemma_elems_wire_singleton(s[i as int], c);
                        let kk: int = elems_wire(s.take(i as int), c).len() + k;
                        assert(w.take(kk) =~= elems_wire(s.take(i as int), c) + vw.take(k));
                        assert(serializer.written() == old(serializer).written() + w.take(kk));
                    }
                    return Err(e);
                },
                Ok(()) => {
                    proof {
                        lemma_elems_wire_split(s.take(i + 1), c, i as int);
                        assert(s.take(i + 1).take(i as int) =~= s.take(i as int));
                        assert(s.take(i + 1).skip(i as int) =~= seq![s[i as int]]);
                        lemma_elems_wire_singleton(s[i as int], c);
                        assert(serializer.written() =~= old(serializer).written() + elems_wire(
                            s.take(i + 1),
                            c,
                        ));
                    }
                    i = i + 1;
                },
            }
        }
        proof {
            assert(s.take(s.len() as int) =~= s);
            assert(s.skip(s.len() as int) =~= Seq::<T>::empty());
        }
        Ok(())
    }
}

impl<A: BinarySerialize> BinarySerialize for (A,) {
    open spec fn wire(&self, c: Config) -> Seq<u8> {
        self.0.wire(c)
    }

    open spec fn ser_ok(&self, c: Config, start: nat) -> bool {
        self.0.ser_ok(c, start)
    }

    fn binary_serialize(&self, serializer: &mut BinarySerializer) -> (r: Result<(), Error>) {
        let ghost c = serializer.cfg();
        let r = self.0.binary_serialize(serializer);
        proof {
            if r is Err {
                let k = choose|k: int|
                    0 <= k <= self.0.wire(c).len() && serializer.written() == old(
                        serializer,
                    ).written() + self.0.wire(c).take(k);
                assert(0 <= k <= self.wire(c).len() && serializer.written() == old(
                    serializer,
                ).written() + self.wire(c).take(k));
            }
        }
        r
    }
}

impl<A: BinarySerialize, B: BinarySerialize> BinarySerialize for (A, B) {
    open spec fn wire(&self, c: Config) -> Seq<u8> {
        self.0.wire(c) + self.1.wire(c)
    }

    open spec fn ser_ok(&self, c: Config, start: nat) -> bool {
        self.0.ser_ok(c, start) && self.1.ser_ok(c, start + self.0.wire(c).len())
    }

    fn binary_serialize(&self, serializer: &mut BinarySerializer) -> (r: Result<(), Error>) {
        let ghost c = serializer.cfg();
        let ghost w = self.wire(c);
        match self.0.binary_serialize(serializer) {
            Err(e) => {
                proof {
                    let aw = self.0.wire(c);
                    let k = choose|k: int|
                        0 <= k <= aw.len() && serializer.written() == old(serializer).written()
                            + aw.take(k);
                    assert(w.take(k) =~= aw.take(k));
                }
                Err(e)
            },
            Ok(()) => {
                let ghost mid = serializer.written();
                match self.1.binary_serialize(serializer) {
                    Err(e) => {
                        proof {
                            let aw = self.0.wire(c);
                            let bw = self.1.wire(c);
                            let k = choose|k: int|
                                0 <= k <= bw.len() && serializer.written() == mid + bw.take(k);
                            assert(w.take(aw.len() + k) =~= aw + bw.take(k));
                        }
                        Err(e)
                    },
                    Ok(()) => {
                        proof {
                            assert(serializer.written() =~= old(serializer).written() + w);
                        }
                        Ok(())
                    },
                }
            },
        }
    }
}

impl<A: BinarySerialize, B: BinarySerialize, C: BinarySerialize> BinarySerialize for (A, B, C) {
    open spec fn wire(&self, c: Config) -> Seq<u8> {
        self.0.wire(c) + self.1.wire(c) + self.2.wire(c)
    }

    open spec fn ser_ok(&self, c: Config, start: nat) -> bool {
        &&& self.0.ser_ok(c, start)
        &&& self.1.ser_ok(c, start + self.0.wire(c).len())
        &&& self.2.ser_ok(c, start + self.0.wire(c).len() + self.1.wire(c).len())
    }

    fn binary_serialize(&self, serializer: &mut BinarySerializer) -> (r: Result<(), Error>) {
        let ghost c = serializer.cfg();
        let ghost w = self.wire(c);
        let ghost aw = self.0.wire(c);
        let ghost bw = self.1.wire(c);
        let ghost cw = self.2.wire(c);
        match self.0.binary_serialize(serializer) {
            Err(e) => {
                proof {
                    let k = choose|k: int|
                        0 <= k <= aw.len() && serializer.written() == old(serializer).written()
                            + aw.take(k);
                    assert(w.take(k) =~= aw.take(k));
                }
                Err(e)
            },
            Ok(()) => {
                let ghost mid1 = serializer.written();
                match self.1.binary_serialize(serializer) {
                    Err(e) => {
                        proof {
                            let k = choose|k: int|
                                0 <= k <= bw.len() && serializer.written() == mid1 + bw.take(k);
                            assert(w.take(aw.len() + k) =~= aw + bw.take(k));
                        }
                        Err(e)
                    },
                    Ok(()) => {
                        let ghost mid2 = serializer.written();
                        match self.2.binary_serialize(serializer) {
                            Err(e) => {
                                proof {
                                    let k = choose|k: int|
                                        0 <= k <= cw.len() && serializer.written() == mid2
                                            + cw.take(k);
                                    assert(w.take(aw.len() + bw.len() + k) =~= (aw + bw) + cw.take(
                                        k,
                                    ));
                                }
                                Err(e)
                            },
                            Ok(()) => {
                                proof {
                                    assert(serializer.written() =~= old(serializer).written() + w);
                                }
                                Ok(())
                            },
                        }
                    },
                }
            },
        }
    }
}

impl<
    A: BinarySerialize,
    B: BinarySerialize,
    C: BinarySerialize,
    D: BinarySerialize,
> BinarySerialize for (A, B, C, D) {
    open spec fn wire(&self, c: Config) -> Seq<u8> {
        self.0.wire(c) + self.1.wire(c) + self.2.wire(c) + self.3.wire(c)
    }

    open spec fn ser_ok(&self, c: Config, start: nat) -> bool {
        &&& self.0.ser_ok(c, start)
        &&& self.1.ser_ok(c, start + self.0.wire(c).len())
        &&& self.2.ser_ok(c, start + self.0.wire(c).len() + self.1.wire(c).len())
        &&& self.3.ser_ok(
            c,
            start + self.0.wire(c).len() + self.1.wire(c).len() + self.2.wire(c).len(),
        )
    }

    fn binary_serialize(&self, serializer: &mut BinarySerializer) -> (r: Result<(), Error>) {
        let ghost c = serializer.cfg();
        let ghost w = self.wire(c);
        let ghost aw = self.0.wire(c);
        let ghost bw = self.1.wire(c);
        let ghost cw = self.2.wire(c);
        let ghost dw = self.3.wire(c);
        match self.0.binary_serialize(serializer) {
            Err(e) => {
                proof {
                    let k = choose|k: int|
                        0 <= k <= aw.len() && serializer.written() == old(serializer).written()
                            + aw.take(k);
                    assert(w.take(k) =~= aw.take(k));
                }
                Err(e)
            },
            Ok(()) => {
                let ghost mid1 = serializer.written();
                match self.1.binary_serialize(serializer) {
                    Err(e) => {
                        proof {
                            let k = choose|k: int|
                                0 <= k <= bw.len() && serializer.written() == mid1 + bw.take(k);
                            assert(w.take(aw.len() + k) =~= aw + bw.take(k));
                        }
                        Err(e)
                    },
                    Ok(()) => {
                        let ghost mid2 = serializer.written();
                        match self.2.binary_serialize(serializer) {
                            Err(e) => {
                                proof {
                                    let k = choose|k: int|
                                        0 <= k <= cw.len() && serializer.written() == mid2
                                            + cw.take(k);
                                    assert(w.take(aw.len() + bw.len() + k) =~= (aw + bw) + cw.take(
                                        k,
                                    ));
                                }
                                Err(e)
                            },
                            Ok(()) => {
                                let ghost mid3 = serializer.written();
                                match self.3.binary_serialize(serializer) {
                                    Err(e) => {
                                        proof {
                                            let k = choose|k: int|
                                                0 <= k <= dw.len() && serializer.written() == mid3
                                                    + dw.take(k);
                                            assert(w.take(aw.len() + bw.len() + cw.len() + k) =~= (
                                            (aw + bw) + cw) + dw.take(k));
                                        }
                                        Err(e)
                                    },
                                    Ok(()) => {
                                        proof {
                                            assert(serializer.written() =~= old(
                                                serializer,
                                            ).written() + w);
                                        }
                                        Ok(())
                                    },
                                }
                            },
                        }
                    },
                }
            },
        }
    }
}

} // verus!
