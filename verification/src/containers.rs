//! A container wrapper that overrides the configured length-prefix width
//! for one field: the prefix of a `FixedSizeContainer<_, SIZE_BYTES>` is
//! always `SIZE_BYTES` bytes wide (0 for no prefix at all), whatever the
//! session's `ContainerLengthStrategy` says.

use vstd::prelude::*;
use crate::config::Config;
use crate::error::Error;
use crate::par::{
    elems_consumed, elems_parse_ok, elems_parses, greedy_consumed, greedy_parses, parse_elems,
    parse_greedy, parse_progress, BinaryParse,
};
use crate::parser::BinaryParser;
use crate::ser::{elems_ok, elems_wire, lemma_elems_wire_singleton, lemma_elems_wire_split, BinarySerialize};
use crate::serializer::BinarySerializer;
use crate::wire::{wire_bytes, wire_value};
use vstd::arithmetic::power2::{pow2, lemma2_to64};

verus! {

broadcast use crate::wire::lemma_le_bytes_of_len;

/// A container encoded with a length prefix of exactly `SIZE_BYTES` bytes.
/// With `SIZE_BYTES == 0` no prefix is written at all.
#[derive(Debug)]
pub struct FixedSizeContainer<Container, const SIZE_BYTES: usize>(pub Container);

impl<Container, const SIZE_BYTES: usize> FixedSizeContainer<Container, SIZE_BYTES> {
    pub fn new(data: Container) -> (r: FixedSizeContainer<Container, SIZE_BYTES>)
        ensures
            r.0 == data,
    {
        FixedSizeContainer(data)
    }
}

impl<T: BinarySerialize, const SIZE_BYTES: usize> FixedSizeContainer<Vec<T>, SIZE_BYTES> {
    /// The wire image: the element count in `SIZE_BYTES` bytes of the
    /// configured byte order (nothing for width 0), then the elements.
    pub open spec fn wire(&self, c: Config) -> Seq<u8> {
        wire_bytes(self.0@.len(), SIZE_BYTES as nat, c.endianness_strategy) + elems_wire(
            self.0@,
            c,
        )
    }

    /// Writes the container. The prefix width must be one of the supported
    /// widths; any other is a declaration error, rejected when the type is
    /// registered, so it is excluded here.
    #[verifier::loop_isolation(false)]
    pub fn binary_serialize(&self, serializer: &mut BinarySerializer) -> (r: Result<(), Error>)
        requires
            SIZE_BYTES == 0 || SIZE_BYTES == 1 || SIZE_BYTES == 2 || SIZE_BYTES == 4 || SIZE_BYTES
                == 8 || SIZE_BYTES == 16,
        ensures
            final(serializer).cfg() == old(serializer).cfg(),
            r is Ok <==> (SIZE_BYTES == 0 || crate::wire::within_limit(
                old(serializer).cfg(),
                (old(serializer).written().len() + SIZE_BYTES) as nat,
            )) && elems_ok(
                self.0@,
                old(serializer).cfg(),
                (old(serializer).written().len() + SIZE_BYTES) as nat,
            ),
            r is Ok ==> final(serializer).written() == old(serializer).written() + self.wire(
                old(serializer).cfg(),
            ),
    {
        let ghost c = serializer.cfg();
        let ghost s = self.0@;
        let ghost prefix = wire_bytes(s.len(), SIZE_BYTES as nat, c.endianness_strategy);
        let len: usize = self.0.len();
        if SIZE_BYTES == 0 {
            proof {
                assert(prefix =~= Seq::<u8>::empty());
                assert(serializer.written() =~= old(serializer).written() + prefix);
            }
        } else {
            proof {
                vstd::arithmetic::power2::lemma2_to64();
                vstd::arithmetic::power2::lemma2_to64_rest();
                crate::wire::lemma_pow2_128();
                crate::serializer::lemma_wire_bytes_mod(
                    s.len(),
                    SIZE_BYTES as nat,
                    c.endianness_strategy,
                );
            }
            let r0 = match SIZE_BYTES {
                1 => serializer.u8((len % 256) as u8),
                2 => serializer.u16((len % 65536) as u16),
                4 => serializer.u32((((len as u64) % 0x1_0000_0000) as u32)),
                8 => serializer.u64((((len as u128) % 0x1_0000_0000_0000_0000) as u64)),
                _ => {
                    proof {
                        vstd::arithmetic::div_mod::lemma_small_mod(len as nat, pow2(128));
                    }
                    serializer.u128(len as u128)
                },
            };
            proof {
                assert(serializer.written() =~= old(serializer).written() + prefix);
            }
            match r0 {
                Err(e) => {
                    return Err(e);
                },
                Ok(()) => {},
            }
        }
        let mut i: usize = 0;
        proof {
            assert(s.take(0) =~= Seq::<T>::empty());
            assert(s.skip(0) =~= s);
            assert(serializer.written() =~= old(serializer).written() + prefix + elems_wire(
                s.take(0),
                c,
            ));
        }
        while i < self.0.len()
            invariant
                i <= s.len(),
                self.0@ == s,
                serializer.cfg() == c,
                serializer.written() =~= old(serializer).written() + prefix + elems_wire(
                    s.take(i as int),
                    c,
                ),
                elems_ok(s, c, old(serializer).written().len() + prefix.len()) <==> elems_ok(
                    s.skip(i as int),
                    c,
                    serializer.written().len(),
                ),
            decreases s.len() - i,
        {
            let r = self.0[i].binary_serialize(serializer);
            proof {
                assert(s.skip(i as int).drop_first() =~= s.skip(i + 1));
                assert(s.skip(i as int)[0] == s[i as int]);
            }
            match r {
                Err(e) => {
                    return Err(e);
                },
                Ok(()) => {
                    proof {
                        lemma_elems_wire_split(s.take(i + 1), c, i as int);
                        assert(s.take(i + 1).take(i as int) =~= s.take(i as int));
                        assert(s.take(i + 1).skip(i as int) =~= seq![s[i as int]]);
                        lemma_elems_wire_singleton(s[i as int], c);
                        assert(serializer.written() =~= old(serializer).written() + prefix
                            + elems_wire(s.take(i + 1), c));
                    }
                    i = i + 1;
                },
            }
        }
        proof {
            assert(s.take(s.len() as int) =~= s);
            assert(s.skip(s.len() as int) =~= Seq::<T>::empty());
            assert(old(serializer).written() + prefix + elems_wire(s, c) =~= old(
                serializer,
            ).written() + (prefix + elems_wire(s, c)));
        }
        Ok(())
    }
}

impl<T: BinaryParse, const SIZE_BYTES: usize> FixedSizeContainer<Vec<T>, SIZE_BYTES> {
    /// The element count named by the container's own prefix: `SIZE_BYTES`
    /// bytes in the configured byte order, truncated into `usize` as the
    /// machine's pointer width allows.
    pub open spec fn spec_count(c: Config, data: Seq<u8>) -> nat
        recommends
            data.len() >= SIZE_BYTES,
    {
        wire_value(data.take(SIZE_BYTES as int), c.endianness_strategy) % (usize::MAX as nat + 1)
    }

    /// Reads the container: its own fixed-width prefix, then that many
    /// elements. A width-0 container has no prefix and reads greedily,
    /// element after element, until one fails; that terminating failure is
    /// swallowed, its consumption kept. The greedy mode therefore asks that
    /// every successful element parse consume input ([`parse_progress`]),
    /// or the loop could never end — the declaration is rejected at
    /// registration time for element types with an empty encoding.
    pub fn binary_parse(parser: &mut BinaryParser) -> (r: Result<
        FixedSizeContainer<Vec<T>, SIZE_BYTES>,
        Error,
    >)
        requires
            old(parser).wf(),
            SIZE_BYTES == 0 || SIZE_BYTES == 1 || SIZE_BYTES == 2 || SIZE_BYTES == 4 || SIZE_BYTES
                == 8 || SIZE_BYTES == 16,
            SIZE_BYTES == 0 ==> parse_progress::<T>(old(parser).cfg()),
        ensures
            final(parser).wf(),
            final(parser).data() == old(parser).data(),
            final(parser).cfg() == old(parser).cfg(),
            ({
                let c = old(parser).cfg();
                let rem = old(parser).remaining();
                let n = Self::spec_count(c, rem);
                let body = rem.skip(SIZE_BYTES as int);
                &&& (SIZE_BYTES == 0 ==> final(parser).cursor() == old(parser).cursor()
                    + greedy_consumed::<T>(c, rem) && (r matches Ok(v) && greedy_parses::<T>(
                    c,
                    rem,
                    v.0@,
                )))
                &&& (SIZE_BYTES > 0 && rem.len() < SIZE_BYTES ==> final(parser).cursor() == old(
                    parser,
                ).cursor() && (r matches Err(e) && e == (Error::NoEnoughData {
                    expected: SIZE_BYTES,
                    available: rem.len() as usize,
                })))
                &&& (SIZE_BYTES > 0 && rem.len() >= SIZE_BYTES ==> final(parser).cursor() == old(
                    parser,
                ).cursor() + SIZE_BYTES + elems_consumed::<T>(c, body, n))
                &&& (SIZE_BYTES > 0 ==> (r is Ok <==> rem.len() >= SIZE_BYTES && elems_parse_ok::<
                    T,
                >(c, body, n)))
                &&& (SIZE_BYTES > 0 ==> (r matches Ok(v) ==> v.0@.len() == n && elems_parses(
                    c,
                    body,
                    v.0@,
                )))
            }),
    {
        if SIZE_BYTES == 0 {
            let vs = parse_greedy::<T>(parser);
            return Ok(FixedSizeContainer(vs));
        }
        proof {
            lemma2_to64();
            vstd::arithmetic::power2::lemma2_to64_rest();
            crate::wire::lemma_pow2_128();
            let rem = old(parser).remaining();
            if rem.len() >= SIZE_BYTES {
                let window = rem.take(SIZE_BYTES as int);
                crate::wire::lemma_le_value_of_bound(window);
                crate::wire::lemma_le_value_of_bound(window.reverse());
            }
        }
        let raw: u128 = match SIZE_BYTES {
            1 => match parser.u8() {
                Ok(v) => v as u128,
                Err(e) => {
                    return Err(e);
                },
            },
            2 => match parser.u16() {
                Ok(v) => v as u128,
                Err(e) => {
                    return Err(e);
                },
            },
            4 => match parser.u32() {
                Ok(v) => v as u128,
                Err(e) => {
                    return Err(e);
                },
            },
            8 => match parser.u64() {
                Ok(v) => v as u128,
                Err(e) => {
                    return Err(e);
                },
            },
            _ => match parser.u128() {
                Ok(v) => v,
                Err(e) => {
                    return Err(e);
                },
            },
        };
        let n: usize = (raw % ((usize::MAX as u128) + 1)) as usize;
        proof {
            assert(n as nat == Self::spec_count(old(parser).cfg(), old(parser).remaining()));
            assert(parser.remaining() =~= old(parser).remaining().skip(SIZE_BYTES as int));
        }
        match parse_elems::<T>(parser, n) {
            Err(e) => Err(e),
            Ok(vs) => Ok(FixedSizeContainer(vs)),
        }
    }
}

} // verus!
