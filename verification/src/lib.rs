//! A configurable binary codec: typed values are encoded into a compact byte
//! stream and decoded back, under caller-selected strategies for byte order,
//! optional-value tagging, container-length framing, and an optional byte
//! budget.
//!
//! The engine is split into:
//! - [`config`]: the immutable strategy bundle shared by one session;
//! - [`serializer`]: primitive writes into a growable output buffer;
//! - [`parser`]: bounds-checked primitive reads from a borrowed byte slice;
//! - [`ser`] / [`par`]: the per-type codec contract ([`BinarySerialize`],
//!   [`BinaryParse`]) with built-in implementations for scalars, strings,
//!   optional values, dynamic lists and tuples;
//! - [`laws`]: the round-trip law tying the two halves together;
//! - [`bitfield`]: the accumulator that packs runs of sub-byte-width fields;
//! - [`variant`]: discriminant resolution and matching for tagged unions;
//! - [`containers`]: the per-field override of the length-prefix width;
//! - [`convert`]: fixed-width byte-order conversion of single scalars;
//! - [`error`]: the closed set of failure kinds.
//!
//! Every contract is stated over the byte-level model in [`wire`].
//! Associative containers are encoded through their entry lists
//! (`Vec<(K, V)>` and `Vec<T>`): the engine fixes no iteration order for a
//! hash container, so no byte-exact contract could name one.

pub mod bitfield;
pub mod config;
pub mod containers;
pub mod convert;
pub mod error;
pub mod laws;
pub mod par;
pub mod parser;
pub mod ser;
pub mod serializer;
pub mod variant;
pub mod wire;

use vstd::prelude::*;
use crate::config::Config;
use crate::error::Error;
use crate::par::BinaryParse;
use crate::parser::BinaryParser;
use crate::ser::BinarySerialize;
use crate::serializer::BinarySerializer;

verus! {

/// Serializes `value` under `config` and yields the final byte sequence:
/// exactly `value.wire(config)`, produced exactly when `value.ser_ok`
/// admits the write.
pub fn to_bytes_with_config<T: BinarySerialize>(value: &T, config: Config) -> (r: Result<
    Vec<u8>,
    Error,
>)
    ensures
        r is Ok <==> value.ser_ok(config, 0),
        r matches Ok(b) ==> b@ == value.wire(config),
{
    let mut serializer = BinarySerializer::new(config);
    match value.binary_serialize(&mut serializer) {
        Err(e) => Err(e),
        Ok(()) => {
            proof {
                assert(Seq::<u8>::empty() + value.wire(config) =~= value.wire(config));
            }
            Ok(serializer.output())
        },
    }
}

/// Serializes `value` under the default configuration: little-endian,
/// tagged optionals, 4-byte container lengths, no byte budget.
pub fn to_bytes<T: BinarySerialize>(value: &T) -> (r: Result<Vec<u8>, Error>)
    ensures
        r is Ok <==> value.ser_ok(Config::spec_default(), 0),
        r matches Ok(b) ==> b@ == value.wire(Config::spec_default()),
{
    to_bytes_with_config(value, Config::new())
}

/// Deserializes a value of type `T` from `bytes` under `config`, returning
/// the value and how many bytes were consumed.
pub fn from_bytes_with_config<T: BinaryParse>(bytes: &[u8], config: Config) -> (r: Result<
    (T, usize),
    Error,
>)
    ensures
        r is Ok <==> T::parse_ok(config, bytes@),
        r matches Ok(p) ==> T::parses(config, bytes@, p.0) && p.1 as nat == T::consumed(
            config,
            bytes@,
        ),
{
    let mut deserializer = BinaryParser::new(bytes, config);
    proof {
        assert(deserializer.remaining() =~= bytes@);
    }
    match T::binary_parse(&mut deserializer) {
        Err(e) => Err(e),
        Ok(v) => {
            let size = deserializer.size();
            Ok((v, size))
        },
    }
}

/// Deserializes a value of type `T` from `bytes` under the default
/// configuration, returning the value and how many bytes were consumed.
pub fn from_bytes<T: BinaryParse>(bytes: &[u8]) -> (r: Result<(T, usize), Error>)
    ensures
        r is Ok <==> T::parse_ok(Config::spec_default(), bytes@),
        r matches Ok(p) ==> T::parses(Config::spec_default(), bytes@, p.0) && p.1 as nat
            == T::consumed(Config::spec_default(), bytes@),
{
    from_bytes_with_config(bytes, Config::new())
}

} // verus!
