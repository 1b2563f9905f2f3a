//! The immutable strategy bundle shared by one encode or decode session.

use vstd::prelude::*;

verus! {

/// Byte order used for integers wider than one byte.
///
/// `Little` stores the least significant byte first; `Big` stores the most
/// significant byte first. The default is `Little`.
#[derive(Clone, Copy, Debug, PartialEq, Eq, Structural)]
pub enum EndiannessStrategy {
    Little,
    Big,
}

/// How optional values are put on the wire.
///
/// `Tagged` (the default) writes one presence byte: `0x00` for an absent
/// value, `0x01` followed by the payload for a present one. `Untagged` writes
/// the payload alone for a present value and nothing for an absent one; on
/// decode the payload is always attempted, so an absent value cannot round
/// trip under `Untagged`. That asymmetry is a structural property of the
/// format, not an error.
#[derive(Clone, Copy, Debug, PartialEq, Eq, Structural)]
pub enum OptionalStrategy {
    Tagged,
    Untagged,
}

/// Width of the length prefix written before variable-length containers
/// (strings, byte blobs, dynamic lists). The default is `FourBytes`.
#[derive(Clone, Copy, Debug, PartialEq, Eq, Structural)]
pub enum ContainerLengthStrategy {
    OneByte,
    TwoBytes,
    FourBytes,
    EightBytes,
    SixteenBytes,
}

impl ContainerLengthStrategy {
    /// The prefix width in bytes: 1, 2, 4, 8 or 16.
    pub open spec fn spec_width(self) -> nat {
        match self {
            ContainerLengthStrategy::OneByte => 1,
            ContainerLengthStrategy::TwoBytes => 2,
            ContainerLengthStrategy::FourBytes => 4,
            ContainerLengthStrategy::EightBytes => 8,
            ContainerLengthStrategy::SixteenBytes => 16,
        }
    }

    /// Executable counterpart of [`Self::spec_width`].
    pub fn width(self) -> (w: usize)
        ensures
            w as nat == self.spec_width(),
    {
        match self {
            ContainerLengthStrategy::OneByte => 1,
            ContainerLengthStrategy::TwoBytes => 2,
            ContainerLengthStrategy::FourBytes => 4,
            ContainerLengthStrategy::EightBytes => 8,
            ContainerLengthStrategy::SixteenBytes => 16,
        }
    }
}

/// The configuration of one encode or decode session: byte order, optional
/// tagging, container-length width, and an optional byte budget.
///
/// All fields are fixed for the life of a session. `limit` is a soft,
/// post-write budget: a single write may push the output past the limit
/// before the overflow is reported.
#[derive(Clone, Copy, Debug)]
pub struct Config {
    pub endianness_strategy: EndiannessStrategy,
    pub optional_strategy: OptionalStrategy,
    pub container_length_strategy: ContainerLengthStrategy,
    pub limit: Option<usize>,
}

impl Config {
    /// The default configuration: little-endian, tagged optionals, 4-byte
    /// container lengths, no byte budget.
    pub open spec fn spec_default() -> Config {
        Config {
            endianness_strategy: EndiannessStrategy::Little,
            optional_strategy: OptionalStrategy::Tagged,
            container_length_strategy: ContainerLengthStrategy::FourBytes,
            limit: None,
        }
    }

    pub fn new() -> (c: Config)
        ensures
            c == Config::spec_default(),
    {
        Config {
            endianness_strategy: EndiannessStrategy::Little,
            optional_strategy: OptionalStrategy::Tagged,
            container_length_strategy: ContainerLengthStrategy::FourBytes,
            limit: None,
        }
    }

    /// Integers are encoded and decoded most significant byte first.
    pub fn with_big_endian(self) -> (c: Config)
        ensures
            c == (Config { endianness_strategy: EndiannessStrategy::Big, ..self }),
    {
        Config { endianness_strategy: EndiannessStrategy::Big, ..self }
    }

    /// Integers are encoded and decoded least significant byte first.
    pub fn with_little_endian(self) -> (c: Config)
        ensures
            c == (Config { endianness_strategy: EndiannessStrategy::Little, ..self }),
    {
        Config { endianness_strategy: EndiannessStrategy::Little, ..self }
    }

    pub fn with_untagged_optional(self) -> (c: Config)
        ensures
            c == (Config { optional_strategy: OptionalStrategy::Untagged, ..self }),
    {
        Config { optional_strategy: OptionalStrategy::Untagged, ..self }
    }

    pub fn with_tagged_optional(self) -> (c: Config)
        ensures
            c == (Config { optional_strategy: OptionalStrategy::Tagged, ..self }),
    {
        Config { optional_strategy: OptionalStrategy::Tagged, ..self }
    }

    /// Selects the container-length width from the size of a type, which must
    /// be 1, 2, 4, 8 or 16 bytes; any other size is a construction error and
    /// is rejected here, never deferred to decode time.
    pub fn with_container_size_as<T>(self) -> (c: Config)
        requires
            vstd::layout::size_of::<T>() == 1 || vstd::layout::size_of::<T>() == 2
                || vstd::layout::size_of::<T>() == 4 || vstd::layout::size_of::<T>() == 8
                || vstd::layout::size_of::<T>() == 16,
        ensures
            c.endianness_strategy == self.endianness_strategy,
            c.optional_strategy == self.optional_strategy,
            c.limit == self.limit,
            c.container_length_strategy.spec_width() == vstd::layout::size_of::<T>(),
    {
        let n = core::mem::size_of::<T>();
        self.with_container_size_length(n)
    }

    /// Selects the container-length width in bytes, which must be 1, 2, 4, 8
    /// or 16; any other width is a construction error and is rejected here,
    /// never deferred to decode time.
    pub fn with_container_size_length(self, length: usize) -> (c: Config)
        requires
            length == 1 || length == 2 || length == 4 || length == 8 || length == 16,
        ensures
            c.endianness_strategy == self.endianness_strategy,
            c.optional_strategy == self.optional_strategy,
            c.limit == self.limit,
            c.container_length_strategy.spec_width() == length,
    {
        let strategy = match length {
            1 => ContainerLengthStrategy::OneByte,
            2 => ContainerLengthStrategy::TwoBytes,
            4 => ContainerLengthStrategy::FourBytes,
            8 => ContainerLengthStrategy::EightBytes,
            _ => ContainerLengthStrategy::SixteenBytes,
        };
        Config { container_length_strategy: strategy, ..self }
    }

    pub fn with_limit(self, limit: usize) -> (c: Config)
        ensures
            c == (Config { limit: Some(limit), ..self }),
    {
        Config { limit: Some(limit), ..self }
    }

    pub fn with_no_limit(self) -> (c: Config)
        ensures
            c == (Config { limit: None, ..self }),
    {
        Config { limit: None, ..self }
    }
}

impl Default for Config {
    fn default() -> (c: Config)
        ensures
            c == Config::spec_default(),
    {
        Config::new()
    }
}

} // verus!
