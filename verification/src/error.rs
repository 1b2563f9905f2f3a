//! The closed set of failure kinds shared by every component of the codec.
//!
//! Every error is immediately terminal for the encode or decode call that
//! raised it: there are no partial results and no recovery inside the engine.

use vstd::prelude::*;
use vstd::string::StringExecFns;

verus! {

/// One failure kind. The variants carrying `expected`/`found` descriptions
/// are semantic mismatches; `UnknownField`, `MissingField` and
/// `DuplicateField` are reserved for name-keyed decoding paths of adapter
/// layers and are not raised by the positional codec itself.
#[derive(Clone, Debug, PartialEq)]
pub enum Error {
    /// A generic, uncategorized failure: the escape hatch for adapter layers.
    Message(String),
    /// A value of an unexpected type was met.
    InvalidType { expected: String, found: String },
    /// A value outside the expected domain was met.
    InvalidValue { expected: String, found: String },
    /// A length outside the expected domain was met.
    InvalidLength { expected: String, found: String },
    /// A tagged-union discriminant matched no declared variant. `expected`
    /// lists every tag of the union, comma-joined, with `or` before the last.
    InvalidVariant { expected: String, found: String },
    /// A field name not declared by the type (adapter layers only).
    UnknownField { field: String, expected: Vec<String> },
    /// A declared field missing from the input (adapter layers only).
    MissingField { field: String },
    /// A field met twice (adapter layers only).
    DuplicateField { field: String },
    /// The output grew past the configured byte budget. `size` is the output
    /// size right after the offending write.
    LimitExceeded { limit: usize, size: usize },
    /// A read needed `expected` bytes but only `available` remained.
    NoEnoughData { expected: usize, available: usize },
    /// A boolean decode saw a byte other than 0 or 1.
    InvalidBoolValue(u8),
    /// A character or string decode saw bytes that are not UTF-8.
    InvalidUtf8 { value: Vec<u8> },
    /// A bit-field value does not fit its declared width under the reject
    /// policy. Both numbers are rendered in hexadecimal.
    Overflow { value: String, max: String },
}

/// The rendering of a nonnegative number inside an error message.
pub open spec fn dec_of(v: nat) -> Seq<char> {
    crate::variant::dec_digits(v)
}

/// The rendering of a byte sequence inside an error message: the bytes in
/// decimal, comma-separated.
pub open spec fn byte_items(s: Seq<u8>) -> Seq<char>
    decreases s.len(),
{
    if s.len() == 0 {
        Seq::empty()
    } else if s.len() == 1 {
        dec_of(s[0] as nat)
    } else {
        dec_of(s[0] as nat) + ", "@ + byte_items(s.drop_first())
    }
}

/// The rendering of a field-name list inside an error message: each name
/// quoted, comma-separated.
pub open spec fn quoted_items(ss: Seq<String>) -> Seq<char>
    decreases ss.len(),
{
    if ss.len() == 0 {
        Seq::empty()
    } else if ss.len() == 1 {
        seq!['"'] + ss[0]@ + seq!['"']
    } else {
        seq!['"'] + ss[0]@ + seq!['"'] + ", "@ + quoted_items(ss.drop_first())
    }
}

/// The one-line description of each failure kind.
pub open spec fn message_spec(e: Error) -> Seq<char> {
    match e {
        Error::Message(m) => m@,
        Error::InvalidType { expected, found } => "Invalid type: expected "@ + expected@
            + ", found "@ + found@,
        Error::InvalidValue { expected, found } => "Invalid value: expected "@ + expected@
            + ", found "@ + found@,
        Error::InvalidLength { expected, found } => "Invalid length: expected "@ + expected@
            + ", found "@ + found@,
        Error::InvalidVariant { expected, found } => "Invalid variant: expected "@ + expected@
            + ", found "@ + found@,
        Error::UnknownField { field, expected } => "Unknown field: "@ + field@
            + ". Expected fields: ["@ + quoted_items(expected@) + "]"@,
        Error::MissingField { field } => "Missing field: "@ + field@,
        Error::DuplicateField { field } => "Duplicate field: "@ + field@,
        Error::LimitExceeded { limit, size } => "Limit exceeded: limit "@ + dec_of(limit as nat)
            + ", size "@ + dec_of(size as nat),
        Error::NoEnoughData { expected, available } => "Not enough data: expected "@ + dec_of(
            expected as nat,
        ) + ", available "@ + dec_of(available as nat),
        Error::InvalidBoolValue(v) => "Invalid boolean value: "@ + dec_of(v as nat),
        Error::InvalidUtf8 { value } => "Invalid UTF-8 sequence: ["@ + byte_items(value@) + "]"@,
        Error::Overflow { value, max } => "Overflow: value "@ + value@ + ", max "@ + max@,
    }
}

/// Renders a nonnegative count as its decimal digits.
fn count_string(v: usize) -> (r: String)
    ensures
        r@ == dec_of(v as nat),
{
    crate::variant::i128_to_string(v as i128)
}

/// Renders the bytes of `s` from index `i` on, as [`byte_items`] of the
/// remaining entries.
fn byte_items_from(s: &Vec<u8>, i: usize) -> (r: String)
    requires
        i < s@.len(),
    ensures
        r@ == byte_items(s@.skip(i as int)),
    decreases s@.len() - i,
{
    proof {
        assert(s@.skip(i as int)[0] == s@[i as int]);
    }
    let n: usize = s.len();
    if i + 1 == n {
        crate::variant::i128_to_string(s[i] as i128)
    } else {
        proof {
            assert(s@.skip(i as int).drop_first() =~= s@.skip(i + 1));
        }
        let mut acc = crate::variant::i128_to_string(s[i] as i128);
        acc.append(", ");
        let rest = byte_items_from(s, i + 1);
        acc.append(rest.as_str());
        acc
    }
}

/// Renders the names of `ss` from index `i` on, as [`quoted_items`] of the
/// remaining entries.
fn quoted_items_from(ss: &Vec<String>, i: usize) -> (r: String)
    requires
        i < ss@.len(),
    ensures
        r@ == quoted_items(ss@.skip(i as int)),
    decreases ss@.len() - i,
{
    proof {
        assert(ss@.skip(i as int)[0] == ss@[i as int]);
        reveal_strlit("\"");
    }
    let n: usize = ss.len();
    let mut acc = String::new();
    acc.append("\"");
    acc.append(ss[i].as_str());
    acc.append("\"");
    proof {
        assert(acc@ =~= seq!['"'] + ss@[i as int]@ + seq!['"']);
    }
    if i + 1 == n {
        acc
    } else {
        proof {
            assert(ss@.skip(i as int).drop_first() =~= ss@.skip(i + 1));
        }
        acc.append(", ");
        let rest = quoted_items_from(ss, i + 1);
        acc.append(rest.as_str());
        acc
    }
}

impl Error {
    /// The one-line human-readable description of this failure, exactly
    /// [`message_spec`].
    pub fn message(&self) -> (r: String)
        ensures
            r@ == message_spec(*self),
    {
        match self {
            Error::Message(m) => m.clone(),
            Error::InvalidType { expected, found } => {
                let mut s = String::new();
                s.append("Invalid type: expected ");
                s.append(expected.as_str());
                s.append(", found ");
                s.append(found.as_str());
                s
            },
            Error::InvalidValue { expected, found } => {
                let mut s = String::new();
                s.append("Invalid value: expected ");
                s.append(expected.as_str());
                s.append(", found ");
                s.append(found.as_str());
                s
            },
            Error::InvalidLength { expected, found } => {
                let mut s = String::new();
                s.append("Invalid length: expected ");
                s.append(expected.as_str());
                s.append(", found ");
                s.append(found.as_str());
                s
            },
            Error::InvalidVariant { expected, found } => {
                let mut s = String::new();
                s.append("Invalid variant: expected ");
                s.append(expected.as_str());
                s.append(", found ");
                s.append(found.as_str());
                s
            },
            Error::UnknownField { field, expected } => {
                let mut s = String::new();
                s.append("Unknown field: ");
                s.append(field.as_str());
                s.append(". Expected fields: [");
                if expected.len() > 0 {
                    proof {
                        assert(expected@.skip(0) =~= expected@);
                    }
                    let items = quoted_items_from(expected, 0);
                    s.append(items.as_str());
                } else {
                    proof {
                        assert(quoted_items(expected@) =~= Seq::<char>::empty());
                        assert(s@ + quoted_items(expected@) =~= s@);
                    }
                }
                s.append("]");
                s
            },
            Error::MissingField { field } => {
                let mut s = String::new();
                s.append("Missing field: ");
                s.append(field.as_str());
                s
            },
            Error::DuplicateField { field } => {
                let mut s = String::new();
                s.append("Duplicate field: ");
                s.append(field.as_str());
                s
            },
            Error::LimitExceeded { limit, size } => {
                let mut s = String::new();
                s.append("Limit exceeded: limit ");
                let l = count_string(*limit);
                s.append(l.as_str());
                s.append(", size ");
                let z = count_string(*size);
                s.append(z.as_str());
                s
            },
            Error::NoEnoughData { expected, available } => {
                let mut s = String::new();
                s.append("Not enough data: expected ");
                let e = count_string(*expected);
                s.append(e.as_str());
                s.append(", available ");
                let a = count_string(*available);
                s.append(a.as_str());
                s
            },
            Error::InvalidBoolValue(v) => {
                let mut s = String::new();
                s.append("Invalid boolean value: ");
                let d = crate::variant::i128_to_string(*v as i128);
                s.append(d.as_str());
                s
            },
            Error::InvalidUtf8 { value } => {
                let mut s = String::new();
                s.append("Invalid UTF-8 sequence: [");
                if value.len() > 0 {
                    proof {
                        assert(value@.skip(0) =~= value@);
                    }
                    let items = byte_items_from(value, 0);
                    s.append(items.as_str());
                } else {
                    proof {
                        assert(byte_items(value@) =~= Seq::<char>::empty());
                        assert(s@ + byte_items(value@) =~= s@);
                    }
                }
                s.append("]");
                s
            },
            Error::Overflow { value, max } => {
                let mut s = String::new();
                s.append("Overflow: value ");
                s.append(value.as_str());
                s.append(", max ");
                s.append(max.as_str());
                s
            },
        }
    }
}

} // verus!
