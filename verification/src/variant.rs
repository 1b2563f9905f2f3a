//! The discriminant resolver for tagged-union types.
//!
//! A union declares an ordered list of variants, each optionally carrying
//! an explicit (possibly negative) tag literal. The first variant's
//! implicit tag is 0; each later implicit tag is the previous resolved tag
//! plus one. Both encode and decode recompute the same table, so it is
//! never persisted. Encoding writes the resolved tag at the union's
//! declared representation width; decoding reads one value of that width
//! and matches it exactly against the table, reporting every declared tag
//! in an `InvalidVariant` error when none matches.

use vstd::prelude::*;
use vstd::arithmetic::power2::{pow2, lemma2_to64, lemma2_to64_rest};
use vstd::string::StringExecFns;
use crate::config::Config;
use crate::error::Error;
use crate::parser::BinaryParser;
use crate::serializer::{limit_error, BinarySerializer};
use crate::wire::{from_unsigned, lemma_pow2_128, wire_bytes, wire_value, within_limit};

verus! {

broadcast use crate::wire::lemma_le_bytes_of_len;

/// The tag resolved for variant `i` of a declaration: its explicit literal
/// if it has one, 0 for an implicit first variant, otherwise the previous
/// resolved tag plus one.
pub open spec fn resolved_tag(decl: Seq<Option<i128>>, i: int) -> int
    decreases i,
{
    if i < 0 || i >= decl.len() {
        0
    } else {
        match decl[i] {
            Some(t) => t as int,
            None => if i == 0 {
                0
            } else {
                resolved_tag(decl, i - 1) + 1
            },
        }
    }
}

/// Builds the discriminant table of a variant declaration: entry `i` is
/// [`resolved_tag`] of variant `i`. The bounds in `requires` keep every
/// implicit increment representable; a declaration outside them is a
/// registration-time error in the boilerplate layer.
pub fn resolve_tags(decl: &Vec<Option<i128>>) -> (r: Vec<i128>)
    requires
        decl@.len() <= i128::MAX,
        forall|i: int|
            0 <= i < decl@.len() ==> (#[trigger] decl@[i] matches Some(t) ==> t
                <= i128::MAX - decl@.len()),
    ensures
        r@.len() == decl@.len(),
        forall|i: int| 0 <= i < decl@.len() ==> #[trigger] r@[i] == resolved_tag(decl@, i),
{
    let mut tags: Vec<i128> = Vec::new();
    let mut prev: i128 = -1;
    let mut i: usize = 0;
    while i < decl.len()
        invariant
            i <= decl@.len(),
            tags@.len() == i,
            forall|j: int| 0 <= j < i ==> #[trigger] tags@[j] == resolved_tag(decl@, j),
            decl@.len() <= i128::MAX,
            forall|j: int|
                0 <= j < decl@.len() ==> (#[trigger] decl@[j] matches Some(t) ==> t
                    <= i128::MAX - decl@.len()),
            i > 0 ==> prev as int == resolved_tag(decl@, i - 1) && prev <= i128::MAX - (decl@.len()
                - i),
            i == 0 ==> prev == -1,
        decreases decl@.len() - i,
    {
        let cur: i128 = match decl[i] {
            Some(t) => t,
            None => {
                if i == 0 {
                    0
                } else {
                    prev + 1
                }
            },
        };
        tags.push(cur);
        prev = cur;
        i = i + 1;
    }
    tags
}

/// The declared representation of a tagged union's discriminant: its byte
/// width and signedness.
///
/// The width must be one of the scalar widths; an unsigned 16-byte
/// representation is refused because its upper tag range cannot live in the
/// signed 128-bit domain the discriminant table uses. The combination is
/// checked once, when a type's codec is registered, never per call.
#[derive(Clone, Copy, Debug)]
pub struct ReprSpec {
    pub width: usize,
    pub signed: bool,
}

impl ReprSpec {
    /// A scalar width, and not the one width/signedness pair the table's
    /// domain cannot carry.
    pub open spec fn valid(&self) -> bool {
        &&& (self.width == 1 || self.width == 2 || self.width == 4 || self.width == 8
            || self.width == 16)
        &&& (self.signed || self.width <= 8)
    }

    /// The registration-time check of a union's declared representation:
    /// accepts exactly the valid combinations, so that a bad declaration is
    /// rejected before any bytes are processed.
    pub fn validate(&self) -> (r: Result<(), Error>)
        ensures
            r is Ok <==> self.valid(),
            r matches Err(e) ==> e matches Error::InvalidValue { .. },
    {
        let width_ok = self.width == 1 || self.width == 2 || self.width == 4 || self.width == 8
            || self.width == 16;
        if !width_ok {
            return Err(
                Error::InvalidValue {
                    expected: "a discriminant width of 1, 2, 4, 8 or 16 bytes".to_owned(),
                    found: "a width outside that set".to_owned(),
                },
            );
        }
        if !self.signed && self.width == 16 {
            return Err(
                Error::InvalidValue {
                    expected: "a signed representation at 16 bytes".to_owned(),
                    found: "an unsigned 16-byte representation".to_owned(),
                },
            );
        }
        Ok(())
    }
}

/// The character of one decimal digit.
pub open spec fn dec_digit(d: nat) -> char
    recommends
        d < 10,
{
    ((0x30 + d) as u8) as char
}

/// The base-10 digits of `v`, most significant first, without leading
/// zeros.
pub open spec fn dec_digits(v: nat) -> Seq<char>
    decreases v,
{
    if v < 10 {
        seq![dec_digit(v)]
    } else {
        dec_digits(v / 10).push(dec_digit(v % 10))
    }
}

/// The decimal rendering of `v`: a minus sign for a negative value, then
/// its digits.
pub open spec fn dec_str(v: int) -> Seq<char> {
    if v < 0 {
        seq!['-'] + dec_digits((-v) as nat)
    } else {
        dec_digits(v as nat)
    }
}

/// Every decimal digit character lies in the ASCII range.
proof fn lemma_dec_digits_ascii(v: nat)
    ensures
        vstd::utf8::is_ascii_chars(dec_digits(v)),
    decreases v,
{
    if v < 10 {
        assert forall|i: int| 0 <= i < dec_digits(v).len() implies '\0' <= #[trigger] dec_digits(
            v,
        )[i] <= '\u{7f}' by {
            assert(dec_digits(v)[i] == dec_digit(v));
        }
    } else {
        lemma_dec_digits_ascii(v / 10);
        let pre = dec_digits(v / 10);
        assert forall|i: int| 0 <= i < dec_digits(v).len() implies '\0' <= #[trigger] dec_digits(
            v,
        )[i] <= '\u{7f}' by {
            if i < pre.len() {
                assert(dec_digits(v)[i] == pre[i]);
                assert('\0' <= pre[i] <= '\u{7f}');
            } else {
                assert(dec_digits(v)[i] == dec_digit(v % 10));
            }
        }
    }
}

/// The ASCII bytes of the decimal digits of `v`, most significant first.
fn dec_digit_bytes(v: u128) -> (r: Vec<u8>)
    ensures
        r@.len() == dec_digits(v as nat).len(),
        forall|i: int| 0 <= i < r@.len() ==> r@[i] == dec_digits(v as nat)[i] as u8,
    decreases v,
{
    if v < 10 {
        let mut out: Vec<u8> = Vec::new();
        out.push(0x30 + (v as u8));
        proof {
            assert(dec_digits(v as nat) =~= seq![dec_digit(v as nat)]);
        }
        out
    } else {
        let mut out = dec_digit_bytes(v / 10);
        out.push(0x30 + ((v % 10) as u8));
        proof {
            assert((v as nat) / 10 == (v / 10) as nat);
            assert(dec_digits(v as nat) == dec_digits((v as nat) / 10).push(
                dec_digit((v as nat) % 10),
            ));
        }
        out
    }
}

/// Renders `v` in decimal: a minus sign for a negative value, then the
/// base-10 digits, most significant first, without leading zeros — exactly
/// [`dec_str`].
pub(crate) fn i128_to_string(v: i128) -> (r: String)
    ensures
        r@ == dec_str(v as int),
{
    if v >= 0 {
        let digits = dec_digit_bytes(v as u128);
        proof {
            lemma_dec_digits_ascii((v as u128) as nat);
        }
        crate::parser::ascii_string(&digits, Ghost(dec_digits((v as u128) as nat)))
    } else {
        let mag: u128 = ((-(v + 1)) as u128) + 1;
        proof {
            assert(mag as nat == -(v as int));
        }
        let mut bytes: Vec<u8> = Vec::new();
        bytes.push(0x2D);
        let mut digits = dec_digit_bytes(mag);
        let ghost digit_bytes = digits@;
        bytes.append(&mut digits);
        proof {
            lemma_dec_digits_ascii(mag as nat);
            let chars = dec_str(v as int);
            assert(chars =~= seq!['-'] + dec_digits(mag as nat));
            assert(bytes@ =~= seq![0x2Du8] + digit_bytes);
            assert forall|i: int| 0 <= i < bytes@.len() implies bytes@[i] == chars[i] as u8 by {
                if i == 0 {
                    assert(chars[0] == '-');
                } else {
                    assert(chars[i] == dec_digits(mag as nat)[i - 1]);
                    assert(bytes@[i] == digit_bytes[i - 1]);
                }
            }
            assert forall|i: int| 0 <= i < chars.len() implies '\0' <= #[trigger] chars[i]
                <= '\u{7f}' by {
                if i > 0 {
                    assert(chars[i] == dec_digits(mag as nat)[i - 1]);
                    assert('\0' <= dec_digits(mag as nat)[i - 1] <= '\u{7f}');
                }
            }
        }
        crate::parser::ascii_string(&bytes, Ghost(dec_str(v as int)))
    }
}

/// The human-readable list of a union's tags, as an `InvalidVariant` error
/// reports it: comma-joined, with `or` before the last.
pub open spec fn expected_list(tags: Seq<i128>) -> Seq<char>
    decreases tags.len(),
{
    if tags.len() == 0 {
        Seq::empty()
    } else if tags.len() == 1 {
        dec_str(tags[0] as int)
    } else if tags.len() == 2 {
        dec_str(tags[0] as int) + " or "@ + dec_str(tags[1] as int)
    } else {
        dec_str(tags[0] as int) + ", "@ + expected_list(tags.drop_first())
    }
}

/// Renders the tags of `tags` from index `i` on, as [`expected_list`] of
/// the remaining entries.
fn expected_from(tags: &Vec<i128>, i: usize) -> (r: String)
    requires
        i < tags@.len(),
    ensures
        r@ == expected_list(tags@.skip(i as int)),
    decreases tags@.len() - i,
{
    proof {
        assert(tags@.skip(i as int)[0] == tags@[i as int]);
    }
    let n: usize = tags.len();
    if i + 1 == n {
        i128_to_string(tags[i])
    } else if i + 2 == n {
        proof {
            assert(tags@.skip(i as int)[1] == tags@[i + 1]);
        }
        let mut s = i128_to_string(tags[i]);
        s.append(" or ");
        let t = i128_to_string(tags[i + 1]);
        s.append(t.as_str());
        s
    } else {
        proof {
            assert(tags@.skip(i as int).drop_first() =~= tags@.skip(i + 1));
        }
        let mut s = i128_to_string(tags[i]);
        s.append(", ");
        let rest = expected_from(tags, i + 1);
        s.append(rest.as_str());
        s
    }
}

/// Renders a whole discriminant table as `InvalidVariant` reports it.
pub fn expected_tags_string(tags: &Vec<i128>) -> (r: String)
    ensures
        r@ == expected_list(tags@),
{
    if tags.len() == 0 {
        let r = String::new();
        proof {
            assert(r@ =~= expected_list(tags@));
        }
        r
    } else {
        proof {
            assert(tags@.skip(0) =~= tags@);
        }
        expected_from(tags, 0)
    }
}

/// The exact-match switch of tagged decode: the first table entry equal to
/// `found`, or `InvalidVariant` listing every declared tag and the value
/// met.
pub fn match_discriminant(tags: &Vec<i128>, found: i128) -> (r: Result<usize, Error>)
    ensures
        r is Ok <==> exists|j: int| 0 <= j < tags@.len() && tags@[j] == found,
        r matches Ok(i) ==> i < tags@.len() && tags@[i as int] == found && (forall|j: int|
            0 <= j < i ==> tags@[j] != found),
        r matches Err(e) ==> (e matches Error::InvalidVariant { expected, found: f } && expected@
            == expected_list(tags@) && f@ == dec_str(found as int)),
{
    let mut i: usize = 0;
    while i < tags.len()
        invariant
            i <= tags@.len(),
            forall|j: int| 0 <= j < i ==> tags@[j] != found,
        decreases tags@.len() - i,
    {
        if tags[i] == found {
            return Ok(i);
        }
        i = i + 1;
    }
    Err(
        Error::InvalidVariant {
            expected: expected_tags_string(tags),
            found: i128_to_string(found),
        },
    )
}

/// The bytes a resolved tag occupies on the wire: the tag's two's
/// complement image truncated to the representation width, in the
/// configured byte order.
pub open spec fn tag_wire(c: Config, tag: int, width: nat) -> Seq<u8> {
    wire_bytes((tag % (pow2((8 * width) as nat) as int)) as nat, width, c.endianness_strategy)
}

/// The tag denoted by the leading `width` bytes of `data`: read in the
/// configured order, as a signed value if the representation is signed.
pub open spec fn tag_value(c: Config, data: Seq<u8>, width: nat, signed: bool) -> int {
    if signed {
        from_unsigned(wire_value(data.take(width as int), c.endianness_strategy), width)
    } else {
        wire_value(data.take(width as int), c.endianness_strategy) as int
    }
}

/// Writes a resolved tag at the union's representation width, which must
/// be one of the supported scalar widths.
pub fn write_discriminant(
    serializer: &mut BinarySerializer,
    tag: i128,
    width: usize,
) -> (r: Result<(), Error>)
    requires
        width == 1 || width == 2 || width == 4 || width == 8 || width == 16,
    ensures
        final(serializer).cfg() == old(serializer).cfg(),
        final(serializer).written() == old(serializer).written() + tag_wire(
            old(serializer).cfg(),
            tag as int,
            width as nat,
        ),
        r is Ok <==> within_limit(
            old(serializer).cfg(),
            (old(serializer).written().len() + width) as nat,
        ),
        r matches Err(e) ==> e == limit_error(
            old(serializer).cfg(),
            (old(serializer).written().len() + width) as nat,
        ),
    {
        proof {
            lemma2_to64();
            lemma2_to64_rest();
            lemma_pow2_128();
        }
        let u: u128 = if tag >= 0 {
            tag as u128
        } else {
            u128::MAX - ((-(tag + 1)) as u128)
        };
        proof {
            assert(u as nat == crate::wire::to_unsigned(tag as int, 16));
        }
        match width {
            1 => {
                proof {
                    lemma_mod_down(tag as int, u as nat, 8);
                }
                serializer.u8((u % 256) as u8)
            },
            2 => {
                proof {
                    lemma_mod_down(tag as int, u as nat, 16);
                }
                serializer.u16((u % 65536) as u16)
            },
            4 => {
                proof {
                    lemma_mod_down(tag as int, u as nat, 32);
                }
                serializer.u32((u % 0x1_0000_0000) as u32)
            },
            8 => {
                proof {
                    lemma_mod_down(tag as int, u as nat, 64);
                }
                serializer.u64((u % 0x1_0000_0000_0000_0000) as u64)
            },
            _ => {
                proof {
                    lemma_mod_down(tag as int, u as nat, 128);
                }
                serializer.u128(u)
            },
        }
    }

/// Truncating the 16-byte two's-complement image to `b` bits agrees with
/// the tag's own remainder modulo `2^b`.
proof fn lemma_mod_down(tag: int, u: nat, b: nat)
    requires
        b <= 128,
        u == crate::wire::to_unsigned(tag, 16),
        -pow2(127) <= tag < pow2(127),
    ensures
        (u % pow2(b)) as int == tag % (pow2(b) as int),
{
    lemma_pow2_128();
    vstd::arithmetic::power2::lemma_pow2_adds(b, (128 - b) as nat);
    vstd::arithmetic::power2::lemma_pow2_pos(b);
    vstd::arithmetic::power2::lemma_pow2_pos((128 - b) as nat);
    if tag >= 0 {
        assert(u == tag);
    } else {
        let m: int = pow2(b) as int;
        let k: int = pow2((128 - b) as nat) as int;
        assert(u == tag + m * k);
        vstd::arithmetic::div_mod::lemma_mod_multiples_vanish(k, tag, m);
    }
}

/// Reads a tag of the union's representation width and signedness. An
/// unsigned 16-byte representation cannot be carried in the table's signed
/// domain; [`ReprSpec::validate`] rejects it at registration time, and the
/// exclusion is repeated here as a precondition.
pub fn read_discriminant(parser: &mut BinaryParser, width: usize, signed: bool) -> (r: Result<
    i128,
    Error,
>)
    requires
        old(parser).wf(),
        width == 1 || width == 2 || width == 4 || width == 8 || width == 16,
        signed || width <= 8,
    ensures
        final(parser).wf(),
        final(parser).data() == old(parser).data(),
        final(parser).cfg() == old(parser).cfg(),
        r is Ok <==> old(parser).remaining().len() >= width,
        r matches Ok(v) ==> final(parser).cursor() == old(parser).cursor() + width && v as int
            == tag_value(old(parser).cfg(), old(parser).remaining(), width as nat, signed),
        r matches Err(e) ==> final(parser).cursor() == old(parser).cursor() && e == (
        Error::NoEnoughData {
            expected: width,
            available: old(parser).remaining().len() as usize,
        }),
{
    proof {
        let rem = old(parser).remaining();
        if rem.len() >= 1 {
            assert(rem.take(1) =~= seq![rem[0]]);
            assert(seq![rem[0]].reverse() =~= seq![rem[0]]);
            assert(seq![rem[0]].skip(1) =~= Seq::<u8>::empty());
            assert(crate::wire::le_value_of(Seq::<u8>::empty()) == 0);
            assert(crate::wire::le_value_of(seq![rem[0]]) == rem[0] + 256 * crate::wire::le_value_of(
                seq![rem[0]].skip(1),
            ));
            assert(wire_value(rem.take(1), old(parser).cfg().endianness_strategy) == rem[0]);
        }
    }
    if signed {
        match width {
            1 => match parser.i8() {
                Ok(v) => Ok(v as i128),
                Err(e) => Err(e),
            },
            2 => match parser.i16() {
                Ok(v) => Ok(v as i128),
                Err(e) => Err(e),
            },
            4 => match parser.i32() {
                Ok(v) => Ok(v as i128),
                Err(e) => Err(e),
            },
            8 => match parser.i64() {
                Ok(v) => Ok(v as i128),
                Err(e) => Err(e),
            },
            _ => parser.i128(),
        }
    } else {
        match width {
            1 => match parser.u8() {
                Ok(v) => Ok(v as i128),
                Err(e) => Err(e),
            },
            2 => match parser.u16() {
                Ok(v) => Ok(v as i128),
                Err(e) => Err(e),
            },
            4 => match parser.u32() {
                Ok(v) => Ok(v as i128),
                Err(e) => Err(e),
            },
            _ => match parser.u64() {
                Ok(v) => Ok(v as i128),
                Err(e) => Err(e),
            },
        }
    }
}

} // verus!
