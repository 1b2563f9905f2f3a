//! The bit-field accumulator: packs and unpacks a run of consecutive
//! sub-byte-width fields, sharing bytes and spanning byte boundaries.
//!
//! The model is arithmetic: a run of fields with values `v_i` and widths
//! `w_i` denotes the single number `Σ (v_i mod 2^w_i) · 2^(w_1+…+w_(i-1))`
//! — each field contributes its low `w_i` bits, least significant first —
//! and the packed bytes are that number's little-endian layout, the final
//! partial byte zero-padded. [`lemma_bit_run_extraction`] is the law that
//! shifting and masking that number recovers every field.

use vstd::prelude::*;
use vstd::arithmetic::power2::{pow2, lemma_pow2_adds, lemma_pow2_pos, lemma2_to64};
use vstd::arithmetic::div_mod::{
    lemma_breakdown, lemma_div_denominator, lemma_fundamental_div_mod_converse, lemma_small_mod,
};
use crate::config::Config;
use crate::error::Error;
use crate::parser::BinaryParser;
use crate::serializer::{limit_error, BinarySerializer};
use crate::wire::{
    le_bytes_of, le_value_of, lemma_le_bytes_of_snoc, lemma_pow2_128, lemma_le_value_of_split,
    within_limit,
};

verus! {

broadcast use crate::wire::lemma_le_bytes_of_len;

/// Splitting a number at bit `b`: the low part is its remainder, the high
/// part its quotient, by `2^b`.
proof fn lemma_high_part(p: nat, b: nat, v: nat)
    requires
        p < pow2(b),
    ensures
        (p + v * pow2(b)) / pow2(b) == v,
        (p + v * pow2(b)) % pow2(b) == p,
{
    lemma_pow2_pos(b);
    lemma_fundamental_div_mod_converse(
        (p + v * pow2(b)) as int,
        pow2(b) as int,
        v as int,
        p as int,
    );
}

/// Dividing twice by powers of two divides once by their product.
proof fn lemma_div_pow2_add(x: nat, a: nat, b: nat)
    ensures
        (x / pow2(a)) / pow2(b) == x / pow2((a + b) as nat),
{
    lemma_pow2_pos(a);
    lemma_pow2_pos(b);
    lemma_pow2_adds(a, b);
    lemma_div_denominator(x as int, pow2(a) as int, pow2(b) as int);
}

/// The digits of a number below bit `a + b` are its digits below `a` plus
/// the next `b` digits shifted into place.
proof fn lemma_digit_combine(x: nat, a: nat, b: nat)
    ensures
        x % pow2((a + b) as nat) == x % pow2(a) + ((x / pow2(a)) % pow2(b)) * pow2(a),
{
    lemma_pow2_pos(a);
    lemma_pow2_pos(b);
    lemma_pow2_adds(a, b);
    lemma_breakdown(x as int, pow2(a) as int, pow2(b) as int);
}

/// The digits of `x` between bits `a` and `a + b`: truncating below
/// `a + b` and shifting right by `a` is the same as shifting first and
/// truncating below `b`.
proof fn lemma_mod_div_exchange(x: nat, a: nat, b: nat)
    ensures
        (x % pow2((a + b) as nat)) / pow2(a) == (x / pow2(a)) % pow2(b),
{
    lemma_pow2_pos(a);
    lemma_pow2_pos(b);
    lemma_digit_combine(x, a, b);
    vstd::arithmetic::div_mod::lemma_mod_bound(x as int, pow2(a) as int);
    lemma_fundamental_div_mod_converse(
        (x % pow2((a + b) as nat)) as int,
        pow2(a) as int,
        ((x / pow2(a)) % pow2(b)) as int,
        (x % pow2(a)) as int,
    );
}

/// Truncating below bit `a` and then below bit `b <= a` is truncating below
/// bit `b`.
proof fn lemma_mod_pow2_mod(x: nat, a: nat, b: nat)
    requires
        b <= a,
    ensures
        (x % pow2(a)) % pow2(b) == x % pow2(b),
{
    lemma_pow2_pos(a);
    lemma_pow2_pos(b);
    lemma_pow2_pos((a - b) as nat);
    lemma_pow2_adds(b, (a - b) as nat);
    vstd::arithmetic::div_mod::lemma_mod_mod(
        x as int,
        pow2(b) as int,
        pow2((a - b) as nat) as int,
    );
}

/// `2^e` for the in-byte shifts: `e` is at most 8.
fn pow2_u16_small(e: u8) -> (r: u16)
    requires
        e <= 8,
    ensures
        r as nat == pow2(e as nat),
        r >= 1,
{
    proof {
        lemma2_to64();
    }
    match e {
        0 => 1,
        1 => 2,
        2 => 4,
        3 => 8,
        4 => 16,
        5 => 32,
        6 => 64,
        7 => 128,
        _ => 256,
    }
}

/// `2^bits - 1`: the largest value a field of `bits` bits can carry.
fn mask_u128(bits: u8) -> (r: u128)
    requires
        1 <= bits <= 128,
    ensures
        r as nat == pow2(bits as nat) - 1,
{
    proof {
        lemma2_to64();
        lemma_pow2_128();
    }
    let mut m: u128 = 0;
    let mut i: u8 = 0;
    while i < bits
        invariant
            i <= bits <= 128,
            m as nat == pow2(i as nat) - 1,
        decreases bits - i,
    {
        proof {
            lemma_pow2_adds(i as nat, 1);
            lemma_pow2_adds(i as nat, (128 - i) as nat);
            lemma_pow2_pos(i as nat);
            lemma_pow2_pos((128 - i) as nat);
            lemma2_to64();
            lemma_pow2_128();
            assert(pow2((i + 1) as nat) <= pow2(128)) by {
                if i + 1 < 128 {
                    vstd::arithmetic::power2::lemma_pow2_strictly_increases((i + 1) as nat, 128);
                }
            }
        }
        m = m * 2 + 1;
        i = i + 1;
    }
    m
}

/// The character of one hexadecimal digit, lowercase.
pub open spec fn hex_digit(d: nat) -> char
    recommends
        d < 16,
{
    if d < 10 {
        ((0x30 + d) as u8) as char
    } else {
        ((0x57 + d) as u8) as char
    }
}

/// The lowercase base-16 digits of `v`, most significant first, without
/// leading zeros.
pub open spec fn hex_digits(v: nat) -> Seq<char>
    decreases v,
{
    if v < 16 {
        seq![hex_digit(v)]
    } else {
        hex_digits(v / 16).push(hex_digit(v % 16))
    }
}

/// The rendering of `v` as `0x` followed by its base-16 digits.
pub open spec fn hex_of(v: nat) -> Seq<char> {
    seq!['0', 'x'] + hex_digits(v)
}

/// Every hexadecimal digit character lies in the ASCII range.
proof fn lemma_hex_digits_ascii(v: nat)
    ensures
        vstd::utf8::is_ascii_chars(hex_digits(v)),
    decreases v,
{
    if v < 16 {
        assert forall|i: int| 0 <= i < hex_digits(v).len() implies '\0' <= #[trigger] hex_digits(
            v,
        )[i] <= '\u{7f}' by {
            assert(hex_digits(v)[i] == hex_digit(v));
        }
    } else {
        lemma_hex_digits_ascii(v / 16);
        let pre = hex_digits(v / 16);
        assert forall|i: int| 0 <= i < hex_digits(v).len() implies '\0' <= #[trigger] hex_digits(
            v,
        )[i] <= '\u{7f}' by {
            if i < pre.len() {
                assert(hex_digits(v)[i] == pre[i]);
                assert('\0' <= pre[i] <= '\u{7f}');
            } else {
                assert(hex_digits(v)[i] == hex_digit(v % 16));
            }
        }
    }
}

/// The ASCII bytes of the hexadecimal digits of `v`, most significant
/// first.
fn hex_digit_bytes(v: u128) -> (r: Vec<u8>)
    ensures
        r@.len() == hex_digits(v as nat).len(),
        forall|i: int| 0 <= i < r@.len() ==> r@[i] == hex_digits(v as nat)[i] as u8,
    decreases v,
{
    if v < 16 {
        let b: u8 = if v < 10 {
            0x30 + (v as u8)
        } else {
            0x57 + (v as u8)
        };
        let mut out: Vec<u8> = Vec::new();
        out.push(b);
        proof {
            assert(hex_digits(v as nat) =~= seq![hex_digit(v as nat)]);
        }
        out
    } else {
        let mut out = hex_digit_bytes(v / 16);
        let d: u8 = (v % 16) as u8;
        let b: u8 = if d < 10 {
            0x30 + d
        } else {
            0x57 + d
        };
        out.push(b);
        proof {
            assert((v as nat) / 16 == (v / 16) as nat);
            assert(hex_digits(v as nat) == hex_digits((v as nat) / 16).push(
                hex_digit((v as nat) % 16),
            ));
        }
        out
    }
}

/// Renders `v` as `0x` followed by its lowercase base-16 digits, most
/// significant first, without leading zeros — exactly [`hex_of`].
fn hex_string(v: u128) -> (r: String)
    ensures
        r@ == hex_of(v as nat),
{
    let mut bytes: Vec<u8> = Vec::new();
    bytes.push(0x30);
    bytes.push(0x78);
    let mut digits = hex_digit_bytes(v);
    let ghost digit_bytes = digits@;
    bytes.append(&mut digits);
    proof {
        lemma_hex_digits_ascii(v as nat);
        let chars = hex_of(v as nat);
        assert(chars =~= seq!['0', 'x'] + hex_digits(v as nat));
        assert(bytes@ =~= seq![0x30u8, 0x78u8] + digit_bytes);
        assert forall|i: int| 0 <= i < bytes@.len() implies bytes@[i] == chars[i] as u8 by {
            if i >= 2 {
                assert(chars[i] == hex_digits(v as nat)[i - 2]);
                assert(bytes@[i] == digit_bytes[i - 2]);
            }
        }
        assert forall|i: int| 0 <= i < chars.len() implies '\0' <= #[trigger] chars[i]
            <= '\u{7f}' by {
            if i >= 2 {
                assert(chars[i] == hex_digits(v as nat)[i - 2]);
                assert('\0' <= hex_digits(v as nat)[i - 2] <= '\u{7f}');
            }
        }
    }
    crate::parser::ascii_string(&bytes, Ghost(hex_of(v as nat)))
}

/// Whether `e` is `Overflow` reporting exactly the value `v` and the
/// largest admissible value `m`, both rendered in hexadecimal.
pub open spec fn is_overflow_with(e: Error, v: nat, m: nat) -> bool {
    match e {
        Error::Overflow { value, max } => value@ == hex_of(v) && max@ == hex_of(m),
        _ => false,
    }
}

/// The declared metadata of one field in a bit-packed run.
///
/// A field is either skipped (it contributes nothing to the run and is
/// defaulted on decode) or carries a bit width; the reject-on-overflow
/// policy only makes sense for a width-carrying field. The combination is
/// checked once, when a type's codec is registered, never per call.
#[derive(Clone, Copy, Debug)]
pub struct FieldSpec {
    pub skip: bool,
    pub bits: Option<u8>,
    pub no_overflow: bool,
}

impl FieldSpec {
    /// Mutually exclusive skip and width; width between 1 and 128; the
    /// overflow policy only on a width-carrying field.
    pub open spec fn valid(&self) -> bool {
        &&& !(self.skip && self.bits is Some)
        &&& (self.bits matches Some(b) ==> 1 <= b <= 128)
        &&& (self.no_overflow ==> self.bits is Some)
    }

    /// The registration-time check of the declared metadata: accepts exactly
    /// the valid combinations, so that a bad declaration is rejected before
    /// any bytes are processed.
    pub fn validate(&self) -> (r: Result<(), Error>)
        ensures
            r is Ok <==> self.valid(),
            r matches Err(e) ==> e matches Error::InvalidValue { .. },
    {
        if self.skip && self.bits.is_some() {
            return Err(
                Error::InvalidValue {
                    expected: "a field either skipped or bit-sized".to_owned(),
                    found: "a field both skipped and bit-sized".to_owned(),
                },
            );
        }
        if let Some(b) = self.bits {
            if b == 0 || b > 128 {
                return Err(
                    Error::InvalidValue {
                        expected: "a bit width between 1 and 128".to_owned(),
                        found: "a bit width outside that range".to_owned(),
                    },
                );
            }
        }
        if self.no_overflow && self.bits.is_none() {
            return Err(
                Error::InvalidValue {
                    expected: "an overflow policy on a bit-sized field".to_owned(),
                    found: "an overflow policy without a bit width".to_owned(),
                },
            );
        }
        Ok(())
    }
}

/// The number a field appends to a partially packed run: the run's pending
/// bits stay the low digits, and the field's low `bits` bits move in above
/// them.
pub open spec fn field_combined(pending: nat, pending_bits: nat, value: u128, bits: nat) -> nat {
    pending + ((value as nat) % pow2(bits)) * pow2(pending_bits)
}

/// The encode half of the accumulator: one partially filled byte and the
/// number of bits already placed in it.
pub struct BitFieldWriter {
    acc: u8,
    offset: u8,
}

impl BitFieldWriter {
    /// The partially filled byte: the pending low bits of the run.
    pub closed spec fn pending(&self) -> nat {
        self.acc as nat
    }

    /// How many bits of the pending byte are in use.
    pub closed spec fn pending_bits(&self) -> nat {
        self.offset as nat
    }

    /// The pending bit count stays below 8 — a full byte is flushed at
    /// once — and the unused high bits of the pending byte stay zero.
    pub open spec fn wf(&self) -> bool {
        self.pending_bits() < 8 && self.pending() < pow2(self.pending_bits())
    }

    /// A fresh accumulator for one run of bit-packed fields.
    pub fn new() -> (w: BitFieldWriter)
        ensures
            w.wf(),
            w.pending() == 0,
            w.pending_bits() == 0,
    {
        proof {
            lemma2_to64();
        }
        BitFieldWriter { acc: 0, offset: 0 }
    }

    /// Packs one field of `bits` bits holding `value`.
    ///
    /// Under the reject policy (`no_overflow`), a value that does not fit
    /// its width is refused with `Overflow` and nothing changes; otherwise
    /// the value is truncated to its width. The field's bits join the
    /// pending bits; every completed byte is emitted at once, so the bytes
    /// written are exactly the low full bytes of the combined number, and
    /// the remainder stays pending.
    #[verifier::loop_isolation(false)]
    #[verifier::rlimit(60)]
    pub fn write_field(
        &mut self,
        serializer: &mut BinarySerializer,
        value: u128,
        bits: u8,
        no_overflow: bool,
    ) -> (r: Result<(), Error>)
        requires
            old(self).wf(),
            1 <= bits <= 128,
        ensures
            final(self).wf(),
            final(serializer).cfg() == old(serializer).cfg(),
            ({
                let c = old(serializer).cfg();
                let combined = field_combined(
                    old(self).pending(),
                    old(self).pending_bits(),
                    value,
                    bits as nat,
                );
                let total = old(self).pending_bits() + bits;
                let out = (total / 8) as nat;
                let reject = no_overflow && (value as nat) >= pow2(bits as nat);
                &&& (r is Ok <==> !reject && (out == 0 || within_limit(
                    c,
                    old(serializer).written().len() + out,
                )))
                &&& (reject ==> *final(self) == *old(self) && final(serializer).written() == old(
                    serializer,
                ).written() && (r matches Err(e) && is_overflow_with(
                    e,
                    value as nat,
                    (pow2(bits as nat) - 1) as nat,
                )))
                &&& (r is Ok ==> final(serializer).written() == old(serializer).written()
                    + le_bytes_of(combined, out) && final(self).pending_bits() == total % 8
                    && final(self).pending() == combined / pow2((8 * out) as nat))
                &&& (!reject && r is Err ==> exists|j: nat|
                    1 <= j <= out && final(serializer).written() == old(serializer).written()
                        + le_bytes_of(combined, j) && (r matches Err(e) && e == limit_error(
                        c,
                        old(serializer).written().len() + j,
                    )))
            }),
    {
        proof {
            lemma2_to64();
            lemma_pow2_128();
        }
        let m: u128 = mask_u128(bits);
        if no_overflow && value > m {
            return Err(Error::Overflow { value: hex_string(value), max: hex_string(m) });
        }
        let ghost c = serializer.cfg();
        let ghost p0 = old(self).pending();
        let ghost b0 = old(self).pending_bits();
        let ghost vv = (value as nat) % pow2(bits as nat);
        let ghost cmb = field_combined(p0, b0, value, bits as nat);
        let ghost total = b0 + bits as nat;
        let ghost out = (total / 8) as nat;
        let mut cur: u128 = if bits == 128 {
            value
        } else {
            proof {
                vstd::arithmetic::power2::lemma_pow2_strictly_increases(bits as nat, 128);
            }
            value % (m + 1)
        };
        proof {
            if bits == 128 {
                lemma_small_mod(value as nat, pow2(128));
            }
            assert(cur as nat == vv);
            assert(cur as nat == vv / pow2(0));
            lemma_high_part(p0, b0, vv);
            assert(cmb < pow2(total)) by {
                lemma_pow2_adds(b0, bits as nat);
                lemma_pow2_pos(b0);
                lemma_pow2_pos(bits as nat);
                assert(p0 + vv * pow2(b0) < pow2(b0) * pow2(bits as nat)) by (nonlinear_arith)
                    requires
                        p0 < pow2(b0),
                        vv < pow2(bits as nat),
                        pow2(b0) > 0,
                ;
            }
            assert(le_bytes_of(cmb, 0) =~= Seq::<u8>::empty());
            assert(serializer.written() =~= old(serializer).written() + le_bytes_of(cmb, 0));
            assert(b0 / 8 == 0);
            assert(pow2(0) == 1);
            assert(cmb / pow2(0) == cmb);
        }
        let mut remaining: u8 = bits;
        while remaining > 0
            invariant
                remaining <= bits,
                serializer.cfg() == c,
                self.offset < 8,
                (self.acc as nat) < pow2(self.offset as nat),
                self.offset as nat == (b0 + (bits - remaining) as nat) % 8,
                serializer.written() == old(serializer).written() + le_bytes_of(
                    cmb,
                    ((b0 + (bits - remaining) as nat) / 8) as nat,
                ),
                self.acc as nat == (cmb / pow2(
                    (8 * ((b0 + (bits - remaining) as nat) / 8)) as nat,
                )) % pow2(self.offset as nat),
                cur as nat == vv / pow2((bits - remaining) as nat),
                ((b0 + (bits - remaining) as nat) / 8) as nat == 0 || within_limit(
                    c,
                    old(serializer).written().len() + ((b0 + (bits - remaining) as nat) / 8) as nat,
                ),
            decreases remaining,
        {
            let ghost placed = (bits - remaining) as nat;
            let ghost g = b0 + placed;
            let ghost e = (g / 8) as nat;
            let bits_in_byte: u8 = 8 - self.offset;
            let take: u8 = if remaining < bits_in_byte {
                remaining
            } else {
                bits_in_byte
            };
            let ptake: u16 = pow2_u16_small(take);
            let chunk: u16 = (cur % (ptake as u128)) as u16;
            let poff: u16 = pow2_u16_small(self.offset);
            proof {
                // the chunk is the next `take` digits of the combined number
                assert(cmb / pow2(g) == vv / pow2(placed)) by {
                    lemma_high_part(p0, b0, vv);
                    lemma_div_pow2_add(cmb, b0, placed);
                }
                lemma_div_pow2_add(cmb, (8 * e) as nat, self.offset as nat);
                assert((chunk as nat) == (cmb / pow2(g)) % pow2(take as nat));
                // merging it into the pending byte gives the digits below
                // offset + take
                lemma_digit_combine(cmb / pow2((8 * e) as nat), self.offset as nat, take as nat);
                lemma_pow2_adds(self.offset as nat, take as nat);
                vstd::arithmetic::div_mod::lemma_mod_bound(
                    (cmb / pow2(g)) as int,
                    pow2(take as nat) as int,
                );
                assert((self.acc as nat) + (chunk as nat) * (poff as nat) < pow2(
                    (self.offset + take) as nat,
                ));
                assert(pow2((self.offset + take) as nat) <= 256) by {
                    if self.offset + take < 8 {
                        vstd::arithmetic::power2::lemma_pow2_strictly_increases(
                            (self.offset + take) as nat,
                            8,
                        );
                    }
                }
            }
            let acc2: u16 = (self.acc as u16) + chunk * poff;
            self.acc = acc2 as u8;
            self.offset = self.offset + take;
            proof {
                lemma_div_pow2_add(vv, placed, take as nat);
            }
            cur = cur / (ptake as u128);
            remaining = remaining - take;
            if self.offset == 8 {
                proof {
                    lemma_le_bytes_of_snoc(cmb, e);
                    assert((cmb / pow2((8 * e) as nat)) % pow2(8) == (cmb / pow2(
                        (8 * e) as nat,
                    )) % 256);
                }
                let r = serializer.u8(self.acc);
                self.acc = 0;
                self.offset = 0;
                proof {
                    assert(serializer.written() == old(serializer).written() + le_bytes_of(
                        cmb,
                        (e + 1) as nat,
                    ));
                    assert((b0 + (bits - remaining) as nat) == 8 * (e + 1));
                    assert(((b0 + (bits - remaining) as nat) / 8) as nat == e + 1);
                    lemma_small_mod(0, pow2(0));
                    // e + 1 never passes the field's final byte count
                    assert(e + 1 <= out) by {
                        assert(b0 + (bits - remaining) as nat <= total);
                        vstd::arithmetic::div_mod::lemma_div_is_ordered(
                            (8 * (e + 1)) as int,
                            total as int,
                            8,
                        );
                    }
                }
                match r {
                    Err(err) => {
                        proof {
                            assert(within_limit(c, old(serializer).written().len() + out)
                                ==> within_limit(
                                c,
                                old(serializer).written().len() + (e + 1) as nat,
                            ));
                            assert(1 <= (e + 1) as nat <= out && serializer.written() == old(
                                serializer,
                            ).written() + le_bytes_of(cmb, (e + 1) as nat) && err == limit_error(
                                c,
                                old(serializer).written().len() + (e + 1) as nat,
                            ));
                        }
                        return Err(err);
                    },
                    Ok(()) => {},
                }
            }
        }
        proof {
            assert((bits - remaining) as nat == bits as nat);
            assert(b0 + bits as nat == total);
            assert(final(self).pending_bits() == total % 8);
            assert(serializer.written() == old(serializer).written() + le_bytes_of(cmb, out));
            // below the final partial byte nothing is missing: the pending
            // value is the whole remaining quotient
            assert(cmb / pow2((8 * out) as nat) < pow2((total % 8) as nat)) by {
                lemma_pow2_adds((8 * out) as nat, (total % 8) as nat);
                lemma_pow2_pos((8 * out) as nat);
                lemma_pow2_pos((total % 8) as nat);
                assert(cmb < pow2((8 * out) as nat) * pow2((total % 8) as nat));
                assert(cmb / pow2((8 * out) as nat) < pow2((total % 8) as nat)) by (nonlinear_arith)
                    requires
                        cmb < pow2((8 * out) as nat) * pow2((total % 8) as nat),
                        pow2((8 * out) as nat) > 0,
                ;
            }
            lemma_small_mod(cmb / pow2((8 * out) as nat), pow2((total % 8) as nat));
        }
        Ok(())
    }

    /// Ends a run, or realigns before a field that is not bit-packed: if
    /// bits are pending, the partial byte is emitted with its unused high
    /// bits as zero padding; otherwise nothing is written.
    pub fn flush(&mut self, serializer: &mut BinarySerializer) -> (r: Result<(), Error>)
        requires
            old(self).wf(),
        ensures
            final(self).wf(),
            final(self).pending() == 0,
            final(self).pending_bits() == 0,
            final(serializer).cfg() == old(serializer).cfg(),
            old(self).pending_bits() == 0 ==> r is Ok && final(serializer).written() == old(
                serializer,
            ).written(),
            old(self).pending_bits() > 0 ==> final(serializer).written() == old(
                serializer,
            ).written().push(old(self).pending() as u8) && (r is Ok <==> within_limit(
                old(serializer).cfg(),
                old(serializer).written().len() + 1,
            )) && (r matches Err(e) ==> e == limit_error(
                old(serializer).cfg(),
                old(serializer).written().len() + 1,
            )),
    {
        proof {
            lemma2_to64();
        }
        if self.offset == 0 {
            self.acc = 0;
            return Ok(());
        }
        let b: u8 = self.acc;
        self.acc = 0;
        self.offset = 0;
        let r = serializer.u8(b);
        proof {
            assert(final(serializer).written() =~= old(serializer).written().push(
                old(self).pending() as u8,
            ));
        }
        r
    }
}

/// The decode half of the accumulator: the byte currently being unpacked
/// and how many of its bits were handed out already. A fresh reader starts
/// fully consumed, so the first field lazily loads a byte.
pub struct BitFieldReader {
    acc: u8,
    offset: u8,
}

impl BitFieldReader {
    /// The byte currently being unpacked.
    pub closed spec fn loaded(&self) -> nat {
        self.acc as nat
    }

    /// How many of its bits were already handed out.
    pub closed spec fn used(&self) -> nat {
        self.offset as nat
    }

    /// How many bits remain to hand out before a fresh byte is needed.
    pub open spec fn avail(&self) -> nat {
        (8 - self.used()) as nat
    }

    /// The value of the bits not yet handed out.
    pub open spec fn unread(&self) -> nat {
        self.loaded() / pow2(self.used())
    }

    /// Between fields the current byte is never untouched: bits are handed
    /// out in the same step that loads a byte.
    pub open spec fn wf(&self) -> bool {
        1 <= self.used() <= 8
    }

    /// A fresh reader for one run of bit-packed fields: no bits pending,
    /// nothing unread, so the first field starts on a fresh byte.
    pub fn new() -> (w: BitFieldReader)
        ensures
            w.wf(),
            w.avail() == 0,
            w.unread() == 0,
    {
        proof {
            lemma2_to64();
            lemma_pow2_pos(8);
        }
        BitFieldReader { acc: 0, offset: 8 }
    }

    /// Unpacks one field of `bits` bits: the pending bits first, then as
    /// many fresh bytes as the width still needs, read lazily from the
    /// stream. The result is exactly the next `bits` bits of the packed
    /// number; an exhausted stream raises `NoEnoughData`.
    #[verifier::loop_isolation(false)]
    #[verifier::rlimit(60)]
    pub fn read_field(&mut self, parser: &mut BinaryParser, bits: u8) -> (r: Result<u128, Error>)
        requires
            old(self).wf(),
            old(parser).wf(),
            1 <= bits <= 128,
        ensures
            final(self).wf(),
            final(parser).wf(),
            final(parser).data() == old(parser).data(),
            final(parser).cfg() == old(parser).cfg(),
            ({
                let need = bits_needed(old(self).avail(), bits as nat);
                let s = run_stream(
                    old(self).unread(),
                    old(self).avail(),
                    old(parser).remaining().take(need as int),
                );
                &&& (r is Ok <==> old(parser).remaining().len() >= need)
                &&& (r matches Ok(v) ==> final(parser).cursor() == old(parser).cursor() + need && (
                v as nat) == s % pow2(bits as nat) && final(self).avail() == old(self).avail() + 8
                    * need - bits && final(self).unread() == s / pow2(bits as nat))
                &&& (r matches Err(e) ==> e == (Error::NoEnoughData { expected: 1, available: 0 })
                    && final(parser).remaining().len() == 0)
            }),
    {
        proof {
            lemma2_to64();
            lemma_pow2_128();
        }
        let ghost a0 = old(self).avail();
        let ghost u0 = old(self).unread();
        let ghost need = bits_needed(a0, bits as nat);
        let ghost wlen = if need <= old(parser).remaining().len() {
            need
        } else {
            old(parser).remaining().len()
        };
        let ghost w = old(parser).remaining().take(wlen as int);
        let ghost s = run_stream(u0, a0, w);
        proof {
            crate::wire::lemma_le_value_of_bound(w);
            assert(u0 < pow2(a0)) by {
                let ld = old(self).loaded();
                let us = old(self).used();
                lemma_pow2_adds(us, a0);
                assert(ld < pow2(us) * pow2(a0)) by {
                    assert(ld < 256);
                    assert(pow2(us) * pow2(a0) == pow2(8));
                }
                assert(ld / pow2(us) < pow2(a0)) by (nonlinear_arith)
                    requires
                        ld < pow2(us) * pow2(a0),
                        pow2(us) > 0,
                ;
            }
            assert(w.len() == wlen);
            lemma_high_part(u0, a0, le_value_of(w));
            assert(s < pow2((a0 + 8 * w.len()) as nat)) by {
                lemma_pow2_adds(a0, (8 * w.len()) as nat);
                assert(u0 + le_value_of(w) * pow2(a0) < pow2(a0) * pow2((8 * w.len()) as nat))
                    by (nonlinear_arith)
                    requires
                        u0 < pow2(a0),
                        le_value_of(w) < pow2((8 * w.len()) as nat),
                        pow2(a0) > 0,
                ;
            }
            assert(s / pow2(0) == s);
            assert(s % pow2(0) == 0) by {
                lemma_small_mod(0, 1);
                assert(pow2(0) == 1);
                assert(s % 1 == 0) by (nonlinear_arith);
            }
        }
        let mut value: u128 = 0;
        let mut scale: u128 = 1;
        let mut remaining: u8 = bits;
        while remaining > 0
            invariant
                remaining <= bits,
                parser.wf(),
                parser.data() == old(parser).data(),
                parser.cfg() == old(parser).cfg(),
                1 <= self.offset <= 8,
                old(parser).cursor() <= parser.cursor(),
                ({
                    let g = (bits - remaining) as nat;
                    let rd = (parser.cursor() - old(parser).cursor()) as nat;
                    let loaded = a0 + 8 * rd;
                    &&& loaded - g == 8 - self.offset
                    &&& rd <= wlen
                    &&& (value as nat) == s % pow2(g)
                    &&& (remaining > 0 ==> (scale as nat) == pow2(g))
                    &&& (self.acc as nat) / pow2(self.offset as nat) == (s / pow2(g)) % pow2(
                        (loaded - g) as nat,
                    )
                }),
            decreases remaining,
        {
            let ghost g0 = (bits - remaining) as nat;
            let ghost rd0 = (parser.cursor() - old(parser).cursor()) as nat;
            if self.offset == 8 {
                proof {
                    // about to load byte rd0: it lies inside the window
                    assert(g0 == a0 + 8 * rd0);
                    assert(a0 + 8 * rd0 < bits);
                    assert(8 * need >= bits - a0) by {
                        vstd::arithmetic::div_mod::lemma_fundamental_div_mod(
                            ((bits - a0) + 7) as int,
                            8,
                        );
                    }
                    assert(8 * rd0 < 8 * need);
                    assert(rd0 < need);
                }
                match parser.u8() {
                    Err(e) => {
                        proof {
                            assert(old(parser).remaining().len() == rd0);
                            assert(old(parser).remaining().len() < need);
                        }
                        return Err(e);
                    },
                    Ok(b) => {
                        proof {
                            assert(rd0 < old(parser).remaining().len());
                            assert(rd0 < wlen);
                            assert(b == w[rd0 as int]);
                        }
                        self.acc = b;
                        self.offset = 0;
                        proof {
                            lemma_high_part(u0, a0, le_value_of(w));
                            lemma_div_pow2_add(s, a0, (8 * rd0) as nat);
                            lemma_le_value_of_split(w, rd0);
                            let tail = w.skip(rd0 as int);
                            assert(le_value_of(tail) == s / pow2(g0));
                            assert(tail[0] == w[rd0 as int]);
                            assert(le_value_of(tail) == tail[0] + 256 * le_value_of(tail.skip(1)));
                            lemma_fundamental_div_mod_converse(
                                le_value_of(tail) as int,
                                256,
                                le_value_of(tail.skip(1)) as int,
                                tail[0] as int,
                            );
                            assert(pow2(8) == 256);
                            assert((self.acc as nat) / pow2(0) == (s / pow2(g0)) % pow2(8));
                        }
                    },
                }
            }
            let avail_b: u8 = 8 - self.offset;
            let take: u8 = if remaining < avail_b {
                remaining
            } else {
                avail_b
            };
            let poff: u16 = pow2_u16_small(self.offset);
            let ptake: u16 = pow2_u16_small(take);
            let ghost rd1 = (parser.cursor() - old(parser).cursor()) as nat;
            let ghost loaded1 = a0 + 8 * rd1;
            let chunk: u16 = ((self.acc as u16) / poff) % ptake;
            proof {
                assert((chunk as nat) == ((self.acc as nat) / pow2(self.offset as nat)) % pow2(
                    take as nat,
                ));
                lemma_mod_pow2_mod(s / pow2(g0), (loaded1 - g0) as nat, take as nat);
                assert((chunk as nat) == (s / pow2(g0)) % pow2(take as nat));
                lemma_digit_combine(s, g0, take as nat);
                assert((value as nat) + (chunk as nat) * (scale as nat) == s % pow2(
                    (g0 + take) as nat,
                ));
                lemma_pow2_pos((g0 + take) as nat);
                vstd::arithmetic::div_mod::lemma_mod_bound(
                    s as int,
                    pow2((g0 + take) as nat) as int,
                );
                assert(pow2((g0 + take) as nat) <= pow2(128)) by {
                    if g0 + take < 128 {
                        vstd::arithmetic::power2::lemma_pow2_strictly_increases(
                            (g0 + take) as nat,
                            128,
                        );
                    }
                }
            }
            value = value + (chunk as u128) * scale;
            let ghost off0 = self.offset as nat;
            self.offset = self.offset + take;
            remaining = remaining - take;
            proof {
                // the unread bits after handing out `take` of them
                let x = s / pow2(g0);
                let hi = (loaded1 - g0 - take) as nat;
                lemma_div_pow2_add(self.acc as nat, off0, take as nat);
                lemma_mod_div_exchange(x, take as nat, hi);
                lemma_div_pow2_add(s, g0, take as nat);
            }
            if remaining > 0 {
                proof {
                    lemma_pow2_adds((g0 + take) as nat, (128 - g0 - take) as nat);
                    lemma_pow2_pos((g0 + take) as nat);
                    lemma_pow2_pos((128 - g0 - take) as nat);
                    assert(pow2((g0 + take) as nat) <= pow2(127)) by {
                        if g0 + take < 127 {
                            vstd::arithmetic::power2::lemma_pow2_strictly_increases(
                                (g0 + take) as nat,
                                127,
                            );
                        }
                    }
                    lemma_pow2_adds(g0, take as nat);
                }
                scale = scale * (ptake as u128);
            }
        }
        proof {
            let rd = (parser.cursor() - old(parser).cursor()) as nat;
            assert(a0 + 8 * rd - bits == 8 - self.offset);
            assert(8 * need >= bits - a0 && 8 * need <= bits - a0 + 7) by {
                if bits > a0 {
                    vstd::arithmetic::div_mod::lemma_fundamental_div_mod(
                        ((bits - a0) + 7) as int,
                        8,
                    );
                }
            }
            assert(8 * rd >= bits - a0 && 8 * rd <= bits - a0 + 7);
            assert(rd == need);
            assert(rd <= wlen <= need);
            assert(wlen == need);
            assert(w == old(parser).remaining().take(need as int));
            // the stream fits its loaded width, so nothing is lost above
            // the field
            assert(s / pow2(bits as nat) < pow2((a0 + 8 * need - bits) as nat)) by {
                lemma_pow2_adds(bits as nat, (a0 + 8 * need - bits) as nat);
                lemma_pow2_pos(bits as nat);
                assert(s / pow2(bits as nat) < pow2((a0 + 8 * need - bits) as nat))
                    by (nonlinear_arith)
                    requires
                        s < pow2(bits as nat) * pow2((a0 + 8 * need - bits) as nat),
                        pow2(bits as nat) > 0,
                ;
            }
            lemma_small_mod(s / pow2(bits as nat), pow2((a0 + 8 * need - bits) as nat));
        }
        Ok(value)
    }
}

/// How many fresh bytes a field of `bits` bits needs when `avail` bits are
/// still pending.
pub open spec fn bits_needed(avail: nat, bits: nat) -> nat {
    if bits <= avail {
        0
    } else {
        (((bits - avail) + 7) / 8) as nat
    }
}

/// The number denoted by the reader's pending bits followed by the bytes of
/// `window`: pending bits are least significant.
pub open spec fn run_stream(unread: nat, avail: nat, window: Seq<u8>) -> nat {
    unread + le_value_of(window) * pow2(avail)
}

/// The total width of a run of (value, width) fields.
pub open spec fn run_total(fs: Seq<(nat, nat)>) -> nat
    decreases fs.len(),
{
    if fs.len() == 0 {
        0
    } else {
        fs[0].1 + run_total(fs.drop_first())
    }
}

/// The number a whole run packs to: each field contributes its low `w_i`
/// bits, above everything before it.
pub open spec fn run_combined(fs: Seq<(nat, nat)>) -> nat
    decreases fs.len(),
{
    if fs.len() == 0 {
        0
    } else {
        fs[0].0 % pow2(fs[0].1) + run_combined(fs.drop_first()) * pow2(fs[0].1)
    }
}

/// A packed run fits its total width.
pub proof fn lemma_run_combined_bound(fs: Seq<(nat, nat)>)
    ensures
        run_combined(fs) < pow2(run_total(fs)),
    decreases fs.len(),
{
    lemma2_to64();
    if fs.len() == 0 {
        assert(pow2(0) == 1);
    } else {
        lemma_run_combined_bound(fs.drop_first());
        let w0 = fs[0].1;
        let rest = run_combined(fs.drop_first());
        lemma_pow2_pos(w0);
        lemma_pow2_adds(w0, run_total(fs.drop_first()));
        vstd::arithmetic::div_mod::lemma_mod_bound(fs[0].0 as int, pow2(w0) as int);
        assert(fs[0].0 % pow2(w0) + rest * pow2(w0) < pow2(w0) * pow2(run_total(fs.drop_first())))
            by (nonlinear_arith)
            requires
                fs[0].0 % pow2(w0) < pow2(w0),
                rest < pow2(run_total(fs.drop_first())),
                pow2(w0) > 0,
        ;
    }
}

/// Bit-field packing, as a law of the packed number: shifting the packed
/// run right by everything before field `i` and masking by field `i`'s
/// width recovers field `i`'s value, truncated to its width — exactly, for
/// every mix of sub-byte and byte-spanning widths. Together with
/// [`lemma_run_combined_bound`] this pins the packed portion to
/// `ceil(total / 8)` bytes.
pub proof fn lemma_bit_run_extraction(fs: Seq<(nat, nat)>, i: int)
    requires
        0 <= i < fs.len(),
    ensures
        (run_combined(fs) / pow2(run_total(fs.take(i)))) % pow2(fs[i].1) == fs[i].0 % pow2(fs[i].1),
    decreases i,
{
    lemma2_to64();
    let c = run_combined(fs);
    let w0 = fs[0].1;
    let m0 = fs[0].0 % pow2(w0);
    let rest = run_combined(fs.drop_first());
    lemma_pow2_pos(w0);
    vstd::arithmetic::div_mod::lemma_mod_bound(fs[0].0 as int, pow2(w0) as int);
    if i == 0 {
        assert(fs.take(0) =~= Seq::<(nat, nat)>::empty());
        assert(run_total(fs.take(0)) == 0);
        assert(pow2(0) == 1);
        assert(c / 1 == c) by (nonlinear_arith);
        lemma_high_part(m0, w0, rest);
        lemma_mod_pow2_mod(fs[0].0, w0, w0);
    } else {
        lemma_high_part(m0, w0, rest);
        assert(c / pow2(w0) == rest);
        lemma_bit_run_extraction(fs.drop_first(), i - 1);
        assert(fs.take(i).drop_first() =~= fs.drop_first().take(i - 1));
        assert(run_total(fs.take(i)) == w0 + run_total(fs.drop_first().take(i - 1)));
        lemma_div_pow2_add(c, w0, run_total(fs.drop_first().take(i - 1)));
        assert(fs.drop_first()[i - 1] == fs[i]);
    }
}

} // verus!
