use binja::bitfield::{BitFieldReader, BitFieldWriter, FieldSpec};
use binja::config::Config;
use binja::error::Error;
use binja::parser::BinaryParser;
use binja::serializer::BinarySerializer;

fn pack(fields: &[(u128, u8)]) -> Vec<u8> {
    let mut ser = BinarySerializer::new(Config::new());
    let mut w = BitFieldWriter::new();
    for &(v, bits) in fields {
        w.write_field(&mut ser, v, bits, false).unwrap();
    }
    w.flush(&mut ser).unwrap();
    ser.output()
}

fn unpack(bytes: &[u8], widths: &[u8]) -> Vec<u128> {
    let mut par = BinaryParser::new(bytes, Config::new());
    let mut r = BitFieldReader::new();
    widths
        .iter()
        .map(|&bits| r.read_field(&mut par, bits).unwrap())
        .collect()
}

#[test]
fn bit_run_mixed_widths() {
    // sub-byte and byte-aligned widths sharing bytes across boundaries:
    // 60 bits pack into exactly ceil(60 / 8) == 8 bytes
    let widths: [u8; 10] = [1, 2, 3, 5, 8, 10, 12, 5, 8, 6];
    let values: [u128; 10] = [1, 2, 5, 17, 200, 700, 3000, 21, 255, 50];
    let fields: Vec<(u128, u8)> = values.iter().copied().zip(widths.iter().copied()).collect();

    let bytes = pack(&fields);
    assert_eq!(8, bytes.len());

    let back = unpack(&bytes, &widths);
    assert_eq!(values.to_vec(), back);
}

#[test]
fn bit_run_single_bits() {
    let fields: Vec<(u128, u8)> = vec![(1, 1), (0, 1), (1, 1), (1, 1)];
    let bytes = pack(&fields);
    // four 1-bit fields fill half a byte, padded with zeros: 0b00001101
    assert_eq!(vec![0x0D], bytes);
    assert_eq!(vec![1, 0, 1, 1], unpack(&bytes, &[1, 1, 1, 1]));
}

#[test]
fn bit_run_wide_fields() {
    let fields: Vec<(u128, u8)> = vec![(u128::MAX - 9, 128), (0x7FFF_FFFF_FFFF_FFFF, 63), (1, 1)];
    let bytes = pack(&fields);
    assert_eq!(24, bytes.len());
    assert_eq!(
        vec![u128::MAX - 9, 0x7FFF_FFFF_FFFF_FFFF, 1],
        unpack(&bytes, &[128, 63, 1])
    );
}

#[test]
fn overflow_rejected() {
    // under the reject policy a value wider than its field is refused, in
    // hexadecimal, and nothing is written
    let mut ser = BinarySerializer::new(Config::new());
    let mut w = BitFieldWriter::new();
    let e = w.write_field(&mut ser, 9, 3, true).unwrap_err();
    assert_eq!(
        Error::Overflow {
            value: "0x9".to_owned(),
            max: "0x7".to_owned(),
        },
        e
    );
    assert!(ser.is_empty());

    // a fitting value passes under the same policy
    w.write_field(&mut ser, 7, 3, true).unwrap();
}

#[test]
fn overflow_truncated() {
    // under the allow policy the low bits are kept: 0b1001 in 3 bits is 0b001
    let mut ser = BinarySerializer::new(Config::new());
    let mut w = BitFieldWriter::new();
    w.write_field(&mut ser, 9, 3, false).unwrap();
    w.flush(&mut ser).unwrap();
    let bytes = ser.output();
    assert_eq!(vec![0x01], bytes);
    assert_eq!(vec![1], unpack(&bytes, &[3]));
}

#[test]
fn bit_run_underrun() {
    let bytes = pack(&[(3, 2)]);
    let mut par = BinaryParser::new(&bytes, Config::new());
    let mut r = BitFieldReader::new();
    assert_eq!(3, r.read_field(&mut par, 2).unwrap());
    // the padding bits of the last byte can still be handed out...
    assert_eq!(0, r.read_field(&mut par, 6).unwrap());
    // ...but a fresh byte is not there
    assert_eq!(
        Error::NoEnoughData {
            expected: 1,
            available: 0
        },
        r.read_field(&mut par, 1).unwrap_err()
    );
}

// A record with fields of widths 1, 2, 3, 5 (reject policy), 8, 10, 12, 5,
// then a plain byte field, then a 6-bit field (reject policy). Whether the
// record is declared with named fields or as a positional tuple, the engine
// sees the same run of capability calls, so both serialize identically.

struct NamedRecord {
    a: u128,
    b: u128,
    c: u128,
    d: u128,
    e: u128,
    f: u128,
    g: u128,
    h: u128,
    plain: u8,
    tail: u128,
}

type TupleRecord = (u128, u128, u128, u128, u128, u128, u128, u128, u8, u128);

const RECORD_WIDTHS: [u8; 8] = [1, 2, 3, 5, 8, 10, 12, 5];

fn encode_named(r: &NamedRecord) -> Vec<u8> {
    let mut ser = BinarySerializer::new(Config::new());
    let mut w = BitFieldWriter::new();
    let vals = [r.a, r.b, r.c, r.d, r.e, r.f, r.g, r.h];
    for (i, &v) in vals.iter().enumerate() {
        let no_overflow = i == 3;
        w.write_field(&mut ser, v, RECORD_WIDTHS[i], no_overflow).unwrap();
    }
    w.flush(&mut ser).unwrap();
    ser.u8(r.plain).unwrap();
    let mut w2 = BitFieldWriter::new();
    w2.write_field(&mut ser, r.tail, 6, true).unwrap();
    w2.flush(&mut ser).unwrap();
    ser.output()
}

fn encode_tuple(t: &TupleRecord) -> Vec<u8> {
    let mut ser = BinarySerializer::new(Config::new());
    let mut w = BitFieldWriter::new();
    let vals = [t.0, t.1, t.2, t.3, t.4, t.5, t.6, t.7];
    for (i, &v) in vals.iter().enumerate() {
        let no_overflow = i == 3;
        w.write_field(&mut ser, v, RECORD_WIDTHS[i], no_overflow).unwrap();
    }
    w.flush(&mut ser).unwrap();
    ser.u8(t.8).unwrap();
    let mut w2 = BitFieldWriter::new();
    w2.write_field(&mut ser, t.9, 6, true).unwrap();
    w2.flush(&mut ser).unwrap();
    ser.output()
}

fn decode_record(bytes: &[u8]) -> (Vec<u128>, u8, u128) {
    let mut par = BinaryParser::new(bytes, Config::new());
    let mut r = BitFieldReader::new();
    let packed: Vec<u128> = RECORD_WIDTHS
        .iter()
        .map(|&bits| r.read_field(&mut par, bits).unwrap())
        .collect();
    let plain = par.u8().unwrap();
    let mut r2 = BitFieldReader::new();
    let tail = r2.read_field(&mut par, 6).unwrap();
    (packed, plain, tail)
}

#[test]
fn scenario_record_shapes() {
    let named = NamedRecord {
        a: 1,
        b: 3,
        c: 6,
        d: 31,
        e: 129,
        f: 1000,
        g: 4095,
        h: 19,
        plain: 0xEE,
        tail: 63,
    };
    let tuple: TupleRecord = (1, 3, 6, 31, 129, 1000, 4095, 19, 0xEE, 63);

    let b1 = encode_named(&named);
    let b2 = encode_tuple(&tuple);
    assert_eq!(b1, b2);

    let (packed, plain, tail) = decode_record(&b1);
    assert_eq!(vec![1, 3, 6, 31, 129, 1000, 4095, 19], packed);
    assert_eq!(0xEE, plain);
    assert_eq!(63, tail);
}

#[test]
fn field_spec_validation() {
    let ok = FieldSpec {
        skip: false,
        bits: Some(6),
        no_overflow: true,
    };
    assert!(ok.validate().is_ok());

    let skip_only = FieldSpec {
        skip: true,
        bits: None,
        no_overflow: false,
    };
    assert!(skip_only.validate().is_ok());

    let both = FieldSpec {
        skip: true,
        bits: Some(3),
        no_overflow: false,
    };
    assert!(both.validate().is_err());

    let zero = FieldSpec {
        skip: false,
        bits: Some(0),
        no_overflow: false,
    };
    assert!(zero.validate().is_err());

    let policy_without_width = FieldSpec {
        skip: false,
        bits: None,
        no_overflow: true,
    };
    assert!(policy_without_width.validate().is_err());
}
