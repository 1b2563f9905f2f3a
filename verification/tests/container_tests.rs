use binja::config::Config;
use binja::containers::FixedSizeContainer;
use binja::error::Error;
use binja::parser::BinaryParser;
use binja::serializer::BinarySerializer;
use binja::variant::ReprSpec;

#[test]
fn fixed_size_container_prefix_widths() {
    // the wrapper overrides the session's length width for one field
    let c: FixedSizeContainer<Vec<u32>, 1> = FixedSizeContainer::new(vec![7, 8]);
    let mut ser = BinarySerializer::new(Config::new());
    c.binary_serialize(&mut ser).unwrap();
    assert_eq!(
        vec![0x02, 0x07, 0x00, 0x00, 0x00, 0x08, 0x00, 0x00, 0x00],
        ser.output()
    );

    let c: FixedSizeContainer<Vec<u8>, 2> = FixedSizeContainer::new(vec![9]);
    let mut ser = BinarySerializer::new(Config::new().with_big_endian());
    c.binary_serialize(&mut ser).unwrap();
    assert_eq!(vec![0x00, 0x01, 0x09], ser.output());
}

#[test]
fn fixed_size_container_sizeless() {
    // width 0 writes the elements with no prefix at all
    let c: FixedSizeContainer<Vec<u16>, 0> = FixedSizeContainer::new(vec![1, 2]);
    let mut ser = BinarySerializer::new(Config::new());
    c.binary_serialize(&mut ser).unwrap();
    assert_eq!(vec![0x01, 0x00, 0x02, 0x00], ser.output());
}

#[test]
fn config_builders() {
    let c = Config::new();
    assert!(c.limit.is_none());

    let c = c.with_limit(9);
    assert_eq!(Some(9), c.limit);
    let c = c.with_no_limit();
    assert_eq!(None, c.limit);

    let c = Config::new().with_container_size_as::<u16>();
    let mut ser = BinarySerializer::new(c);
    ser.str("x").unwrap();
    assert_eq!(vec![0x01, 0x00, b'x'], ser.output());
}

#[test]
fn serializer_accessors() {
    let mut ser = BinarySerializer::new(Config::new());
    assert!(ser.is_empty());
    assert_eq!(0, ser.size());
    ser.u16(5).unwrap();
    assert!(!ser.is_empty());
    assert_eq!(2, ser.size());
    assert!(ser.config().limit.is_none());
    assert_eq!(vec![0x05, 0x00], ser.output());
}

#[test]
fn serializer_raw_bytes() {
    let mut ser = BinarySerializer::new(Config::new());
    ser.bytes(&[1, 2, 3]).unwrap();
    assert_eq!(vec![1, 2, 3], ser.output());
}

#[test]
fn error_messages() {
    let e = Error::NoEnoughData {
        expected: 4,
        available: 2,
    };
    assert_eq!("Not enough data: expected 4, available 2", e.message());

    let e = Error::InvalidBoolValue(7);
    assert_eq!("Invalid boolean value: 7", e.message());

    let e = Error::InvalidUtf8 {
        value: vec![255, 254],
    };
    assert_eq!("Invalid UTF-8 sequence: [255, 254]", e.message());

    let e = Error::LimitExceeded { limit: 3, size: 4 };
    assert_eq!("Limit exceeded: limit 3, size 4", e.message());

    let e = Error::InvalidVariant {
        expected: "-1 or 2".to_owned(),
        found: "9".to_owned(),
    };
    assert_eq!("Invalid variant: expected -1 or 2, found 9", e.message());

    let e = Error::Overflow {
        value: "0x9".to_owned(),
        max: "0x7".to_owned(),
    };
    assert_eq!("Overflow: value 0x9, max 0x7", e.message());

    let e = Error::UnknownField {
        field: "age".to_owned(),
        expected: vec!["name".to_owned(), "id".to_owned()],
    };
    assert_eq!(
        "Unknown field: age. Expected fields: [\"name\", \"id\"]",
        e.message()
    );

    let e = Error::Message("boom".to_owned());
    assert_eq!("boom", e.message());
}

#[test]
fn fixed_size_container_decode() {
    let bytes = vec![0x02, 0x07, 0x00, 0x08, 0x00];
    let mut par = BinaryParser::new(&bytes, Config::new());
    let c = FixedSizeContainer::<Vec<u16>, 1>::binary_parse(&mut par).unwrap();
    assert_eq!(vec![7u16, 8u16], c.0);
    assert_eq!(5, par.size());
}

#[test]
fn fixed_size_container_greedy_decode() {
    // width 0: elements until one fails; the terminating failure is
    // swallowed and the partial trailing byte stays consumed as attempted
    let bytes = vec![0x01, 0x00, 0x02, 0x00, 0x03];
    let mut par = BinaryParser::new(&bytes, Config::new());
    let c = FixedSizeContainer::<Vec<u16>, 0>::binary_parse(&mut par).unwrap();
    assert_eq!(vec![1u16, 2u16], c.0);
    assert_eq!(4, par.size());

    // an empty input yields an empty container
    let bytes: Vec<u8> = vec![];
    let mut par = BinaryParser::new(&bytes, Config::new());
    let c = FixedSizeContainer::<Vec<u32>, 0>::binary_parse(&mut par).unwrap();
    assert!(c.0.is_empty());
}

#[test]
fn repr_spec_validation() {
    let ok = ReprSpec {
        width: 4,
        signed: true,
    };
    assert!(ok.validate().is_ok());

    let ok = ReprSpec {
        width: 16,
        signed: true,
    };
    assert!(ok.validate().is_ok());

    let bad_width = ReprSpec {
        width: 3,
        signed: true,
    };
    assert!(bad_width.validate().is_err());

    // the one width/signedness pair the signed tag table cannot carry
    let unsigned_wide = ReprSpec {
        width: 16,
        signed: false,
    };
    assert!(unsigned_wide.validate().is_err());
}
