use binja::config::Config;
use binja::error::Error;
use binja::parser::BinaryParser;
use binja::serializer::BinarySerializer;
use binja::variant::{
    expected_tags_string, match_discriminant, read_discriminant, resolve_tags, write_discriminant,
};

#[test]
fn discriminant_resolution() {
    // explicit tags -1, 10, (implicit), 20, (implicit), (implicit)
    let decl: Vec<Option<i128>> = vec![Some(-1), Some(10), None, Some(20), None, None];
    let tags = resolve_tags(&decl);
    assert_eq!(vec![-1, 10, 11, 20, 21, 22], tags);
}

#[test]
fn discriminant_resolution_implicit_first() {
    let decl: Vec<Option<i128>> = vec![None, None, Some(7), None];
    let tags = resolve_tags(&decl);
    assert_eq!(vec![0, 1, 7, 8], tags);
}

#[test]
fn discriminant_match() {
    let decl: Vec<Option<i128>> = vec![Some(-1), Some(10), None, Some(20), None, None];
    let tags = resolve_tags(&decl);

    assert_eq!(0, match_discriminant(&tags, -1).unwrap());
    assert_eq!(2, match_discriminant(&tags, 11).unwrap());
    assert_eq!(5, match_discriminant(&tags, 22).unwrap());

    // an out-of-table tag lists every resolved tag
    let e = match_discriminant(&tags, 99).unwrap_err();
    assert_eq!(
        Error::InvalidVariant {
            expected: "-1, 10, 11, 20, 21 or 22".to_owned(),
            found: "99".to_owned(),
        },
        e
    );
}

#[test]
fn expected_tag_lists() {
    assert_eq!("", expected_tags_string(&vec![]));
    assert_eq!("5", expected_tags_string(&vec![5]));
    assert_eq!("5 or 6", expected_tags_string(&vec![5, 6]));
    assert_eq!("-1, 0 or 6", expected_tags_string(&vec![-1, 0, 6]));
}

#[test]
fn discriminant_wire_round_trip() {
    // a negative tag is written two's complement at the declared width and
    // read back under the matching signedness
    for width in [1usize, 2, 4, 8, 16] {
        for tag in [-1i128, 0, 10, 22, -128] {
            let mut ser = BinarySerializer::new(Config::new());
            write_discriminant(&mut ser, tag, width).unwrap();
            let bytes = ser.output();
            assert_eq!(width, bytes.len());
            let mut par = BinaryParser::new(&bytes, Config::new());
            assert_eq!(tag, read_discriminant(&mut par, width, true).unwrap());
        }
    }
}

#[test]
fn discriminant_unsigned_representation() {
    let mut ser = BinarySerializer::new(Config::new().with_big_endian());
    write_discriminant(&mut ser, 300, 2).unwrap();
    let bytes = ser.output();
    assert_eq!(vec![0x01, 0x2C], bytes);
    let mut par = BinaryParser::new(&bytes, Config::new().with_big_endian());
    assert_eq!(300, read_discriminant(&mut par, 2, false).unwrap());
}

#[test]
fn discriminant_decode_flow() {
    // the decode path of a tagged union: read the tag at the representation
    // width, then match it against the resolved table
    let decl: Vec<Option<i128>> = vec![Some(-1), Some(10), None, Some(20), None, None];
    let tags = resolve_tags(&decl);

    let mut ser = BinarySerializer::new(Config::new());
    write_discriminant(&mut ser, 11, 4).unwrap();
    let bytes = ser.output();

    let mut par = BinaryParser::new(&bytes, Config::new());
    let found = read_discriminant(&mut par, 4, true).unwrap();
    assert_eq!(2, match_discriminant(&tags, found).unwrap());

    let mut ser = BinarySerializer::new(Config::new());
    write_discriminant(&mut ser, 12, 4).unwrap();
    let bytes = ser.output();
    let mut par = BinaryParser::new(&bytes, Config::new());
    let found = read_discriminant(&mut par, 4, true).unwrap();
    let e = match_discriminant(&tags, found).unwrap_err();
    assert_eq!(
        Error::InvalidVariant {
            expected: "-1, 10, 11, 20, 21 or 22".to_owned(),
            found: "12".to_owned(),
        },
        e
    );
}
