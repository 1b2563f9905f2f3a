use binja::config::Config;
use binja::error::Error;
use binja::to_bytes;
use binja::to_bytes_with_config;

fn big_endian_untagged() -> Config {
    Config::new().with_big_endian().with_untagged_optional()
}

#[test]
fn serializer_tests_bool() {
    let expected = vec![0x01];
    let j = true;
    assert_eq!(expected, to_bytes(&j).unwrap());

    let expected = vec![0x00];
    let j = false;
    assert_eq!(expected, to_bytes(&j).unwrap());
}

#[test]
fn serializer_tests_integers() {
    let expected = vec![0x01];
    let j: i8 = 1;
    assert_eq!(expected, to_bytes(&j).unwrap());

    let expected = vec![0x01, 0x00];
    let j: i16 = 1;
    assert_eq!(expected, to_bytes(&j).unwrap());

    let expected = vec![0x01, 0x00, 0x00, 0x00];
    let j: i32 = 1;
    assert_eq!(expected, to_bytes(&j).unwrap());

    let expected = vec![0x01, 0x00, 0x00, 0x00, 0x00, 0x00, 0x00, 0x00];
    let j: i64 = 1;
    assert_eq!(expected, to_bytes(&j).unwrap());

    let expected = vec![
        0x01, 0x00, 0x00, 0x00, 0x00, 0x00, 0x00, 0x00, 0x00, 0x00, 0x00, 0x00, 0x00, 0x00, 0x00,
        0x00,
    ];
    let j: i128 = 1;
    assert_eq!(expected, to_bytes(&j).unwrap());

    let expected = vec![0x01];
    let j: u8 = 1;
    assert_eq!(expected, to_bytes(&j).unwrap());

    let expected = vec![0x01, 0x00];
    let j: u16 = 1;
    assert_eq!(expected, to_bytes(&j).unwrap());

    let expected = vec![0x01, 0x00, 0x00, 0x00];
    let j: u32 = 1;
    assert_eq!(expected, to_bytes(&j).unwrap());

    let expected = vec![0x01, 0x00, 0x00, 0x00, 0x00, 0x00, 0x00, 0x00];
    let j: u64 = 1;
    assert_eq!(expected, to_bytes(&j).unwrap());

    let expected = vec![
        0x01, 0x00, 0x00, 0x00, 0x00, 0x00, 0x00, 0x00, 0x00, 0x00, 0x00, 0x00, 0x00, 0x00, 0x00,
        0x00,
    ];
    let j: u128 = 1;
    assert_eq!(expected, to_bytes(&j).unwrap());
}

#[test]
fn serializer_tests_string() {
    let expected = vec![0x01, 0x00, 0x00, 0x00, b'a'];
    let j = "a".to_owned();
    assert_eq!(expected, to_bytes::<String>(&j).unwrap());
}

#[test]
fn serializer_tests_char() {
    let expected = vec![b'a'];
    let j: char = 'a';
    assert_eq!(expected, to_bytes(&j).unwrap());

    let j: char = '\u{20ac}';
    assert_eq!("\u{20ac}".as_bytes().to_vec(), to_bytes(&j).unwrap());
}

#[test]
fn serializer_tests_option() {
    let expected = vec![0x01, 0x01];
    let j = Some(1u8);
    assert_eq!(expected, to_bytes(&j).unwrap());

    let expected = vec![0x00];
    let j: Option<u8> = None;
    assert_eq!(expected, to_bytes(&j).unwrap());
}

#[test]
fn serializer_tests_unit() {
    let expected: Vec<u8> = vec![];
    let j = ();
    assert_eq!(expected, to_bytes(&j).unwrap());
}

#[test]
fn serializer_tests_seq() {
    let expected = vec![
        0x02, 0x00, 0x00, 0x00, // seq size
        0x01, 0x00, 0x00, 0x00, // string size
        b'a', // string
        0x01, 0x00, 0x00, 0x00, // string size
        b'b', // string
    ];
    let j = vec!["a".to_owned(), "b".to_owned()];
    assert_eq!(expected, to_bytes::<Vec<String>>(&j).unwrap());
}

#[test]
fn serializer_tests_tuple() {
    let expected = vec![0x01, 0x00, 0x00, 0x00, 0x02, 0x00, 0x00, 0x00];
    let j = (1u32, 2u32);
    assert_eq!(expected, to_bytes(&j).unwrap());
}

#[test]
fn serializer_tests_string_big_endian() {
    let c = big_endian_untagged();
    let expected = vec![0x00, 0x00, 0x00, 0x01, b'a'];
    let j = "a".to_owned();
    assert_eq!(expected, to_bytes_with_config::<String>(&j, c).unwrap());
}

#[test]
fn serializer_tests_option_untagged() {
    let c = big_endian_untagged();
    let expected = vec![0x01];
    let j = Some(1u8);
    assert_eq!(expected, to_bytes_with_config(&j, c).unwrap());

    // an absent value writes nothing under the untagged strategy
    let expected: Vec<u8> = vec![];
    let j: Option<u8> = None;
    assert_eq!(expected, to_bytes_with_config(&j, c).unwrap());
}

#[test]
fn serializer_tests_seq_big_endian() {
    let c = big_endian_untagged();
    let expected = vec![
        0x00, 0x00, 0x00, 0x02, // seq size
        0x00, 0x00, 0x00, 0x01, // string size
        b'a', // string
        0x00, 0x00, 0x00, 0x01, // string size
        b'b', // string
    ];
    let j = vec!["a".to_owned(), "b".to_owned()];
    assert_eq!(expected, to_bytes_with_config::<Vec<String>>(&j, c).unwrap());
}

#[test]
fn serializer_limit() {
    // the byte budget is a soft, post-write check: the offending write is
    // already in the buffer when it is reported
    let c = Config::new().with_limit(3);
    assert_eq!(
        to_bytes_with_config(&7u32, c).unwrap_err(),
        Error::LimitExceeded { limit: 3, size: 4 }
    );
    assert!(to_bytes_with_config(&7u16, c).is_ok());

    // an empty list writes only its unchecked length prefix
    let c = Config::new().with_limit(0);
    let j: Vec<u8> = vec![];
    assert_eq!(vec![0, 0, 0, 0], to_bytes_with_config(&j, c).unwrap());
}

#[test]
fn serializer_container_length_widths() {
    let c = Config::new().with_container_size_length(1);
    assert_eq!(vec![0x01, b'z'], to_bytes_with_config(&"z".to_owned(), c).unwrap());

    let c = Config::new().with_container_size_length(2);
    assert_eq!(vec![0x01, 0x00, b'z'], to_bytes_with_config(&"z".to_owned(), c).unwrap());

    let c = Config::new().with_container_size_length(8).with_big_endian();
    assert_eq!(
        vec![0, 0, 0, 0, 0, 0, 0, 1, b'z'],
        to_bytes_with_config(&"z".to_owned(), c).unwrap()
    );

    let c = Config::new().with_container_size_as::<u128>();
    let mut expected = vec![0x01u8];
    expected.extend(std::iter::repeat(0u8).take(15));
    expected.push(b'z');
    assert_eq!(expected, to_bytes_with_config(&"z".to_owned(), c).unwrap());
}

#[test]
fn serializer_negative_integers() {
    // two's complement in the fixed width, in the configured order
    assert_eq!(vec![0xfe, 0xff], to_bytes(&-2i16).unwrap());
    assert_eq!(
        vec![0xff, 0xfe],
        to_bytes_with_config(&-2i16, Config::new().with_big_endian()).unwrap()
    );
    assert_eq!(vec![0x80], to_bytes(&i8::MIN).unwrap());
    assert_eq!(vec![0xff; 16], to_bytes(&-1i128).unwrap());
}
