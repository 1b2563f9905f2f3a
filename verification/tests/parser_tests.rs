use binja::config::Config;
use binja::error::Error;
use binja::from_bytes;
use binja::from_bytes_with_config;

fn big_endian_untagged() -> Config {
    Config::new().with_big_endian().with_untagged_optional()
}

#[test]
fn parser_tests_bool() {
    let j = vec![0x01];
    let expected = true;
    assert_eq!(expected, from_bytes::<bool>(&j).unwrap().0);

    let j = vec![0x00];
    let expected = false;
    assert_eq!(expected, from_bytes::<bool>(&j).unwrap().0);
}

#[test]
fn parser_tests_integers() {
    let j = vec![0x01];
    let expected: i8 = 1;
    assert_eq!(expected, from_bytes::<i8>(&j).unwrap().0);

    let j = vec![0x01, 0x00];
    let expected: i16 = 1;
    assert_eq!(expected, from_bytes::<i16>(&j).unwrap().0);

    let j = vec![0x01, 0x00, 0x00, 0x00];
    let expected: i32 = 1;
    assert_eq!(expected, from_bytes::<i32>(&j).unwrap().0);

    let j = vec![0x01, 0x00, 0x00, 0x00, 0x00, 0x00, 0x00, 0x00];
    let expected: i64 = 1;
    assert_eq!(expected, from_bytes::<i64>(&j).unwrap().0);

    let j = vec![
        0x01, 0x00, 0x00, 0x00, 0x00, 0x00, 0x00, 0x00, 0x00, 0x00, 0x00, 0x00, 0x00, 0x00, 0x00,
        0x00,
    ];
    let expected: i128 = 1;
    assert_eq!(expected, from_bytes::<i128>(&j).unwrap().0);

    let j = vec![0x01];
    let expected: u8 = 1;
    assert_eq!(expected, from_bytes::<u8>(&j).unwrap().0);

    let j = vec![0x01, 0x00];
    let expected: u16 = 1;
    assert_eq!(expected, from_bytes::<u16>(&j).unwrap().0);

    let j = vec![0x01, 0x00, 0x00, 0x00];
    let expected: u32 = 1;
    assert_eq!(expected, from_bytes::<u32>(&j).unwrap().0);

    let j = vec![0x01, 0x00, 0x00, 0x00, 0x00, 0x00, 0x00, 0x00];
    let expected: u64 = 1;
    assert_eq!(expected, from_bytes::<u64>(&j).unwrap().0);

    let j = vec![
        0x01, 0x00, 0x00, 0x00, 0x00, 0x00, 0x00, 0x00, 0x00, 0x00, 0x00, 0x00, 0x00, 0x00, 0x00,
        0x00,
    ];
    let expected: u128 = 1;
    assert_eq!(expected, from_bytes::<u128>(&j).unwrap().0);
}

// The engine models a 32-bit or 64-bit float as its bit pattern; the
// conversion to the float type lives outside the verified core.
#[test]
fn parser_tests_floats() {
    let j = vec![0x00, 0x00, 0x80, 0x3f];
    let expected: f32 = 1.0;
    assert_eq!(expected, f32::from_bits(from_bytes::<u32>(&j).unwrap().0));

    let j = vec![0x00, 0x00, 0x00, 0x00, 0x00, 0x00, 0xf0, 0x3f];
    let expected: f64 = 1.0;
    assert_eq!(expected, f64::from_bits(from_bytes::<u64>(&j).unwrap().0));
}

#[test]
fn parser_tests_char() {
    let j = vec![b'a'];
    let expected: char = 'a';
    assert_eq!(expected, from_bytes::<char>(&j).unwrap().0);
}

#[test]
fn parser_tests_string() {
    let j = vec![0x01, 0x00, 0x00, 0x00, b'a'];
    let expected = "a".to_owned();
    assert_eq!(expected, from_bytes::<String>(&j).unwrap().0);
}

#[test]
fn parser_tests_option() {
    let j = vec![0x01, 0x01];
    let expected = Some(1u8);
    assert_eq!(expected, from_bytes::<Option<u8>>(&j).unwrap().0);

    let j = vec![0x00];
    let expected: Option<u8> = None;
    assert_eq!(expected, from_bytes::<Option<u8>>(&j).unwrap().0);
}

#[test]
fn parser_tests_unit() {
    let j = vec![];
    #[allow(clippy::unit_cmp)]
    let expected = ();
    assert_eq!(expected, from_bytes::<()>(&j).unwrap().0);
}

#[test]
fn parser_tests_seq() {
    let j = vec![
        0x02, 0x00, 0x00, 0x00, // seq size
        0x01, 0x00, 0x00, 0x00, // string size
        b'a', // string
        0x01, 0x00, 0x00, 0x00, // string size
        b'b', // string
    ];
    let expected = vec!["a".to_owned(), "b".to_owned()];
    assert_eq!(expected, from_bytes::<Vec<String>>(&j).unwrap().0);
}

#[test]
fn parser_tests_tuple() {
    let j = vec![0x01, 0x00, 0x00, 0x00, 0x02, 0x00, 0x00, 0x00];
    let expected = (1u32, 2u32);
    assert_eq!(expected, from_bytes::<(u32, u32)>(&j).unwrap().0);
}

#[test]
fn parser_tests_bool_big_endian() {
    let c = big_endian_untagged();
    let j = vec![0x01];
    let expected = true;
    assert_eq!(expected, from_bytes_with_config::<bool>(&j, c).unwrap().0);

    let j = vec![0x00];
    let expected = false;
    assert_eq!(expected, from_bytes_with_config::<bool>(&j, c).unwrap().0);
}

#[test]
fn parser_tests_integers_big_endian() {
    let c = big_endian_untagged();

    let j = vec![0x01];
    let expected: i8 = 1;
    assert_eq!(expected, from_bytes_with_config::<i8>(&j, c).unwrap().0);

    let j = vec![0x00, 0x01];
    let expected: i16 = 1;
    assert_eq!(expected, from_bytes_with_config::<i16>(&j, c).unwrap().0);

    let j = vec![0x00, 0x00, 0x00, 0x01];
    let expected: i32 = 1;
    assert_eq!(expected, from_bytes_with_config::<i32>(&j, c).unwrap().0);

    let j = vec![0x00, 0x00, 0x00, 0x00, 0x00, 0x00, 0x00, 0x01];
    let expected: i64 = 1;
    assert_eq!(expected, from_bytes_with_config::<i64>(&j, c).unwrap().0);

    let j = vec![
        0x00, 0x00, 0x00, 0x00, 0x00, 0x00, 0x00, 0x00, 0x00, 0x00, 0x00, 0x00, 0x00, 0x00, 0x00,
        0x01,
    ];
    let expected: i128 = 1;
    assert_eq!(expected, from_bytes_with_config::<i128>(&j, c).unwrap().0);

    let j = vec![0x01];
    let expected: u8 = 1;
    assert_eq!(expected, from_bytes_with_config::<u8>(&j, c).unwrap().0);

    let j = vec![0x00, 0x01];
    let expected: u16 = 1;
    assert_eq!(expected, from_bytes_with_config::<u16>(&j, c).unwrap().0);

    let j = vec![0x00, 0x00, 0x00, 0x01];
    let expected: u32 = 1;
    assert_eq!(expected, from_bytes_with_config::<u32>(&j, c).unwrap().0);

    let j = vec![0x00, 0x00, 0x00, 0x00, 0x00, 0x00, 0x00, 0x01];
    let expected: u64 = 1;
    assert_eq!(expected, from_bytes_with_config::<u64>(&j, c).unwrap().0);

    let j = vec![
        0x00, 0x00, 0x00, 0x00, 0x00, 0x00, 0x00, 0x00, 0x00, 0x00, 0x00, 0x00, 0x00, 0x00, 0x00,
        0x01,
    ];
    let expected: u128 = 1;
    assert_eq!(expected, from_bytes_with_config::<u128>(&j, c).unwrap().0);
}

#[test]
fn parser_tests_floats_big_endian() {
    let c = big_endian_untagged();

    let j = vec![0x3f, 0x80, 0x00, 0x00];
    let expected: f32 = 1.0;
    assert_eq!(
        expected,
        f32::from_bits(from_bytes_with_config::<u32>(&j, c).unwrap().0)
    );

    let j = vec![0x3f, 0xf0, 0x00, 0x00, 0x00, 0x00, 0x00, 0x00];
    let expected: f64 = 1.0;
    assert_eq!(
        expected,
        f64::from_bits(from_bytes_with_config::<u64>(&j, c).unwrap().0)
    );
}

#[test]
fn parser_tests_string_big_endian() {
    let c = big_endian_untagged();
    let j = vec![0x00, 0x00, 0x00, 0x01, b'a'];
    let expected = "a".to_owned();
    assert_eq!(expected, from_bytes_with_config::<String>(&j, c).unwrap().0);
}

#[test]
fn parser_tests_option_untagged() {
    let c = big_endian_untagged();
    let j = vec![0x01];
    let expected = Some(1u8);
    assert_eq!(expected, from_bytes_with_config::<Option<u8>>(&j, c).unwrap().0);

    // an untagged decode always attempts the payload; on an empty input the
    // attempt fails and yields None
    let j: Vec<u8> = vec![];
    let expected: Option<u8> = None;
    assert_eq!(expected, from_bytes_with_config::<Option<u8>>(&j, c).unwrap().0);
}

#[test]
fn parser_tests_seq_big_endian() {
    let c = big_endian_untagged();
    let j = vec![
        0x00, 0x00, 0x00, 0x02, // seq size
        0x00, 0x00, 0x00, 0x01, // string size
        b'a', // string
        0x00, 0x00, 0x00, 0x01, // string size
        b'b', // string
    ];
    let expected = vec!["a".to_owned(), "b".to_owned()];
    assert_eq!(expected, from_bytes_with_config::<Vec<String>>(&j, c).unwrap().0);
}

#[test]
fn parser_error_cases() {
    // a boolean byte that is neither 0 nor 1
    assert_eq!(
        from_bytes::<bool>(&[0x02]).unwrap_err(),
        Error::InvalidBoolValue(2)
    );

    // a read past the end of the input
    assert_eq!(
        from_bytes::<u32>(&[0x01, 0x02]).unwrap_err(),
        Error::NoEnoughData {
            expected: 4,
            available: 2
        }
    );

    // a string body that is not UTF-8
    let j = vec![0x02, 0x00, 0x00, 0x00, 0xff, 0xfe];
    assert_eq!(
        from_bytes::<String>(&j).unwrap_err(),
        Error::InvalidUtf8 {
            value: vec![0xff, 0xfe]
        }
    );

    // a string body shorter than its length prefix
    let j = vec![0x05, 0x00, 0x00, 0x00, b'a'];
    assert_eq!(
        from_bytes::<String>(&j).unwrap_err(),
        Error::NoEnoughData {
            expected: 5,
            available: 1
        }
    );
}

#[test]
fn parser_char_multibyte() {
    // two-, three- and four-byte UTF-8 characters are self-delimiting
    let j = "\u{e9}".as_bytes().to_vec();
    assert_eq!('\u{e9}', from_bytes::<char>(&j).unwrap().0);

    let j = "\u{20ac}".as_bytes().to_vec();
    let (c, consumed) = from_bytes::<char>(&j).unwrap();
    assert_eq!('\u{20ac}', c);
    assert_eq!(3, consumed);

    let j = "\u{1d11e}".as_bytes().to_vec();
    assert_eq!('\u{1d11e}', from_bytes::<char>(&j).unwrap().0);

    // invalid leading bytes are refused
    assert_eq!(
        from_bytes::<char>(&[0xff]).unwrap_err(),
        Error::InvalidUtf8 { value: vec![0xff] }
    );
}

#[test]
fn parser_container_length_widths() {
    for width in [1usize, 2, 4, 8, 16] {
        let c = Config::new().with_container_size_length(width);
        let mut j: Vec<u8> = vec![0x01];
        j.extend(std::iter::repeat(0u8).take(width - 1));
        j.push(b'z');
        assert_eq!("z".to_owned(), from_bytes_with_config::<String>(&j, c).unwrap().0);
    }
}
