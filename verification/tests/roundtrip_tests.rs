use binja::config::Config;
use binja::from_bytes;
use binja::from_bytes_with_config;
use binja::to_bytes;
use binja::to_bytes_with_config;

fn all_configs() -> Vec<Config> {
    let mut cs = Vec::new();
    for big in [false, true] {
        for untagged in [false, true] {
            for width in [1usize, 2, 4, 8, 16] {
                let mut c = Config::new().with_container_size_length(width);
                if big {
                    c = c.with_big_endian();
                }
                if untagged {
                    c = c.with_untagged_optional();
                }
                cs.push(c);
            }
        }
    }
    cs
}

fn rt<T>(v: T, c: Config)
where
    T: binja::ser::BinarySerialize + binja::par::BinaryParse + PartialEq + std::fmt::Debug,
{
    let bytes = to_bytes_with_config(&v, c).unwrap();
    let (back, consumed): (T, usize) = from_bytes_with_config(&bytes, c).unwrap();
    assert_eq!(v, back);
    assert_eq!(bytes.len(), consumed);
}

#[test]
fn round_trip_scalars() {
    for c in all_configs() {
        rt(true, c);
        rt(false, c);
        rt(0xABu8, c);
        rt(0xBEEFu16, c);
        rt(0xDEAD_BEEFu32, c);
        rt(0x0123_4567_89AB_CDEFu64, c);
        rt(u128::MAX - 7, c);
        rt(-1i8, c);
        rt(i16::MIN, c);
        rt(-123456i32, c);
        rt(i64::MIN, c);
        rt(i128::MIN, c);
        rt('a', c);
        rt('\u{1d11e}', c);
        rt((), c);
    }
}

#[test]
fn round_trip_containers() {
    for c in all_configs() {
        let v = vec![1u32, 2, 3, 0xFFFF_FFFF];
        let bytes = to_bytes_with_config(&v, c).unwrap();
        assert_eq!(v, from_bytes_with_config::<Vec<u32>>(&bytes, c).unwrap().0);

        let v = vec!["".to_owned(), "hej".to_owned(), "\u{e9}\u{20ac}".to_owned()];
        let bytes = to_bytes_with_config(&v, c).unwrap();
        assert_eq!(v, from_bytes_with_config::<Vec<String>>(&bytes, c).unwrap().0);

        let v = (42u16, "mid".to_owned(), -9i64);
        let bytes = to_bytes_with_config(&v, c).unwrap();
        assert_eq!(
            v,
            from_bytes_with_config::<(u16, String, i64)>(&bytes, c).unwrap().0
        );

        let v = Some(7u32);
        let bytes = to_bytes_with_config(&v, c).unwrap();
        assert_eq!(v, from_bytes_with_config::<Option<u32>>(&bytes, c).unwrap().0);

        let v: Vec<Option<u16>> = vec![Some(1), Some(2)];
        let bytes = to_bytes_with_config(&v, c).unwrap();
        assert_eq!(
            v,
            from_bytes_with_config::<Vec<Option<u16>>>(&bytes, c).unwrap().0
        );
    }
}

#[test]
fn round_trip_tagged_none() {
    // under the tagged strategy even an absent value round-trips; under the
    // untagged strategy it is excluded by design and not asserted
    let c = Config::new();
    let v: Option<String> = None;
    let bytes = to_bytes_with_config(&v, c).unwrap();
    assert_eq!(v, from_bytes_with_config::<Option<String>>(&bytes, c).unwrap().0);
}

#[test]
fn byte_order_reversal() {
    // the same integer under Big vs. Little: byte-reversed, equal-length
    // outputs, and decode under the matching order recovers the value
    let little = Config::new();
    let big = Config::new().with_big_endian();

    let v = 0x0102_0304u32;
    let lo = to_bytes_with_config(&v, little).unwrap();
    let bo = to_bytes_with_config(&v, big).unwrap();
    assert_eq!(lo.len(), bo.len());
    let mut rev = lo.clone();
    rev.reverse();
    assert_eq!(rev, bo);
    assert_eq!(v, from_bytes_with_config::<u32>(&lo, little).unwrap().0);
    assert_eq!(v, from_bytes_with_config::<u32>(&bo, big).unwrap().0);

    let v = 0xA1B2_C3D4_E5F6_0718u64;
    let lo = to_bytes_with_config(&v, little).unwrap();
    let bo = to_bytes_with_config(&v, big).unwrap();
    let mut rev = lo.clone();
    rev.reverse();
    assert_eq!(rev, bo);
}

#[test]
fn scenario_u32_then_tagged_option() {
    // unsigned 32-bit 42 followed by tagged Some(7u32) under the default
    // configuration
    let v = (42u32, Some(7u32));
    let bytes = to_bytes(&v).unwrap();
    assert_eq!(
        vec![0x2A, 0x00, 0x00, 0x00, 0x01, 0x07, 0x00, 0x00, 0x00],
        bytes
    );
    assert_eq!(v, from_bytes::<(u32, Option<u32>)>(&bytes).unwrap().0);
}

#[test]
fn scenario_two_strings() {
    // a dynamic list of two strings under the default 4-byte little-endian
    // length prefix
    let v = vec!["a".to_owned(), "b".to_owned()];
    let bytes = to_bytes(&v).unwrap();
    assert_eq!(
        vec![
            0x02, 0, 0, 0, // list length
            0x01, 0, 0, 0, // first string length
            b'a', // first string
            0x01, 0, 0, 0, // second string length
            b'b', // second string
        ],
        bytes
    );
}

#[test]
fn decode_consumes_exactly_the_encoding() {
    // trailing bytes are left untouched
    let v = vec![5u16, 6u16];
    let mut bytes = to_bytes(&v).unwrap();
    let wire_len = bytes.len();
    bytes.extend_from_slice(&[0xAA, 0xBB]);
    let (back, consumed) = from_bytes::<Vec<u16>>(&bytes).unwrap();
    assert_eq!(v, back);
    assert_eq!(wire_len, consumed);
}

#[test]
fn round_trip_arrays_and_wider_tuples() {
    for c in all_configs() {
        // fixed-size arrays carry no length prefix
        let v: [u32; 3] = [1, 2, 0xFFFF_FFFF];
        let bytes = to_bytes_with_config(&v, c).unwrap();
        assert_eq!(12, bytes.len());
        assert_eq!(v, from_bytes_with_config::<[u32; 3]>(&bytes, c).unwrap().0);

        let v: [i16; 2] = [-2, 300];
        let bytes = to_bytes_with_config(&v, c).unwrap();
        assert_eq!(v, from_bytes_with_config::<[i16; 2]>(&bytes, c).unwrap().0);

        let v = (1u8, 2u16, 3u32, "four".to_owned());
        let bytes = to_bytes_with_config(&v, c).unwrap();
        assert_eq!(
            v,
            from_bytes_with_config::<(u8, u16, u32, String)>(&bytes, c).unwrap().0
        );
    }
}
