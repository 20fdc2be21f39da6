use minui::varint::{DecodeError, VarInt, VarLong};

#[test]
fn test_varint() {
    let cases: Vec<(i32, Vec<u8>)> = vec![
        (0, vec![0x00]),
        (1, vec![0x01]),
        (2, vec![0x02]),
        (127, vec![0x7f]),
        (128, vec![0x80, 0x01]),
        (255, vec![0xff, 0x01]),
        (25565, vec![0xdd, 0xc7, 0x01]),
        (2097151, vec![0xff, 0xff, 0x7f]),
        (2147483647, vec![0xff, 0xff, 0xff, 0xff, 0x07]),
        (-1, vec![0xff, 0xff, 0xff, 0xff, 0x0f]),
        (-2147483648, vec![0x80, 0x80, 0x80, 0x80, 0x08]),
    ];
    for case in cases.iter() {
        let (value, expected) = case;
        let varint = VarInt::new(*value);
        let bytes = varint.encode();
        assert_eq!(&bytes, expected, "encoding of {}", value);
        let varint = VarInt::decode(&bytes).unwrap();
        assert_eq!(varint.into_inner(), *value, "round trip of {}", value);
    }
}

#[test]
fn test_varlong() {
    let cases: Vec<(i64, Vec<u8>)> = vec![
        (0, vec![0x00]),
        (1, vec![0x01]),
        (2, vec![0x02]),
        (127, vec![0x7f]),
        (128, vec![0x80, 0x01]),
        (255, vec![0xff, 0x01]),
        (2147483647, vec![0xff, 0xff, 0xff, 0xff, 0x07]),
        (
            9223372036854775807,
            vec![0xff, 0xff, 0xff, 0xff, 0xff, 0xff, 0xff, 0xff, 0x7f],
        ),
        (
            -1,
            vec![0xff, 0xff, 0xff, 0xff, 0xff, 0xff, 0xff, 0xff, 0xff, 0x01],
        ),
        (
            -2147483648,
            vec![0x80, 0x80, 0x80, 0x80, 0xf8, 0xff, 0xff, 0xff, 0xff, 0x01],
        ),
        (
            -9223372036854775808,
            vec![0x80, 0x80, 0x80, 0x80, 0x80, 0x80, 0x80, 0x80, 0x80, 0x01],
        ),
    ];
    for case in cases.iter() {
        let (value, expected) = case;
        let varlong = VarLong::new(*value);
        let bytes = varlong.encode();
        assert_eq!(&bytes, expected, "encoding of {}", value);
        let varlong = VarLong::decode(&bytes).unwrap();
        assert_eq!(varlong.into_inner(), *value, "round trip of {}", value);
    }
}

#[test]
fn varint_incomplete_input() {
    assert_eq!(VarInt::decode(&[]).unwrap_err(), DecodeError::Incomplete);
    assert_eq!(VarInt::decode(&[0x80]).unwrap_err(), DecodeError::Incomplete);
    assert_eq!(
        VarInt::decode(&[0x80, 0x80, 0x80, 0x80]).unwrap_err(),
        DecodeError::Incomplete
    );
    // Every proper prefix of a multi-byte encoding is incomplete.
    let full = VarInt::new(25565).encode();
    for k in 1..full.len() {
        assert_eq!(
            VarInt::decode(&full[..k]).unwrap_err(),
            DecodeError::Incomplete
        );
    }
}

#[test]
fn varint_too_large_input() {
    assert_eq!(
        VarInt::decode(&[0x80, 0x80, 0x80, 0x80, 0x80]).unwrap_err(),
        DecodeError::TooLarge
    );
    assert_eq!(
        VarInt::decode(&[0xff, 0xff, 0xff, 0xff, 0xff, 0xff, 0x01]).unwrap_err(),
        DecodeError::TooLarge
    );
}

#[test]
fn varlong_incomplete_input() {
    assert_eq!(VarLong::decode(&[]).unwrap_err(), DecodeError::Incomplete);
    assert_eq!(
        VarLong::decode(&[0xff; 9]).unwrap_err(),
        DecodeError::Incomplete
    );
    let full = VarLong::new(-1).encode();
    for k in 1..full.len() {
        assert_eq!(
            VarLong::decode(&full[..k]).unwrap_err(),
            DecodeError::Incomplete
        );
    }
}

#[test]
fn varlong_too_large_input() {
    assert_eq!(
        VarLong::decode(&[0x80; 10]).unwrap_err(),
        DecodeError::TooLarge
    );
    assert_eq!(
        VarLong::decode(&[0xff; 11]).unwrap_err(),
        DecodeError::TooLarge
    );
}

#[test]
fn decode_ignores_trailing_bytes() {
    let varint = VarInt::decode(&[0x00, 0xff, 0xff]).unwrap();
    assert_eq!(varint.into_inner(), 0);
    let varint = VarInt::decode(&[0xdd, 0xc7, 0x01, 0x42]).unwrap();
    assert_eq!(varint.into_inner(), 25565);
    let varlong = VarLong::decode(&[0x7f, 0x80]).unwrap();
    assert_eq!(varlong.into_inner(), 127);
}

#[test]
fn decode_truncates_bits_past_the_width() {
    // The final group may carry bits above the target width; they fall off,
    // exactly as a shift past bit 31 (or 63) drops them.
    let varint = VarInt::decode(&[0x80, 0x80, 0x80, 0x80, 0x10]).unwrap();
    assert_eq!(varint.into_inner(), 0);
    let varint = VarInt::decode(&[0xff, 0xff, 0xff, 0xff, 0x7f]).unwrap();
    assert_eq!(varint.into_inner(), -1);
    let varlong = VarLong::decode(&[
        0x80, 0x80, 0x80, 0x80, 0x80, 0x80, 0x80, 0x80, 0x80, 0x02,
    ])
    .unwrap();
    assert_eq!(varlong.into_inner(), 0);
}

#[test]
fn round_trip_varied_values() {
    let int_values: Vec<i32> = vec![3, 300, -300, 1234567890, -1234567890, 16384, -16384];
    for v in int_values.iter() {
        let decoded = VarInt::decode(&VarInt::new(*v).encode()).unwrap();
        assert_eq!(decoded.into_inner(), *v);
    }
    let long_values: Vec<i64> = vec![3, 300, -300, 123456789012345, -123456789012345];
    for v in long_values.iter() {
        let decoded = VarLong::decode(&VarLong::new(*v).encode()).unwrap();
        assert_eq!(decoded.into_inner(), *v);
    }
}
