use pmtiles::error::DecodeError;
use pmtiles::varint::{encode_varint, read_varint, read_varint_remainder};

#[test]
fn test_varint() {
    let mut pos = 0;
    let data: Vec<u8> = vec![0, 1, 127, 0xe5, 0x8e, 0x26];
    let v = read_varint(&data, &mut pos).unwrap();
    assert_eq!(v, 0);

    let v = read_varint(&data, &mut pos).unwrap();
    assert_eq!(v, 1);

    let v = read_varint(&data, &mut pos).unwrap();
    assert_eq!(v, 127);

    let v = read_varint(&data, &mut pos).unwrap();
    assert_eq!(v, 624485);

    let data: Vec<u8> = vec![0xff, 0xff, 0xff, 0xff, 0xff, 0xff, 0xff, 0x0f];
    pos = 0;
    let v = read_varint(&data, &mut pos).unwrap();
    assert_eq!(v, 9007199254740991);

    let data: Vec<u8> = vec![
        28, 0, 4, 14, 57, 229, 1, 146, 7, 199, 28, 156, 114, 242, 200, 3, 200, 163, 14, 159, 142,
        57, 253, 184, 228, 1, 244, 227, 145, 7, 1, 205, 143, 199, 28, 3, 1, 1, 179, 190, 156, 114,
        1, 1, 1, 10, 1, 1, 1, 3, 1, 1, 1, 1, 1, 1, 1, 1, 1, 1, 1, 1, 1, 1, 1, 1, 1, 1, 1, 1, 1, 1,
        1, 1, 1, 1, 1, 1, 1, 201, 3, 229, 5, 134, 7, 153, 13, 220, 25, 168, 46, 177, 87, 154, 151,
        1, 141, 222, 1, 232, 153, 2, 234, 207, 2, 251, 131, 3, 184, 193, 2, 170, 188, 1, 188, 218,
        1, 215, 163, 1, 184, 93, 166, 122, 99, 171, 131, 2, 227, 8, 99, 196, 2, 202, 183, 1, 215,
        4, 137, 5, 197, 104, 189, 141, 1, 1, 0, 0, 0, 0, 0, 0, 0, 0, 0, 0, 0, 0, 0, 0, 0, 0, 0, 0,
        0, 0, 0, 0, 0, 0, 0, 0,
    ];
    pos = 22;
    let v = read_varint(&data, &mut pos).unwrap();
    assert_eq!(v, 3742845);
}

#[test]
fn test_read_varint_remainder() {
    let data: Vec<u8> = vec![
        28, 0, 4, 14, 57, 229, 1, 146, 7, 199, 28, 156, 114, 242, 200, 3, 200, 163, 14, 159, 142,
        57, 253, 184, 228, 1, 244, 227, 145, 7, 1, 205, 143, 199, 28, 3, 1, 1, 179, 190, 156, 114,
        1, 1, 1, 10, 1, 1, 1, 3, 1, 1, 1, 1, 1, 1, 1, 1, 1, 1, 1, 1, 1, 1, 1, 1, 1, 1, 1, 1, 1, 1,
        1, 1, 1, 1, 1, 1, 1, 201, 3, 229, 5, 134, 7, 153, 13, 220, 25, 168, 46, 177, 87, 154, 151,
        1, 141, 222, 1, 232, 153, 2, 234, 207, 2, 251, 131, 3, 184, 193, 2, 170, 188, 1, 188, 218,
        1, 215, 163, 1, 184, 93, 166, 122, 99, 171, 131, 2, 227, 8, 99, 196, 2, 202, 183, 1, 215,
        4, 137, 5, 197, 104, 189, 141, 1, 1, 0, 0, 0, 0, 0, 0, 0, 0, 0, 0, 0, 0, 0, 0, 0, 0, 0, 0,
        0, 0, 0, 0, 0, 0, 0, 0,
    ];
    let mut pos = 27;
    let val = 1077484669;
    let result = read_varint_remainder(&data, &mut pos, val).unwrap();
    assert_eq!(result, 31397288418429);
}

#[test]
fn test_varint_round_trip_samples() {
    let samples: Vec<u64> = vec![
        0,
        1,
        127,
        128,
        300,
        624485,
        0xffff_ffff,
        0x1_0000_0000,
        9007199254740991,
        u64::MAX - 1,
        u64::MAX,
    ];
    for v in samples {
        let enc = encode_varint(v);
        let mut pos = 0;
        let back = read_varint(&enc, &mut pos).unwrap();
        assert_eq!(back, v);
        assert_eq!(pos, enc.len());
    }
}

#[test]
fn test_varint_runs_off_end() {
    // every byte keeps the continuation bit, and the buffer ends
    let data: Vec<u8> = vec![0x80, 0x80, 0x80];
    let mut pos = 0;
    assert!(matches!(
        read_varint(&data, &mut pos),
        Err(DecodeError::OutOfBounds)
    ));

    let data: Vec<u8> = vec![];
    let mut pos = 0;
    assert!(matches!(
        read_varint(&data, &mut pos),
        Err(DecodeError::OutOfBounds)
    ));
}

#[test]
fn test_varint_too_long() {
    // ten continuation bytes: no 64-bit varint is that wide
    let data: Vec<u8> = vec![0xff; 11];
    let mut pos = 0;
    assert!(matches!(
        read_varint(&data, &mut pos),
        Err(DecodeError::VarintTooLong)
    ));
}
