use fdb::{decode_store, encode_store, Error, Item};

#[test]
fn empty_store_encodes_to_zero_count() {
    let data: Vec<Item> = Vec::new();
    let bytes = encode_store(&data);
    assert_eq!(bytes, vec![0u8; 8]);
}

#[test]
fn one_item_encodes_to_exact_bytes() {
    let data = vec![Item { path: String::from("ab"), atime: 1, hits: 3 }];
    let bytes = encode_store(&data);
    let expected: Vec<u8> = vec![
        1, 0, 0, 0, 0, 0, 0, 0, // one item
        2, 0, 0, 0, 0, 0, 0, 0, // two path bytes
        b'a', b'b', // the path
        1, 0, 0, 0, 0, 0, 0, 0, // atime
        3, 0, 0, 0, // hits
    ];
    assert_eq!(bytes, expected);
}

#[test]
fn negative_atime_encodes_as_twos_complement() {
    let data = vec![Item { path: String::from("x"), atime: -1, hits: 1 }];
    let bytes = encode_store(&data);
    let expected: Vec<u8> = vec![
        1, 0, 0, 0, 0, 0, 0, 0, // one item
        1, 0, 0, 0, 0, 0, 0, 0, // one path byte
        b'x', // the path
        0xff, 0xff, 0xff, 0xff, 0xff, 0xff, 0xff, 0xff, // atime -1
        1, 0, 0, 0, // hits
    ];
    assert_eq!(bytes, expected);
}

#[test]
fn round_trip_preserves_all_attributes() {
    let data = vec![
        Item { path: String::from("/home/alice"), atime: 1_600_000_000, hits: 12 },
        Item { path: String::from(""), atime: -5, hits: 1 },
        Item { path: String::from("/tmp/München/🗂"), atime: i64::MIN, hits: u32::MAX },
        Item { path: String::from("/x"), atime: i64::MAX, hits: 0 },
    ];
    let bytes = encode_store(&data);
    let back = decode_store(&bytes).unwrap();
    assert_eq!(back.len(), data.len());
    for (a, b) in data.iter().zip(back.iter()) {
        assert_eq!(a.path, b.path);
        assert_eq!(a.atime, b.atime);
        assert_eq!(a.hits, b.hits);
    }
}

#[test]
fn decode_rejects_short_input() {
    assert!(matches!(decode_store(&vec![1, 2, 3]), Err(Error::DataCorrupt)));
}

#[test]
fn decode_rejects_truncated_item() {
    let data = vec![Item { path: String::from("abc"), atime: 7, hits: 2 }];
    let mut bytes = encode_store(&data);
    bytes.pop();
    assert!(matches!(decode_store(&bytes), Err(Error::DataCorrupt)));
}

#[test]
fn decode_rejects_trailing_bytes() {
    let data = vec![Item { path: String::from("abc"), atime: 7, hits: 2 }];
    let mut bytes = encode_store(&data);
    bytes.push(0);
    assert!(matches!(decode_store(&bytes), Err(Error::DataCorrupt)));
}

#[test]
fn decode_rejects_invalid_utf8_path() {
    let bytes: Vec<u8> = vec![
        1, 0, 0, 0, 0, 0, 0, 0, // one item
        1, 0, 0, 0, 0, 0, 0, 0, // one path byte
        0xff, // not UTF-8
        0, 0, 0, 0, 0, 0, 0, 0, // atime
        1, 0, 0, 0, // hits
    ];
    assert!(matches!(decode_store(&bytes), Err(Error::DataCorrupt)));
}

#[test]
fn decode_rejects_overlong_length_field() {
    let bytes: Vec<u8> = vec![
        1, 0, 0, 0, 0, 0, 0, 0, // one item
        200, 0, 0, 0, 0, 0, 0, 0, // a path length past the input's end
        b'a', 0, 0, 0, 0, 0, 0, 0, 0, 1, 0, 0, 0,
    ];
    assert!(matches!(decode_store(&bytes), Err(Error::DataCorrupt)));
}

#[test]
fn encoding_matches_bincode_format() {
    let data = vec![
        Item { path: String::from("/home/alice"), atime: -42, hits: 7 },
        Item { path: String::from("été"), atime: 1_700_000_000, hits: 1 },
    ];
    let tuples: Vec<(String, i64, u32)> = vec![
        (String::from("/home/alice"), -42, 7),
        (String::from("été"), 1_700_000_000, 1),
    ];
    let ours = encode_store(&data);
    let theirs = bincode::serialize(&tuples).unwrap();
    assert_eq!(ours, theirs);
    let back: Vec<(String, i64, u32)> = bincode::deserialize(&ours).unwrap();
    assert_eq!(back, tuples);
}
