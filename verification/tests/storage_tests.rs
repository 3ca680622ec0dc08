use recall::storage::{
    blobify, make_save, pack_fits_check, Blob, BlobFile, Save, SaveHeaders, StoreError,
    CREATOR_LENGTH, HASH_LENGTH,
};

fn file(name: &str, content: &[u8]) -> BlobFile {
    BlobFile {
        filename: String::from(name),
        content: content.to_vec(),
        last_modified: 1_700_000_000_000_000,
        created: 1_600_000_000_000_000,
    }
}

#[test]
fn pack_two_files_layout() {
    // packing a 3-byte file and an empty one: disjoint, gap-free offsets
    let files = vec![file("a.txt", b"abc"), file("b.txt", b"")];
    assert!(pack_fits_check(&files));
    let blob = blobify(files);
    assert_eq!(blob.headers.len(), 2);
    assert_eq!(blob.headers[0].filename, "a.txt");
    assert_eq!(blob.headers[0].content_length, 3);
    assert_eq!(blob.headers[0].content_location, 0);
    assert_eq!(blob.headers[0].filename_length, 5);
    assert_eq!(blob.headers[1].filename, "b.txt");
    assert_eq!(blob.headers[1].content_length, 0);
    assert_eq!(blob.headers[1].content_location, 3);
    assert_eq!(blob.data, b"abc".to_vec());
}

#[test]
fn blob_round_trip() {
    let files = vec![
        file("a.txt", b"abc"),
        file("b.txt", b""),
        file("name with spaces.bin", &[0, 1, 2, 255, 254]),
    ];
    let blob = blobify(files);
    let bytes = blob.to_bytes();
    // a zstd frame starts with the zstd magic number
    assert_eq!(&bytes[0..4], &[0x28, 0xB5, 0x2F, 0xFD]);
    let back = Blob::from_bytes(&bytes).expect("decompress and parse");
    assert_eq!(back.headers.len(), 3);
    assert_eq!(back.get_file("a.txt"), Some(b"abc".to_vec()));
    assert_eq!(back.get_file("b.txt"), Some(Vec::new()));
    assert_eq!(
        back.get_file("name with spaces.bin"),
        Some(vec![0, 1, 2, 255, 254])
    );
    assert_eq!(back.get_file("missing"), None);
    assert_eq!(back.headers[1].last_modified, 1_700_000_000_000_000);
    assert_eq!(back.headers[1].created, 1_600_000_000_000_000);
}

#[test]
fn blob_payload_layout() {
    // decompressing a serialized blob exposes the declared wire layout
    let files = vec![file("a.txt", b"abc"), file("b.txt", b"")];
    let blob = blobify(files);
    let bytes = blob.to_bytes();
    let payload = zstd::stream::decode_all(&bytes[..]).expect("zstd");
    // header region: two headers of 56 + 5 bytes each
    let hsize = u64::from_be_bytes(payload[0..8].try_into().unwrap());
    assert_eq!(hsize, 122);
    assert_eq!(payload.len(), 8 + 122 + 3);
    // first header: last_modified, created, content_length, filename_length
    assert_eq!(
        u128::from_be_bytes(payload[8..24].try_into().unwrap()),
        1_700_000_000_000_000
    );
    assert_eq!(
        u128::from_be_bytes(payload[24..40].try_into().unwrap()),
        1_600_000_000_000_000
    );
    assert_eq!(u64::from_be_bytes(payload[40..48].try_into().unwrap()), 3);
    assert_eq!(u64::from_be_bytes(payload[48..56].try_into().unwrap()), 5);
    assert_eq!(&payload[56..61], b"a.txt");
    assert_eq!(u64::from_be_bytes(payload[61..69].try_into().unwrap()), 0);
    // the data region carries the raw bytes
    assert_eq!(&payload[8 + 122..], b"abc");
}

#[test]
fn blob_rejects_garbage() {
    let garbage = vec![1u8, 2, 3, 4, 5, 6, 7, 8, 9];
    match Blob::from_bytes(&garbage) {
        Err(StoreError::Corrupt) => {}
        other => panic!("expected Corrupt, got {:?}", other),
    }
}

#[test]
fn blob_rejects_truncated_payload() {
    // a valid zstd frame whose payload is shorter than a header region
    let payload = vec![0u8; 4];
    let bytes = zstd::stream::encode_all(&payload[..], 3).unwrap();
    match Blob::from_bytes(&bytes) {
        Err(StoreError::Truncated) => {}
        other => panic!("expected Truncated, got {:?}", other),
    }
}

#[test]
fn blob_rejects_bad_utf8_filename() {
    // one header whose filename bytes are not UTF-8
    let mut payload = Vec::new();
    let header_len: u64 = 56 + 2;
    payload.extend_from_slice(&header_len.to_be_bytes());
    payload.extend_from_slice(&0u128.to_be_bytes());
    payload.extend_from_slice(&0u128.to_be_bytes());
    payload.extend_from_slice(&0u64.to_be_bytes());
    payload.extend_from_slice(&2u64.to_be_bytes());
    payload.extend_from_slice(&[0xFF, 0xFE]);
    payload.extend_from_slice(&0u64.to_be_bytes());
    let bytes = zstd::stream::encode_all(&payload[..], 3).unwrap();
    match Blob::from_bytes(&bytes) {
        Err(StoreError::BadUtf8) => {}
        other => panic!("expected BadUtf8, got {:?}", other),
    }
}

#[test]
fn save_round_trip_field_by_field() {
    // the memo is longer than both fixed-width fields and must come back
    // whole; the hash and creator fields are fixed 64 and 32 bytes
    let memo = "a memo well over sixty-four characters long, to show that the \
                length-prefixed field is never truncated on the way through";
    let files = vec![file("a.txt", b"abc")];
    let now: u128 = 1_234_567_890_123_456;
    let save = make_save(String::from(memo), files, now);
    assert_eq!(save.headers.hash.len(), HASH_LENGTH);
    assert_eq!(save.headers.creator.len(), CREATOR_LENGTH);
    assert_eq!(save.headers.memo_size, memo.len());
    assert_eq!(save.headers.created_date, now);
    // creator is "recall" zero-padded to 32 bytes
    let mut expect_creator = b"recall".to_vec();
    expect_creator.resize(32, 0);
    assert_eq!(save.headers.creator, expect_creator);
    // the commit hash is the hex sha-256 of the decimal timestamp
    let digest = <sha2::Sha256 as sha2::Digest>::digest(now.to_string().as_bytes());
    let expect_hash: String = digest.iter().map(|b| format!("{:02x}", b)).collect();
    assert_eq!(save.headers.hash, expect_hash.as_bytes().to_vec());

    let bytes = save.to_bytes();
    let back = Save::from_bytes(&bytes).expect("deserialize");
    assert_eq!(back.headers.hash, save.headers.hash);
    assert_eq!(back.headers.memo, memo);
    assert_eq!(back.headers.memo_size, memo.len());
    assert_eq!(back.headers.created_date, now);
    assert_eq!(back.headers.creator, save.headers.creator);
    assert_eq!(back.blob.get_file("a.txt"), Some(b"abc".to_vec()));
}

#[test]
fn save_headers_round_trip() {
    let headers = SaveHeaders {
        hash: vec![7u8; HASH_LENGTH],
        memo: String::from("memo text"),
        memo_size: 9,
        created_date: 42,
        creator: vec![9u8; CREATOR_LENGTH],
    };
    let bytes = headers.to_bytes();
    assert_eq!(bytes.len(), 64 + 8 + 9 + 16 + 32);
    let back = SaveHeaders::from_bytes(&bytes).expect("parse");
    assert_eq!(back.hash, headers.hash);
    assert_eq!(back.memo, "memo text");
    assert_eq!(back.memo_size, 9);
    assert_eq!(back.created_date, 42);
    assert_eq!(back.creator, headers.creator);
}

#[test]
fn save_rejects_short_buffer() {
    let short = vec![0u8; 20];
    match Save::from_bytes(&short) {
        Err(StoreError::Truncated) => {}
        other => panic!("expected Truncated, got {:?}", other),
    }
}

#[test]
fn empty_file_list_packs() {
    let blob = blobify(Vec::new());
    let bytes = blob.to_bytes();
    let back = Blob::from_bytes(&bytes).expect("parse");
    assert_eq!(back.headers.len(), 0);
    assert_eq!(back.data.len(), 0);
    assert_eq!(back.get_file("anything"), None);
}

#[test]
fn duplicate_names_find_first() {
    let files = vec![file("x", b"first"), file("x", b"second")];
    let blob = blobify(files);
    assert_eq!(blob.get_file("x"), Some(b"first".to_vec()));
}

#[test]
fn unicode_filename_round_trip() {
    // the filename length field counts bytes, not characters
    let files = vec![file("π.txt", b"pi"), file("naïve", b"n")];
    let blob = blobify(files);
    assert_eq!(blob.headers[0].filename_length, "π.txt".len());
    assert_eq!(blob.headers[0].filename_length, 6);
    let bytes = blob.to_bytes();
    let back = Blob::from_bytes(&bytes).expect("parse");
    assert_eq!(back.get_file("π.txt"), Some(b"pi".to_vec()));
    assert_eq!(back.get_file("naïve"), Some(b"n".to_vec()));
}

#[test]
fn save_headers_wire_layout() {
    let headers = SaveHeaders {
        hash: vec![1u8; HASH_LENGTH],
        memo: String::from("ab"),
        memo_size: 2,
        created_date: 0x0102,
        creator: vec![2u8; CREATOR_LENGTH],
    };
    let bytes = headers.to_bytes();
    assert_eq!(&bytes[0..64], &[1u8; 64][..]);
    assert_eq!(u64::from_be_bytes(bytes[64..72].try_into().unwrap()), 2);
    assert_eq!(&bytes[72..74], b"ab");
    assert_eq!(
        u128::from_be_bytes(bytes[74..90].try_into().unwrap()),
        0x0102
    );
    assert_eq!(&bytes[90..122], &[2u8; 32][..]);
}
