use std::hash::Hasher;

use updatepack::hash::compute_buffer_hash;
use updatepack::hash::compute_file_hash;
use updatepack::hash::md5_identity_input;
use updatepack::hash::u64_be_bytes;
use updatepack::hash::u64_hex;
use updatepack::hash::xxh64_identity_input;
use updatepack::hash::HashAlgorithm;
use updatepack::hex::hex_encode;

#[test]
fn from_str_knows_the_three_names() {
    assert_eq!(HashAlgorithm::from_str("md5"), Some(HashAlgorithm::Md5));
    assert_eq!(HashAlgorithm::from_str("xxhash"), Some(HashAlgorithm::XxHash64));
    assert_eq!(HashAlgorithm::from_str("xxhash64"), Some(HashAlgorithm::XxHash64));
}

#[test]
fn from_str_ignores_case() {
    assert_eq!(HashAlgorithm::from_str("MD5"), Some(HashAlgorithm::Md5));
    assert_eq!(HashAlgorithm::from_str("Md5"), Some(HashAlgorithm::Md5));
    assert_eq!(HashAlgorithm::from_str("XXHash"), Some(HashAlgorithm::XxHash64));
    assert_eq!(HashAlgorithm::from_str("XxHash64"), Some(HashAlgorithm::XxHash64));
}

#[test]
fn from_str_refuses_other_names() {
    assert_eq!(HashAlgorithm::from_str(""), None);
    assert_eq!(HashAlgorithm::from_str("sha1"), None);
    assert_eq!(HashAlgorithm::from_str("md5 "), None);
    assert_eq!(HashAlgorithm::from_str("xxhash32"), None);
    assert_eq!(HashAlgorithm::from_str("xxhash6"), None);
}

#[test]
fn from_name_wants_lowercase() {
    assert_eq!(HashAlgorithm::from_name("md5"), Some(HashAlgorithm::Md5));
    assert_eq!(HashAlgorithm::from_name("xxhash"), Some(HashAlgorithm::XxHash64));
    assert_eq!(HashAlgorithm::from_name("xxhash64"), Some(HashAlgorithm::XxHash64));
    assert_eq!(HashAlgorithm::from_name("MD5"), None);
    assert_eq!(HashAlgorithm::from_name("XXHASH"), None);
}

#[test]
fn name_is_canonical() {
    assert_eq!(HashAlgorithm::Md5.name(), "md5");
    assert_eq!(HashAlgorithm::XxHash64.name(), "xxhash64");
}

#[test]
fn name_is_read_back_by_from_str() {
    assert_eq!(HashAlgorithm::from_str(HashAlgorithm::Md5.name()), Some(HashAlgorithm::Md5));
    assert_eq!(
        HashAlgorithm::from_str(HashAlgorithm::XxHash64.name()),
        Some(HashAlgorithm::XxHash64)
    );
}

#[test]
fn hex_encode_writes_two_digits_per_byte() {
    assert_eq!(hex_encode(&[]), "");
    assert_eq!(hex_encode(&[0x00]), "00");
    assert_eq!(hex_encode(&[0x0a]), "0a");
    assert_eq!(hex_encode(&[0xde, 0xad, 0xbe, 0xef]), "deadbeef");
    assert_eq!(hex_encode(&[0x01, 0x23, 0x45, 0x67, 0x89, 0xab, 0xcd, 0xef]), "0123456789abcdef");
    assert_eq!(hex_encode(&[0xff, 0x10, 0x9f]), "ff109f");
}

#[test]
fn hex_encode_covers_every_byte() {
    let mut b: u16 = 0;
    while b < 256 {
        assert_eq!(hex_encode(&[b as u8]), format!("{:02x}", b));
        b += 1;
    }
}

#[test]
fn u64_hex_pads_to_sixteen_digits() {
    assert_eq!(u64_hex(0), "0000000000000000");
    assert_eq!(u64_hex(1), "0000000000000001");
    assert_eq!(u64_hex(0xabc), "0000000000000abc");
    assert_eq!(u64_hex(0x0123456789abcdef), "0123456789abcdef");
    assert_eq!(u64_hex(u64::MAX), "ffffffffffffffff");
    assert_eq!(u64_hex(0xef46db3751d8e999), format!("{:016x}", 0xef46db3751d8e999u64));
}

#[test]
fn u64_be_bytes_puts_the_high_byte_first() {
    assert_eq!(u64_be_bytes(0x0102030405060708), vec![1, 2, 3, 4, 5, 6, 7, 8]);
    assert_eq!(u64_be_bytes(0), vec![0; 8]);
    assert_eq!(u64_be_bytes(0xff00000000000001), 0xff00000000000001u64.to_be_bytes().to_vec());
}

#[test]
fn buffer_hash_md5_known_values() {
    assert_eq!(
        compute_buffer_hash(b"", HashAlgorithm::Md5),
        "d41d8cd98f00b204e9800998ecf8427e"
    );
    assert_eq!(
        compute_buffer_hash(b"abc", HashAlgorithm::Md5),
        "900150983cd24fb0d6963f7d28e17f72"
    );
    assert_eq!(
        compute_buffer_hash(b"abcdefghijklmnopqrstuvwxyz", HashAlgorithm::Md5),
        "c3fcd3d76192e4007dfb496cca67e13b"
    );
}

#[test]
fn buffer_hash_xxhash_known_values() {
    assert_eq!(compute_buffer_hash(b"", HashAlgorithm::XxHash64), "ef46db3751d8e999");
    assert_eq!(compute_buffer_hash(b"a", HashAlgorithm::XxHash64), "d24ec4f1a98c6e5b");
    assert_eq!(compute_buffer_hash(b"abc", HashAlgorithm::XxHash64), "44bc2cf5ad770999");
}

#[test]
fn buffer_hash_has_the_width_of_its_algorithm() {
    let data = b"some bytes of an archive";
    assert_eq!(compute_buffer_hash(data, HashAlgorithm::Md5).len(), 32);
    assert_eq!(compute_buffer_hash(data, HashAlgorithm::XxHash64).len(), 16);
}

#[test]
fn buffer_hash_is_lowercase_hex() {
    for algorithm in [HashAlgorithm::Md5, HashAlgorithm::XxHash64] {
        let hash = compute_buffer_hash(b"The quick brown fox", algorithm);
        assert!(hash.chars().all(|c| c.is_ascii_digit() || ('a'..='f').contains(&c)));
    }
}

#[test]
fn buffer_hash_agrees_with_the_digest_crates() {
    let data = b"incremental update package";
    assert_eq!(
        compute_buffer_hash(data, HashAlgorithm::Md5),
        format!("{:x}", md5::compute(data))
    );
    let mut hasher = twox_hash::XxHash64::default();
    hasher.write(data);
    assert_eq!(
        compute_buffer_hash(data, HashAlgorithm::XxHash64),
        format!("{:016x}", hasher.finish())
    );
}

#[test]
fn buffer_hash_differs_from_its_input() {
    let data = b"0123456789abcdef";
    assert_ne!(compute_buffer_hash(data, HashAlgorithm::XxHash64).as_bytes(), &data[..]);
    assert_ne!(compute_buffer_hash(data, HashAlgorithm::Md5).as_bytes(), &data[..]);
    assert_ne!(
        compute_buffer_hash(b"a", HashAlgorithm::Md5),
        compute_buffer_hash(b"b", HashAlgorithm::Md5)
    );
    assert_ne!(
        compute_buffer_hash(b"a", HashAlgorithm::XxHash64),
        compute_buffer_hash(b"b", HashAlgorithm::XxHash64)
    );
}

#[test]
fn file_hash_md5_is_the_digest_of_digest_and_path() {
    let content = b"hello world\n";
    let inner_path = String::from("docs/readme.txt");
    let file_hash = format!("{:x}", md5::compute(content));
    let combined = (file_hash + &inner_path).into_bytes();
    let expected = format!("{:x}", md5::compute(&combined));
    assert_eq!(compute_file_hash(content, &inner_path, HashAlgorithm::Md5), expected);
}

#[test]
fn file_hash_xxhash_is_the_hash_of_hash_and_path() {
    let content = b"hello world\n";
    let inner_path = String::from("docs/readme.txt");
    let mut hasher = twox_hash::XxHash64::default();
    hasher.write(content);
    let file_hash = hasher.finish();
    let mut id_hasher = twox_hash::XxHash64::default();
    id_hasher.write(&file_hash.to_le_bytes());
    id_hasher.write(inner_path.as_bytes());
    let expected = format!("{:016x}", id_hasher.finish());
    assert_eq!(compute_file_hash(content, &inner_path, HashAlgorithm::XxHash64), expected);
}

#[test]
fn file_hash_known_values() {
    let empty_path = String::new();
    // md5 of the text "d41d8cd98f00b204e9800998ecf8427e"
    assert_eq!(
        compute_file_hash(b"", &empty_path, HashAlgorithm::Md5),
        "74be16979710d4c4e7c6647856088456"
    );
    assert_eq!(
        compute_file_hash(b"", &empty_path, HashAlgorithm::XxHash64),
        "90760494a54b0e51"
    );
    let inner_path = String::from("docs/readme.txt");
    assert_eq!(
        compute_file_hash(b"hello world\n", &inner_path, HashAlgorithm::Md5),
        "ca0a55e088b6236902f96b8c975fd53a"
    );
    assert_eq!(
        compute_file_hash(b"hello world\n", &inner_path, HashAlgorithm::XxHash64),
        "7a5184b3409176c4"
    );
}

#[test]
fn file_hash_with_a_path_that_is_not_ascii() {
    let content = b"\x00\x01\x02";
    let inner_path = String::from("données/été.bin");
    let file_hash = format!("{:x}", md5::compute(content));
    let expected = format!("{:x}", md5::compute((file_hash + &inner_path).into_bytes()));
    assert_eq!(compute_file_hash(content, &inner_path, HashAlgorithm::Md5), expected);
    let inner = twox_hash::XxHash64::oneshot(0, content);
    let mut input = inner.to_le_bytes().to_vec();
    input.extend_from_slice(inner_path.as_bytes());
    let expected = format!("{:016x}", twox_hash::XxHash64::oneshot(0, &input));
    assert_eq!(compute_file_hash(content, &inner_path, HashAlgorithm::XxHash64), expected);
}

#[test]
fn identity_is_the_same_on_every_run() {
    let path = String::from("a/b.txt");
    for algorithm in [HashAlgorithm::Md5, HashAlgorithm::XxHash64] {
        let first = compute_file_hash(b"content", &path, algorithm);
        let second = compute_file_hash(b"content", &path, algorithm);
        assert_eq!(first, second);
    }
}

#[test]
fn identity_changes_with_the_path_and_comes_back() {
    let here = String::from("a/b.txt");
    let there = String::from("a/c.txt");
    for algorithm in [HashAlgorithm::Md5, HashAlgorithm::XxHash64] {
        let initial = compute_file_hash(b"content", &here, algorithm);
        let moved = compute_file_hash(b"content", &there, algorithm);
        let back = compute_file_hash(b"content", &here, algorithm);
        assert_ne!(initial, moved);
        assert_eq!(initial, back);
    }
}

#[test]
fn identity_changes_with_the_content_and_comes_back() {
    let path = String::from("a/b.txt");
    for algorithm in [HashAlgorithm::Md5, HashAlgorithm::XxHash64] {
        let initial = compute_file_hash(b"content", &path, algorithm);
        let edited = compute_file_hash(b"content!", &path, algorithm);
        let back = compute_file_hash(b"content", &path, algorithm);
        assert_ne!(initial, edited);
        assert_eq!(initial, back);
    }
}

#[test]
fn identity_is_not_the_hash_of_the_content_alone() {
    let path = String::from("a/b.txt");
    for algorithm in [HashAlgorithm::Md5, HashAlgorithm::XxHash64] {
        assert_ne!(
            compute_file_hash(b"content", &path, algorithm),
            compute_buffer_hash(b"content", algorithm)
        );
    }
}

#[test]
fn identity_has_the_width_of_its_algorithm() {
    let path = String::from("x");
    assert_eq!(compute_file_hash(b"1", &path, HashAlgorithm::Md5).len(), 32);
    assert_eq!(compute_file_hash(b"1", &path, HashAlgorithm::XxHash64).len(), 16);
}

#[test]
fn md5_identity_input_is_hex_then_path() {
    let digest = [0xabu8, 0x01, 0xff];
    assert_eq!(md5_identity_input(&digest, "p/q"), b"ab01ffp/q".to_vec());
    assert_eq!(md5_identity_input(&[], ""), Vec::<u8>::new());
    assert_eq!(md5_identity_input(&[0x00], "é"), "00é".as_bytes().to_vec());
}

#[test]
fn xxh64_identity_input_is_low_byte_first_then_path() {
    assert_eq!(
        xxh64_identity_input(0x0102030405060708, "ab"),
        vec![8, 7, 6, 5, 4, 3, 2, 1, b'a', b'b']
    );
    assert_eq!(xxh64_identity_input(0, ""), vec![0u8; 8]);
}
