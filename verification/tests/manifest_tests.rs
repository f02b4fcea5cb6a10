use updatepack::compress::zip_dir;
use updatepack::compress::CompressionMethod;
use updatepack::hash::compute_buffer_hash;
use updatepack::hash::HashAlgorithm;
use updatepack::manifest::create_info_file;
use updatepack::tree::EntryKind;
use updatepack::tree::TreeEntry;

fn by_serde(hash: &str, algorithm: &str, size: u64) -> String {
    let mut object = serde_json::Map::new();
    object.insert("hash".to_string(), serde_json::Value::String(hash.to_string()));
    object.insert("hash_algorithm".to_string(), serde_json::Value::String(algorithm.to_string()));
    object.insert("size".to_string(), serde_json::Value::Number(serde_json::Number::from(size)));
    serde_json::Value::Object(object).to_string()
}

#[test]
fn manifest_holds_hash_algorithm_and_size() {
    let archive = b"these bytes stand for an archive";
    let manifest = create_info_file(archive, HashAlgorithm::Md5);
    assert_eq!(manifest.hash(), compute_buffer_hash(archive, HashAlgorithm::Md5));
    assert_eq!(manifest.hash(), format!("{:x}", md5::compute(archive)));
    assert_eq!(manifest.hash_algorithm(), HashAlgorithm::Md5);
    assert_eq!(manifest.size(), 32);
}

#[test]
fn manifest_of_no_bytes() {
    let manifest = create_info_file(b"", HashAlgorithm::XxHash64);
    assert_eq!(manifest.hash(), "ef46db3751d8e999");
    assert_eq!(manifest.hash_algorithm(), HashAlgorithm::XxHash64);
    assert_eq!(manifest.size(), 0);
}

#[test]
fn manifest_hash_has_no_path_mixed_in() {
    let manifest = create_info_file(b"abc", HashAlgorithm::XxHash64);
    assert_eq!(manifest.hash(), "44bc2cf5ad770999");
    let manifest = create_info_file(b"abc", HashAlgorithm::Md5);
    assert_eq!(manifest.hash(), "900150983cd24fb0d6963f7d28e17f72");
}

#[test]
fn manifest_text_known_values() {
    assert_eq!(
        create_info_file(b"", HashAlgorithm::XxHash64).to_json(),
        "{\"hash\":\"ef46db3751d8e999\",\"hash_algorithm\":\"xxhash64\",\"size\":0}"
    );
    assert_eq!(
        create_info_file(b"abc", HashAlgorithm::Md5).to_json(),
        "{\"hash\":\"900150983cd24fb0d6963f7d28e17f72\",\"hash_algorithm\":\"md5\",\"size\":3}"
    );
}

#[test]
fn manifest_text_is_what_serde_json_writes() {
    for algorithm in [HashAlgorithm::Md5, HashAlgorithm::XxHash64] {
        for length in [0usize, 1, 9, 10, 11, 99, 100, 101, 1234, 70_000] {
            let archive = vec![7u8; length];
            let manifest = create_info_file(&archive, algorithm);
            assert_eq!(
                manifest.to_json(),
                by_serde(manifest.hash(), algorithm.name(), length as u64)
            );
        }
    }
}

#[test]
fn manifest_text_reads_back_as_three_fields() {
    let archive = vec![42u8; 4096];
    let text = create_info_file(&archive, HashAlgorithm::XxHash64).to_json();
    let value: serde_json::Value = serde_json::from_str(&text).unwrap();
    let object = value.as_object().unwrap();
    assert_eq!(object.len(), 3);
    assert_eq!(
        object["hash"].as_str(),
        Some(compute_buffer_hash(&archive, HashAlgorithm::XxHash64).as_str())
    );
    assert_eq!(object["hash_algorithm"].as_str(), Some("xxhash64"));
    assert_eq!(object["size"].as_u64(), Some(4096));
}

#[test]
fn manifest_describes_the_archive_it_is_given() {
    let walk = vec![TreeEntry {
        path: "__package/f.txt".to_string(),
        kind: EntryKind::File,
        content: b"payload".to_vec(),
    }];
    let archive = zip_dir(&walk, "__package", CompressionMethod::Deflated).unwrap();
    for algorithm in [HashAlgorithm::Md5, HashAlgorithm::XxHash64] {
        let manifest = create_info_file(&archive, algorithm);
        assert_eq!(manifest.size(), archive.len() as u64);
        assert_eq!(manifest.hash(), compute_buffer_hash(&archive, algorithm));
        assert_eq!(manifest.hash_algorithm(), algorithm);
    }
}
