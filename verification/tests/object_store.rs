use std::io::Read;
use std::io::Write;

use git_objects::common::{ErrorKind, ObjectType};
use git_objects::object_read::{
    find_and_decode_object, find_object_file, locate, validate_existing_hash,
};
use git_objects::object_write::{hash_blob, hash_object, hash_write};
use git_objects::store::ObjectStore;

const DATA_HASH: &str = "bae42c55f9e0a4e297a4d197d8aadfe147ef269b";
const EMPTY_HASH: &str = "e69de29bb2d1d6434b8b29ae775ad8c2e48c5391";

fn inflate(data: &[u8]) -> Vec<u8> {
    let mut content = Vec::new();
    flate2::read::ZlibDecoder::new(data).read_to_end(&mut content).unwrap();
    content
}

fn deflate(data: &[u8]) -> Vec<u8> {
    let mut encoder =
        flate2::write::ZlibEncoder::new(Vec::new(), flate2::Compression::default());
    encoder.write_all(data).unwrap();
    encoder.finish().unwrap()
}

fn store_with(names: &[&str]) -> ObjectStore {
    let mut store = ObjectStore::new();
    for name in names {
        store.insert(
            name[..2].to_string(),
            name[2..].to_string(),
            deflate(b"blob 3\0abc"),
        );
    }
    store
}

#[test]
fn test_hash_blob() {
    let mut store = ObjectStore::new();
    let content = b"test1\ntest2\n";
    let hash = hash_blob(&mut store, content, content.len() as u64, true).unwrap();
    assert_eq!("bae42c55f9e0a4e297a4d197d8aadfe147ef269b", hash);

    let expected_data = "test1\ntest2\n";
    let (file_path, object_type, size, actual_data) =
        find_and_decode_object(&store, &hash).unwrap().destruct_into_string().unwrap();
    assert_eq!(ObjectType::Blob, object_type);
    assert_eq!(expected_data.len(), size as usize);
    assert_eq!(".git/objects/ba/e42c55f9e0a4e297a4d197d8aadfe147ef269b", file_path);
    assert_eq!(expected_data, actual_data);
}

#[test]
fn empty_blob_round_trip() {
    let mut store = ObjectStore::new();
    let hash = hash_blob(&mut store, b"", 0, true).unwrap();
    assert_eq!(EMPTY_HASH, hash);
    let object = find_and_decode_object(&store, &hash).unwrap();
    assert_eq!(ObjectType::Blob, object.object_type);
    assert_eq!(0, object.size);
    let mut body = Vec::new();
    object.drain_into_writer_raw(&mut body).unwrap();
    assert!(body.is_empty());
}

#[test]
fn binary_blob_round_trip() {
    let mut store = ObjectStore::new();
    let content: Vec<u8> = (0..=255u8).chain([0, 0, 32, 0, 255]).collect();
    let hash = hash_blob(&mut store, &content, content.len() as u64, true).unwrap();
    let object = find_and_decode_object(&store, &hash).unwrap();
    assert_eq!(ObjectType::Blob, object.object_type);
    assert_eq!(content.len() as u64, object.size);
    let mut body = b"kept".to_vec();
    let (file_path, object_type, size) = object.drain_into_writer_raw(&mut body).unwrap();
    assert_eq!(format!(".git/objects/{}/{}", &hash[..2], &hash[2..]), file_path);
    assert_eq!(ObjectType::Blob, object_type);
    assert_eq!(content.len() as u64, size);
    assert_eq!(b"kept".as_slice(), &body[..4]);
    assert_eq!(content.as_slice(), &body[4..]);
}

#[test]
fn stored_file_is_a_zlib_stream_of_header_and_body() {
    let mut store = ObjectStore::new();
    let hash = hash_blob(&mut store, b"test1\ntest2\n", 12, true).unwrap();
    assert_eq!(1, store.len());
    let file = store.file(0);
    assert_eq!(&hash[..2], file.dir);
    assert_eq!(&hash[2..], file.name);
    assert_ne!(b"blob 12\0test1\ntest2\n".to_vec(), file.data);
    assert_eq!(b"blob 12\0test1\ntest2\n".to_vec(), inflate(&file.data));
}

#[test]
fn hash_without_writing_leaves_the_store() {
    let mut store = ObjectStore::new();
    let hash = hash_blob(&mut store, b"test1\ntest2\n", 12, false).unwrap();
    assert_eq!(DATA_HASH, hash);
    assert_eq!(0, store.len());
}

#[test]
fn writing_twice_changes_nothing() {
    let mut store = ObjectStore::new();
    let first = hash_blob(&mut store, b"test1\ntest2\n", 12, true).unwrap();
    let data = store.file(0).data.clone();
    let second = hash_blob(&mut store, b"test1\ntest2\n", 12, true).unwrap();
    assert_eq!(first, second);
    assert_eq!(1, store.len());
    assert_eq!(data, store.file(0).data);
}

#[test]
fn hash_does_not_depend_on_the_store() {
    let mut empty = ObjectStore::new();
    let mut full = store_with(&[DATA_HASH, EMPTY_HASH]);
    let in_empty = hash_blob(&mut empty, b"abc", 3, true).unwrap();
    let in_full = hash_blob(&mut full, b"abc", 3, false).unwrap();
    assert_eq!(in_empty, in_full);
    assert_eq!("f2ba8f84ab5c1bce84a7b441cb1959cfc7093b7f", in_empty);
}

#[test]
fn hash_depends_on_the_kind() {
    let mut store = ObjectStore::new();
    let blob = hash_object(&mut store, b"abc", ObjectType::Blob, 3, false).unwrap();
    let tag = hash_object(&mut store, b"abc", ObjectType::Tag, 3, false).unwrap();
    let commit = hash_object(&mut store, b"abc", ObjectType::Commit, 3, false).unwrap();
    assert_eq!(blob, tag);
    assert_ne!(blob, commit);
}

#[test]
fn declared_size_must_be_the_length() {
    let mut store = ObjectStore::new();
    let short = hash_blob(&mut store, b"abc", 4, true).unwrap_err();
    assert_eq!(ErrorKind::SizeMismatch, short.kind);
    let long = hash_blob(&mut store, b"abc", 2, true).unwrap_err();
    assert_eq!(ErrorKind::SizeMismatch, long.kind);
    assert_eq!(0, store.len());
}

#[test]
fn hash_write_appends_header_and_body() {
    let mut writer = b"x".to_vec();
    let hash = hash_write(b"test1\ntest2\n", ObjectType::Blob, 12, &mut writer).unwrap();
    assert_eq!(DATA_HASH, hash);
    assert_eq!(b"xblob 12\0test1\ntest2\n".to_vec(), writer);

    let mut writer = Vec::new();
    let failed = hash_write(b"abc", ObjectType::Tree, 5, &mut writer).unwrap_err();
    assert_eq!(ErrorKind::SizeMismatch, failed.kind);
    assert_eq!(b"tree 5\0abc".to_vec(), writer);
}

#[test]
fn lookup_by_full_and_short_hash() {
    let store = store_with(&[
        "bae42c55f9e0a4e297a4d197d8aadfe147ef269b",
        "bae4ffffffffffffffffffffffffffffffffffff",
        "e69de29bb2d1d6434b8b29ae775ad8c2e48c5391",
    ]);
    let full = ".git/objects/ba/e42c55f9e0a4e297a4d197d8aadfe147ef269b";
    assert_eq!(full, find_object_file(&store, DATA_HASH).unwrap());
    assert_eq!(full, find_object_file(&store, "bae42").unwrap());
    assert_eq!(full, find_object_file(&store, "bae42c55f9e0a4e297a4").unwrap());
    assert_eq!(0, locate(&store, "bae42").unwrap());
    assert_eq!(1, locate(&store, "bae4f").unwrap());
    assert_eq!(
        ".git/objects/e6/9de29bb2d1d6434b8b29ae775ad8c2e48c5391",
        find_object_file(&store, "e69d").unwrap()
    );
}

#[test]
fn lookup_failures() {
    let store = store_with(&[
        "bae42c55f9e0a4e297a4d197d8aadfe147ef269b",
        "bae4ffffffffffffffffffffffffffffffffffff",
    ]);
    assert_eq!(ErrorKind::AmbiguousHash, find_object_file(&store, "bae4").unwrap_err().kind);
    assert_eq!(ErrorKind::NotFound, find_object_file(&store, "bae5").unwrap_err().kind);
    assert_eq!(ErrorKind::NotFound, find_object_file(&store, "0000").unwrap_err().kind);
    assert_eq!(ErrorKind::NotFound, find_object_file(&store, "BAE42").unwrap_err().kind);
    assert_eq!(ErrorKind::InvalidHashLength, find_object_file(&store, "bae").unwrap_err().kind);
    assert_eq!(ErrorKind::InvalidHashLength, find_object_file(&store, "").unwrap_err().kind);
    let long = "bae42c55f9e0a4e297a4d197d8aadfe147ef269b0";
    let failed = find_object_file(&store, long).unwrap_err();
    assert_eq!(ErrorKind::InvalidHashLength, failed.kind);
    assert_eq!(long.as_bytes(), failed.subject.as_slice());
    assert_eq!(0, failed.entry);
}

#[test]
fn lookup_skips_files_that_are_no_objects() {
    let mut store = ObjectStore::new();
    store.insert("ba".to_string(), "e42c".to_string(), Vec::new());
    store.insert("ba".to_string(), "e42c55f9e0a4e297a4d197d8aadfe147ef269b0".to_string(), Vec::new());
    store.insert("bb".to_string(), "e42c55f9e0a4e297a4d197d8aadfe147ef269b".to_string(), Vec::new());
    assert_eq!(ErrorKind::NotFound, find_object_file(&store, "bae42c").unwrap_err().kind);
    assert_eq!(
        ".git/objects/bb/e42c55f9e0a4e297a4d197d8aadfe147ef269b",
        find_object_file(&store, "bbe42c").unwrap()
    );
}

#[test]
fn lookup_takes_text_that_is_no_hash() {
    let store = store_with(&[DATA_HASH]);
    assert_eq!(ErrorKind::NotFound, find_object_file(&store, "\u{20ac}a").unwrap_err().kind);
    assert_eq!(ErrorKind::NotFound, find_object_file(&store, "../..").unwrap_err().kind);
}

#[test]
fn store_keeps_one_file_per_name() {
    let mut store = ObjectStore::new();
    store.insert("ab".to_string(), "cd".to_string(), vec![1]);
    store.insert("ab".to_string(), "ce".to_string(), vec![2]);
    store.insert("ab".to_string(), "cd".to_string(), vec![3]);
    assert_eq!(2, store.len());
    assert_eq!(vec![3], store.file(0).data);
    assert_eq!(vec![2], store.file(1).data);
    assert_eq!(Some(1), store.position("ab", "ce"));
    assert_eq!(None, store.position("ab", "cf"));
}

#[test]
fn validate_gives_the_full_hash() {
    let mut store = ObjectStore::new();
    let hash = hash_blob(&mut store, b"test1\ntest2\n", 12, true).unwrap();
    assert_eq!(hash, validate_existing_hash(&store, &hash[..4], ObjectType::Blob).unwrap());
    assert_eq!(hash, validate_existing_hash(&store, &hash, ObjectType::Blob).unwrap());
    let wrong = validate_existing_hash(&store, &hash, ObjectType::Tree).unwrap_err();
    assert_eq!(ErrorKind::WrongObjectType, wrong.kind);
    let missing = validate_existing_hash(&store, "0123", ObjectType::Blob).unwrap_err();
    assert_eq!(ErrorKind::NotFound, missing.kind);
}
