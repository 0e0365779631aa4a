use std::io::Write;

use git_objects::common::{Error, ErrorKind, ObjectMode, ObjectType};
use git_objects::object_read::{
    find_and_decode_object, get_compressed_file_reader, is_end_of_reader, read_object_size,
    read_object_type, LazyDecodedObject,
};
use git_objects::reader::ByteReader;
use git_objects::store::ObjectStore;
use git_objects::tree_object_read::TreeObjectIterator;

const NAME: &str = "0123456789012345678901234567890123456789";

fn deflate(data: &[u8]) -> Vec<u8> {
    let mut encoder = flate2::write::ZlibEncoder::new(Vec::new(), flate2::Compression::fast());
    encoder.write_all(data).unwrap();
    encoder.finish().unwrap()
}

fn store_of(content: &[u8]) -> ObjectStore {
    let mut store = ObjectStore::new();
    store.insert(NAME[..2].to_string(), NAME[2..].to_string(), deflate(content));
    store
}

fn decode(content: &[u8]) -> Result<LazyDecodedObject, Error> {
    find_and_decode_object(&store_of(content), NAME)
}

fn failure(content: &[u8]) -> ErrorKind {
    match decode(content) {
        Ok(_) => panic!("decoded"),
        Err(e) => e.kind,
    }
}

fn drained(content: &[u8]) -> Result<Vec<u8>, ErrorKind> {
    let mut body = Vec::new();
    match decode(content).unwrap().drain_into_writer_raw(&mut body) {
        Ok(_) => Ok(body),
        Err(e) => Err(e.kind),
    }
}

fn tree_of(body: &[u8], size: u64) -> TreeObjectIterator {
    let object = LazyDecodedObject::new(
        "tree/path".to_string(),
        ObjectType::Tree,
        size,
        ByteReader::new(body.to_vec()),
    );
    TreeObjectIterator::from_decoded_object(object).unwrap()
}

fn entry(mode: &str, name: &str, fill: u8) -> Vec<u8> {
    let mut bytes = mode.as_bytes().to_vec();
    bytes.push(b' ');
    bytes.extend_from_slice(name.as_bytes());
    bytes.push(0);
    bytes.extend_from_slice(&[fill; 20]);
    bytes
}

#[test]
fn header_gives_kind_and_size() {
    let object = decode(b"blob 3\0abc").unwrap();
    assert_eq!(ObjectType::Blob, object.object_type);
    assert_eq!(3, object.size);
    assert_eq!(format!(".git/objects/{}/{}", &NAME[..2], &NAME[2..]), object.file_path);
    assert_eq!(ObjectType::Tree, decode(b"tree 0\0").unwrap().object_type);
    assert_eq!(ObjectType::Commit, decode(b"commit 0\0").unwrap().object_type);
    assert_eq!(ObjectType::Tag, decode(b"tag 0\0").unwrap().object_type);
    assert_eq!(1073741824, decode(b"blob 1073741824\0").unwrap().size);
    assert_eq!(7, decode(b"blob +7\0").unwrap().size);
    assert_eq!(7, decode(b"blob 007\0").unwrap().size);
}

#[test]
fn header_failures() {
    assert_eq!(ErrorKind::MalformedHeader, failure(b""));
    assert_eq!(ErrorKind::MalformedHeader, failure(b"blob"));
    assert_eq!(ErrorKind::MalformedHeader, failure(b"blobblobbl 3\0abc"));
    assert_eq!(ErrorKind::UnknownObjectType, failure(b"blobblobb 3\0abc"));
    assert_eq!(ErrorKind::UnknownObjectType, failure(b" 3\0abc"));
    assert_eq!(ErrorKind::UnknownObjectType, failure(b"BLOB 3\0abc"));
    assert_eq!(ErrorKind::UnknownObjectType, failure(b"blob\t3\0ab c"));
    assert_eq!(ErrorKind::MalformedHeader, failure(b"blob "));
    assert_eq!(ErrorKind::MalformedHeader, failure(b"blob 3"));
    assert_eq!(ErrorKind::MalformedHeader, failure(b"blob \0abc"));
    assert_eq!(ErrorKind::MalformedHeader, failure(b"blob 3a\0abc"));
    assert_eq!(ErrorKind::MalformedHeader, failure(b"blob -3\0abc"));
    assert_eq!(ErrorKind::MalformedHeader, failure(b"blob  3\0abc"));
    assert_eq!(ErrorKind::MalformedHeader, failure(b"blob 00000000000000000003\0abc"));
    assert_eq!(3, decode(b"blob 0000000000000000003\0abc").unwrap().size);
    assert_eq!(ErrorKind::SizeTooLarge, failure(b"blob 1073741825\0"));
    assert_eq!(ErrorKind::SizeTooLarge, failure(b"blob 9999999999999999999\0"));
}

#[test]
fn a_file_that_is_no_zlib_stream_fails() {
    let mut store = ObjectStore::new();
    store.insert(NAME[..2].to_string(), NAME[2..].to_string(), b"blob 3\0abc".to_vec());
    let failed = match find_and_decode_object(&store, NAME) {
        Ok(_) => panic!("decoded"),
        Err(e) => e,
    };
    assert_eq!(ErrorKind::CorruptObject, failed.kind);
    assert!(get_compressed_file_reader(b"", "p").is_err());
    let mut cut = deflate(b"blob 3\0abc");
    cut.truncate(cut.len() - 5);
    assert!(get_compressed_file_reader(&cut, "p").is_err());
    let reader = get_compressed_file_reader(&deflate(b"blob 3\0abc"), "p").unwrap();
    assert!(!is_end_of_reader(reader));
    let reader = get_compressed_file_reader(&deflate(b""), "p").unwrap();
    assert!(is_end_of_reader(reader));
}

#[test]
fn body_must_be_as_long_as_declared() {
    assert_eq!(Ok(b"abc".to_vec()), drained(b"blob 3\0abc"));
    assert_eq!(Ok(Vec::new()), drained(b"blob 0\0"));
    assert_eq!(Err(ErrorKind::SizeMismatch), drained(b"blob 4\0abc"));
    assert_eq!(Err(ErrorKind::SizeMismatch), drained(b"blob 1\0"));
    assert_eq!(Err(ErrorKind::TrailingData), drained(b"blob 2\0abc"));
    assert_eq!(Err(ErrorKind::TrailingData), drained(b"blob 0\0a"));
}

#[test]
fn failed_drain_keeps_what_was_copied() {
    let mut body = b">".to_vec();
    let failed = decode(b"blob 2\0abc").unwrap().drain_into_writer_raw(&mut body).unwrap_err();
    assert_eq!(ErrorKind::TrailingData, failed.kind);
    assert_eq!(b">ab".to_vec(), body);
    let mut body = b">".to_vec();
    let failed = decode(b"blob 5\0abc").unwrap().drain_into_writer_raw(&mut body).unwrap_err();
    assert_eq!(ErrorKind::SizeMismatch, failed.kind);
    assert_eq!(b">abc".to_vec(), body);
    assert_eq!(
        format!(".git/objects/{}/{}", &NAME[..2], &NAME[2..]).as_bytes(),
        failed.subject.as_slice()
    );
}

#[test]
fn body_as_text_takes_each_byte_as_a_character() {
    let (_, _, _, text) =
        decode(b"blob 4\0a\xe9\x00\xff").unwrap().destruct_into_string().unwrap();
    assert_eq!("a\u{e9}\u{0}\u{ff}", text);
    assert!(decode(b"blob 5\0abc").unwrap().destruct_into_string().is_err());
}

#[test]
fn destruct_hands_out_the_reader_at_the_body() {
    let (file_path, object_type, size, mut reader) = decode(b"commit 9\0abc").unwrap().destruct();
    assert_eq!(format!(".git/objects/{}/{}", &NAME[..2], &NAME[2..]), file_path);
    assert_eq!(ObjectType::Commit, object_type);
    assert_eq!(9, size);
    assert_eq!(b"abc".to_vec(), reader.read_until(0, 10));
    assert!(reader.is_exhausted());
}

#[test]
fn header_readers_stop_after_the_delimiter() {
    let mut reader = ByteReader::new(b"tree 12\0rest".to_vec());
    assert_eq!(ObjectType::Tree, read_object_type(&mut reader, "p").unwrap());
    assert_eq!(12, read_object_size(&mut reader, "p").unwrap());
    assert_eq!(b"rest".to_vec(), reader.read_until(0, 100));

    let mut reader = ByteReader::new(b"0123456789abc".to_vec());
    let failed = read_object_type(&mut reader, "some/path").unwrap_err();
    assert_eq!(ErrorKind::MalformedHeader, failed.kind);
    assert_eq!(b"some/path".to_vec(), failed.subject);
    assert_eq!(b"abc".to_vec(), reader.read_until(0, 100));
}

#[test]
fn reader_windows() {
    let mut reader = ByteReader::new(b"ab cd ef".to_vec());
    reader.limit(4);
    assert_eq!(b"ab ".to_vec(), reader.read_until(b' ', 10));
    assert_eq!(b"c".to_vec(), reader.read_until(b' ', 10));
    assert_eq!(Vec::<u8>::new(), reader.read_until(b' ', 10));
    assert!(!reader.is_exhausted());
    assert_eq!(None, reader.read_exact(1));
    reader.unlimit();
    assert_eq!(Some(b"d ".to_vec()), reader.read_exact(2));
    assert_eq!(None, reader.read_exact(3));
    assert_eq!(b"e".to_vec(), reader.read_until(b' ', 1));
    let mut rest = Vec::new();
    assert_eq!(1, reader.copy_to(&mut rest));
    assert_eq!(b"f".to_vec(), rest);
    assert!(reader.is_exhausted());
    reader.limit(5);
    assert_eq!(Vec::<u8>::new(), reader.read_until(b' ', 10));
}

#[test]
fn only_a_tree_has_entries() {
    for kind in [ObjectType::Blob, ObjectType::Commit, ObjectType::Tag] {
        let object =
            LazyDecodedObject::new("p".to_string(), kind, 0, ByteReader::new(Vec::new()));
        assert!(TreeObjectIterator::from_decoded_object(object).is_none());
    }
    assert!(TreeObjectIterator::from_decoded_object(decode(b"tree 0\0").unwrap()).is_some());
}

#[test]
fn tree_entries_in_stored_order() {
    let mut body = entry("100644", "z", 0xab);
    body.extend(entry("40000", "a", 0x01));
    body.extend(entry("100755", "m m\n", 0xff));
    body.extend(entry("120000", "l", 0x10));
    let mut tree = tree_of(&body, body.len() as u64);
    let first = tree.next().unwrap().unwrap();
    assert_eq!(ObjectMode::Normal, first.mode);
    assert_eq!(b"z".to_vec(), first.file_name);
    assert_eq!("abababababababababababababababababababab", first.hash);
    let second = tree.next().unwrap().unwrap();
    assert_eq!(ObjectMode::Tree, second.mode);
    assert_eq!(b"a".to_vec(), second.file_name);
    assert_eq!("0101010101010101010101010101010101010101", second.hash);
    let third = tree.next().unwrap().unwrap();
    assert_eq!(ObjectMode::Executable, third.mode);
    assert_eq!(b"m m\n".to_vec(), third.file_name);
    assert_eq!("ffffffffffffffffffffffffffffffffffffffff", third.hash);
    let fourth = tree.parse().unwrap().unwrap();
    assert_eq!(ObjectMode::Symlink, fourth.mode);
    assert!(tree.next().is_none());
    assert!(tree.next().is_none());
    assert!(tree.parse().unwrap().is_none());
}

#[test]
fn empty_tree_has_no_entries() {
    let mut tree = tree_of(b"", 0);
    assert!(tree.next().is_none());
    assert!(tree.next().is_none());
}

fn first_failure(body: &[u8], size: u64) -> (ErrorKind, usize) {
    let mut tree = tree_of(body, size);
    loop {
        match tree.next() {
            Some(Ok(_)) => {},
            Some(Err(e)) => {
                assert_eq!(b"tree/path".to_vec(), e.subject);
                assert!(tree.next().is_none());
                return (e.kind, e.entry);
            },
            None => panic!("ended"),
        }
    }
}

#[test]
fn tree_failures() {
    let good = entry("100644", "a", 1);
    let len = good.len() as u64;
    let after = |bytes: &[u8]| {
        let mut body = good.clone();
        body.extend_from_slice(bytes);
        body
    };
    assert_eq!((ErrorKind::ParseTruncated, 2), first_failure(&after(b"x"), len));
    assert_eq!((ErrorKind::ParseTruncated, 1), first_failure(&good, len - 1));
    assert_eq!((ErrorKind::ParseTruncated, 1), first_failure(&good[..good.len() - 1], len));
    assert_eq!((ErrorKind::ParseTruncated, 2), first_failure(&after(b"100644"), len + 6));
    assert_eq!((ErrorKind::ParseTruncated, 2), first_failure(&after(b"1006440000 a\0"), len + 40));
    assert_eq!((ErrorKind::EmptyNameOrMode, 2), first_failure(&after(b" a\0"), len + 40));
    assert_eq!((ErrorKind::UnknownMode, 2), first_failure(&after(b"100645 a\0"), len + 40));
    assert_eq!((ErrorKind::UnknownMode, 2), first_failure(&after(b"10064x a\0"), len + 40));
    assert_eq!((ErrorKind::UnknownMode, 1), first_failure(b"999999999 a\0", 40));
    assert_eq!((ErrorKind::ParseTruncated, 2), first_failure(&after(b"100644 "), len + 7));
    assert_eq!((ErrorKind::ParseTruncated, 2), first_failure(&after(b"100644 abc"), len + 10));
    assert_eq!((ErrorKind::EmptyNameOrMode, 2), first_failure(&after(b"100644 \0"), len + 40));
    assert_eq!((ErrorKind::ParseTruncated, 2), first_failure(&after(b"100644 a\0"), len + 9));
    assert_eq!(
        (ErrorKind::ParseTruncated, 2),
        first_failure(&after(b"100644 a\x000123456789012345678"), len + 28)
    );
    assert_eq!(
        (ErrorKind::ParseTruncated, 2),
        first_failure(&after(&entry("100644", "b", 2)), 2 * len - 1)
    );
}

#[test]
fn a_tree_cut_between_entries_ends_there() {
    let good = entry("100644", "a", 1);
    let mut tree = tree_of(&good, good.len() as u64 + 30);
    assert!(tree.next().unwrap().is_ok());
    assert!(tree.next().is_none());
}

#[test]
fn modes_are_read_as_numbers() {
    let mut tree = tree_of(&entry("040000", "a", 1), 100);
    assert_eq!(ObjectMode::Tree, tree.next().unwrap().unwrap().mode);
    let mut tree = tree_of(&entry("+100644", "a", 1), 100);
    assert_eq!(ObjectMode::Normal, tree.next().unwrap().unwrap().mode);
}
