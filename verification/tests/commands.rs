use git_objects::commands::{
    cat_file_command, commit_tree_command, hash_object_command, ls_tree_command, show_entry,
    write_tree_command, CatQuery,
};
use git_objects::common::{ErrorKind, ObjectMode, ObjectType, TreeItem};
use git_objects::object_read::{find_and_decode_object, LazyDecodedObject};
use git_objects::object_write::hash_object;
use git_objects::reader::ByteReader;
use git_objects::store::ObjectStore;
use git_objects::tree_object_read::TreeObjectIterator;
use git_objects::tree_object_write::{DirEntry, FileKind};

fn file(name: &str, content: &[u8]) -> DirEntry {
    DirEntry {
        name: name.as_bytes().to_vec(),
        kind: FileKind::File,
        permissions: 0o644,
        size: content.len() as u64,
        content: content.to_vec(),
        children: Vec::new(),
    }
}

fn dir(name: &str, children: Vec<DirEntry>) -> DirEntry {
    DirEntry {
        name: name.as_bytes().to_vec(),
        kind: FileKind::Directory,
        permissions: 0o755,
        size: 0,
        content: Vec::new(),
        children,
    }
}

fn test_repo() -> Vec<DirEntry> {
    vec![
        dir(".git", vec![]),
        dir("data", vec![file("data.txt", b"test1\ntest2\n")]),
        dir("empty", vec![]),
        file("order", b""),
        file("order.txt", b""),
        dir("order_dir", vec![file("empty", b"")]),
        dir("order_dir.dir", vec![file("empty", b"")]),
        file("order_dir.txt", b""),
    ]
}

fn shown(store: &ObjectStore, object: &str, query: CatQuery, force_raw: bool) -> Vec<u8> {
    let mut out = Vec::new();
    cat_file_command(store, object, query, force_raw, &mut out).unwrap();
    out
}

const TREE: &str = "0b70d742c267c707ebd81d8968fc2e696a9e2edb";
const BLOB: &str = "bae42c55f9e0a4e297a4d197d8aadfe147ef269b";

#[test]
fn write_tree_gives_the_hash_of_the_root() {
    let mut store = ObjectStore::new();
    assert_eq!(TREE, write_tree_command(&mut store, &test_repo(), false).unwrap());
    assert_eq!(5, store.len());
    let mut store = ObjectStore::new();
    assert_eq!(TREE, write_tree_command(&mut store, &test_repo(), true).unwrap());
    assert_eq!(0, store.len());
}

#[test]
fn write_tree_of_nothing_fails() {
    let mut store = ObjectStore::new();
    let failed = write_tree_command(&mut store, &vec![], false).unwrap_err();
    assert_eq!(ErrorKind::EmptyTree, failed.kind);
    let only_empty = vec![dir(".git", vec![file("x", b"")]), dir("a", vec![dir("b", vec![])])];
    let failed = write_tree_command(&mut store, &only_empty, false).unwrap_err();
    assert_eq!(ErrorKind::EmptyTree, failed.kind);
    assert_eq!(0, store.len());
}

#[test]
fn cat_file_shows_kind_size_and_content() {
    let mut store = ObjectStore::new();
    write_tree_command(&mut store, &test_repo(), false).unwrap();
    assert_eq!(b"blob\n".to_vec(), shown(&store, BLOB, CatQuery::Type, false));
    assert_eq!(b"12\n".to_vec(), shown(&store, BLOB, CatQuery::Size, false));
    assert_eq!(b"test1\ntest2\n".to_vec(), shown(&store, BLOB, CatQuery::Content, false));
    assert_eq!(b"test1\ntest2\n".to_vec(), shown(&store, &BLOB[..6], CatQuery::Content, true));
    assert_eq!(b"tree\n".to_vec(), shown(&store, TREE, CatQuery::Type, false));
    assert_eq!(b"218\n".to_vec(), shown(&store, TREE, CatQuery::Size, true));
}

#[test]
fn cat_file_shows_a_tree_line_by_line() {
    let mut store = ObjectStore::new();
    write_tree_command(&mut store, &test_repo(), false).unwrap();
    let expected = "040000 tree 9f7ac4df44c5f17df5cbe6aff66c257a541544cd\tdata\n\
100644 blob e69de29bb2d1d6434b8b29ae775ad8c2e48c5391\torder\n\
100644 blob e69de29bb2d1d6434b8b29ae775ad8c2e48c5391\torder.txt\n\
040000 tree 417c01c8795a35b8e835113a85a5c0c1c77f67fb\torder_dir.dir\n\
100644 blob e69de29bb2d1d6434b8b29ae775ad8c2e48c5391\torder_dir.txt\n\
040000 tree 417c01c8795a35b8e835113a85a5c0c1c77f67fb\torder_dir\n";
    assert_eq!(expected.as_bytes(), shown(&store, TREE, CatQuery::Content, false).as_slice());

    let raw = shown(&store, TREE, CatQuery::Content, true);
    assert_eq!(218, raw.len());
    assert_eq!(b"40000 data\0".as_slice(), &raw[..11]);

    let mut out = b"> ".to_vec();
    ls_tree_command(&store, TREE, false, &mut out).unwrap();
    assert_eq!(format!("> {expected}").as_bytes(), out.as_slice());
    let mut out = Vec::new();
    ls_tree_command(&store, TREE, true, &mut out).unwrap();
    assert_eq!(b"dataorderorder.txtorder_dir.dirorder_dir.txtorder_dir".to_vec(), out);
}

#[test]
fn listing_something_else_than_a_tree() {
    let mut store = ObjectStore::new();
    write_tree_command(&mut store, &test_repo(), false).unwrap();
    let mut out = Vec::new();
    let failed = ls_tree_command(&store, BLOB, true, &mut out).unwrap_err();
    assert_eq!(ErrorKind::WrongObjectType, failed.kind);
    assert!(out.is_empty());
    ls_tree_command(&store, BLOB, false, &mut out).unwrap();
    assert_eq!(b"test1\ntest2\n".to_vec(), out);
    let failed = ls_tree_command(&store, "ffff", true, &mut out).unwrap_err();
    assert_eq!(ErrorKind::NotFound, failed.kind);
    let failed = cat_file_command(&store, "ff", CatQuery::Type, false, &mut out).unwrap_err();
    assert_eq!(ErrorKind::InvalidHashLength, failed.kind);
}

#[test]
fn a_broken_tree_shows_what_came_before_the_break() {
    let mut store = ObjectStore::new();
    let mut body = b"100755 run\0".to_vec();
    body.extend_from_slice(&[0x12; 20]);
    body.extend_from_slice(b"120000 link\0");
    body.extend_from_slice(&[0x34; 20]);
    body.extend_from_slice(b"100644 cut\0");
    let hash = hash_object(&mut store, &body, ObjectType::Tree, body.len() as u64, true).unwrap();

    let mut out = Vec::new();
    let failed = cat_file_command(&store, &hash, CatQuery::Content, false, &mut out).unwrap_err();
    assert_eq!(ErrorKind::UnimplementedSymlink, failed.kind);
    assert_eq!(2, failed.entry);
    assert_eq!(
        b"100755 blob 1212121212121212121212121212121212121212\trun\n".to_vec(),
        out
    );

    let mut out = Vec::new();
    let failed = ls_tree_command(&store, &hash, true, &mut out).unwrap_err();
    assert_eq!(ErrorKind::ParseTruncated, failed.kind);
    assert_eq!(3, failed.entry);
    assert_eq!(
        format!(".git/objects/{}/{}", &hash[..2], &hash[2..]).as_bytes(),
        failed.subject.as_slice()
    );
    assert_eq!(b"runlink".to_vec(), out);
}

#[test]
fn line_of_an_entry() {
    let item = TreeItem {
        mode: ObjectMode::Tree,
        file_name: b"a b".to_vec(),
        hash: "417c01c8795a35b8e835113a85a5c0c1c77f67fb".to_string(),
    };
    let mut out = Vec::new();
    show_entry(&item, false, 1, "p", &mut out).unwrap();
    assert_eq!(b"040000 tree 417c01c8795a35b8e835113a85a5c0c1c77f67fb\ta b\n".to_vec(), out);
    let mut out = Vec::new();
    show_entry(&item, true, 1, "p", &mut out).unwrap();
    assert_eq!(b"a b".to_vec(), out);

    let link = TreeItem { mode: ObjectMode::Symlink, ..item };
    let failed = show_entry(&link, false, 7, "some/path", &mut out).unwrap_err();
    assert_eq!(ErrorKind::UnimplementedSymlink, failed.kind);
    assert_eq!(7, failed.entry);
    assert_eq!(b"some/path".to_vec(), failed.subject);
    show_entry(&link, true, 7, "some/path", &mut out).unwrap();
    assert_eq!(b"a ba b".to_vec(), out);
}

#[test]
fn hash_object_makes_blobs_only() {
    let mut store = ObjectStore::new();
    let hash =
        hash_object_command(&mut store, b"test1\ntest2\n", 12, ObjectType::Blob, true).unwrap();
    assert_eq!(BLOB, hash);
    assert_eq!(1, store.len());
    for kind in [ObjectType::Tree, ObjectType::Commit, ObjectType::Tag] {
        let failed = hash_object_command(&mut store, b"x", 1, kind, true).unwrap_err();
        assert_eq!(ErrorKind::WrongObjectType, failed.kind);
    }
    assert_eq!(1, store.len());
    let failed = hash_object_command(&mut store, b"x", 2, ObjectType::Blob, true).unwrap_err();
    assert_eq!(ErrorKind::SizeMismatch, failed.kind);
}

#[test]
fn commit_tree_commits_in_the_name_of_the_program() {
    let mut store = ObjectStore::new();
    let tree = write_tree_command(&mut store, &test_repo(), false).unwrap();
    let first =
        commit_tree_command(&mut store, &tree, None, "test message", 1713381411, false).unwrap();
    assert_eq!("810e2b66b9a81b642795d05af640fa4a2f5fe269", first);
    let second = commit_tree_command(
        &mut store,
        &tree[..8],
        Some(&first[..8]),
        "test message",
        1713381411,
        true,
    )
    .unwrap();
    assert_eq!("eed950c7ed93db7ab0e15de6821498e5c9a826f5", second);
    assert!(find_and_decode_object(&store, &first).is_ok());
    assert!(find_and_decode_object(&store, &second).is_err());
    let failed = commit_tree_command(&mut store, &first, None, "m", 1, false).unwrap_err();
    assert_eq!(ErrorKind::WrongObjectType, failed.kind);
    assert_eq!(first.as_bytes(), failed.subject.as_slice());
}

#[test]
fn all_entries_at_once() {
    let mut body = b"100644 a\0".to_vec();
    body.extend_from_slice(&[1; 20]);
    body.extend_from_slice(b"40000 b\0");
    body.extend_from_slice(&[2; 20]);
    let tree = |bytes: &[u8]| {
        TreeObjectIterator::from_decoded_object(LazyDecodedObject::new(
            "p".to_string(),
            ObjectType::Tree,
            bytes.len() as u64,
            ByteReader::new(bytes.to_vec()),
        ))
        .unwrap()
    };
    let mut items = Vec::new();
    let mut entries = tree(&body);
    entries.read_entries(&mut items).unwrap();
    assert_eq!(2, items.len());
    assert_eq!(b"a".to_vec(), items[0].file_name);
    assert_eq!(ObjectMode::Tree, items[1].mode);
    assert_eq!(3, entries.entries_asked());
    assert_eq!("p", entries.tree_path());

    body.extend_from_slice(b"1 c\0");
    let mut items = Vec::new();
    let mut entries = tree(&body);
    let failed = entries.read_entries(&mut items).unwrap_err();
    assert_eq!(ErrorKind::UnknownMode, failed.kind);
    assert_eq!(3, failed.entry);
    assert_eq!(2, items.len());
    assert!(entries.next().is_none());
}
