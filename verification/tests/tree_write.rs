use std::cmp::Ordering;

use git_objects::common::{ErrorKind, ObjectMode, ObjectType, TreeItem};
use git_objects::object_read::find_and_decode_object;
use git_objects::store::ObjectStore;
use git_objects::tree_object_read::TreeObjectIterator;
use git_objects::tree_object_write::{
    classify_entry, compare_entries, entry_sort, get_dir_entries_sorted, get_tree_item,
    hash_tree, DirEntry, FileKind, Place,
};

fn file(name: &str, content: &[u8]) -> DirEntry {
    DirEntry {
        name: name.as_bytes().to_vec(),
        kind: FileKind::File,
        permissions: 0o644,
        size: content.len() as u64,
        content: content.to_vec(),
        children: Vec::new(),
    }
}

fn executable(name: &str, content: &[u8]) -> DirEntry {
    DirEntry { permissions: 0o755, ..file(name, content) }
}

fn dir(name: &str, children: Vec<DirEntry>) -> DirEntry {
    DirEntry {
        name: name.as_bytes().to_vec(),
        kind: FileKind::Directory,
        permissions: 0o755,
        size: 0,
        content: Vec::new(),
        children,
    }
}

fn other(name: &str, kind: FileKind) -> DirEntry {
    DirEntry {
        name: name.as_bytes().to_vec(),
        kind,
        permissions: 0o644,
        size: 0,
        content: Vec::new(),
        children: Vec::new(),
    }
}

fn test_repo() -> Vec<DirEntry> {
    vec![
        dir("order_dir", vec![file("empty", b"")]),
        file("order.txt", b""),
        dir(".git", vec![file("HEAD", b"ref: refs/heads/main\n")]),
        dir("empty", vec![]),
        file("order_dir.txt", b""),
        dir("data", vec![file("data.txt", b"test1\ntest2\n")]),
        dir("order_dir.dir", vec![file("empty", b"")]),
        file("order", b""),
    ]
}

fn names(dir: &Vec<DirEntry>, order: &Vec<(usize, ObjectMode)>) -> Vec<String> {
    order.iter().map(|x| String::from_utf8(dir[x.0].name.clone()).unwrap()).collect()
}

#[test]
fn test_hash_tree() {
    let mut store = ObjectStore::new();
    let hash = hash_tree(&mut store, &vec![dir("nothing", vec![])], true).unwrap();
    assert!(hash.is_none());
    let hash = hash_tree(&mut store, &vec![], true).unwrap();
    assert!(hash.is_none());
    assert_eq!(0, store.len());

    let hash = hash_tree(&mut store, &test_repo(), true).unwrap().unwrap();
    assert_eq!("0b70d742c267c707ebd81d8968fc2e696a9e2edb", hash);

    let read = find_and_decode_object(&store, &hash).unwrap();
    assert_eq!(ObjectType::Tree, read.object_type);
    assert_eq!(218, read.size as usize);
    assert_eq!(".git/objects/0b/70d742c267c707ebd81d8968fc2e696a9e2edb", read.file_path);

    let mut read = TreeObjectIterator::from_decoded_object(read).unwrap();
    let mut tree = Vec::new();
    while let Some(x) = read.next() {
        tree.push(x.unwrap());
    }

    let expected_tree = [
        (ObjectMode::Tree, "data", "9f7ac4df44c5f17df5cbe6aff66c257a541544cd"),
        (ObjectMode::Normal, "order", "e69de29bb2d1d6434b8b29ae775ad8c2e48c5391"),
        (ObjectMode::Normal, "order.txt", "e69de29bb2d1d6434b8b29ae775ad8c2e48c5391"),
        (ObjectMode::Tree, "order_dir.dir", "417c01c8795a35b8e835113a85a5c0c1c77f67fb"),
        (ObjectMode::Normal, "order_dir.txt", "e69de29bb2d1d6434b8b29ae775ad8c2e48c5391"),
        (ObjectMode::Tree, "order_dir", "417c01c8795a35b8e835113a85a5c0c1c77f67fb"),
    ];
    let expected_tree = expected_tree
        .into_iter()
        .map(|x| TreeItem { mode: x.0, file_name: x.1.as_bytes().to_vec(), hash: x.2.to_string() })
        .collect::<Vec<_>>();
    assert_eq!(expected_tree, tree);
}

#[test]
fn tree_writes_every_object_below_it() {
    let mut store = ObjectStore::new();
    hash_tree(&mut store, &test_repo(), true).unwrap().unwrap();
    for hash in [
        "0b70d742c267c707ebd81d8968fc2e696a9e2edb",
        "9f7ac4df44c5f17df5cbe6aff66c257a541544cd",
        "417c01c8795a35b8e835113a85a5c0c1c77f67fb",
        "e69de29bb2d1d6434b8b29ae775ad8c2e48c5391",
        "bae42c55f9e0a4e297a4d197d8aadfe147ef269b",
    ] {
        assert!(find_and_decode_object(&store, hash).is_ok());
    }
    assert_eq!(5, store.len());
}

#[test]
fn tree_hash_without_writing() {
    let mut store = ObjectStore::new();
    let hash = hash_tree(&mut store, &test_repo(), false).unwrap().unwrap();
    assert_eq!("0b70d742c267c707ebd81d8968fc2e696a9e2edb", hash);
    assert_eq!(0, store.len());
}

#[test]
fn tree_does_not_depend_on_the_order_of_the_listing() {
    let mut listing = test_repo();
    listing.reverse();
    let mut store = ObjectStore::new();
    let hash = hash_tree(&mut store, &listing, false).unwrap().unwrap();
    assert_eq!("0b70d742c267c707ebd81d8968fc2e696a9e2edb", hash);
}

#[test]
fn entries_are_sorted_as_paths() {
    let listing = test_repo();
    let order = get_dir_entries_sorted(&listing).unwrap();
    assert_eq!(
        vec!["data", "empty", "order", "order.txt", "order_dir.dir", "order_dir.txt", "order_dir"],
        names(&listing, &order)
    );
    let modes: Vec<ObjectMode> = order.iter().map(|x| x.1).collect();
    assert_eq!(
        vec![
            ObjectMode::Tree,
            ObjectMode::Tree,
            ObjectMode::Normal,
            ObjectMode::Normal,
            ObjectMode::Tree,
            ObjectMode::Normal,
            ObjectMode::Tree,
        ],
        modes
    );
}

#[test]
fn a_directory_sorts_as_if_its_name_ended_in_a_slash() {
    assert_eq!(Place::After, compare_entries(b"order_dir", true, b"order_dir.txt", false));
    assert_eq!(Place::Before, compare_entries(b"order_dir", false, b"order_dir.txt", false));
    assert_eq!(Place::Before, compare_entries(b"order_dir.txt", false, b"order_dir", true));
    assert_eq!(Place::After, compare_entries(b"x", true, b"x", false));
    assert_eq!(Place::Before, compare_entries(b"x", false, b"x", true));
    assert_eq!(Place::Same, compare_entries(b"x", true, b"x", true));
    assert_eq!(Place::Same, compare_entries(b"x", false, b"x", false));
    assert_eq!(Place::Before, compare_entries(b"a", true, b"b", false));
    assert_eq!(Place::After, compare_entries(b"b", false, b"a", true));
    assert_eq!(Place::Before, compare_entries(b"", false, b"a", false));
    assert_eq!(Place::After, compare_entries(b"x0", false, b"x", true));
    assert_eq!(Place::Before, compare_entries(b"x-", false, b"x", true));
    assert_eq!(
        Ordering::Greater,
        entry_sort((b"order_dir", ObjectMode::Tree), (b"order_dir.txt", ObjectMode::Normal))
    );
    assert_eq!(
        Ordering::Less,
        entry_sort((b"order", ObjectMode::Normal), (b"order.txt", ObjectMode::Normal))
    );
    assert_eq!(
        Ordering::Equal,
        entry_sort((b"same", ObjectMode::Executable), (b"same", ObjectMode::Normal))
    );
}

#[test]
fn modes_of_entries() {
    assert_eq!(Some(ObjectMode::Normal), classify_entry(&file("a", b"")).unwrap());
    assert_eq!(Some(ObjectMode::Executable), classify_entry(&executable("a", b"")).unwrap());
    let mut group_only = file("a", b"");
    group_only.permissions = 0o010;
    assert_eq!(Some(ObjectMode::Executable), classify_entry(&group_only).unwrap());
    group_only.permissions = 0o666;
    assert_eq!(Some(ObjectMode::Normal), classify_entry(&group_only).unwrap());
    assert_eq!(Some(ObjectMode::Tree), classify_entry(&dir("a", vec![])).unwrap());
    assert_eq!(None, classify_entry(&dir(".git", vec![])).unwrap());
    assert_eq!(None, classify_entry(&file(".git", b"gitdir: x")).unwrap());
    let link = classify_entry(&other("link", FileKind::Symlink)).unwrap_err();
    assert_eq!(ErrorKind::UnimplementedSymlink, link.kind);
    assert_eq!(b"link".to_vec(), link.subject);
    let link = classify_entry(&other(".git", FileKind::Symlink)).unwrap_err();
    assert_eq!(ErrorKind::UnimplementedSymlink, link.kind);
    let socket = classify_entry(&other("socket", FileKind::Other)).unwrap_err();
    assert_eq!(ErrorKind::UnsupportedFile, socket.kind);
}

#[test]
fn executable_files_get_their_mode() {
    let mut store = ObjectStore::new();
    let listing = vec![executable("run.sh", b"#!/bin/sh\n"), file("a.txt", b"a")];
    let hash = hash_tree(&mut store, &listing, true).unwrap().unwrap();
    let read = find_and_decode_object(&store, &hash).unwrap();
    let mut read = TreeObjectIterator::from_decoded_object(read).unwrap();
    let first = read.next().unwrap().unwrap();
    let second = read.next().unwrap().unwrap();
    assert!(read.next().is_none());
    assert_eq!((ObjectMode::Normal, b"a.txt".to_vec()), (first.mode, first.file_name));
    assert_eq!((ObjectMode::Executable, b"run.sh".to_vec()), (second.mode, second.file_name));
}

#[test]
fn directories_without_files_are_left_out() {
    let mut store = ObjectStore::new();
    let nothing = vec![
        dir("a", vec![dir("b", vec![dir("c", vec![])]), dir("d", vec![])]),
        dir(".git", vec![file("HEAD", b"x")]),
        dir("e", vec![]),
    ];
    assert!(hash_tree(&mut store, &nothing, true).unwrap().is_none());
    assert_eq!(0, store.len());

    let with_file = vec![dir("a", vec![dir("b", vec![])]), file("f", b"")];
    let only_file = vec![file("f", b"")];
    let mut other_store = ObjectStore::new();
    assert_eq!(
        hash_tree(&mut other_store, &only_file, true).unwrap(),
        hash_tree(&mut store, &with_file, true).unwrap()
    );
    assert_eq!(2, store.len());
}

#[test]
fn symbolic_links_fail_before_anything_is_written() {
    let mut store = ObjectStore::new();
    let listing = vec![file("a", b"a"), other("link", FileKind::Symlink)];
    let failed = hash_tree(&mut store, &listing, true).unwrap_err();
    assert_eq!(ErrorKind::UnimplementedSymlink, failed.kind);
    assert_eq!(0, store.len());

    let deep = vec![file("a", b"a"), dir("b", vec![other("link", FileKind::Symlink)])];
    let failed = hash_tree(&mut store, &deep, true).unwrap_err();
    assert_eq!(ErrorKind::UnimplementedSymlink, failed.kind);
    assert_eq!(1, store.len());

    let strange = vec![other("pipe", FileKind::Other)];
    let failed = hash_tree(&mut store, &strange, true).unwrap_err();
    assert_eq!(ErrorKind::UnsupportedFile, failed.kind);
}

#[test]
fn a_file_that_changed_while_it_was_read_fails() {
    let mut store = ObjectStore::new();
    let mut changed = file("a", b"abc");
    changed.size = 5;
    let failed = hash_tree(&mut store, &vec![changed], true).unwrap_err();
    assert_eq!(ErrorKind::SizeMismatch, failed.kind);
}

#[test]
fn tree_item_of_an_entry() {
    let mut store = ObjectStore::new();
    let item = get_tree_item(&mut store, &file("data.txt", b"test1\ntest2\n"), ObjectMode::Normal, false)
        .unwrap()
        .unwrap();
    assert_eq!(ObjectMode::Normal, item.mode);
    assert_eq!(b"data.txt".to_vec(), item.file_name);
    assert_eq!("bae42c55f9e0a4e297a4d197d8aadfe147ef269b", item.hash);
    let item = get_tree_item(
        &mut store,
        &dir("data", vec![file("data.txt", b"test1\ntest2\n")]),
        ObjectMode::Tree,
        false,
    )
    .unwrap()
    .unwrap();
    assert_eq!("9f7ac4df44c5f17df5cbe6aff66c257a541544cd", item.hash);
    assert!(get_tree_item(&mut store, &dir("x", vec![]), ObjectMode::Tree, false).unwrap().is_none());
    let failed =
        get_tree_item(&mut store, &file("x", b""), ObjectMode::Symlink, false).unwrap_err();
    assert_eq!(ErrorKind::UnimplementedSymlink, failed.kind);
}
