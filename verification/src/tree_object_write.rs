//! Turning a directory into a tree object: which entries it has, in which
//! order they stand, and what the tree's bytes are.

use vstd::prelude::*;
use vstd::utf8::*;
use std::cmp::Ordering;
use vstd::pervasive::unreached;
use vstd::slice::slice_to_vec;
use crate::codec::{hex_bytes, hex_decode, hex_text, hex_value, is_hex_text, sha1_digest};
use crate::common::{
    object_path, Error, ErrorKind, ObjectMode, ObjectType, TreeItem, TreeItemView, GIT_PATH,
    MAX_OBJECT_SIZE,
};
use crate::object_read::{find_and_decode, DecodedView};
use crate::object_write::{hash_blob, hash_object, hashed_object, object_bytes};
use crate::store::{FileView, ObjectStore};
use crate::text::{append_bytes, bytes_eq, decimal, decimal_bytes};
use crate::tree_laws::{law_tree_round_trip, readable_item};
use crate::tree_object_read::{entries, TreeReadView};

verus! {

/// What a name in a directory stands for.
#[derive(Copy, Clone, Debug, PartialEq, Eq, Structural)]
pub enum FileKind {
    Directory,
    File,
    Symlink,
    /// Neither a file nor a directory nor a symbolic link.
    Other,
}

/// One name in a directory, with what the file system says of it.
#[derive(Debug)]
pub struct DirEntry {
    /// The last part of the path.
    pub name: Vec<u8>,
    pub kind: FileKind,
    /// The permission bits, for a file.
    pub permissions: u32,
    /// The length that the file system declares, for a file.
    pub size: u64,
    /// What was read from the file.
    pub content: Vec<u8>,
    /// What the directory holds, for a directory, in the order of its
    /// listing.
    pub children: Vec<DirEntry>,
}

/// How one entry stands to another in a tree.
#[derive(Copy, Clone, Debug, PartialEq, Eq, Structural)]
pub enum Place {
    Before,
    Same,
    After,
}

/// The byte of a name at `at`. Past its end a name goes on with `/` where it
/// is the name of a subtree, with a zero byte where it is not.
pub open spec fn byte_at(name: Seq<u8>, is_tree: bool, at: int) -> u8 {
    if at < name.len() {
        name[at]
    } else if is_tree {
        47
    } else {
        0
    }
}

/// The first index, not beyond the shorter of the two names, at which they
/// differ, or the length of the shorter where one begins with the other.
pub open spec fn first_difference(left: Seq<u8>, right: Seq<u8>) -> int
    decreases left.len(),
{
    if left.len() == 0 || right.len() == 0 || left[0] != right[0] {
        0
    } else {
        1 + first_difference(left.skip(1), right.skip(1))
    }
}

/// How the entry `left` stands to the entry `right`: by the bytes at the
/// first index where their names differ, and, where one name begins with the
/// other, by the bytes at the end of the shorter.
pub open spec fn entry_order(
    left: Seq<u8>,
    left_is_tree: bool,
    right: Seq<u8>,
    right_is_tree: bool,
) -> Place {
    let at = first_difference(left, right);
    let left_next = byte_at(left, left_is_tree, at);
    let right_next = byte_at(right, right_is_tree, at);
    if left_next < right_next {
        Place::Before
    } else if left_next == right_next {
        Place::Same
    } else {
        Place::After
    }
}

/// `first_difference` is an index at which the names differ or one of them
/// ends, and before which they agree.
pub proof fn lemma_first_difference(left: Seq<u8>, right: Seq<u8>)
    ensures
        0 <= first_difference(left, right) <= left.len(),
        first_difference(left, right) <= right.len(),
        forall|i: int| 0 <= i < first_difference(left, right) ==> left[i] == right[i],
        first_difference(left, right) < left.len() && first_difference(left, right) < right.len()
            ==> left[first_difference(left, right)] != right[first_difference(left, right)],
        first_difference(left, right) == first_difference(right, left),
    decreases left.len(),
{
    if !(left.len() == 0 || right.len() == 0 || left[0] != right[0]) {
        lemma_first_difference(left.skip(1), right.skip(1));
        assert forall|i: int| 0 <= i < first_difference(left, right) implies left[i]
            == right[i] by {
            if i > 0 {
                assert(left.skip(1)[i - 1] == right.skip(1)[i - 1]);
            }
        }
    }
}

/// How the entry `left` stands to the entry `right` in a tree.
pub fn compare_entries(left: &[u8], left_is_tree: bool, right: &[u8], right_is_tree: bool) -> (res:
    Place)
    ensures
        res == entry_order(left@, left_is_tree, right@, right_is_tree),
{
    let common_len = if left.len() < right.len() {
        left.len()
    } else {
        right.len()
    };
    let mut at: usize = 0;
    assert(left@.skip(0) == left@ && right@.skip(0) == right@);
    while at < common_len && left[at] == right[at]
        invariant
            at <= common_len,
            common_len <= left@.len(),
            common_len <= right@.len(),
            first_difference(left@, right@) == at + first_difference(
                left@.skip(at as int),
                right@.skip(at as int),
            ),
        decreases common_len - at,
    {
        assert(left@.skip(at as int).skip(1) == left@.skip(at + 1));
        assert(right@.skip(at as int).skip(1) == right@.skip(at + 1));
        at += 1;
    }
    let left_next: u8 = if at < left.len() {
        left[at]
    } else if left_is_tree {
        47
    } else {
        0
    };
    let right_next: u8 = if at < right.len() {
        right[at]
    } else if right_is_tree {
        47
    } else {
        0
    };
    if left_next < right_next {
        Place::Before
    } else if left_next == right_next {
        Place::Same
    } else {
        Place::After
    }
}

/// How the entry `left` stands to the entry `right` in a tree: each is a name
/// and a mode.
pub fn entry_sort(left: (&[u8], ObjectMode), right: (&[u8], ObjectMode)) -> (res: Ordering)
    ensures
        match entry_order(left.0@, left.1 is Tree, right.0@, right.1 is Tree) {
            Place::Before => res == Ordering::Less,
            Place::Same => res == Ordering::Equal,
            Place::After => res == Ordering::Greater,
        },
{
    let left_is_tree = match left.1 {
        ObjectMode::Tree => true,
        _ => false,
    };
    let right_is_tree = match right.1 {
        ObjectMode::Tree => true,
        _ => false,
    };
    match compare_entries(left.0, left_is_tree, right.0, right_is_tree) {
        Place::Before => Ordering::Less,
        Place::Same => Ordering::Equal,
        Place::After => Ordering::Greater,
    }
}

/// The mode that an entry of a directory gets in a tree, `None` for the
/// repository's own directory, which no tree holds.
pub open spec fn entry_mode(entry: DirEntry) -> Result<Option<ObjectMode>, ErrorKind> {
    if entry.kind is Symlink {
        Err(ErrorKind::UnimplementedSymlink)
    } else if entry.name@ == encode_utf8(GIT_PATH@) {
        Ok(None)
    } else if entry.kind is Directory {
        Ok(Some(ObjectMode::Tree))
    } else if entry.kind is File {
        if entry.permissions & 0o111 != 0 {
            Ok(Some(ObjectMode::Executable))
        } else {
            Ok(Some(ObjectMode::Normal))
        }
    } else {
        Err(ErrorKind::UnsupportedFile)
    }
}

/// The entries of a directory that a tree can hold, each by its place in the
/// listing and with its mode, in the order of the listing. Fails at the
/// first entry that has no mode.
pub open spec fn classified(dir: Seq<DirEntry>) -> Result<Seq<(usize, ObjectMode)>, ErrorKind>
    decreases dir.len(),
{
    if dir.len() == 0 {
        Ok(Seq::empty())
    } else {
        match classified(dir.drop_last()) {
            Err(kind) => Err(kind),
            Ok(list) => match entry_mode(dir.last()) {
                Err(kind) => Err(kind),
                Ok(None) => Ok(list),
                Ok(Some(mode)) => Ok(list.push(((dir.len() - 1) as usize, mode))),
            },
        }
    }
}

/// How two entries of the directory `dir` stand to each other in a tree.
pub open spec fn place_of(dir: Seq<DirEntry>, left: (usize, ObjectMode), right: (
    usize,
    ObjectMode,
)) -> Place {
    entry_order(
        dir[left.0 as int].name@,
        left.1 is Tree,
        dir[right.0 as int].name@,
        right.1 is Tree,
    )
}

/// Where `entry` goes into `sorted`: before the first entry that stands
/// after it, or at the end.
pub open spec fn insert_point(
    dir: Seq<DirEntry>,
    sorted: Seq<(usize, ObjectMode)>,
    entry: (usize, ObjectMode),
) -> int
    decreases sorted.len(),
{
    if sorted.len() == 0 {
        0
    } else if place_of(dir, sorted[0], entry) is After {
        0
    } else {
        1 + insert_point(dir, sorted.skip(1), entry)
    }
}

/// The entries `list` in the order of a tree: each one, in turn, goes in
/// before the first that stands after it.
pub open spec fn sorted_entries(dir: Seq<DirEntry>, list: Seq<(usize, ObjectMode)>) -> Seq<
    (usize, ObjectMode),
>
    decreases list.len(),
{
    if list.len() == 0 {
        Seq::empty()
    } else {
        let sorted = sorted_entries(dir, list.drop_last());
        sorted.insert(insert_point(dir, sorted, list.last()), list.last())
    }
}

/// The bytes of one entry of a tree: the mode in decimal, a space, the name,
/// a zero byte and the 20 bytes of the hash.
pub open spec fn entry_bytes(item: TreeItemView) -> Seq<u8> {
    decimal(item.mode.spec_code()) + seq![32u8] + item.file_name + seq![0u8] + hex_bytes(item.hash)
}

/// The body of the tree with the entries `items`.
pub open spec fn tree_body(items: Seq<TreeItemView>) -> Seq<u8>
    decreases items.len(),
{
    if items.len() == 0 {
        Seq::empty()
    } else {
        tree_body(items.drop_last()) + entry_bytes(items.last())
    }
}

/// The name of the first entry of a listing that has no mode: what the
/// failure of the listing is about. Empty where every entry has one.
pub open spec fn classified_subject(dir: Seq<DirEntry>) -> Seq<u8>
    decreases dir.len(),
{
    if dir.len() == 0 {
        Seq::empty()
    } else if classified(dir.drop_last()) is Err {
        classified_subject(dir.drop_last())
    } else if entry_mode(dir.last()) is Err {
        dir.last().name@
    } else {
        Seq::empty()
    }
}

/// What hashing the directory `dir` gives, the files of the store after it,
/// and what a failure is about: the hash of its tree, or `None` where the
/// tree would be empty.
pub open spec fn tree_outcome(files: Seq<FileView>, dir: Seq<DirEntry>, write_files: bool) -> (
    Result<Option<Seq<char>>, ErrorKind>,
    Seq<FileView>,
    Seq<u8>,
)
    decreases dir, 1nat, 0nat,
{
    match classified(dir) {
        Err(kind) => (Err(kind), files, classified_subject(dir)),
        Ok(list) => {
            let order = sorted_entries(dir, list);
            let (items, after, subject) = items_outcome(
                files,
                dir,
                order,
                order.len(),
                write_files,
            );
            match items {
                Err(kind) => (Err(kind), after, subject),
                Ok(items) => {
                    let body = tree_body(items);
                    if body.len() == 0 {
                        (Ok(None), after, Seq::empty())
                    } else {
                        let (hash, last) = hashed_object(
                            after,
                            ObjectType::Tree,
                            body.len() as u64,
                            body,
                            write_files,
                        );
                        match hash {
                            Err(kind) => (Err(kind), last, Seq::empty()),
                            Ok(hash) => (Ok(Some(hash)), last, Seq::empty()),
                        }
                    }
                },
            }
        },
    }
}

/// The tree entries for the first `count` entries of `order`, the files of
/// the store after them, and what a failure is about. An entry whose tree
/// would be empty gives none. Stops at the first that fails.
pub open spec fn items_outcome(
    files: Seq<FileView>,
    dir: Seq<DirEntry>,
    order: Seq<(usize, ObjectMode)>,
    count: nat,
    write_files: bool,
) -> (Result<Seq<TreeItemView>, ErrorKind>, Seq<FileView>, Seq<u8>)
    decreases dir, 0nat, count,
{
    if count == 0 || count > order.len() {
        (Ok(Seq::empty()), files, Seq::empty())
    } else {
        let (items, after, subject) = items_outcome(
            files,
            dir,
            order,
            (count - 1) as nat,
            write_files,
        );
        let (index, mode) = order[count - 1];
        match items {
            Err(kind) => (Err(kind), after, subject),
            Ok(items) => if index < dir.len() {
                let (item, last, about) = entry_outcome(
                    after,
                    dir[index as int],
                    mode,
                    write_files,
                );
                match item {
                    Err(kind) => (Err(kind), last, about),
                    Ok(None) => (Ok(items), last, Seq::empty()),
                    Ok(Some(item)) => (Ok(items.push(item)), last, Seq::empty()),
                }
            } else {
                (Ok(items), after, Seq::empty())
            },
        }
    }
}

/// The tree entry for one entry of a directory, the files of the store after
/// it, and what a failure is about: the hash of a file's content as a blob,
/// or of a directory's tree, under the entry's name. `None` for a directory
/// whose tree would be empty.
pub open spec fn entry_outcome(
    files: Seq<FileView>,
    entry: DirEntry,
    mode: ObjectMode,
    write_files: bool,
) -> (Result<Option<TreeItemView>, ErrorKind>, Seq<FileView>, Seq<u8>)
    decreases entry, 0nat, 0nat,
{
    match mode {
        ObjectMode::Tree => {
            let (hash, after, subject) = tree_outcome(files, entry.children@, write_files);
            match hash {
                Err(kind) => (Err(kind), after, subject),
                Ok(None) => (Ok(None), after, Seq::empty()),
                Ok(Some(hash)) => (
                    Ok(Some(TreeItemView { mode, file_name: entry.name@, hash })),
                    after,
                    Seq::empty(),
                ),
            }
        },
        ObjectMode::Symlink => (Err(ErrorKind::UnimplementedSymlink), files, entry.name@),
        _ => {
            let (hash, after) = hashed_object(
                files,
                ObjectType::Blob,
                entry.size,
                entry.content@,
                write_files,
            );
            match hash {
                Err(kind) => (Err(kind), after, entry.name@),
                Ok(hash) => (
                    Ok(Some(TreeItemView { mode, file_name: entry.name@, hash })),
                    after,
                    Seq::empty(),
                ),
            }
        },
    }
}

/// The entries of the tree of the directory `dir`, in their order. None
/// where hashing the directory fails.
pub open spec fn tree_items(files: Seq<FileView>, dir: Seq<DirEntry>, write_files: bool) -> Seq<
    TreeItemView,
> {
    match classified(dir) {
        Err(_) => Seq::empty(),
        Ok(list) => {
            let order = sorted_entries(dir, list);
            match items_outcome(files, dir, order, order.len(), write_files).0 {
                Err(_) => Seq::empty(),
                Ok(items) => items,
            }
        },
    }
}

/// Whether every name of a listing can stand in a tree: none is empty and
/// none holds a zero byte.
pub open spec fn names_fit(dir: Seq<DirEntry>) -> bool {
    forall|i: int|
        0 <= i < dir.len() ==> 0 < (#[trigger] dir[i]).name@.len() < u64::MAX && forall|j: int|
            0 <= j < dir[i].name@.len() ==> dir[i].name@[j] != 0
}

/// What reading the tree at `file_path` with the body `body` starts from.
pub open spec fn tree_to_read(file_path: Seq<char>, body: Seq<u8>) -> TreeReadView {
    TreeReadView {
        file_path,
        size: body.len() as u64,
        rest: Some(body),
        left: body.len() as u64 as nat,
        entry_no: 0,
    }
}

/// Hexadecimal text made from bytes is hexadecimal text, and it stands for
/// those bytes.
pub proof fn lemma_hex_round_trip(data: Seq<u8>)
    ensures
        is_hex_text(hex_text(data)),
        hex_bytes(hex_text(data)) == data,
{
    let text = hex_text(data);
    assert forall|i: int| 0 <= i < text.len() implies (#[trigger] hex_value(text[i])) is Some by {
        let v = if i % 2 == 0 {
            data[i / 2] as int / 16
        } else {
            data[i / 2] as int % 16
        };
        assert(0 <= v < 16);
    }
    assert forall|i: int| 0 <= i < data.len() implies hex_bytes(text)[i] == data[i] by {
        let high = data[i] as int / 16;
        let low = data[i] as int % 16;
        assert(text[2 * i] == crate::codec::hex_digit(high));
        assert(text[2 * i + 1] == crate::codec::hex_digit(low));
        assert(hex_value(text[2 * i]) == Some(high));
        assert(hex_value(text[2 * i + 1]) == Some(low));
    }
    assert(hex_bytes(text) =~= data);
}

/// Once an entry has failed, the entries after it change nothing.
pub proof fn lemma_items_outcome_failed(
    files: Seq<FileView>,
    dir: Seq<DirEntry>,
    order: Seq<(usize, ObjectMode)>,
    count: nat,
    later: nat,
    write_files: bool,
)
    requires
        count <= later <= order.len(),
        items_outcome(files, dir, order, count, write_files).0 is Err,
    ensures
        items_outcome(files, dir, order, later, write_files) == items_outcome(
            files,
            dir,
            order,
            count,
            write_files,
        ),
    decreases later,
{
    if count < later {
        lemma_items_outcome_failed(files, dir, order, count, (later - 1) as nat, write_files);
    }
}

/// Once an entry of a listing has no mode, the listing has no entries for a
/// tree, however it goes on.
pub proof fn lemma_classified_failed(dir: Seq<DirEntry>, count: int)
    requires
        0 <= count <= dir.len(),
        classified(dir.take(count)) is Err,
    ensures
        classified(dir) == classified(dir.take(count)),
        classified_subject(dir) == classified_subject(dir.take(count)),
    decreases dir.len() - count,
{
    if count < dir.len() {
        assert(dir.take(count + 1).drop_last() == dir.take(count));
        lemma_classified_failed(dir, count + 1);
    } else {
        assert(dir.take(count) == dir);
    }
}

/// The mode that an entry of a directory gets in a tree, `None` for the
/// repository's own directory.
pub fn classify_entry(entry: &DirEntry) -> (res: Result<Option<ObjectMode>, Error>)
    ensures
        match entry_mode(*entry) {
            Ok(mode) => res matches Ok(found) && found == mode,
            Err(kind) => res matches Err(e) && e.kind == kind && e.subject@ == entry.name@
                && e.entry == 0,
        },
{
    match entry.kind {
        FileKind::Symlink => {
            return Err(
                Error {
                    kind: ErrorKind::UnimplementedSymlink,
                    subject: slice_to_vec(entry.name.as_slice()),
                    entry: 0,
                },
            );
        },
        _ => {},
    }
    if bytes_eq(entry.name.as_slice(), GIT_PATH.as_bytes()) {
        return Ok(None);
    }
    match entry.kind {
        FileKind::Directory => Ok(Some(ObjectMode::Tree)),
        FileKind::File => {
            if entry.permissions & 0o111 != 0 {
                Ok(Some(ObjectMode::Executable))
            } else {
                Ok(Some(ObjectMode::Normal))
            }
        },
        _ => Err(
            Error {
                kind: ErrorKind::UnsupportedFile,
                subject: slice_to_vec(entry.name.as_slice()),
                entry: 0,
            },
        ),
    }
}

/// Whether the entry `left` of the directory `dir` stands after the entry
/// `right` in a tree.
pub fn is_after(dir: &Vec<DirEntry>, left: (usize, ObjectMode), right: (usize, ObjectMode)) -> (res:
    bool)
    requires
        left.0 < dir@.len(),
        right.0 < dir@.len(),
    ensures
        res == (place_of(dir@, left, right) is After),
{
    match entry_sort(
        (dir[left.0].name.as_slice(), left.1),
        (dir[right.0].name.as_slice(), right.1),
    ) {
        Ordering::Greater => true,
        _ => false,
    }
}

/// The entries of a directory that a tree can hold, each by its place in the
/// listing and with its mode, in the order in which a tree holds them.
pub fn get_dir_entries_sorted(dir: &Vec<DirEntry>) -> (res: Result<Vec<(usize, ObjectMode)>, Error>)
    ensures
        match classified(dir@) {
            Ok(list) => res matches Ok(found) && found@ == sorted_entries(dir@, list) && forall|
                i: int,
            |
                0 <= i < found@.len() ==> (#[trigger] found@[i]).0 < dir@.len(),
            Err(kind) => res matches Err(e) && e.kind == kind && e.subject@ == classified_subject(
                dir@,
            ) && e.entry == 0,
        },
{
    let mut files: Vec<(usize, ObjectMode)> = Vec::new();
    let ghost list: Seq<(usize, ObjectMode)> = Seq::empty();
    let mut i: usize = 0;
    assert(dir@.take(0) =~= Seq::<DirEntry>::empty());
    while i < dir.len()
        invariant
            i <= dir@.len(),
            classified(dir@.take(i as int)) == Ok::<Seq<(usize, ObjectMode)>, ErrorKind>(list),
            files@ == sorted_entries(dir@, list),
            forall|k: int| 0 <= k < files@.len() ==> (#[trigger] files@[k]).0 < i,
        decreases dir@.len() - i,
    {
        let entry = &dir[i];
        proof {
            let next = dir@.take(i + 1);
            assert(next.drop_last() == dir@.take(i as int));
            assert(next.last() == dir@[i as int]);
            if i + 1 == dir@.len() {
                assert(next == dir@);
            }
        }
        let mode = match classify_entry(entry) {
            Ok(mode) => mode,
            Err(e) => {
                proof {
                    lemma_classified_failed(dir@, i + 1);
                }
                return Err(e);
            },
        };
        match mode {
            Some(mode) => {
                let item = (i, mode);
                let mut at: usize = 0;
                assert(files@.skip(0) == files@);
                while at < files.len() && !is_after(dir, files[at], item)
                    invariant
                        at <= files@.len(),
                        i < dir@.len(),
                        item.0 == i,
                        forall|k: int| 0 <= k < files@.len() ==> (#[trigger] files@[k]).0 < i,
                        insert_point(dir@, files@, item) == at + insert_point(
                            dir@,
                            files@.skip(at as int),
                            item,
                        ),
                    decreases files@.len() - at,
                {
                    assert(files@.skip(at as int).skip(1) == files@.skip(at + 1));
                    at += 1;
                }
                let ghost before = files@;
                proof {
                    assert(list.push(item).drop_last() == list);
                    list = list.push(item);
                }
                files.insert(at, item);
                assert forall|k: int| 0 <= k < files@.len() implies (#[trigger] files@[k]).0 < i
                    + 1 by {
                    if k > at {
                        assert(files@[k] == before[k - 1]);
                    } else if k < at {
                        assert(files@[k] == before[k]);
                    }
                }
            },
            None => {},
        }
        i += 1;
    }
    assert(dir@.take(i as int) == dir@);
    Ok(files)
}

/// The tree entry for one entry of a directory: its content is hashed as a
/// blob, or what it holds as a tree. Gives `None` for a directory whose tree
/// would be empty.
pub fn get_tree_item(
    store: &mut ObjectStore,
    entry: &DirEntry,
    mode: ObjectMode,
    write_files: bool,
) -> (res: Result<Option<TreeItem>, Error>)
    ensures
        final(store)@ == entry_outcome(old(store)@, *entry, mode, write_files).1,
        old(store).wf() ==> final(store).wf(),
        match entry_outcome(old(store)@, *entry, mode, write_files).0 {
            Ok(Some(item)) => res matches Ok(Some(found)) && found@ == item && item.hash.len() == 40
                && is_hex_text(item.hash) && hex_text(hex_bytes(item.hash)) == item.hash,
            Ok(None) => res matches Ok(None),
            Err(kind) => res matches Err(e) && e.kind == kind && e.subject@ == entry_outcome(
                old(store)@,
                *entry,
                mode,
                write_files,
            ).2 && e.entry == 0,
        },
    decreases entry,
{
    let hash = match mode {
        ObjectMode::Tree => match hash_tree(store, &entry.children, write_files) {
            Ok(hash) => hash,
            Err(e) => return Err(e),
        },
        ObjectMode::Normal | ObjectMode::Executable => match hash_blob(
            store,
            entry.content.as_slice(),
            entry.size,
            write_files,
        ) {
            Ok(hash) => {
                proof {
                    lemma_hex_round_trip(
                        sha1_digest(object_bytes(ObjectType::Blob, entry.size, entry.content@)),
                    );
                }
                Some(hash)
            },
            Err(e) => return Err(
                Error { kind: e.kind, subject: slice_to_vec(entry.name.as_slice()), entry: 0 },
            ),
        },
        ObjectMode::Symlink => {
            return Err(
                Error {
                    kind: ErrorKind::UnimplementedSymlink,
                    subject: slice_to_vec(entry.name.as_slice()),
                    entry: 0,
                },
            );
        },
    };
    let hash = match hash {
        Some(hash) => hash,
        None => return Ok(None),
    };
    let file_name = slice_to_vec(entry.name.as_slice());
    let tree_item = TreeItem { mode, file_name, hash };
    Ok(Some(tree_item))
}

/// Hashes the directory `dir` as a tree, its files as blobs and its
/// directories as trees, and writes them to the store where `write_files` is
/// set. Gives `None`, and writes no tree, where the directory holds no file,
/// directly or below it.
pub fn hash_tree(store: &mut ObjectStore, dir: &Vec<DirEntry>, write_files: bool) -> (res: Result<
    Option<String>,
    Error,
>)
    ensures
        final(store)@ == tree_outcome(old(store)@, dir@, write_files).1,
        old(store).wf() ==> final(store).wf(),
        match tree_outcome(old(store)@, dir@, write_files).0 {
            Ok(Some(hash)) => res matches Ok(Some(found)) && found@ == hash && hash.len() == 40
                && is_hex_text(hash) && hex_text(hex_bytes(hash)) == hash,
            Ok(None) => res matches Ok(None),
            Err(kind) => res matches Err(e) && e.kind == kind && e.subject@ == tree_outcome(
                old(store)@,
                dir@,
                write_files,
            ).2 && e.entry == 0,
        },
        write_files && old(store).wf() && names_fit(dir@) && tree_body(
            tree_items(old(store)@, dir@, write_files),
        ).len() <= MAX_OBJECT_SIZE ==> (res matches Ok(Some(hash)) ==> {
            let items = tree_items(old(store)@, dir@, write_files);
            let file_path = object_path(hash@.take(2), hash@.skip(2));
            &&& find_and_decode(final(store)@, encode_utf8(hash@)) == Ok::<DecodedView, ErrorKind>(
                DecodedView {
                    file_path,
                    object_type: ObjectType::Tree,
                    size: tree_body(items).len() as u64,
                    body: tree_body(items),
                },
            )
            &&& entries(tree_to_read(file_path, tree_body(items))).0 == items
            &&& entries(tree_to_read(file_path, tree_body(items))).1 == Ok::<(), ErrorKind>(())
        }),
    decreases dir,
{
    let dir_entries = match get_dir_entries_sorted(dir) {
        Ok(dir_entries) => dir_entries,
        Err(e) => return Err(e),
    };
    let ghost order = dir_entries@;
    let ghost items: Seq<TreeItemView> = Seq::empty();
    let mut tree_data: Vec<u8> = Vec::new();
    let mut next: usize = 0;
    while next < dir_entries.len()
        invariant
            next <= order.len(),
            order == dir_entries@,
            classified(dir@) matches Ok(list) && order == sorted_entries(dir@, list),
            forall|i: int| 0 <= i < order.len() ==> (#[trigger] order[i]).0 < dir@.len(),
            items_outcome(old(store)@, dir@, order, next as nat, write_files) == (
                Ok::<Seq<TreeItemView>, ErrorKind>(items),
                store@,
                Seq::<u8>::empty(),
            ),
            old(store).wf() ==> store.wf(),
            tree_data@ == tree_body(items),
            items.len() > 0 ==> tree_data@.len() > 0,
            names_fit(dir@) ==> forall|k: int|
                0 <= k < items.len() ==> readable_item(#[trigger] items[k]),
        decreases order.len() - next,
    {
        let (index, mode) = dir_entries[next];
        assert(order[next as int].0 < dir@.len());
        let tree_item = match get_tree_item(store, &dir[index], mode, write_files) {
            Ok(tree_item) => tree_item,
            Err(e) => {
                proof {
                    lemma_items_outcome_failed(
                        old(store)@,
                        dir@,
                        order,
                        (next + 1) as nat,
                        order.len(),
                        write_files,
                    );
                }
                return Err(e);
            },
        };
        match tree_item {
            Some(tree_item) => {
                let hex = match hex_decode(tree_item.hash.as_str()) {
                    Ok(hex) => hex,
                    Err(_) => unreached(),
                };
                let digits = decimal_bytes(tree_item.mode.code() as u64);
                append_bytes(&mut tree_data, digits.as_slice());
                tree_data.push(32);
                append_bytes(&mut tree_data, tree_item.file_name.as_slice());
                tree_data.push(0);
                append_bytes(&mut tree_data, hex.as_slice());
                proof {
                    let pushed = items.push(tree_item@);
                    assert(pushed.drop_last() == items);
                    assert(tree_data@ =~= tree_body(items) + entry_bytes(tree_item@));
                    if names_fit(dir@) {
                        assert(tree_item@.file_name == dir@[index as int].name@);
                        assert forall|k: int| 0 <= k < pushed.len() implies readable_item(
                            #[trigger] pushed[k],
                        ) by {
                            if k < items.len() {
                                assert(pushed[k] == items[k]);
                            }
                        }
                    }
                    items = pushed;
                }
            },
            None => {},
        }
        next += 1;
    }
    let tree_data_len = tree_data.len();
    if tree_data_len == 0 {
        return Ok(None);
    }
    match hash_object(
        store,
        tree_data.as_slice(),
        ObjectType::Tree,
        tree_data_len as u64,
        write_files,
    ) {
        Ok(hash) => {
            proof {
                lemma_hex_round_trip(
                    sha1_digest(
                        object_bytes(ObjectType::Tree, tree_data_len as u64, tree_data@),
                    ),
                );
                if names_fit(dir@) {
                    law_tree_round_trip(
                        tree_to_read(object_path(hash@.take(2), hash@.skip(2)), tree_data@),
                        items,
                    );
                }
            }
            Ok(Some(hash))
        },
        Err(e) => Err(e),
    }
}

} // verus!
