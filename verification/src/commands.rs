//! What each command of the program computes, from plain values to plain
//! values: the bytes to print, or the hash of what was made.

use vstd::prelude::*;
use vstd::utf8::*;
use crate::common::{
    Error, ErrorKind, ObjectMode, ObjectType, TreeItem, TreeItemView, COMMIT_AUTHOR, COMMIT_EMAIL,
    COMMIT_TIMEZONE,
};
use crate::object_read::{
    failure_subject, find_and_decode, find_and_decode_object, DecodedView,
};
use crate::object_write::{
    hash_blob, hash_commit, hashed_commit, hashed_commit_subject, hashed_object,
};
use crate::store::{FileView, ObjectStore};
use crate::text::{append_bytes, decimal, decimal_bytes};
use crate::tree_object_read::{lemma_step_reads, step, unread, TreeObjectIterator, TreeReadView};
use crate::tree_object_write::{hash_tree, tree_outcome, DirEntry};

verus! {

/// What is asked of an object.
#[derive(Copy, Clone, Debug, PartialEq, Eq, Structural)]
pub enum CatQuery {
    /// Its content: the entries of a tree, the bytes of anything else.
    Content,
    /// Its kind.
    Type,
    /// Its declared size.
    Size,
}

/// A mode in decimal, with zeros before it where it has fewer than 6 digits.
pub open spec fn padded_mode(code: nat) -> Seq<u8> {
    let digits = decimal(code);
    if digits.len() < 6 {
        Seq::new((6 - digits.len()) as nat, |i: int| 48u8) + digits
    } else {
        digits
    }
}

/// The line that shows a tree entry: mode, kind, hash, a tab and the name.
/// An entry for a symbolic link has no kind, so it has no line.
pub open spec fn entry_line(item: TreeItemView) -> Result<Seq<u8>, ErrorKind> {
    if item.mode is Symlink {
        Err(ErrorKind::UnimplementedSymlink)
    } else {
        Ok(
            padded_mode(item.mode.spec_code()) + seq![32u8] + encode_utf8(
                item.mode.spec_type().name(),
            ) + seq![32u8] + encode_utf8(item.hash) + seq![9u8] + item.file_name + seq![10u8],
        )
    }
}

/// What is shown of one entry: its line, or its name alone.
pub open spec fn entry_shown(item: TreeItemView, name_only: bool) -> Result<Seq<u8>, ErrorKind> {
    if name_only {
        Ok(item.file_name)
    } else {
        entry_line(item)
    }
}

/// What is shown of the entries of a tree that are still to be read, how
/// the reading ends, and the tree after it: what was shown before a failure
/// stays shown.
pub open spec fn listing(tree: TreeReadView, name_only: bool) -> (
    Seq<u8>,
    Result<(), ErrorKind>,
    TreeReadView,
)
    decreases unread(tree),
{
    let (next, got) = step(tree);
    match got {
        Err(kind) => (Seq::empty(), Err(kind), next),
        Ok(None) => (Seq::empty(), Ok(()), next),
        Ok(Some(item)) => match entry_shown(item, name_only) {
            Err(kind) => (Seq::empty(), Err(kind), next),
            Ok(shown) => if unread(next) < unread(tree) {
                let (more, ended, last) = listing(next, name_only);
                (shown + more, ended, last)
            } else {
                (shown, Ok(()), next)
            },
        },
    }
}

/// Appends what is shown of one entry of a tree: the entry number `entry` of
/// the tree at `file_path`.
pub fn show_entry(
    item: &TreeItem,
    name_only: bool,
    entry: usize,
    file_path: &str,
    out: &mut Vec<u8>,
) -> (res: Result<(), Error>)
    ensures
        match entry_shown(item@, name_only) {
            Ok(shown) => res is Ok && final(out)@ == old(out)@ + shown,
            Err(kind) => res matches Err(e) && e.kind == kind && e.subject@ == encode_utf8(
                file_path@,
            ) && e.entry == entry && final(out)@ == old(out)@,
        },
{
    if name_only {
        append_bytes(out, item.file_name.as_slice());
        return Ok(());
    }
    match item.mode {
        ObjectMode::Symlink => {
            return Err(Error::at_entry(ErrorKind::UnimplementedSymlink, file_path, entry));
        },
        _ => {},
    }
    let object_type = item.mode.get_type();
    let digits = decimal_bytes(item.mode.code() as u64);
    let zeros: usize = if digits.len() < 6 {
        6 - digits.len()
    } else {
        0
    };
    let mut pad: usize = 0;
    assert(out@ =~= old(out)@ + Seq::new(0, |i: int| 48u8));
    while pad < zeros
        invariant
            pad <= zeros,
            out@ == old(out)@ + Seq::new(pad as nat, |i: int| 48u8),
        decreases zeros - pad,
    {
        out.push(48);
        pad += 1;
        assert(out@ =~= old(out)@ + Seq::new(pad as nat, |i: int| 48u8));
    }
    append_bytes(out, digits.as_slice());
    assert(out@ =~= old(out)@ + padded_mode(item@.mode.spec_code()));
    out.push(32);
    append_bytes(out, object_type.to_str().as_bytes());
    out.push(32);
    append_bytes(out, item.hash.as_str().as_bytes());
    out.push(9);
    append_bytes(out, item.file_name.as_slice());
    out.push(10);
    assert(out@ =~= old(out)@ + entry_line(item@)->Ok_0);
    Ok(())
}

/// Appends what is shown of each entry of a tree that is still to be read.
pub fn show_tree(entries: &mut TreeObjectIterator, name_only: bool, out: &mut Vec<u8>) -> (res:
    Result<(), Error>)
    requires
        old(entries).wf(),
    ensures
        final(entries).wf(),
        final(entries)@ == listing(old(entries)@, name_only).2,
        final(out)@ == old(out)@ + listing(old(entries)@, name_only).0,
        match listing(old(entries)@, name_only).1 {
            Ok(()) => res is Ok,
            Err(kind) => res matches Err(e) && e.kind == kind && e.subject@ == encode_utf8(
                old(entries)@.file_path,
            ) && e.entry == final(entries)@.entry_no,
        },
{
    let ghost shown: Seq<u8> = Seq::empty();
    assert(out@ =~= old(out)@ + shown);
    loop
        invariant
            entries.wf(),
            entries@.file_path == old(entries)@.file_path,
            out@ == old(out)@ + shown,
            listing(old(entries)@, name_only) == (
                shown + listing(entries@, name_only).0,
                listing(entries@, name_only).1,
                listing(entries@, name_only).2,
            ),
        decreases unread(entries@),
    {
        let ghost before = entries@;
        let item = match entries.next() {
            None => {
                assert(shown + Seq::<u8>::empty() =~= shown);
                return Ok(());
            },
            Some(Err(e)) => {
                assert(shown + Seq::<u8>::empty() =~= shown);
                return Err(e);
            },
            Some(Ok(item)) => item,
        };
        proof {
            lemma_step_reads(before);
        }
        let entry = entries.entries_asked();
        match show_entry(&item, name_only, entry, entries.tree_path(), out) {
            Ok(()) => {},
            Err(e) => {
                assert(shown + Seq::<u8>::empty() =~= shown);
                return Err(e);
            },
        }
        proof {
            let line = entry_shown(item@, name_only)->Ok_0;
            assert(shown + (line + listing(entries@, name_only).0) =~= (shown + line) + listing(
                entries@,
                name_only,
            ).0);
            shown = shown + line;
            assert(out@ =~= old(out)@ + shown);
        }
    }
}

/// What a command shows, how it ends, and what a failure is about.
pub ghost struct Shown {
    pub out: Seq<u8>,
    pub ended: Result<(), ErrorKind>,
    /// The hash or the path that a failure is about.
    pub subject: Seq<u8>,
    /// For a failure inside a tree, the number of the entry; otherwise 0.
    pub entry: nat,
}

/// What the entries of the tree `object` show.
pub open spec fn shown_tree(object: DecodedView, name_only: bool) -> Shown {
    let read = listing(
        TreeReadView {
            file_path: object.file_path,
            size: object.size,
            rest: Some(object.body),
            left: object.size as nat,
            entry_no: 0,
        },
        name_only,
    );
    Shown {
        out: read.0,
        ended: read.1,
        subject: if read.1 is Err {
            encode_utf8(object.file_path)
        } else {
            Seq::empty()
        },
        entry: if read.1 is Err {
            read.2.entry_no
        } else {
            0
        },
    }
}

/// What the bytes of the object `object` show: as many as it declares, and
/// a failure where there are fewer or more.
pub open spec fn shown_bytes(object: DecodedView) -> Shown {
    let copied = object.body.take(
        if object.size <= object.body.len() {
            object.size as int
        } else {
            object.body.len() as int
        },
    );
    if object.body.len() == object.size {
        Shown { out: copied, ended: Ok(()), subject: Seq::empty(), entry: 0 }
    } else {
        Shown {
            out: copied,
            ended: Err(
                if object.body.len() < object.size {
                    ErrorKind::SizeMismatch
                } else {
                    ErrorKind::TrailingData
                },
            ),
            subject: encode_utf8(object.file_path),
            entry: 0,
        }
    }
}

/// What a query of the object `object` shows.
pub open spec fn shown_object(object: DecodedView, query: CatQuery, force_raw: bool) -> Shown {
    match query {
        CatQuery::Type => Shown {
            out: encode_utf8(object.object_type.name()) + seq![10u8],
            ended: Ok(()),
            subject: Seq::empty(),
            entry: 0,
        },
        CatQuery::Size => Shown {
            out: decimal(object.size as nat) + seq![10u8],
            ended: Ok(()),
            subject: Seq::empty(),
            entry: 0,
        },
        CatQuery::Content => if !force_raw && object.object_type == ObjectType::Tree {
            shown_tree(object, false)
        } else {
            shown_bytes(object)
        },
    }
}

/// What a query of the object that `object` names shows.
pub open spec fn cat_file(files: Seq<FileView>, object: Seq<u8>, query: CatQuery, force_raw: bool) -> Shown {
    match find_and_decode(files, object) {
        Err(kind) => Shown {
            out: Seq::empty(),
            ended: Err(kind),
            subject: failure_subject(files, object),
            entry: 0,
        },
        Ok(decoded) => shown_object(decoded, query, force_raw),
    }
}

/// Whether `res` is how `shown` ends.
pub open spec fn ends_as(res: Result<(), Error>, shown: Shown) -> bool {
    match shown.ended {
        Ok(()) => res is Ok,
        Err(kind) => res matches Err(e) && e.kind == kind && e.subject@ == shown.subject
            && e.entry == shown.entry,
    }
}

/// Appends to `out` what is asked of the object whose hash begins with
/// `object`: its kind and a line feed, its size and a line feed, or its
/// content. The content of a tree is a line for each entry, unless
/// `force_raw` asks for its bytes.
pub fn cat_file_command(
    store: &ObjectStore,
    object: &str,
    query: CatQuery,
    force_raw: bool,
    out: &mut Vec<u8>,
) -> (res: Result<(), Error>)
    ensures
        final(out)@ == old(out)@ + cat_file(store@, encode_utf8(object@), query, force_raw).out,
        ends_as(res, cat_file(store@, encode_utf8(object@), query, force_raw)),
{
    let object = match find_and_decode_object(store, object) {
        Ok(object) => object,
        Err(e) => {
            assert(out@ =~= old(out)@ + Seq::<u8>::empty());
            return Err(e);
        },
    };
    match query {
        CatQuery::Type => {
            append_bytes(out, object.kind().to_str().as_bytes());
            out.push(10);
            assert(out@ =~= old(out)@ + (encode_utf8(object@.object_type.name()) + seq![10u8]));
            Ok(())
        },
        CatQuery::Size => {
            let digits = decimal_bytes(object.declared_size());
            append_bytes(out, digits.as_slice());
            out.push(10);
            assert(out@ =~= old(out)@ + (decimal(object@.size as nat) + seq![10u8]));
            Ok(())
        },
        CatQuery::Content => {
            if !force_raw && object.kind() == ObjectType::Tree {
                match TreeObjectIterator::from_decoded_object(object) {
                    Some(mut iterator) => show_tree(&mut iterator, false, out),
                    None => Ok(()),
                }
            } else {
                match object.drain_into_writer_raw(out) {
                    Ok(_) => Ok(()),
                    Err(e) => Err(e),
                }
            }
        },
    }
}

/// What listing the tree that `object` names shows.
pub open spec fn ls_tree(files: Seq<FileView>, object: Seq<u8>, name_only: bool) -> Shown {
    if !name_only {
        cat_file(files, object, CatQuery::Content, false)
    } else {
        match find_and_decode(files, object) {
            Err(kind) => Shown {
                out: Seq::empty(),
                ended: Err(kind),
                subject: failure_subject(files, object),
                entry: 0,
            },
            Ok(decoded) => if decoded.object_type != ObjectType::Tree {
                Shown {
                    out: Seq::empty(),
                    ended: Err(ErrorKind::WrongObjectType),
                    subject: object,
                    entry: 0,
                }
            } else {
                shown_tree(decoded, true)
            },
        }
    }
}

/// Appends to `out` the entries of the tree whose hash begins with `object`:
/// a line for each, or, where `name_only` is set, the names alone, one after
/// the other. With `name_only`, fails where the object is no tree.
pub fn ls_tree_command(store: &ObjectStore, object: &str, name_only: bool, out: &mut Vec<u8>) -> (res:
    Result<(), Error>)
    ensures
        final(out)@ == old(out)@ + ls_tree(store@, encode_utf8(object@), name_only).out,
        ends_as(res, ls_tree(store@, encode_utf8(object@), name_only)),
{
    if name_only {
        let decoded = match find_and_decode_object(store, object) {
            Ok(decoded) => decoded,
            Err(e) => {
                assert(out@ =~= old(out)@ + Seq::<u8>::empty());
                return Err(e);
            },
        };
        return match TreeObjectIterator::from_decoded_object(decoded) {
            Some(mut iterator) => show_tree(&mut iterator, true, out),
            None => {
                assert(out@ =~= old(out)@ + Seq::<u8>::empty());
                Err(Error::new(ErrorKind::WrongObjectType, object))
            },
        };
    }
    cat_file_command(store, object, CatQuery::Content, false, out)
}

/// What hashing a file as an object of the kind `object_type` gives, and the
/// files of the store after it. Only blobs can be made so.
pub open spec fn hashed_file(
    files: Seq<FileView>,
    content: Seq<u8>,
    size: u64,
    object_type: ObjectType,
    write: bool,
) -> (Result<Seq<char>, ErrorKind>, Seq<FileView>) {
    if object_type != ObjectType::Blob {
        (Err(ErrorKind::WrongObjectType), files)
    } else {
        hashed_object(files, ObjectType::Blob, size, content, write)
    }
}

/// Hashes the content of a file, of the declared size `size`, as a blob, and
/// writes it to the store where `write` is set. Fails for any other kind of
/// object.
pub fn hash_object_command(
    store: &mut ObjectStore,
    content: &[u8],
    size: u64,
    object_type: ObjectType,
    write: bool,
) -> (res: Result<String, Error>)
    ensures
        final(store)@ == hashed_file(old(store)@, content@, size, object_type, write).1,
        old(store).wf() ==> final(store).wf(),
        match hashed_file(old(store)@, content@, size, object_type, write).0 {
            Ok(hash) => res matches Ok(found) && found@ == hash,
            Err(kind) => res matches Err(e) && e.kind == kind && e.entry == 0 && e.subject@ == (
                if object_type != ObjectType::Blob {
                    encode_utf8(object_type.name())
                } else {
                    Seq::<u8>::empty()
                }),
        },
{
    if object_type != ObjectType::Blob {
        return Err(Error::new(ErrorKind::WrongObjectType, object_type.to_str()));
    }
    hash_blob(store, content, size, write)
}

/// What writing the tree of the directory `root` gives, and the files of the
/// store after it. A directory without files has no tree.
pub open spec fn written_tree(files: Seq<FileView>, root: Seq<DirEntry>, dry_run: bool) -> (
    Result<Seq<char>, ErrorKind>,
    Seq<FileView>,
    Seq<u8>,
) {
    let (hash, after, subject) = tree_outcome(files, root, !dry_run);
    match hash {
        Err(kind) => (Err(kind), after, subject),
        Ok(None) => (Err(ErrorKind::EmptyTree), after, Seq::empty()),
        Ok(Some(hash)) => (Ok(hash), after, Seq::empty()),
    }
}

/// Hashes the directory `root` as a tree and, unless `dry_run` is set, writes
/// the tree and all below it to the store. Fails where the directory holds
/// no file, directly or below it.
pub fn write_tree_command(store: &mut ObjectStore, root: &Vec<DirEntry>, dry_run: bool) -> (res:
    Result<String, Error>)
    ensures
        final(store)@ == written_tree(old(store)@, root@, dry_run).1,
        old(store).wf() ==> final(store).wf(),
        match written_tree(old(store)@, root@, dry_run).0 {
            Ok(hash) => res matches Ok(found) && found@ == hash,
            Err(kind) => res matches Err(e) && e.kind == kind && e.subject@ == written_tree(
                old(store)@,
                root@,
                dry_run,
            ).2 && e.entry == 0,
        },
{
    match hash_tree(store, root, !dry_run) {
        Ok(Some(hash)) => Ok(hash),
        Ok(None) => Err(Error { kind: ErrorKind::EmptyTree, subject: Vec::new(), entry: 0 }),
        Err(e) => Err(e),
    }
}

/// Makes a commit of the tree `tree` at the time `timestamp`, in the name
/// that this program commits under, and writes it to the store unless
/// `dry_run` is set.
pub fn commit_tree_command(
    store: &mut ObjectStore,
    tree: &str,
    parent: Option<&str>,
    message: &str,
    timestamp: u64,
    dry_run: bool,
) -> (res: Result<String, Error>)
    ensures
        final(store)@ == hashed_commit(
            old(store)@,
            tree@,
            match parent {
                Some(parent) => Some(parent@),
                None => None,
            },
            message@,
            COMMIT_AUTHOR@,
            COMMIT_EMAIL@,
            timestamp,
            COMMIT_TIMEZONE@,
            !dry_run,
        ).1,
        old(store).wf() ==> final(store).wf(),
        match hashed_commit(
            old(store)@,
            tree@,
            match parent {
                Some(parent) => Some(parent@),
                None => None,
            },
            message@,
            COMMIT_AUTHOR@,
            COMMIT_EMAIL@,
            timestamp,
            COMMIT_TIMEZONE@,
            !dry_run,
        ).0 {
            Ok(hash) => res matches Ok(found) && found@ == hash,
            Err(kind) => res matches Err(e) && e.kind == kind && e.entry == 0 && e.subject@
                == hashed_commit_subject(
                old(store)@,
                tree@,
                match parent {
                    Some(parent) => Some(parent@),
                    None => None,
                },
                message@,
                COMMIT_AUTHOR@,
                COMMIT_EMAIL@,
                timestamp,
                COMMIT_TIMEZONE@,
            ),
        },
{
    hash_commit(
        store,
        tree,
        parent,
        message,
        COMMIT_AUTHOR,
        COMMIT_EMAIL,
        timestamp,
        COMMIT_TIMEZONE,
        !dry_run,
    )
}

} // verus!
