//! Hashing an object and writing it to the store.

use vstd::prelude::*;
use vstd::slice::slice_subrange;
use vstd::string::*;
use vstd::utf8::*;
use crate::codec::{
    hex_encode, hex_text, sha1, sha1_digest, string_push, zlib_compress, zlib_deflate,
};
use crate::common::{object_path, Error, ErrorKind, ObjectType, MAX_OBJECT_SIZE};
use crate::laws::law_write_then_read;
use crate::object_read::{
    find_and_decode, validate_existing_hash, validated_hash, validation_subject, DecodedView,
};
use crate::store::{put, FileView, ObjectStore};
use crate::text::{append_bytes, bytes_as_chars, decimal, decimal_bytes};

verus! {

/// The header of an object: its kind, a space, its size in decimal and a zero
/// byte.
pub open spec fn header_bytes(object_type: ObjectType, size: u64) -> Seq<u8> {
    encode_utf8(object_type.name()) + seq![32u8] + decimal(size as nat) + seq![0u8]
}

/// The bytes that stand for an object: its header, then its body.
pub open spec fn object_bytes(object_type: ObjectType, size: u64, body: Seq<u8>) -> Seq<u8> {
    header_bytes(object_type, size) + body
}

/// The name of an object: the SHA-1 digest of header and body as 40
/// lowercase hexadecimal digits.
pub open spec fn object_hash(object_type: ObjectType, size: u64, body: Seq<u8>) -> Seq<char> {
    hex_text(sha1_digest(object_bytes(object_type, size, body)))
}

/// What hashing an object gives, and the files of the store after it: the
/// hash where the body is as long as declared, and, where the object is to be
/// written, its compressed bytes in the file that the hash names.
pub open spec fn hashed_object(
    files: Seq<FileView>,
    object_type: ObjectType,
    size: u64,
    body: Seq<u8>,
    write_file: bool,
) -> (Result<Seq<char>, ErrorKind>, Seq<FileView>) {
    let hash = object_hash(object_type, size, body);
    if body.len() != size {
        (Err(ErrorKind::SizeMismatch), files)
    } else if !write_file {
        (Ok(hash), files)
    } else {
        match zlib_deflate(object_bytes(object_type, size, body)) {
            None => (Err(ErrorKind::CompressionFailed), files),
            Some(packed) => (
                Ok(hash),
                put(files, FileView { dir: hash.take(2), name: hash.skip(2), data: packed }),
            ),
        }
    }
}

/// Who made a commit and when: name, address, time and time zone.
pub open spec fn signature_text(
    author: Seq<char>,
    email: Seq<char>,
    timestamp: u64,
    timezone: Seq<char>,
) -> Seq<char> {
    author + " <"@ + email + "> "@ + bytes_as_chars(decimal(timestamp as nat)) + " "@ + timezone
}

/// The text of a commit.
pub open spec fn commit_text(
    tree: Seq<char>,
    parent: Option<Seq<char>>,
    message: Seq<char>,
    author: Seq<char>,
    email: Seq<char>,
    timestamp: u64,
    timezone: Seq<char>,
) -> Seq<char> {
    let parent_line = match parent {
        Some(parent) => "\nparent "@ + parent,
        None => Seq::<char>::empty(),
    };
    let signature = signature_text(author, email, timestamp, timezone);
    "tree "@ + tree + parent_line + "\nauthor "@ + signature + "\ncommitter "@ + signature
        + "\n\n"@ + message + "\n"@
}

/// The text of the commit that the given words ask for: the full hashes of
/// the tree and of the parent stand in it, however short they were given.
pub open spec fn commit_body(
    files: Seq<FileView>,
    tree: Seq<char>,
    parent: Option<Seq<char>>,
    message: Seq<char>,
    author: Seq<char>,
    email: Seq<char>,
    timestamp: u64,
    timezone: Seq<char>,
) -> Result<Seq<char>, ErrorKind> {
    match validated_hash(files, encode_utf8(tree), ObjectType::Tree) {
        Err(kind) => Err(kind),
        Ok(tree) => match parent {
            None => Ok(commit_text(tree, None, message, author, email, timestamp, timezone)),
            Some(parent) => match validated_hash(files, encode_utf8(parent), ObjectType::Commit) {
                Err(kind) => Err(kind),
                Ok(parent) => Ok(
                    commit_text(tree, Some(parent), message, author, email, timestamp, timezone),
                ),
            },
        },
    }
}

/// What a failure to make the text of a commit is about: the tree where
/// the tree fails, else the parent.
pub open spec fn commit_failure_subject(
    files: Seq<FileView>,
    tree: Seq<char>,
    parent: Option<Seq<char>>,
) -> Seq<u8> {
    if validated_hash(files, encode_utf8(tree), ObjectType::Tree) is Err {
        validation_subject(files, encode_utf8(tree))
    } else {
        match parent {
            Some(parent) => validation_subject(files, encode_utf8(parent)),
            None => Seq::empty(),
        }
    }
}

/// Appends bytes to a text, each as the character with that code.
pub fn push_chars(text: &mut String, bytes: &[u8])
    ensures
        final(text)@ == old(text)@ + bytes_as_chars(bytes@),
{
    let mut i: usize = 0;
    assert(text@ =~= old(text)@ + bytes_as_chars(bytes@.take(0)));
    while i < bytes.len()
        invariant
            i <= bytes.len(),
            text@ == old(text)@ + bytes_as_chars(bytes@.take(i as int)),
        decreases bytes.len() - i,
    {
        string_push(text, bytes[i] as char);
        assert(text@ =~= old(text)@ + bytes_as_chars(bytes@.take(i + 1)));
        i += 1;
    }
    assert(bytes@.take(bytes@.len() as int) == bytes@);
}

/// Appends who made a commit and when.
pub fn push_signature(text: &mut String, author: &str, email: &str, timestamp: u64, timezone: &str)
    ensures
        final(text)@ == old(text)@ + signature_text(author@, email@, timestamp, timezone@),
{
    let digits = decimal_bytes(timestamp);
    text.append(author);
    text.append(" <");
    text.append(email);
    text.append("> ");
    push_chars(text, digits.as_slice());
    text.append(" ");
    text.append(timezone);
    assert(text@ =~= old(text)@ + signature_text(author@, email@, timestamp, timezone@));
}

/// Hashes the object of kind `object_type` and declared size `size` whose
/// body is `reader`, and appends header and body to `writer`. Fails where the
/// body is not as long as declared; header and body are appended all the
/// same.
pub fn hash_write(reader: &[u8], object_type: ObjectType, size: u64, writer: &mut Vec<u8>) -> (res:
    Result<String, Error>)
    ensures
        final(writer)@ == old(writer)@ + object_bytes(object_type, size, reader@),
        res is Ok <==> reader@.len() == size,
        res matches Ok(hash) ==> hash@ == object_hash(object_type, size, reader@) && hash@.len()
            == 40,
        res matches Err(e) ==> e.kind == ErrorKind::SizeMismatch && e.subject@
            == Seq::<u8>::empty() && e.entry == 0,
{
    let start = writer.len();
    append_bytes(writer, object_type.to_str().as_bytes());
    writer.push(32);
    let digits = decimal_bytes(size);
    append_bytes(writer, digits.as_slice());
    writer.push(0);
    append_bytes(writer, reader);
    assert(writer@ =~= old(writer)@ + object_bytes(object_type, size, reader@));
    let copied_size = reader.len();
    if copied_size as u64 != size {
        return Err(Error { kind: ErrorKind::SizeMismatch, subject: Vec::new(), entry: 0 });
    }
    let written = slice_subrange(writer.as_slice(), start, writer.len());
    assert(written@ =~= object_bytes(object_type, size, reader@));
    let digest = sha1(written);
    Ok(hex_encode(digest.as_slice()))
}

/// Hashes an object and, where `write_file` is set, writes it to the store.
pub fn hash_object(
    store: &mut ObjectStore,
    reader: &[u8],
    object_type: ObjectType,
    size: u64,
    write_file: bool,
) -> (res: Result<String, Error>)
    ensures
        final(store)@ == hashed_object(old(store)@, object_type, size, reader@, write_file).1,
        old(store).wf() ==> final(store).wf(),
        match hashed_object(old(store)@, object_type, size, reader@, write_file).0 {
            Ok(hash) => res matches Ok(found) && found@ == hash && hash.len() == 40,
            Err(kind) => res matches Err(e) && e.kind == kind && e.subject@ == Seq::<u8>::empty()
                && e.entry == 0,
        },
        write_file && old(store).wf() && size <= MAX_OBJECT_SIZE ==> (res matches Ok(hash)
            ==> find_and_decode(final(store)@, encode_utf8(hash@)) == Ok::<DecodedView, ErrorKind>(
            DecodedView {
                file_path: object_path(hash@.take(2), hash@.skip(2)),
                object_type: object_type.stored_as(),
                size,
                body: reader@,
            },
        )),
{
    let mut raw: Vec<u8> = Vec::new();
    let hash = match hash_write(reader, object_type, size, &mut raw) {
        Ok(hash) => hash,
        Err(e) => return Err(e),
    };
    assert(raw@ =~= object_bytes(object_type, size, reader@));
    if write_file {
        let packed = match zlib_compress(raw.as_slice()) {
            Some(packed) => packed,
            None => return Err(
                Error { kind: ErrorKind::CompressionFailed, subject: Vec::new(), entry: 0 },
            ),
        };
        let dir = hash.as_str().substring_char(0, 2).to_owned();
        let name = hash.as_str().substring_char(2, 40).to_owned();
        assert(dir@ == hash@.take(2));
        assert(name@ =~= hash@.skip(2));
        proof {
            if store.wf() && size <= MAX_OBJECT_SIZE {
                law_write_then_read(store@, object_type, size, reader@);
            }
        }
        store.insert(dir, name, packed);
    }
    Ok(hash)
}

/// Hashes a file's content as a blob of the declared size `size`.
pub fn hash_blob(store: &mut ObjectStore, content: &[u8], size: u64, write_file: bool) -> (res:
    Result<String, Error>)
    ensures
        final(store)@ == hashed_object(old(store)@, ObjectType::Blob, size, content@, write_file).1,
        old(store).wf() ==> final(store).wf(),
        match hashed_object(old(store)@, ObjectType::Blob, size, content@, write_file).0 {
            Ok(hash) => res matches Ok(found) && found@ == hash && hash.len() == 40,
            Err(kind) => res matches Err(e) && e.kind == kind && e.subject@ == Seq::<u8>::empty()
                && e.entry == 0,
        },
        write_file && old(store).wf() && size <= MAX_OBJECT_SIZE ==> (res matches Ok(hash)
            ==> find_and_decode(final(store)@, encode_utf8(hash@)) == Ok::<DecodedView, ErrorKind>(
            DecodedView {
                file_path: object_path(hash@.take(2), hash@.skip(2)),
                object_type: ObjectType::Blob,
                size,
                body: content@,
            },
        )),
{
    hash_object(store, content, ObjectType::Blob, size, write_file)
}

/// The text of a commit of the tree `tree` with the parent `parent`, both
/// given by their hashes or by the start of them.
pub fn create_commit_body(
    store: &ObjectStore,
    tree: &str,
    parent: Option<&str>,
    message: &str,
    author: &str,
    email: &str,
    timestamp: u64,
    timezone: &str,
) -> (res: Result<String, Error>)
    ensures
        match commit_body(
            store@,
            tree@,
            match parent {
                Some(parent) => Some(parent@),
                None => None,
            },
            message@,
            author@,
            email@,
            timestamp,
            timezone@,
        ) {
            Ok(text) => res matches Ok(found) && found@ == text,
            Err(kind) => res matches Err(e) && e.kind == kind && e.entry == 0 && e.subject@
                == commit_failure_subject(
                store@,
                tree@,
                match parent {
                    Some(parent) => Some(parent@),
                    None => None,
                },
            ),
        },
{
    let tree = match validate_existing_hash(store, tree, ObjectType::Tree) {
        Ok(tree) => tree,
        Err(e) => return Err(e),
    };
    let mut data = "tree ".to_owned();
    data.append(tree.as_str());
    let ghost parent_hash: Option<Seq<char>> = None;
    match parent {
        Some(parent) => {
            let parent = match validate_existing_hash(store, parent, ObjectType::Commit) {
                Ok(parent) => parent,
                Err(e) => return Err(e),
            };
            data.append("\nparent ");
            data.append(parent.as_str());
            proof {
                parent_hash = Some(parent@);
            }
        },
        None => {},
    }
    data.append("\nauthor ");
    push_signature(&mut data, author, email, timestamp, timezone);
    data.append("\ncommitter ");
    push_signature(&mut data, author, email, timestamp, timezone);
    data.append("\n\n");
    data.append(message);
    data.append("\n");
    assert(data@ =~= commit_text(
        tree@,
        parent_hash,
        message@,
        author@,
        email@,
        timestamp,
        timezone@,
    ));
    Ok(data)
}

/// What committing gives, and the files of the store after it.
pub open spec fn hashed_commit(
    files: Seq<FileView>,
    tree: Seq<char>,
    parent: Option<Seq<char>>,
    message: Seq<char>,
    author: Seq<char>,
    email: Seq<char>,
    timestamp: u64,
    timezone: Seq<char>,
    write_file: bool,
) -> (Result<Seq<char>, ErrorKind>, Seq<FileView>) {
    match commit_body(files, tree, parent, message, author, email, timestamp, timezone) {
        Err(kind) => (Err(kind), files),
        Ok(text) => hashed_object(
            files,
            ObjectType::Commit,
            encode_utf8(text).len() as u64,
            encode_utf8(text),
            write_file,
        ),
    }
}

/// What a failure to commit is about: what the failure to make the text is
/// about, and nothing where the hashing fails.
pub open spec fn hashed_commit_subject(
    files: Seq<FileView>,
    tree: Seq<char>,
    parent: Option<Seq<char>>,
    message: Seq<char>,
    author: Seq<char>,
    email: Seq<char>,
    timestamp: u64,
    timezone: Seq<char>,
) -> Seq<u8> {
    if commit_body(files, tree, parent, message, author, email, timestamp, timezone) is Err {
        commit_failure_subject(files, tree, parent)
    } else {
        Seq::empty()
    }
}

/// Makes the commit of the tree `tree` with the parent `parent`, hashes it
/// and, where `write_file` is set, writes it to the store.
pub fn hash_commit(
    store: &mut ObjectStore,
    tree: &str,
    parent: Option<&str>,
    message: &str,
    author: &str,
    email: &str,
    timestamp: u64,
    timezone: &str,
    write_file: bool,
) -> (res: Result<String, Error>)
    ensures
        final(store)@ == hashed_commit(
            old(store)@,
            tree@,
            match parent {
                Some(parent) => Some(parent@),
                None => None,
            },
            message@,
            author@,
            email@,
            timestamp,
            timezone@,
            write_file,
        ).1,
        old(store).wf() ==> final(store).wf(),
        match hashed_commit(
            old(store)@,
            tree@,
            match parent {
                Some(parent) => Some(parent@),
                None => None,
            },
            message@,
            author@,
            email@,
            timestamp,
            timezone@,
            write_file,
        ).0 {
            Ok(hash) => res matches Ok(found) && found@ == hash && hash.len() == 40,
            Err(kind) => res matches Err(e) && e.kind == kind && e.entry == 0 && e.subject@
                == hashed_commit_subject(
                old(store)@,
                tree@,
                match parent {
                    Some(parent) => Some(parent@),
                    None => None,
                },
                message@,
                author@,
                email@,
                timestamp,
                timezone@,
            ),
        },
        write_file && old(store).wf() ==> (res matches Ok(hash) ==> {
            let text = commit_body(
                old(store)@,
                tree@,
                match parent {
                    Some(parent) => Some(parent@),
                    None => None,
                },
                message@,
                author@,
                email@,
                timestamp,
                timezone@,
            )->Ok_0;
            encode_utf8(text).len() <= MAX_OBJECT_SIZE ==> find_and_decode(
                final(store)@,
                encode_utf8(hash@),
            ) == Ok::<DecodedView, ErrorKind>(
                DecodedView {
                    file_path: object_path(hash@.take(2), hash@.skip(2)),
                    object_type: ObjectType::Commit,
                    size: encode_utf8(text).len() as u64,
                    body: encode_utf8(text),
                },
            )
        }),
{
    let data = match create_commit_body(
        store,
        tree,
        parent,
        message,
        author,
        email,
        timestamp,
        timezone,
    ) {
        Ok(data) => data,
        Err(e) => return Err(e),
    };
    let bytes = data.as_str().as_bytes();
    hash_object(store, bytes, ObjectType::Commit, bytes.len() as u64, write_file)
}

} // verus!
