//! What holds of the store as a whole: what was written can be read, a hash
//! depends on the object alone, and a short hash finds what the full one
//! finds.

use vstd::prelude::*;
use vstd::utf8::*;
use crate::codec::{hex_digit, hex_text, hex_value, sha1_digest, zlib_deflate, zlib_inflate};
use crate::common::{lemma_hash_of_object_path, object_path, ErrorKind, ObjectType, MAX_OBJECT_SIZE};
use crate::object_read::{
    count_matches, decode_content, find_and_decode, first_match, is_match, lemma_first_match,
    lemma_lookup_found, lookup, validated_hash, DecodedView,
};
use crate::object_write::{commit_body, hashed_commit, hashed_object, object_bytes, object_hash};
use crate::reader::lemma_scan_until_word;
use crate::store::{
    key_index, lemma_key_index, lemma_put_unique, lemma_same_bytes_same_text, put, unique_names,
    FileView,
};
use crate::text::{decimal, is_digit, lemma_decimal_digits, lemma_decimal_len, pow10};

verus! {

/// The bytes of two texts in a row are the bytes of the one followed by the
/// bytes of the other.
pub proof fn lemma_encode_concat(a: Seq<char>, b: Seq<char>)
    ensures
        encode_utf8(a + b) == encode_utf8(a) + encode_utf8(b),
    decreases a.len(),
{
    if a.len() == 0 {
        assert(a + b == b);
        assert(encode_utf8(a) + encode_utf8(b) == encode_utf8(b));
    } else {
        assert((a + b).drop_first() == a.drop_first() + b);
        lemma_encode_concat(a.drop_first(), b);
        assert((a + b)[0] == a[0]);
        assert(encode_utf8(a + b) =~= encode_utf8(a) + encode_utf8(b));
    }
}

/// Hexadecimal text is ASCII, so its bytes are its characters.
pub proof fn lemma_hex_text_bytes(data: Seq<u8>)
    ensures
        is_ascii_chars(hex_text(data)),
        encode_utf8(hex_text(data)).len() == 2 * data.len(),
        forall|i: int|
            0 <= i < 2 * data.len() ==> #[trigger] encode_utf8(hex_text(data))[i] == hex_text(
                data,
            )[i] as u8,
        forall|i: int| 0 <= i < 2 * data.len() ==> #[trigger] hex_text(data)[i] != '/',
{
    let text = hex_text(data);
    assert forall|i: int| 0 <= i < text.len() implies '\0' <= #[trigger] text[i] <= '\u{7f}'
        && text[i] != '/' by {
        let v = if i % 2 == 0 {
            data[i / 2] as int / 16
        } else {
            data[i / 2] as int % 16
        };
        assert(0 <= v < 16);
        assert(text[i] == hex_digit(v));
    }
    is_ascii_chars_encode_utf8(text);
}

/// The bytes of the start and of the rest of an ASCII text are the start and
/// the rest of its bytes.
pub proof fn lemma_ascii_split(text: Seq<char>, at: int)
    requires
        is_ascii_chars(text),
        0 <= at <= text.len(),
    ensures
        encode_utf8(text.take(at)) == encode_utf8(text).take(at),
        encode_utf8(text.skip(at)) == encode_utf8(text).skip(at),
        encode_utf8(text).len() == text.len(),
{
    is_ascii_chars_encode_utf8(text);
    is_ascii_chars_encode_utf8(text.take(at));
    is_ascii_chars_encode_utf8(text.skip(at));
    assert(encode_utf8(text.take(at)) =~= encode_utf8(text).take(at));
    assert(encode_utf8(text.skip(at)) =~= encode_utf8(text).skip(at));
}

/// Where exactly one file of a store matches, a lookup of at least 4 and at
/// most 40 bytes finds it.
pub proof fn lemma_single_match(files: Seq<FileView>, object: Seq<u8>, at: int)
    requires
        0 <= at < files.len(),
        is_match(files[at], object),
        forall|i: int| 0 <= i < files.len() && i != at ==> !is_match(#[trigger] files[i], object),
    ensures
        count_matches(files, object) == 1,
        first_match(files, object) == at,
    decreases files.len(),
{
    let front = files.drop_last();
    assert forall|i: int| 0 <= i < front.len() implies front[i] == files[i] by {}
    if at == files.len() - 1 {
        lemma_no_match(front, object);
        lemma_first_match(front, object);
    } else {
        assert(front[at] == files[at]);
        assert forall|i: int| 0 <= i < front.len() && i != at implies !is_match(
            #[trigger] front[i],
            object,
        ) by {
            assert(front[i] == files[i]);
        }
        lemma_single_match(front, object, at);
    }
}

/// Where no file of a store matches, none is counted.
pub proof fn lemma_no_match(files: Seq<FileView>, object: Seq<u8>)
    requires
        forall|i: int| 0 <= i < files.len() ==> !is_match(#[trigger] files[i], object),
    ensures
        count_matches(files, object) == 0,
    decreases files.len(),
{
    if files.len() > 0 {
        let front = files.drop_last();
        assert forall|i: int| 0 <= i < front.len() implies !is_match(#[trigger] front[i], object) by {
            assert(front[i] == files[i]);
        }
        lemma_no_match(front, object);
    }
}

/// Every match is counted: one match makes the count at least one, two make
/// it at least two.
pub proof fn lemma_matches_counted(files: Seq<FileView>, object: Seq<u8>, i: int, j: int)
    requires
        0 <= i <= j < files.len(),
        is_match(files[i], object),
        is_match(files[j], object),
    ensures
        count_matches(files, object) >= 1,
        i < j ==> count_matches(files, object) >= 2,
    decreases files.len(),
{
    let front = files.drop_last();
    if j < files.len() - 1 {
        assert(front[i] == files[i]);
        assert(front[j] == files[j]);
        lemma_matches_counted(front, object, i, j);
    } else if i < j {
        assert(front[i] == files[i]);
        lemma_matches_counted(front, object, i, i);
    }
}

/// The bytes of the four words that name a kind of object.
pub proof fn lemma_type_words()
    ensures
        encode_utf8("blob"@) == seq![98u8, 108u8, 111u8, 98u8],
        encode_utf8("tree"@) == seq![116u8, 114u8, 101u8, 101u8],
        encode_utf8("commit"@) == seq![99u8, 111u8, 109u8, 109u8, 105u8, 116u8],
        encode_utf8("tag"@) == seq![116u8, 97u8, 103u8],
{
    reveal_strlit("blob");
    reveal_strlit("tree");
    reveal_strlit("commit");
    reveal_strlit("tag");
    is_ascii_chars_encode_utf8("blob"@);
    is_ascii_chars_encode_utf8("tree"@);
    is_ascii_chars_encode_utf8("commit"@);
    is_ascii_chars_encode_utf8("tag"@);
    assert(encode_utf8("blob"@) =~= seq![98u8, 108u8, 111u8, 98u8]);
    assert(encode_utf8("tree"@) =~= seq![116u8, 114u8, 101u8, 101u8]);
    assert(encode_utf8("commit"@) =~= seq![99u8, 111u8, 109u8, 109u8, 105u8, 116u8]);
    assert(encode_utf8("tag"@) =~= seq![116u8, 97u8, 103u8]);
}

/// Reading the header that was written for an object gives the kind under
/// which it is stored and its size, and leaves its body.
pub proof fn lemma_decode_encoded(
    file_path: Seq<char>,
    object_type: ObjectType,
    size: u64,
    body: Seq<u8>,
)
    requires
        size <= MAX_OBJECT_SIZE,
    ensures
        decode_content(file_path, object_bytes(object_type, size, body)) == Ok::<
            DecodedView,
            ErrorKind,
        >(DecodedView { file_path, object_type: object_type.stored_as(), size, body }),
{
    lemma_type_words();
    let word = encode_utf8(object_type.name());
    let digits = decimal(size as nat);
    let content = object_bytes(object_type, size, body);
    let after_word = digits + seq![0u8] + body;
    assert(content =~= word + seq![32u8] + after_word);
    lemma_scan_until_word(word, 32, after_word, 10);
    assert(content[word.len() as int] == 32);
    assert(content.take(word.len() as int) =~= word);
    assert(ObjectType::from_word(word) == Some(object_type.stored_as())) by {
        assert(seq![98u8, 108u8, 111u8, 98u8][0] != seq![116u8, 114u8, 101u8, 101u8][0]);
        assert(seq![98u8, 108u8, 111u8, 98u8].len() != seq![
            99u8,
            111u8,
            109u8,
            109u8,
            105u8,
            116u8,
        ].len());
        assert(seq![116u8, 114u8, 101u8, 101u8].len() != seq![
            99u8,
            111u8,
            109u8,
            109u8,
            105u8,
            116u8,
        ].len());
    }
    let after_type = content.skip(word.len() as int + 1);
    assert(after_type =~= digits + seq![0u8] + body);
    lemma_decimal_digits(size as nat);
    assert(pow10(10) == 10000000000) by {
        reveal_with_fuel(pow10, 11);
    }
    lemma_decimal_len(size as nat, 10);
    assert forall|i: int| 0 <= i < digits.len() implies digits[i] != 0 by {
        assert(is_digit(digits[i]));
    }
    lemma_scan_until_word(digits, 0, body, 20);
    assert(after_type[digits.len() as int] == 0);
    assert(after_type.take(digits.len() as int) =~= digits);
    assert(after_type.skip(digits.len() as int + 1) =~= body);
}

/// In a store of distinct names, the full hash of an object file finds that
/// file.
pub proof fn lemma_full_hash_lookup(files: Seq<FileView>, at: int)
    requires
        unique_names(files),
        0 <= at < files.len(),
        encode_utf8(files[at].dir).len() == 2,
        encode_utf8(files[at].name).len() == 38,
    ensures
        lookup(files, encode_utf8(files[at].dir) + encode_utf8(files[at].name)) == Ok::<
            int,
            ErrorKind,
        >(at),
{
    let dir = encode_utf8(files[at].dir);
    let name = encode_utf8(files[at].name);
    let object = dir + name;
    assert(object.take(2) =~= dir);
    assert(object.skip(2) =~= name);
    assert forall|i: int| 0 <= i < files.len() && i != at implies !is_match(
        #[trigger] files[i],
        object,
    ) by {
        if is_match(files[i], object) {
            lemma_same_bytes_same_text(files[i].dir, files[at].dir);
            assert(encode_utf8(files[i].name) =~= name);
            lemma_same_bytes_same_text(files[i].name, files[at].name);
            if i < at {
                assert(!(files[i].dir == files[at].dir && files[i].name == files[at].name));
            } else {
                assert(!(files[at].dir == files[i].dir && files[at].name == files[i].name));
            }
        }
    }
    lemma_single_match(files, object, at);
}

/// Any start of an object's hash, of 4 to 40 bytes, that no other object's
/// hash begins with finds what the full hash finds.
pub proof fn law_abbreviated_lookup(files: Seq<FileView>, at: int, prefix: Seq<u8>)
    requires
        unique_names(files),
        0 <= at < files.len(),
        encode_utf8(files[at].dir).len() == 2,
        encode_utf8(files[at].name).len() == 38,
        4 <= prefix.len() <= 40,
        prefix.is_prefix_of(encode_utf8(files[at].dir) + encode_utf8(files[at].name)),
        count_matches(files, prefix) == 1,
    ensures
        lookup(files, prefix) == Ok::<int, ErrorKind>(at),
        lookup(files, prefix) == lookup(
            files,
            encode_utf8(files[at].dir) + encode_utf8(files[at].name),
        ),
{
    let dir = encode_utf8(files[at].dir);
    let name = encode_utf8(files[at].name);
    let full = dir + name;
    lemma_full_hash_lookup(files, at);
    assert(prefix.take(2) =~= dir);
    assert(prefix.skip(2) =~= name.take(prefix.len() - 2));
    assert(is_match(files[at], prefix));
    lemma_first_match(files, prefix);
    let first = first_match(files, prefix);
    if first != at {
        if first < at {
            lemma_matches_counted(files, prefix, first, at);
        } else {
            lemma_matches_counted(files, prefix, at, first);
        }
    }
}

/// A lookup of 4 to 40 bytes fails as not found exactly where no file
/// matches, and as ambiguous exactly where two files match.
pub proof fn law_lookup_failures(files: Seq<FileView>, object: Seq<u8>)
    requires
        4 <= object.len() <= 40,
    ensures
        lookup(files, object) == Err::<int, ErrorKind>(ErrorKind::NotFound) <==> forall|i: int|
            0 <= i < files.len() ==> !is_match(#[trigger] files[i], object),
        lookup(files, object) == Err::<int, ErrorKind>(ErrorKind::AmbiguousHash) <==> exists|
            i: int,
            j: int,
        |
            0 <= i < j < files.len() && is_match(#[trigger] files[i], object) && is_match(
                #[trigger] files[j],
                object,
            ),
{
    lemma_first_match(files, object);
    if forall|i: int| 0 <= i < files.len() ==> !is_match(#[trigger] files[i], object) {
        lemma_no_match(files, object);
    }
    if exists|i: int, j: int|
        0 <= i < j < files.len() && is_match(#[trigger] files[i], object) && is_match(
            #[trigger] files[j],
            object,
        ) {
        let (i, j) = choose|i: int, j: int|
            0 <= i < j < files.len() && is_match(#[trigger] files[i], object) && is_match(
                #[trigger] files[j],
                object,
            );
        lemma_matches_counted(files, object, i, j);
    }
    if count_matches(files, object) >= 2 {
        lemma_second_match(files, object);
    }
}

/// Where two or more files are counted, two different files match.
pub proof fn lemma_second_match(files: Seq<FileView>, object: Seq<u8>)
    requires
        count_matches(files, object) >= 2,
    ensures
        exists|i: int, j: int|
            0 <= i < j < files.len() && is_match(#[trigger] files[i], object) && is_match(
                #[trigger] files[j],
                object,
            ),
    decreases files.len(),
{
    let front = files.drop_last();
    assert forall|i: int| 0 <= i < front.len() implies front[i] == files[i] by {}
    if count_matches(front, object) >= 2 {
        lemma_second_match(front, object);
        let (i, j) = choose|i: int, j: int|
            0 <= i < j < front.len() && is_match(#[trigger] front[i], object) && is_match(
                #[trigger] front[j],
                object,
            );
        assert(is_match(files[i], object) && is_match(files[j], object));
    } else {
        lemma_first_match(front, object);
        let i = first_match(front, object);
        let j = files.len() - 1;
        assert(is_match(files[i], object) && is_match(files[j], object));
    }
}

/// Where an entry of the wanted name stands at `at` and none stands before
/// it, `key_index` is `at`.
pub proof fn lemma_key_index_is(files: Seq<FileView>, dir: Seq<char>, name: Seq<char>, at: int)
    requires
        0 <= at <= files.len(),
        at < files.len() ==> files[at].dir == dir && files[at].name == name,
        forall|i: int| 0 <= i < at ==> !(#[trigger] files[i].dir == dir && files[i].name == name),
    ensures
        key_index(files, dir, name) == at,
{
    lemma_key_index(files, dir, name);
    let found = key_index(files, dir, name);
    if found < at {
        assert(!(files[found].dir == dir && files[found].name == name));
    }
}

/// Writing the same file twice leaves what the first writing left.
pub proof fn lemma_put_twice(files: Seq<FileView>, entry: FileView)
    ensures
        put(put(files, entry), entry) == put(files, entry),
        key_index(put(files, entry), entry.dir, entry.name) == key_index(
            files,
            entry.dir,
            entry.name,
        ),
        put(files, entry)[key_index(files, entry.dir, entry.name)] == entry,
{
    lemma_key_index(files, entry.dir, entry.name);
    let at = key_index(files, entry.dir, entry.name);
    let after = put(files, entry);
    assert forall|i: int| 0 <= i < at implies !(#[trigger] after[i].dir == entry.dir
        && after[i].name == entry.name) by {
        assert(after[i] == files[i]);
    }
    lemma_key_index_is(after, entry.dir, entry.name, at);
    assert(put(after, entry) =~= after);
}

/// An object that was written can be read: a lookup of its hash finds it,
/// and its header gives the kind under which it is stored, its size and its
/// body. This rests on two facts of the outside code: a SHA-1 digest has 20
/// bytes, and what was compressed decompresses to what it was.
pub proof fn law_write_then_read(
    files: Seq<FileView>,
    object_type: ObjectType,
    size: u64,
    body: Seq<u8>,
)
    requires
        unique_names(files),
        size <= MAX_OBJECT_SIZE,
        hashed_object(files, object_type, size, body, true).0 is Ok,
        sha1_digest(object_bytes(object_type, size, body)).len() == 20,
        zlib_inflate(zlib_deflate(object_bytes(object_type, size, body))->0) == Some(
            object_bytes(object_type, size, body),
        ),
    ensures
        unique_names(hashed_object(files, object_type, size, body, true).1),
        find_and_decode(
            hashed_object(files, object_type, size, body, true).1,
            encode_utf8(object_hash(object_type, size, body)),
        ) == Ok::<DecodedView, ErrorKind>(
            DecodedView {
                file_path: object_path(
                    object_hash(object_type, size, body).take(2),
                    object_hash(object_type, size, body).skip(2),
                ),
                object_type: object_type.stored_as(),
                size,
                body,
            },
        ),
{
    let bytes = object_bytes(object_type, size, body);
    let hash = object_hash(object_type, size, body);
    let packed = zlib_deflate(bytes)->0;
    let entry = FileView { dir: hash.take(2), name: hash.skip(2), data: packed };
    let after = put(files, entry);
    assert(after == hashed_object(files, object_type, size, body, true).1);
    lemma_put_unique(files, entry);
    lemma_put_twice(files, entry);
    let at = key_index(files, entry.dir, entry.name);
    lemma_key_index(files, entry.dir, entry.name);
    lemma_hex_text_bytes(sha1_digest(bytes));
    lemma_ascii_split(hash, 2);
    lemma_full_hash_lookup(after, at);
    assert(encode_utf8(entry.dir) + encode_utf8(entry.name) =~= encode_utf8(hash));
    lemma_decode_encoded(object_path(entry.dir, entry.name), object_type, size, body);
}

/// Writing an object a second time gives the same hash and leaves the store
/// as the first writing left it.
pub proof fn law_write_twice(
    files: Seq<FileView>,
    object_type: ObjectType,
    size: u64,
    body: Seq<u8>,
    write_file: bool,
)
    ensures
        hashed_object(
            hashed_object(files, object_type, size, body, write_file).1,
            object_type,
            size,
            body,
            write_file,
        ) == hashed_object(files, object_type, size, body, write_file),
{
    let bytes = object_bytes(object_type, size, body);
    let hash = object_hash(object_type, size, body);
    if body.len() == size && write_file && zlib_deflate(bytes) is Some {
        let entry = FileView { dir: hash.take(2), name: hash.skip(2), data: zlib_deflate(bytes)->0 };
        lemma_put_twice(files, entry);
    }
}

/// The hash of an object depends on its kind, its size and its body alone:
/// not on what the store holds, nor on whether the object is written.
pub proof fn law_hash_of_object_alone(
    files: Seq<FileView>,
    other_files: Seq<FileView>,
    object_type: ObjectType,
    size: u64,
    body: Seq<u8>,
    write_file: bool,
    other_write_file: bool,
)
    ensures
        hashed_object(files, object_type, size, body, write_file).0 matches Ok(hash) ==> hash
            == object_hash(object_type, size, body),
        hashed_object(files, object_type, size, body, write_file).0 is Ok && hashed_object(
            other_files,
            object_type,
            size,
            body,
            other_write_file,
        ).0 is Ok ==> hashed_object(files, object_type, size, body, write_file).0 == hashed_object(
            other_files,
            object_type,
            size,
            body,
            other_write_file,
        ).0,
{
}

/// Whether every character of `text` is a hexadecimal digit.
pub open spec fn all_hex_digits(text: Seq<char>) -> bool {
    forall|i: int| 0 <= i < text.len() ==> (#[trigger] hex_value(text[i])) is Some
}

/// The hash that a lookup by hexadecimal digits gives is the full hash of the
/// object found: it has 40 bytes, it begins with what was looked up, and
/// looking it up gives the same again.
pub proof fn law_validated_hash_is_full(
    files: Seq<FileView>,
    given: Seq<char>,
    expected: ObjectType,
)
    requires
        unique_names(files),
        all_hex_digits(given),
        validated_hash(files, encode_utf8(given), expected) is Ok,
    ensures
        encode_utf8(validated_hash(files, encode_utf8(given), expected)->Ok_0).len() == 40,
        encode_utf8(given).is_prefix_of(
            encode_utf8(validated_hash(files, encode_utf8(given), expected)->Ok_0),
        ),
        validated_hash(
            files,
            encode_utf8(validated_hash(files, encode_utf8(given), expected)->Ok_0),
            expected,
        ) == validated_hash(files, encode_utf8(given), expected),
{
    let object = encode_utf8(given);
    lemma_lookup_found(files, object);
    let at = lookup(files, object)->Ok_0;
    let dir = files[at].dir;
    let name = files[at].name;
    assert(is_ascii_chars(given)) by {
        assert forall|i: int| 0 <= i < given.len() implies '\0' <= #[trigger] given[i]
            <= '\u{7f}' by {
            assert(hex_value(given[i]) is Some);
        }
    }
    is_ascii_chars_encode_utf8(given);
    lemma_ascii_split(given, 2);
    lemma_same_bytes_same_text(dir, given.take(2));
    assert forall|i: int| 0 <= i < dir.len() implies dir[i] != '/' by {
        assert(dir[i] == given[i]);
        assert(hex_value(given[i]) is Some);
    }
    lemma_hash_of_object_path(dir, name);
    let full = dir + name;
    lemma_encode_concat(dir, name);
    lemma_full_hash_lookup(files, at);
    assert(object =~= object.take(2) + object.skip(2));
    assert(object.is_prefix_of(encode_utf8(full))) by {
        assert(encode_utf8(full).subrange(0, object.len() as int) =~= object);
    }
}

/// A commit made from the start of a tree's hash and the start of a parent's
/// hash, both in hexadecimal digits, holds their full hashes, and is the
/// commit that the full hashes give: the same text and the same hash.
pub proof fn law_commit_canonical(
    files: Seq<FileView>,
    tree: Seq<char>,
    parent: Option<Seq<char>>,
    message: Seq<char>,
    author: Seq<char>,
    email: Seq<char>,
    timestamp: u64,
    timezone: Seq<char>,
    write_file: bool,
)
    requires
        unique_names(files),
        all_hex_digits(tree),
        parent matches Some(parent) ==> all_hex_digits(parent),
        commit_body(files, tree, parent, message, author, email, timestamp, timezone) is Ok,
    ensures
        ({
            let full_tree = validated_hash(files, encode_utf8(tree), ObjectType::Tree)->Ok_0;
            let full_parent = match parent {
                Some(parent) => Some(
                    validated_hash(files, encode_utf8(parent), ObjectType::Commit)->Ok_0,
                ),
                None => None,
            };
            &&& encode_utf8(full_tree).len() == 40
            &&& full_parent matches Some(full_parent) ==> encode_utf8(full_parent).len() == 40
            &&& commit_body(files, tree, parent, message, author, email, timestamp, timezone)
                == Ok::<Seq<char>, ErrorKind>(
                crate::object_write::commit_text(
                    full_tree,
                    full_parent,
                    message,
                    author,
                    email,
                    timestamp,
                    timezone,
                ),
            )
            &&& commit_body(
                files,
                full_tree,
                full_parent,
                message,
                author,
                email,
                timestamp,
                timezone,
            ) == commit_body(files, tree, parent, message, author, email, timestamp, timezone)
            &&& hashed_commit(
                files,
                full_tree,
                full_parent,
                message,
                author,
                email,
                timestamp,
                timezone,
                write_file,
            ) == hashed_commit(
                files,
                tree,
                parent,
                message,
                author,
                email,
                timestamp,
                timezone,
                write_file,
            )
        }),
{
    law_validated_hash_is_full(files, tree, ObjectType::Tree);
    match parent {
        Some(parent) => {
            law_validated_hash_is_full(files, parent, ObjectType::Commit);
        },
        None => {},
    }
}

} // verus!
