//! Finding an object by its hash and reading its header and content.

use vstd::prelude::*;
use vstd::string::*;
use vstd::utf8::*;
use vstd::slice::slice_subrange;
use crate::codec::{string_push, zlib_decompress, zlib_inflate};
use crate::common::{
    first_slash, get_hash_by_object_path, hash_of_path, lemma_first_slash_bound,
    make_object_path, object_path, Error, ErrorKind, ObjectType, HASH_ENCODED_LEN, HASH_RAW_LEN,
    MAX_OBJECT_SIZE, MIN_OBJECT_SEARCH_LEN, OBJECTS_PATH, OBJECT_DIR_LEN,
};
use crate::reader::{lemma_scan_until_bound, scan_until, ByteReader};
use crate::store::{FileView, ObjectStore};
use crate::text::{
    all_digits, bytes_as_chars, bytes_eq, lemma_digits_value_bound, lemma_pow10_monotonic,
    parse_number, parse_u64, pow10, starts_with, unsigned_part,
};

verus! {

/// Whether `file` is an object whose hash begins with `object`: it lies in
/// the directory named by the first two bytes of `object`, its name is 38
/// bytes long and begins with the other bytes of `object`.
pub open spec fn is_match(file: FileView, object: Seq<u8>) -> bool {
    &&& encode_utf8(file.dir) == object.take(2)
    &&& encode_utf8(file.name).len() == 38
    &&& object.skip(2).is_prefix_of(encode_utf8(file.name))
}

/// How many of `files` are objects whose hash begins with `object`.
pub open spec fn count_matches(files: Seq<FileView>, object: Seq<u8>) -> nat
    decreases files.len(),
{
    if files.len() == 0 {
        0
    } else {
        count_matches(files.drop_last(), object) + if is_match(files.last(), object) {
            1nat
        } else {
            0nat
        }
    }
}

/// The index of the first of `files` whose hash begins with `object`, or the
/// length of `files` where there is none.
pub open spec fn first_match(files: Seq<FileView>, object: Seq<u8>) -> int
    decreases files.len(),
{
    if files.len() == 0 {
        0
    } else {
        let before = first_match(files.drop_last(), object);
        if before < files.len() - 1 {
            before
        } else if is_match(files.last(), object) {
            files.len() - 1
        } else {
            files.len() as int
        }
    }
}

/// The index of the one file whose hash begins with `object`, or why there is
/// no such file.
pub open spec fn lookup(files: Seq<FileView>, object: Seq<u8>) -> Result<int, ErrorKind> {
    if object.len() < 4 || object.len() > 40 {
        Err(ErrorKind::InvalidHashLength)
    } else if count_matches(files, object) == 0 {
        Err(ErrorKind::NotFound)
    } else if count_matches(files, object) == 1 {
        Ok(first_match(files, object))
    } else {
        Err(ErrorKind::AmbiguousHash)
    }
}

/// The kind that the header at the start of `content` names: the word before
/// the first space, which is among the first 10 bytes.
pub open spec fn header_type(content: Seq<u8>) -> Result<ObjectType, ErrorKind> {
    let taken = scan_until(content, 32, 10);
    if taken == 0 || content[taken - 1] != 32 {
        Err(ErrorKind::MalformedHeader)
    } else {
        match ObjectType::from_word(content.take(taken - 1)) {
            Some(kind) => Ok(kind),
            None => Err(ErrorKind::UnknownObjectType),
        }
    }
}

/// The size that the rest of a header declares: the number before the first
/// zero byte, which is among the first 20 bytes.
pub open spec fn header_size(content: Seq<u8>) -> Result<u64, ErrorKind> {
    let taken = scan_until(content, 0, 20);
    if taken == 0 || content[taken - 1] != 0 {
        Err(ErrorKind::MalformedHeader)
    } else {
        match parse_number(content.take(taken - 1)) {
            Some(size) => if size > MAX_OBJECT_SIZE {
                Err(ErrorKind::SizeTooLarge)
            } else {
                Ok(size as u64)
            },
            None => Err(ErrorKind::MalformedHeader),
        }
    }
}

/// What the contracts say of an object whose header was read.
pub ghost struct DecodedView {
    pub file_path: Seq<char>,
    pub object_type: ObjectType,
    pub size: u64,
    /// The bytes after the header, whatever the declared size.
    pub body: Seq<u8>,
}

/// The kind, the declared size and the body of the object with the
/// uncompressed bytes `content`.
pub open spec fn decode_content(file_path: Seq<char>, content: Seq<u8>) -> Result<
    DecodedView,
    ErrorKind,
> {
    match header_type(content) {
        Err(kind) => Err(kind),
        Ok(object_type) => {
            let after_type = content.skip(scan_until(content, 32, 10) as int);
            match header_size(after_type) {
                Err(kind) => Err(kind),
                Ok(size) => Ok(
                    DecodedView {
                        file_path,
                        object_type,
                        size,
                        body: after_type.skip(scan_until(after_type, 0, 20) as int),
                    },
                ),
            }
        },
    }
}

/// What the object file `file` decodes to.
pub open spec fn decode_file(file: FileView) -> Result<DecodedView, ErrorKind> {
    match zlib_inflate(file.data) {
        None => Err(ErrorKind::CorruptObject),
        Some(content) => decode_content(object_path(file.dir, file.name), content),
    }
}

/// What a lookup of `object` in `files` decodes to.
pub open spec fn find_and_decode(files: Seq<FileView>, object: Seq<u8>) -> Result<
    DecodedView,
    ErrorKind,
> {
    match lookup(files, object) {
        Err(kind) => Err(kind),
        Ok(at) => decode_file(files[at]),
    }
}

/// What a failure to find and decode `object` is about: the text that was
/// looked up where the lookup fails, else the path of the file that was
/// found.
pub open spec fn failure_subject(files: Seq<FileView>, object: Seq<u8>) -> Seq<u8> {
    match lookup(files, object) {
        Err(_) => object,
        Ok(at) => encode_utf8(object_path(files[at].dir, files[at].name)),
    }
}

/// What a failure to validate `object` is about: what the failure to find
/// and decode it is about, or, where it is of the wrong kind, the text that
/// was looked up.
pub open spec fn validation_subject(files: Seq<FileView>, object: Seq<u8>) -> Seq<u8> {
    if find_and_decode(files, object) is Err {
        failure_subject(files, object)
    } else {
        object
    }
}

/// The full hash of the object that `object` names, provided it is of the
/// kind `expected`.
pub open spec fn validated_hash(
    files: Seq<FileView>,
    object: Seq<u8>,
    expected: ObjectType,
) -> Result<Seq<char>, ErrorKind> {
    match find_and_decode(files, object) {
        Err(kind) => Err(kind),
        Ok(decoded) => if decoded.object_type != expected {
            Err(ErrorKind::WrongObjectType)
        } else {
            Ok(hash_of_path(decoded.file_path))
        },
    }
}

/// A lookup that succeeds names a file of the store, and that file's hash
/// begins with what was looked up.
pub proof fn lemma_lookup_found(files: Seq<FileView>, object: Seq<u8>)
    requires
        lookup(files, object) is Ok,
    ensures
        0 <= lookup(files, object)->Ok_0 < files.len(),
        is_match(files[lookup(files, object)->Ok_0], object),
{
    lemma_first_match(files, object);
}

/// `first_match` names a match where there is one, and none stands before
/// it.
pub proof fn lemma_first_match(files: Seq<FileView>, object: Seq<u8>)
    ensures
        0 <= first_match(files, object) <= files.len(),
        first_match(files, object) < files.len() ==> is_match(
            files[first_match(files, object)],
            object,
        ),
        forall|i: int| 0 <= i < first_match(files, object) ==> !is_match(#[trigger] files[i], object),
        count_matches(files, object) == 0 <==> first_match(files, object) == files.len(),
    decreases files.len(),
{
    if files.len() > 0 {
        let front = files.drop_last();
        lemma_first_match(front, object);
        assert forall|i: int| 0 <= i < first_match(files, object) implies !is_match(
            #[trigger] files[i],
            object,
        ) by {
            if i < front.len() {
                assert(files[i] == front[i]);
            }
        }
        if first_match(front, object) < front.len() {
            assert(files[first_match(front, object)] == front[first_match(front, object)]);
        }
    }
}

/// The path of a file that a lookup found has the shape that
/// `get_hash_by_object_path` asks for.
pub proof fn lemma_object_path_shape(dir: Seq<char>, name: Seq<char>)
    ensures
        object_path(dir, name).len() > OBJECTS_PATH@.len(),
        is_ascii_chars(object_path(dir, name).take(OBJECTS_PATH@.len() as int + 1)),
        first_slash(object_path(dir, name).skip(OBJECTS_PATH@.len() as int + 1)) < object_path(
            dir,
            name,
        ).len() - OBJECTS_PATH@.len() - 1,
{
    reveal_strlit(".git/objects");
    let path = object_path(dir, name);
    let tail = path.skip(OBJECTS_PATH@.len() as int + 1);
    assert(tail =~= dir + seq!['/'] + name);
    assert(tail[dir.len() as int] == '/');
    lemma_first_slash_bound(tail, dir.len() as int);
    let head = path.take(OBJECTS_PATH@.len() as int + 1);
    assert forall|i: int| 0 <= i < head.len() implies '\0' <= #[trigger] head[i] <= '\u{7f}' by {
        if i < 12 {
            assert(head[i] == OBJECTS_PATH@[i]);
        } else {
            assert(head[i] == '/');
        }
    }
}

/// An object whose header was read and whose body is still to be read.
pub struct LazyDecodedObject {
    pub file_path: String,
    pub object_type: ObjectType,
    pub size: u64,
    reader: ByteReader,
}

impl View for LazyDecodedObject {
    type V = DecodedView;

    closed spec fn view(&self) -> DecodedView {
        DecodedView {
            file_path: self.file_path@,
            object_type: self.object_type,
            size: self.size,
            body: self.reader.rest(),
        }
    }
}

impl LazyDecodedObject {
    /// An object of the given kind and declared size whose body is what
    /// `reader` has not read yet.
    pub fn new(file_path: String, object_type: ObjectType, size: u64, reader: ByteReader) -> (res:
        LazyDecodedObject)
        ensures
            res@ == (DecodedView {
                file_path: file_path@,
                object_type,
                size,
                body: reader.rest(),
            }),
    {
        LazyDecodedObject { file_path, object_type, size, reader }
    }

    /// The kind that the header names.
    pub fn kind(&self) -> (res: ObjectType)
        ensures
            res == self@.object_type,
    {
        self.object_type
    }

    /// The size that the header declares.
    pub fn declared_size(&self) -> (res: u64)
        ensures
            res == self@.size,
    {
        self.size
    }

    /// Appends the body to `writer`, as many bytes as the header declares.
    /// Fails where the body is shorter or longer than that; what there was
    /// of it up to the declared size is appended all the same.
    pub fn drain_into_writer_raw(self, writer: &mut Vec<u8>) -> (res: Result<
        (String, ObjectType, u64),
        Error,
    >)
        ensures
            final(writer)@ == old(writer)@ + self@.body.take(
                if self@.size <= self@.body.len() {
                    self@.size as int
                } else {
                    self@.body.len() as int
                },
            ),
            res is Ok <==> self@.body.len() == self@.size,
            res matches Ok(parts) ==> parts.0@ == self@.file_path && parts.1
                == self@.object_type && parts.2 == self@.size,
            res matches Err(e) ==> e.kind == (if self@.body.len() < self@.size {
                ErrorKind::SizeMismatch
            } else {
                ErrorKind::TrailingData
            }) && e.subject@ == encode_utf8(self@.file_path) && e.entry == 0,
    {
        let LazyDecodedObject { file_path, object_type, size, reader } = self;
        let mut reader = reader;
        reader.limit(size);
        let copied_size = reader.copy_to(writer);
        if copied_size != size {
            return Err(Error::new(ErrorKind::SizeMismatch, file_path.as_str()));
        }
        if !is_end_of_reader(reader) {
            return Err(Error::new(ErrorKind::TrailingData, file_path.as_str()));
        }
        Ok((file_path, object_type, size))
    }

    /// The parts of the object, the reader standing at the start of the body
    /// and seeing all that follows.
    pub fn destruct(self) -> (res: (String, ObjectType, u64, ByteReader))
        ensures
            res.0@ == self@.file_path,
            res.1 == self@.object_type,
            res.2 == self@.size,
            res.3.rest() == self@.body,
            res.3.window_len() == self@.body.len(),
    {
        let LazyDecodedObject { file_path, object_type, size, reader } = self;
        let mut reader = reader;
        reader.unlimit();
        (file_path, object_type, size, reader)
    }

    /// The parts of the object and its body as text, each byte taken as the
    /// character with that code. Fails as `drain_into_writer_raw` does.
    pub fn destruct_into_string(self) -> (res: Result<(String, ObjectType, u64, String), Error>)
        ensures
            res is Ok <==> self@.body.len() == self@.size,
            res matches Ok(parts) ==> parts.0@ == self@.file_path && parts.1
                == self@.object_type && parts.2 == self@.size && parts.3@ == bytes_as_chars(
                self@.body,
            ),
            res matches Err(e) ==> e.kind == (if self@.body.len() < self@.size {
                ErrorKind::SizeMismatch
            } else {
                ErrorKind::TrailingData
            }) && e.subject@ == encode_utf8(self@.file_path) && e.entry == 0,
    {
        let ghost body = self@.body;
        let mut bytes: Vec<u8> = Vec::new();
        let (file_path, object_type, size) = match self.drain_into_writer_raw(&mut bytes) {
            Ok(parts) => parts,
            Err(e) => return Err(e),
        };
        assert(bytes@ =~= body);
        let mut text = String::new();
        let mut i: usize = 0;
        while i < bytes.len()
            invariant
                i <= bytes.len(),
                text@ == bytes_as_chars(bytes@.take(i as int)),
            decreases bytes.len() - i,
        {
            string_push(&mut text, bytes[i] as char);
            assert(text@ =~= bytes_as_chars(bytes@.take(i + 1)));
            i += 1;
        }
        assert(bytes@.take(bytes@.len() as int) == bytes@);
        Ok((file_path, object_type, size, text))
    }
}

/// Finds the one object whose hash begins with `object`, a text of 4 to 40
/// bytes, and gives its index in the store.
pub fn locate(store: &ObjectStore, object: &str) -> (res: Result<usize, Error>)
    ensures
        match lookup(store@, encode_utf8(object@)) {
            Ok(at) => res matches Ok(found) && found == at && found < store@.len(),
            Err(kind) => res matches Err(e) && e.kind == kind && e.subject@ == encode_utf8(
                object@,
            ) && e.entry == 0,
        },
{
    let bytes = object.as_bytes();
    let len = bytes.len();
    if len < MIN_OBJECT_SEARCH_LEN || len > HASH_ENCODED_LEN {
        return Err(Error::new(ErrorKind::InvalidHashLength, object));
    }
    let dir = slice_subrange(bytes, 0, OBJECT_DIR_LEN);
    let file_search = slice_subrange(bytes, OBJECT_DIR_LEN, len);
    let ghost wanted = encode_utf8(object@);
    let mut count: usize = 0;
    let mut first: usize = 0;
    let mut i: usize = 0;
    assert(store@.take(0) =~= Seq::<FileView>::empty());
    while i < store.len()
        invariant
            i <= store@.len(),
            wanted == bytes@,
            dir@ == wanted.take(2),
            file_search@ == wanted.skip(2),
            count <= 2,
            count < 2 ==> count == count_matches(store@.take(i as int), wanted),
            count == 2 ==> count_matches(store@.take(i as int), wanted) >= 2,
            first == first_match(store@.take(i as int), wanted),
            count == 0 <==> first == i,
            first <= i,
        decreases store@.len() - i,
    {
        let file = store.file(i);
        let name = file.name.as_str().as_bytes();
        let matches = bytes_eq(file.dir.as_str().as_bytes(), dir) && name.len() == HASH_ENCODED_LEN
            - OBJECT_DIR_LEN && starts_with(name, file_search);
        proof {
            let next = store@.take(i + 1);
            assert(next.drop_last() == store@.take(i as int));
            assert(next.last() == store@[i as int]);
            assert(matches == is_match(store@[i as int], wanted));
        }
        if matches {
            if count == 0 {
                first = i;
            }
            if count < 2 {
                count += 1;
            }
        } else if count == 0 {
            first = i + 1;
        }
        i += 1;
    }
    assert(store@.take(i as int) == store@);
    if count == 0 {
        Err(Error::new(ErrorKind::NotFound, object))
    } else if count == 1 {
        Ok(first)
    } else {
        Err(Error::new(ErrorKind::AmbiguousHash, object))
    }
}

/// The path of the one object file whose hash begins with `object`.
pub fn find_object_file(store: &ObjectStore, object: &str) -> (res: Result<String, Error>)
    ensures
        match lookup(store@, encode_utf8(object@)) {
            Ok(at) => res matches Ok(path) && path@ == object_path(
                store@[at].dir,
                store@[at].name,
            ),
            Err(kind) => res matches Err(e) && e.kind == kind && e.subject@ == encode_utf8(
                object@,
            ) && e.entry == 0,
        },
{
    match locate(store, object) {
        Ok(at) => {
            let file = store.file(at);
            Ok(make_object_path(file.dir.as_str(), file.name.as_str()))
        },
        Err(e) => Err(e),
    }
}

/// A reader over what the compressed bytes of the object file at `file_path`
/// hold.
pub fn get_compressed_file_reader(data: &[u8], file_path: &str) -> (res: Result<
    ByteReader,
    Error,
>)
    ensures
        match zlib_inflate(data@) {
            Some(content) => res matches Ok(reader) && reader.rest() == content
                && reader.window_len() == content.len(),
            None => res matches Err(e) && e.kind == ErrorKind::CorruptObject && e.subject@
                == encode_utf8(file_path@) && e.entry == 0,
        },
{
    match zlib_decompress(data) {
        Some(content) => Ok(ByteReader::new(content)),
        None => Err(Error::new(ErrorKind::CorruptObject, file_path)),
    }
}

/// Reads the kind of an object from the start of its header, up to and
/// including the space after it.
pub fn read_object_type(reader: &mut ByteReader, file_path: &str) -> (res: Result<
    ObjectType,
    Error,
>)
    ensures
        final(reader).rest() == old(reader).rest().skip(
            scan_until(old(reader).window(), 32, 10) as int,
        ),
        final(reader).window_len() == old(reader).window_len() - scan_until(
            old(reader).window(),
            32,
            10,
        ),
        match header_type(old(reader).window()) {
            Ok(kind) => res matches Ok(found) && found == kind,
            Err(kind) => res matches Err(e) && e.kind == kind && e.subject@ == encode_utf8(
                file_path@,
            ) && e.entry == 0,
        },
{
    let delimiter: u8 = 32;
    let ghost window = reader.window();
    let ghost taken = scan_until(window, 32, 10) as int;
    proof {
        lemma_scan_until_bound(window, 32, 10);
    }
    let mut buf = reader.read_until(delimiter, 10);
    assert(taken > 0 ==> buf@.last() == window[taken - 1]);
    let last = match buf.pop() {
        Some(last) => last,
        None => return Err(Error::new(ErrorKind::MalformedHeader, file_path)),
    };
    if last != delimiter {
        return Err(Error::new(ErrorKind::MalformedHeader, file_path));
    }
    assert(buf@ =~= window.take(taken - 1));
    match ObjectType::try_from(buf.as_slice()) {
        Ok(kind) => Ok(kind),
        Err(_) => Err(Error::new(ErrorKind::UnknownObjectType, file_path)),
    }
}

/// Reads the declared size of an object from its header, up to and including
/// the zero byte after it.
pub fn read_object_size(reader: &mut ByteReader, file_path: &str) -> (res: Result<u64, Error>)
    ensures
        final(reader).rest() == old(reader).rest().skip(
            scan_until(old(reader).window(), 0, 20) as int,
        ),
        final(reader).window_len() == old(reader).window_len() - scan_until(
            old(reader).window(),
            0,
            20,
        ),
        match header_size(old(reader).window()) {
            Ok(size) => res matches Ok(found) && found == size,
            Err(kind) => res matches Err(e) && e.kind == kind && e.subject@ == encode_utf8(
                file_path@,
            ) && e.entry == 0,
        },
{
    let delimiter: u8 = 0;
    let ghost window = reader.window();
    let ghost taken = scan_until(window, 0, 20) as int;
    proof {
        lemma_scan_until_bound(window, 0, 20);
    }
    let mut buf = reader.read_until(delimiter, HASH_RAW_LEN as u64);
    assert(taken > 0 ==> buf@.last() == window[taken - 1]);
    let last = match buf.pop() {
        Some(last) => last,
        None => return Err(Error::new(ErrorKind::MalformedHeader, file_path)),
    };
    if last != delimiter {
        return Err(Error::new(ErrorKind::MalformedHeader, file_path));
    }
    assert(buf@ =~= window.take(taken - 1));
    proof {
        if all_digits(unsigned_part(buf@)) {
            lemma_digits_value_bound(unsigned_part(buf@));
            lemma_pow10_monotonic(unsigned_part(buf@).len(), 19);
            assert(pow10(19) == 10000000000000000000) by {
                reveal_with_fuel(pow10, 20);
            }
        }
    }
    let size = match parse_u64(buf.as_slice()) {
        Some(size) => size,
        None => return Err(Error::new(ErrorKind::MalformedHeader, file_path)),
    };
    if size > MAX_OBJECT_SIZE {
        return Err(Error::new(ErrorKind::SizeTooLarge, file_path));
    }
    Ok(size)
}

/// Finds the one object whose hash begins with `object`, reads its header
/// and hands back the object with its body still unread.
pub fn find_and_decode_object(store: &ObjectStore, object: &str) -> (res: Result<
    LazyDecodedObject,
    Error,
>)
    ensures
        match find_and_decode(store@, encode_utf8(object@)) {
            Ok(decoded) => res matches Ok(found) && found@ == decoded,
            Err(kind) => res matches Err(e) && e.kind == kind && e.subject@ == failure_subject(
                store@,
                encode_utf8(object@),
            ) && e.entry == 0,
        },
{
    let at = match locate(store, object) {
        Ok(at) => at,
        Err(e) => return Err(e),
    };
    let file = store.file(at);
    let file_path = make_object_path(file.dir.as_str(), file.name.as_str());
    let mut reader = match get_compressed_file_reader(file.data.as_slice(), file_path.as_str()) {
        Ok(reader) => reader,
        Err(e) => return Err(e),
    };
    let ghost content = reader.rest();
    assert(reader.window() =~= content);
    let object_type = match read_object_type(&mut reader, file_path.as_str()) {
        Ok(object_type) => object_type,
        Err(e) => return Err(e),
    };
    proof {
        lemma_scan_until_bound(content, 32, 10);
    }
    assert(reader.window() =~= reader.rest());
    let size = match read_object_size(&mut reader, file_path.as_str()) {
        Ok(size) => size,
        Err(e) => return Err(e),
    };
    Ok(LazyDecodedObject { file_path, object_type, size, reader })
}

/// The full hash of the object whose hash begins with `hash`, provided that
/// object is of the kind `expected_type`.
pub fn validate_existing_hash(store: &ObjectStore, hash: &str, expected_type: ObjectType) -> (res:
    Result<String, Error>)
    ensures
        match validated_hash(store@, encode_utf8(hash@), expected_type) {
            Ok(full) => res matches Ok(found) && found@ == full,
            Err(kind) => res matches Err(e) && e.kind == kind && e.entry == 0 && e.subject@
                == validation_subject(store@, encode_utf8(hash@)),
        },
{
    let object = match find_and_decode_object(store, hash) {
        Ok(object) => object,
        Err(e) => return Err(e),
    };
    if object.object_type != expected_type {
        return Err(Error::new(ErrorKind::WrongObjectType, hash));
    }
    proof {
        let at = lookup(store@, encode_utf8(hash@))->Ok_0;
        lemma_lookup_found(store@, encode_utf8(hash@));
        lemma_object_path_shape(store@[at].dir, store@[at].name);
    }
    let full = get_hash_by_object_path(object.file_path.as_str());
    Ok(full)
}

/// Whether `reader` has nothing more to give.
pub fn is_end_of_reader(reader: ByteReader) -> (res: bool)
    ensures
        res == (reader.rest().len() == 0),
{
    reader.is_exhausted()
}

} // verus!
