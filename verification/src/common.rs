//! Object kinds, tree-entry modes, errors and the layout of the store.

use vstd::prelude::*;
use vstd::pervasive::unreached;
use vstd::string::*;
use vstd::utf8::*;
use crate::text::bytes_eq;

verus! {

/// Directory that holds the repository's control files.
pub const GIT_PATH: &'static str = ".git";

/// Directory below which every object file lives.
pub const OBJECTS_PATH: &'static str = ".git/objects";

/// Largest declared object size that the decoder accepts.
pub const MAX_OBJECT_SIZE: u64 = 1073741824;

/// Who makes the commits.
pub const COMMIT_AUTHOR: &'static str = "test";

/// The address of who makes the commits.
pub const COMMIT_EMAIL: &'static str = "example@example.com";

/// The time zone of the commits.
pub const COMMIT_TIMEZONE: &'static str = "+0400";

/// Length of a hash written as hexadecimal text.
pub const HASH_ENCODED_LEN: usize = 40;

/// Length of a hash as raw bytes.
pub const HASH_RAW_LEN: usize = 20;

/// Number of leading hash characters that name an object's directory.
pub const OBJECT_DIR_LEN: usize = 2;

/// Shortest abbreviation of a hash that a lookup accepts.
pub const MIN_OBJECT_SEARCH_LEN: usize = 4;

/// A value that names no object kind or no entry mode.
#[derive(Debug)]
pub struct ConversionError;

/// The kind of a stored object.
#[derive(Copy, Clone, Debug, PartialEq, Eq, Structural)]
pub enum ObjectType {
    Blob,
    Tree,
    Commit,
    Tag,
}

impl ObjectType {
    /// The word that stands for this kind in an object header. A tag is
    /// written as a blob.
    pub open spec fn name(self) -> Seq<char> {
        match self {
            ObjectType::Blob => "blob"@,
            ObjectType::Tree => "tree"@,
            ObjectType::Commit => "commit"@,
            ObjectType::Tag => "blob"@,
        }
    }

    /// The kind under which an object of this kind is stored: a tag is stored
    /// as a blob.
    pub open spec fn stored_as(self) -> ObjectType {
        match self {
            ObjectType::Tag => ObjectType::Blob,
            _ => self,
        }
    }

    /// The kind that a header word names, if any.
    pub open spec fn from_word(word: Seq<u8>) -> Option<ObjectType> {
        if word == encode_utf8("blob"@) {
            Some(ObjectType::Blob)
        } else if word == encode_utf8("tree"@) {
            Some(ObjectType::Tree)
        } else if word == encode_utf8("commit"@) {
            Some(ObjectType::Commit)
        } else if word == encode_utf8("tag"@) {
            Some(ObjectType::Tag)
        } else {
            None
        }
    }

    /// The word that stands for this kind in an object header.
    pub fn to_str(&self) -> (res: &'static str)
        ensures
            res@ == self.name(),
    {
        match self {
            ObjectType::Blob => "blob",
            ObjectType::Tree => "tree",
            ObjectType::Commit => "commit",
            ObjectType::Tag => "blob",
        }
    }

    /// Reads a header word: `blob`, `tree`, `commit` or `tag`.
    pub fn try_from(value: &[u8]) -> (res: Result<ObjectType, ConversionError>)
        ensures
            res is Ok <==> ObjectType::from_word(value@) is Some,
            res matches Ok(kind) ==> ObjectType::from_word(value@) == Some(kind),
    {
        if bytes_eq(value, "blob".as_bytes()) {
            Ok(ObjectType::Blob)
        } else if bytes_eq(value, "tree".as_bytes()) {
            Ok(ObjectType::Tree)
        } else if bytes_eq(value, "commit".as_bytes()) {
            Ok(ObjectType::Commit)
        } else if bytes_eq(value, "tag".as_bytes()) {
            Ok(ObjectType::Tag)
        } else {
            Err(ConversionError)
        }
    }
}

/// What a tree entry points at, and how the file it stands for may be used.
#[derive(Copy, Clone, Debug, PartialEq, Eq, Structural)]
pub enum ObjectMode {
    Normal,
    Executable,
    Symlink,
    Tree,
}

impl ObjectMode {
    /// The number that stands for this mode in a tree entry.
    pub open spec fn spec_code(self) -> nat {
        match self {
            ObjectMode::Normal => 100644,
            ObjectMode::Executable => 100755,
            ObjectMode::Symlink => 120000,
            ObjectMode::Tree => 40000,
        }
    }

    /// The mode that a number stands for, if any.
    pub open spec fn from_code(value: nat) -> Option<ObjectMode> {
        if value == 100644 {
            Some(ObjectMode::Normal)
        } else if value == 100755 {
            Some(ObjectMode::Executable)
        } else if value == 120000 {
            Some(ObjectMode::Symlink)
        } else if value == 40000 {
            Some(ObjectMode::Tree)
        } else {
            None
        }
    }

    /// The kind of object that an entry of this mode points at.
    pub open spec fn spec_type(self) -> ObjectType {
        match self {
            ObjectMode::Tree => ObjectType::Tree,
            _ => ObjectType::Blob,
        }
    }

    /// The number that stands for this mode in a tree entry.
    pub fn code(&self) -> (res: usize)
        ensures
            res == self.spec_code(),
    {
        match self {
            ObjectMode::Normal => 100644,
            ObjectMode::Executable => 100755,
            ObjectMode::Symlink => 120000,
            ObjectMode::Tree => 40000,
        }
    }

    /// The kind of object that an entry of this mode points at. Symbolic
    /// links are not supported, so their mode has none.
    pub fn get_type(&self) -> (res: ObjectType)
        requires
            !(self is Symlink),
        ensures
            res == self.spec_type(),
    {
        match self {
            ObjectMode::Tree => ObjectType::Tree,
            ObjectMode::Normal => ObjectType::Blob,
            ObjectMode::Executable => ObjectType::Blob,
            ObjectMode::Symlink => unreached(),
        }
    }

    /// The mode that a number stands for.
    pub fn try_from(value: usize) -> (res: Result<ObjectMode, ConversionError>)
        ensures
            res is Ok <==> ObjectMode::from_code(value as nat) is Some,
            res matches Ok(mode) ==> ObjectMode::from_code(value as nat) == Some(mode),
    {
        if value == 100644 {
            Ok(ObjectMode::Normal)
        } else if value == 100755 {
            Ok(ObjectMode::Executable)
        } else if value == 120000 {
            Ok(ObjectMode::Symlink)
        } else if value == 40000 {
            Ok(ObjectMode::Tree)
        } else {
            Err(ConversionError)
        }
    }
}

/// One line of a tree: what a name in a directory stands for.
#[derive(Debug, PartialEq)]
pub struct TreeItem {
    pub mode: ObjectMode,
    pub file_name: Vec<u8>,
    /// The entry's object, as 40 hexadecimal digits.
    pub hash: String,
}

/// What the contracts say of a tree entry.
pub ghost struct TreeItemView {
    pub mode: ObjectMode,
    pub file_name: Seq<u8>,
    pub hash: Seq<char>,
}

impl View for TreeItem {
    type V = TreeItemView;

    open spec fn view(&self) -> TreeItemView {
        TreeItemView { mode: self.mode, file_name: self.file_name@, hash: self.hash@ }
    }
}

/// Why an operation failed.
#[derive(Copy, Clone, Debug, PartialEq, Eq, Structural)]
pub enum ErrorKind {
    /// A hash or an abbreviation of one is shorter than 4 or longer than 40.
    InvalidHashLength,
    /// No object begins with the given characters.
    NotFound,
    /// More than one object begins with the given characters.
    AmbiguousHash,
    /// An object's header lacks its kind or its size.
    MalformedHeader,
    /// An object's header names a kind that does not exist.
    UnknownObjectType,
    /// An object declares a size above the limit.
    SizeTooLarge,
    /// An object's content is not as long as declared.
    SizeMismatch,
    /// An object's content goes on after its declared size.
    TrailingData,
    /// A tree's content ends inside an entry or goes on after its declared
    /// size.
    ParseTruncated,
    /// A tree entry has an empty mode or an empty name.
    EmptyNameOrMode,
    /// A tree entry's mode is no number or no known mode.
    UnknownMode,
    /// An object is of another kind than the operation needs.
    WrongObjectType,
    /// A directory holds a symbolic link.
    UnimplementedSymlink,
    /// A directory holds no file, directly or below it.
    EmptyTree,
    /// A directory holds something that is neither file nor directory.
    UnsupportedFile,
    /// An object file is no readable zlib stream.
    CorruptObject,
    /// The compressor reported a failure.
    CompressionFailed,
}

/// A failure, with what it is about.
#[derive(Debug)]
pub struct Error {
    pub kind: ErrorKind,
    /// The hash, path or file name that the failure is about.
    pub subject: Vec<u8>,
    /// For a failure inside a tree, the number of the entry, counted from 1;
    /// otherwise 0.
    pub entry: usize,
}

impl Error {
    /// A failure about the text `subject`.
    pub fn new(kind: ErrorKind, subject: &str) -> (res: Error)
        ensures
            res.kind == kind,
            res.subject@ == encode_utf8(subject@),
            res.entry == 0,
    {
        Error { kind, subject: subject.as_bytes_vec(), entry: 0 }
    }

    /// A failure at entry `entry` of the tree `subject`.
    pub fn at_entry(kind: ErrorKind, subject: &str, entry: usize) -> (res: Error)
        ensures
            res.kind == kind,
            res.subject@ == encode_utf8(subject@),
            res.entry == entry,
    {
        Error { kind, subject: subject.as_bytes_vec(), entry }
    }
}

/// The path of the object file that `dir` and `name` stand for.
pub open spec fn object_path(dir: Seq<char>, name: Seq<char>) -> Seq<char> {
    OBJECTS_PATH@ + seq!['/'] + dir + seq!['/'] + name
}

/// Where the first `/` of `s` stands, or the length of `s` where it has none.
pub open spec fn first_slash(s: Seq<char>) -> int
    decreases s.len(),
{
    if s.len() == 0 {
        0
    } else if s[0] == '/' {
        0
    } else {
        1 + first_slash(s.skip(1))
    }
}

/// The hash that an object file's path stands for: what follows the objects
/// directory and its `/`, without the `/` between directory and file name.
pub open spec fn hash_of_path(path: Seq<char>) -> Seq<char> {
    let tail = path.skip(OBJECTS_PATH@.len() as int + 1);
    let slash = first_slash(tail);
    tail.take(slash) + tail.skip(slash + 1)
}

/// The path of the object file named by `hash`: its first two characters
/// name the directory, the others the file.
pub fn get_object_path_by_hash(hash: &str) -> (res: String)
    requires
        hash@.len() >= 2,
        is_ascii_chars(hash@.take(2)),
    ensures
        res@ == object_path(hash@.take(2), hash@.skip(2)),
{
    let len = hash.unicode_len();
    let dir = hash.substring_char(0, 2);
    let name = hash.substring_char(2, len);
    make_object_path(dir, name)
}

/// The hash that the path of an object file stands for. The path begins with
/// the objects directory and a `/`, 13 ASCII characters that are not looked
/// at, and holds another `/` after them.
pub fn get_hash_by_object_path(file_path: &str) -> (res: String)
    requires
        file_path@.len() > OBJECTS_PATH@.len(),
        is_ascii_chars(file_path@.take(OBJECTS_PATH@.len() as int + 1)),
        first_slash(file_path@.skip(OBJECTS_PATH@.len() as int + 1)) < file_path@.len()
            - OBJECTS_PATH@.len() - 1,
    ensures
        res@ == hash_of_path(file_path@),
{
    let len = file_path.unicode_len();
    let start = OBJECTS_PATH.unicode_len() + 1;
    let ghost tail = file_path@.skip(start as int);
    let mut slash = start;
    assert(tail.skip(0) == tail);
    while file_path.get_char(slash) != '/'
        invariant
            start <= slash < len,
            len == file_path@.len(),
            tail == file_path@.skip(start as int),
            first_slash(tail) == (slash - start) + first_slash(tail.skip(slash - start)),
            first_slash(tail.skip(slash - start)) < len - slash,
        decreases len - slash,
    {
        assert(tail.skip(slash - start)[0] == file_path@[slash as int]);
        assert(tail.skip(slash - start).skip(1) == tail.skip(slash - start + 1));
        proof {
            lemma_first_slash_range(tail.skip(slash - start + 1));
        }
        slash += 1;
    }
    assert(tail.skip(slash - start)[0] == file_path@[slash as int]);
    let dir = file_path.substring_char(start, slash);
    let name = file_path.substring_char(slash + 1, len);
    let mut hash = dir.to_owned();
    hash.append(name);
    assert(hash@ =~= hash_of_path(file_path@));
    hash
}

/// Taking the hash out of an object file's path gives directory and file
/// name in one, provided the directory's name holds no `/`.
pub proof fn lemma_hash_of_object_path(dir: Seq<char>, name: Seq<char>)
    requires
        forall|i: int| 0 <= i < dir.len() ==> dir[i] != '/',
    ensures
        hash_of_path(object_path(dir, name)) == dir + name,
        first_slash(object_path(dir, name).skip(OBJECTS_PATH@.len() as int + 1)) == dir.len(),
        object_path(dir, name).len() == OBJECTS_PATH@.len() + 2 + dir.len() + name.len(),
{
    let path = object_path(dir, name);
    let tail = path.skip(OBJECTS_PATH@.len() as int + 1);
    assert(tail =~= dir + seq!['/'] + name);
    lemma_first_slash(dir, name);
    assert(tail.take(dir.len() as int) =~= dir);
    assert(tail.skip(dir.len() as int + 1) =~= name);
}

/// The first `/` of a text that holds none before a certain `/` is that one.
pub proof fn lemma_first_slash(head: Seq<char>, tail: Seq<char>)
    requires
        forall|i: int| 0 <= i < head.len() ==> head[i] != '/',
    ensures
        first_slash(head + seq!['/'] + tail) == head.len(),
    decreases head.len(),
{
    let s = head + seq!['/'] + tail;
    if head.len() == 0 {
        assert(s[0] == '/');
    } else {
        assert(s[0] == head[0]);
        assert(s.skip(1) =~= head.skip(1) + seq!['/'] + tail);
        lemma_first_slash(head.skip(1), tail);
    }
}

/// The first `/` of a text stands inside the text or at its end.
pub proof fn lemma_first_slash_range(s: Seq<char>)
    ensures
        0 <= first_slash(s) <= s.len(),
    decreases s.len(),
{
    if s.len() != 0 && s[0] != '/' {
        lemma_first_slash_range(s.skip(1));
    }
}

/// The first `/` of a text stands at or before any of its `/`.
pub proof fn lemma_first_slash_bound(s: Seq<char>, at: int)
    requires
        0 <= at < s.len(),
        s[at] == '/',
    ensures
        0 <= first_slash(s) <= at,
    decreases s.len(),
{
    if s[0] != '/' {
        lemma_first_slash_bound(s.skip(1), at - 1);
    }
}

/// The path of the object file `name` in the directory `dir`.
pub fn make_object_path(dir: &str, name: &str) -> (res: String)
    ensures
        res@ == object_path(dir@, name@),
{
    let mut path = OBJECTS_PATH.to_owned();
    path.append("/");
    path.append(dir);
    path.append("/");
    path.append(name);
    proof {
        reveal_strlit("/");
        assert("/"@ =~= seq!['/']);
    }
    path
}

} // verus!
