//! The object files of a repository, held in memory.

use vstd::prelude::*;
use vstd::string::*;
use vstd::utf8::*;
use crate::text::bytes_eq;

verus! {

/// One object file: `objects/<dir>/<name>` and what it holds.
pub struct StoredObject {
    pub dir: String,
    pub name: String,
    /// The file's bytes as they are on disk: a zlib stream.
    pub data: Vec<u8>,
}

/// What the contracts say of an object file.
pub ghost struct FileView {
    pub dir: Seq<char>,
    pub name: Seq<char>,
    pub data: Seq<u8>,
}

impl View for StoredObject {
    type V = FileView;

    open spec fn view(&self) -> FileView {
        FileView { dir: self.dir@, name: self.name@, data: self.data@ }
    }
}

/// Where the file `dir`/`name` stands in `files`: the index of the first
/// entry of that name, or the length of `files` where there is none.
pub open spec fn key_index(files: Seq<FileView>, dir: Seq<char>, name: Seq<char>) -> int
    decreases files.len(),
{
    if files.len() == 0 {
        0
    } else if files[0].dir == dir && files[0].name == name {
        0
    } else {
        1 + key_index(files.skip(1), dir, name)
    }
}

/// `files` after `entry` was written: it takes the place of a file of the
/// same directory and name, or else comes last.
pub open spec fn put(files: Seq<FileView>, entry: FileView) -> Seq<FileView> {
    let at = key_index(files, entry.dir, entry.name);
    if at < files.len() {
        files.update(at, entry)
    } else {
        files.push(entry)
    }
}

/// No two files share directory and name.
pub open spec fn unique_names(files: Seq<FileView>) -> bool {
    forall|i: int, j: int|
        0 <= i < j < files.len() ==> !(#[trigger] files[i].dir == #[trigger] files[j].dir
            && files[i].name == files[j].name)
}

/// `key_index` finds an entry of the wanted name, and none stands before it.
pub proof fn lemma_key_index(files: Seq<FileView>, dir: Seq<char>, name: Seq<char>)
    ensures
        0 <= key_index(files, dir, name) <= files.len(),
        key_index(files, dir, name) < files.len() ==> {
            let at = key_index(files, dir, name);
            files[at].dir == dir && files[at].name == name
        },
        forall|i: int|
            0 <= i < key_index(files, dir, name) ==> !(#[trigger] files[i].dir == dir && files[i].name
                == name),
    decreases files.len(),
{
    if files.len() != 0 && !(files[0].dir == dir && files[0].name == name) {
        let tail = files.skip(1);
        lemma_key_index(tail, dir, name);
        assert forall|i: int| 0 <= i < key_index(files, dir, name) implies !(
        #[trigger] files[i].dir == dir && files[i].name == name) by {
            if i > 0 {
                assert(files[i] == tail[i - 1]);
            }
        }
    }
}

/// Writing a file keeps the names of a store distinct.
pub proof fn lemma_put_unique(files: Seq<FileView>, entry: FileView)
    requires
        unique_names(files),
    ensures
        unique_names(put(files, entry)),
{
    lemma_key_index(files, entry.dir, entry.name);
    let at = key_index(files, entry.dir, entry.name);
    let after = put(files, entry);
    assert forall|i: int, j: int| 0 <= i < j < after.len() implies !(#[trigger] after[i].dir
        == #[trigger] after[j].dir && after[i].name == after[j].name) by {
        if at < files.len() {
            if i == at {
                assert(files[at].dir == files[j].dir ==> files[at].name != files[j].name);
            } else if j == at {
                assert(files[i].dir == files[at].dir ==> files[i].name != files[at].name);
            } else {
                assert(files[i].dir == files[j].dir ==> files[i].name != files[j].name);
            }
        } else {
            if j == files.len() {
                assert(!(files[i].dir == entry.dir && files[i].name == entry.name));
            } else {
                assert(files[i].dir == files[j].dir ==> files[i].name != files[j].name);
            }
        }
    }
}

/// Two texts with the same bytes are the same text.
pub proof fn lemma_same_bytes_same_text(a: Seq<char>, b: Seq<char>)
    requires
        encode_utf8(a) == encode_utf8(b),
    ensures
        a == b,
{
    encode_utf8_decode_utf8(a);
    encode_utf8_decode_utf8(b);
}

/// Whether two texts are the same.
pub fn text_eq(a: &str, b: &str) -> (res: bool)
    ensures
        res == (a@ == b@),
{
    let same = bytes_eq(a.as_bytes(), b.as_bytes());
    proof {
        if same {
            lemma_same_bytes_same_text(a@, b@);
        }
    }
    same
}

/// The object files that an operation reads and writes. Taken from disk
/// before the operation and brought back to disk after it.
pub struct ObjectStore {
    files: Vec<StoredObject>,
}

impl View for ObjectStore {
    type V = Seq<FileView>;

    closed spec fn view(&self) -> Seq<FileView> {
        Seq::new(self.files@.len(), |i: int| self.files@[i]@)
    }
}

impl ObjectStore {
    /// No two files of the store share directory and name.
    pub open spec fn wf(&self) -> bool {
        unique_names(self@)
    }

    /// A store without files.
    pub fn new() -> (res: ObjectStore)
        ensures
            res@ == Seq::<FileView>::empty(),
            res.wf(),
    {
        let res = ObjectStore { files: Vec::new() };
        assert(res@ =~= Seq::<FileView>::empty());
        res
    }

    /// The number of files.
    pub fn len(&self) -> (res: usize)
        ensures
            res == self@.len(),
    {
        self.files.len()
    }

    /// The file at `index`.
    pub fn file(&self, index: usize) -> (res: &StoredObject)
        requires
            index < self@.len(),
        ensures
            res@ == self@[index as int],
    {
        &self.files[index]
    }

    /// Where the file `dir`/`name` stands, if the store holds it.
    pub fn position(&self, dir: &str, name: &str) -> (res: Option<usize>)
        ensures
            match res {
                Some(at) => at == key_index(self@, dir@, name@) && at < self@.len(),
                None => key_index(self@, dir@, name@) == self@.len(),
            },
    {
        let mut i: usize = 0;
        assert(self@.skip(0) == self@);
        while i < self.files.len()
            invariant
                i <= self.files.len(),
                key_index(self@, dir@, name@) == i + key_index(self@.skip(i as int), dir@, name@),
            decreases self.files.len() - i,
        {
            let file = &self.files[i];
            assert(self@.skip(i as int)[0] == file@);
            if text_eq(file.dir.as_str(), dir) && text_eq(file.name.as_str(), name) {
                return Some(i);
            }
            assert(self@.skip(i as int).skip(1) == self@.skip(i + 1));
            i += 1;
        }
        None
    }

    /// Writes a file: it takes the place of a file of the same directory and
    /// name, or else comes last.
    pub fn insert(&mut self, dir: String, name: String, data: Vec<u8>)
        ensures
            final(self)@ == put(
                old(self)@,
                FileView { dir: dir@, name: name@, data: data@ },
            ),
            old(self).wf() ==> final(self).wf(),
    {
        let ghost entry = FileView { dir: dir@, name: name@, data: data@ };
        proof {
            lemma_key_index(self@, dir@, name@);
            if self.wf() {
                lemma_put_unique(self@, entry);
            }
        }
        let at = self.position(dir.as_str(), name.as_str());
        let file = StoredObject { dir, name, data };
        match at {
            Some(at) => {
                self.files.set(at, file);
                assert(self@ =~= old(self)@.update(at as int, entry));
            },
            None => {
                self.files.push(file);
                assert(self@ =~= old(self)@.push(entry));
            },
        }
    }
}

} // verus!
