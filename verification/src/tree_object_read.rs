//! Reading the entries of a tree, one after the other.

use vstd::prelude::*;
use vstd::utf8::*;
use crate::codec::{hex_encode, hex_text};
use crate::common::{Error, ErrorKind, ObjectMode, ObjectType, TreeItem, TreeItemView, HASH_RAW_LEN};
use crate::object_read::{is_end_of_reader, LazyDecodedObject};
use crate::reader::{lemma_scan_until_bound, scan_until, ByteReader};
use crate::text::{parse_number, parse_u64};

verus! {

/// The mode at the start of `window`: the bytes before the first space,
/// which is among the first 10 bytes. `None` where the window is empty.
pub open spec fn mode_field(window: Seq<u8>) -> Result<Option<Seq<u8>>, ErrorKind> {
    let taken = scan_until(window, 32, 10);
    if taken == 0 {
        Ok(None)
    } else if window[taken - 1] != 32 {
        Err(ErrorKind::ParseTruncated)
    } else if taken == 1 {
        Err(ErrorKind::EmptyNameOrMode)
    } else {
        Ok(Some(window.take(taken - 1)))
    }
}

/// The name at the start of `window`: the bytes before the first zero byte.
pub open spec fn name_field(window: Seq<u8>) -> Result<Seq<u8>, ErrorKind> {
    let taken = scan_until(window, 0, u64::MAX as nat);
    if taken == 0 || window[taken - 1] != 0 {
        Err(ErrorKind::ParseTruncated)
    } else if taken == 1 {
        Err(ErrorKind::EmptyNameOrMode)
    } else {
        Ok(window.take(taken - 1))
    }
}

/// The hash at the start of `window`: its first 20 bytes in hexadecimal.
pub open spec fn hash_field(window: Seq<u8>) -> Result<Seq<char>, ErrorKind> {
    if window.len() < 20 {
        Err(ErrorKind::ParseTruncated)
    } else {
        Ok(hex_text(window.take(20)))
    }
}

/// The mode that the text of a mode field stands for.
pub open spec fn mode_of_text(text: Seq<u8>) -> Result<ObjectMode, ErrorKind> {
    match parse_number(text) {
        None => Err(ErrorKind::UnknownMode),
        Some(value) => match ObjectMode::from_code(value) {
            None => Err(ErrorKind::UnknownMode),
            Some(mode) => Ok(mode),
        },
    }
}

/// The entry at the start of `rest`, of which `left` bytes belong to the
/// tree, and the number of bytes that it takes. `None` where the tree ends
/// here: nothing is left of it and nothing follows it.
pub open spec fn parse_entry(rest: Seq<u8>, left: nat) -> Result<
    Option<(TreeItemView, nat)>,
    ErrorKind,
> {
    let window = rest.take(
        if left <= rest.len() {
            left as int
        } else {
            rest.len() as int
        },
    );
    match mode_field(window) {
        Err(kind) => Err(kind),
        Ok(None) => if rest.len() == 0 {
            Ok(None)
        } else {
            Err(ErrorKind::ParseTruncated)
        },
        Ok(Some(text)) => match mode_of_text(text) {
            Err(kind) => Err(kind),
            Ok(mode) => {
                let after_mode = window.skip(text.len() as int + 1);
                match name_field(after_mode) {
                    Err(kind) => Err(kind),
                    Ok(file_name) => {
                        let after_name = after_mode.skip(file_name.len() as int + 1);
                        match hash_field(after_name) {
                            Err(kind) => Err(kind),
                            Ok(hash) => Ok(
                                Some(
                                    (
                                        TreeItemView { mode, file_name, hash },
                                        text.len() + 1 + file_name.len() + 1 + 20,
                                    ),
                                ),
                            ),
                        }
                    },
                }
            },
        },
    }
}

/// What the contracts say of each of `items`.
pub open spec fn item_views(items: Seq<TreeItem>) -> Seq<TreeItemView> {
    Seq::new(items.len(), |i: int| items[i]@)
}

/// What the contracts say of a tree that is being read.
pub ghost struct TreeReadView {
    pub file_path: Seq<char>,
    pub size: u64,
    /// The bytes that are still to be read, or `None` once the reading has
    /// ended or failed.
    pub rest: Option<Seq<u8>>,
    /// How many of those bytes belong to the tree.
    pub left: nat,
    /// The number of entries that were asked for.
    pub entry_no: nat,
}

/// The tree after one more entry was asked for, and what the asking gave:
/// an entry, the end of the tree, or a failure. After the end and after a
/// failure nothing more is read.
pub open spec fn step(tree: TreeReadView) -> (TreeReadView, Result<Option<TreeItemView>, ErrorKind>) {
    match tree.rest {
        None => (tree, Ok(None)),
        Some(rest) => {
            let asked = TreeReadView { entry_no: tree.entry_no + 1, ..tree };
            match parse_entry(rest, tree.left) {
                Ok(Some((item, taken))) => (
                    TreeReadView {
                        rest: Some(rest.skip(taken as int)),
                        left: (tree.left - taken) as nat,
                        ..asked
                    },
                    Ok(Some(item)),
                ),
                Ok(None) => (TreeReadView { rest: None, ..asked }, Ok(None)),
                Err(kind) => (TreeReadView { rest: None, ..asked }, Err(kind)),
            }
        },
    }
}

/// How much of a tree is still to be read.
pub open spec fn unread(tree: TreeReadView) -> nat {
    match tree.rest {
        Some(rest) => rest.len() + 1,
        None => 0,
    }
}

/// The entries of a tree that are still to be read, how the reading ends,
/// and the tree after it: the entries before a failure are read all the
/// same.
pub open spec fn entries(tree: TreeReadView) -> (
    Seq<TreeItemView>,
    Result<(), ErrorKind>,
    TreeReadView,
)
    decreases unread(tree),
{
    let (next, got) = step(tree);
    match got {
        Err(kind) => (Seq::empty(), Err(kind), next),
        Ok(None) => (Seq::empty(), Ok(()), next),
        Ok(Some(item)) => if unread(next) < unread(tree) {
            let (more, ended, last) = entries(next);
            (seq![item] + more, ended, last)
        } else {
            (seq![item], Ok(()), next)
        },
    }
}

/// An entry takes at least 24 bytes, and no more than are left.
pub proof fn lemma_entry_taken(rest: Seq<u8>, left: nat)
    requires
        parse_entry(rest, left) matches Ok(Some(_)),
    ensures
        24 <= (parse_entry(rest, left)->Ok_0->0).1 <= rest.len(),
        (parse_entry(rest, left)->Ok_0->0).1 <= left,
{
    let window = rest.take(
        if left <= rest.len() {
            left as int
        } else {
            rest.len() as int
        },
    );
    lemma_scan_until_bound(window, 32, 10);
    let text = mode_field(window)->Ok_0->0;
    let after_mode = window.skip(text.len() as int + 1);
    lemma_scan_until_bound(after_mode, 0, u64::MAX as nat);
}

/// Reading one more entry leaves less of the tree to read.
pub proof fn lemma_step_reads(tree: TreeReadView)
    requires
        step(tree).1 matches Ok(Some(_)),
    ensures
        unread(step(tree).0) < unread(tree),
{
    lemma_entry_taken(tree.rest->0, tree.left);
}

/// The entries of a tree, read one after the other from the body of the
/// object.
pub struct TreeObjectIterator {
    pub file_path: String,
    pub size: u64,
    reader: Option<ByteReader>,
    entry_no: usize,
    bytes_read: u64,
}

impl View for TreeObjectIterator {
    type V = TreeReadView;

    closed spec fn view(&self) -> TreeReadView {
        TreeReadView {
            file_path: self.file_path@,
            size: self.size,
            rest: match self.reader {
                Some(reader) => Some(reader.rest()),
                None => None,
            },
            left: if self.bytes_read <= self.size {
                (self.size - self.bytes_read) as nat
            } else {
                0
            },
            entry_no: self.entry_no as nat,
        }
    }
}

impl TreeObjectIterator {
    /// The counters agree with what was read.
    pub closed spec fn wf(&self) -> bool {
        &&& self.bytes_read <= self.size
        &&& self.reader matches Some(reader) ==> self.entry_no * 22 <= self.bytes_read
            && self.bytes_read + reader.rest().len() <= usize::MAX
    }

    /// The entries of `object`, provided it is a tree.
    pub fn from_decoded_object(object: LazyDecodedObject) -> (res: Option<TreeObjectIterator>)
        ensures
            res is Some <==> object@.object_type == ObjectType::Tree,
            res matches Some(entries) ==> entries.wf() && entries@ == (TreeReadView {
                file_path: object@.file_path,
                size: object@.size,
                rest: Some(object@.body),
                left: object@.size as nat,
                entry_no: 0,
            }),
    {
        let (file_path, object_type, size, reader) = object.destruct();
        if object_type == ObjectType::Tree {
            proof {
                reader.lemma_rest_len();
            }
            let res = TreeObjectIterator {
                file_path,
                size,
                reader: Some(reader),
                entry_no: 0,
                bytes_read: 0,
            };
            Some(res)
        } else {
            None
        }
    }

    /// Asks for the next entry. Gives `None` at the end of the tree and ever
    /// after, and after a failure.
    pub fn parse(&mut self) -> (res: Result<Option<TreeItem>, Error>)
        requires
            old(self).wf(),
        ensures
            final(self).wf(),
            final(self)@ == step(old(self)@).0,
            match step(old(self)@).1 {
                Ok(Some(item)) => res matches Ok(Some(found)) && found@ == item,
                Ok(None) => res matches Ok(None),
                Err(kind) => res matches Err(e) && e.kind == kind && e.subject@ == encode_utf8(
                    old(self)@.file_path,
                ) && e.entry == old(self)@.entry_no + 1,
            },
    {
        self.parse_inner()
    }

    /// Reads one entry through a window of as many bytes as are left of the
    /// tree. Lets go of the reader at the end of the tree and on a failure.
    fn parse_inner(&mut self) -> (res: Result<Option<TreeItem>, Error>)
        requires
            old(self).wf(),
        ensures
            final(self).wf(),
            final(self)@ == step(old(self)@).0,
            match step(old(self)@).1 {
                Ok(Some(item)) => res matches Ok(Some(found)) && found@ == item,
                Ok(None) => res matches Ok(None),
                Err(kind) => res matches Err(e) && e.kind == kind && e.subject@ == encode_utf8(
                    old(self)@.file_path,
                ) && e.entry == old(self)@.entry_no + 1,
            },
    {
        let mut reader = match self.reader.take() {
            Some(reader) => reader,
            None => return Ok(None),
        };
        let ghost rest = reader.rest();
        let size_left = self.size - self.bytes_read;
        reader.limit(size_left);
        let ghost window = reader.window();
        proof {
            reader.lemma_window();
            lemma_scan_until_bound(window, 32, 10);
        }
        self.entry_no += 1;
        let mode = match Self::parse_mode(&mut reader, self.entry_no, &self.file_path) {
            Ok(mode) => mode,
            Err(e) => return Err(e),
        };
        let mode = match mode {
            Some(mode) => mode,
            None => {
                if is_end_of_reader(reader) {
                    return Ok(None);
                } else {
                    return Err(
                        Error::at_entry(
                            ErrorKind::ParseTruncated,
                            self.file_path.as_str(),
                            self.entry_no,
                        ),
                    );
                }
            },
        };
        let mode_len = mode.len();
        let ghost after_mode = window.skip(mode_len as int + 1);
        assert(reader.window() =~= after_mode);
        let mode = match Self::parse_mode_text(mode.as_slice(), self.entry_no, &self.file_path) {
            Ok(mode) => mode,
            Err(e) => return Err(e),
        };
        proof {
            lemma_scan_until_bound(after_mode, 0, u64::MAX as nat);
        }
        let file_name = match Self::parse_name(&mut reader, self.entry_no, &self.file_path) {
            Ok(file_name) => file_name,
            Err(e) => return Err(e),
        };
        let ghost after_name = after_mode.skip(file_name@.len() as int + 1);
        assert(reader.window() =~= after_name);
        let hash = match Self::parse_sha(&mut reader, self.entry_no, &self.file_path) {
            Ok(hash) => hash,
            Err(e) => return Err(e),
        };
        let bytes_read = mode_len + 1 + file_name.len() + 1 + HASH_RAW_LEN;
        self.bytes_read += bytes_read as u64;
        assert(reader.rest() =~= rest.skip(bytes_read as int));
        self.reader = Some(reader);
        let res = TreeItem { mode, file_name, hash };
        Ok(Some(res))
    }

    /// The next entry of the tree, `None` at its end.
    pub fn next(&mut self) -> (res: Option<Result<TreeItem, Error>>)
        requires
            old(self).wf(),
        ensures
            final(self).wf(),
            final(self)@ == step(old(self)@).0,
            match step(old(self)@).1 {
                Ok(Some(item)) => res matches Some(Ok(found)) && found@ == item,
                Ok(None) => res is None,
                Err(kind) => res matches Some(Err(e)) && e.kind == kind && e.subject@
                    == encode_utf8(old(self)@.file_path) && e.entry == old(self)@.entry_no + 1,
            },
    {
        let res = self.parse();
        match res {
            Ok(Some(x)) => Some(Ok(x)),
            Ok(None) => None,
            Err(x) => Some(Err(x)),
        }
    }

    /// The path of the object file that the tree is read from.
    pub fn tree_path(&self) -> (res: &str)
        ensures
            res@ == self@.file_path,
    {
        self.file_path.as_str()
    }

    /// The number of entries that were asked for.
    pub fn entries_asked(&self) -> (res: usize)
        ensures
            res == self@.entry_no,
    {
        self.entry_no
    }

    /// Reads every entry that is still to be read and appends it to `items`.
    /// The entries before a failure are appended all the same.
    pub fn read_entries(&mut self, items: &mut Vec<TreeItem>) -> (res: Result<(), Error>)
        requires
            old(self).wf(),
        ensures
            final(self).wf(),
            final(self)@ == entries(old(self)@).2,
            item_views(final(items)@) == item_views(old(items)@) + entries(old(self)@).0,
            match entries(old(self)@).1 {
                Ok(()) => res is Ok,
                Err(kind) => res matches Err(e) && e.kind == kind && e.subject@ == encode_utf8(
                    old(self)@.file_path,
                ) && e.entry == final(self)@.entry_no,
            },
    {
        let ghost read: Seq<TreeItemView> = Seq::empty();
        assert(item_views(items@) =~= item_views(old(items)@) + read);
        loop
            invariant
                self.wf(),
                self@.file_path == old(self)@.file_path,
                item_views(items@) == item_views(old(items)@) + read,
                entries(old(self)@) == (
                    read + entries(self@).0,
                    entries(self@).1,
                    entries(self@).2,
                ),
            decreases unread(self@),
        {
            let ghost before = self@;
            let item = match self.next() {
                None => {
                    assert(read + Seq::<TreeItemView>::empty() =~= read);
                    return Ok(());
                },
                Some(Err(e)) => {
                    assert(read + Seq::<TreeItemView>::empty() =~= read);
                    return Err(e);
                },
                Some(Ok(item)) => item,
            };
            proof {
                lemma_step_reads(before);
                assert(read + (seq![item@] + entries(self@).0) =~= (read + seq![item@]) + entries(
                    self@,
                ).0);
                read = read + seq![item@];
            }
            let ghost earlier = items@;
            items.push(item);
            assert(item_views(items@) =~= item_views(earlier) + seq![item@]);
        }
    }

    /// Reads the mode of an entry, up to and including the space after it.
    /// Gives `None` where there is nothing to read.
    pub fn parse_mode(reader: &mut ByteReader, entry: usize, file_path: &String) -> (res: Result<
        Option<Vec<u8>>,
        Error,
    >)
        ensures
            final(reader).rest() == old(reader).rest().skip(
                scan_until(old(reader).window(), 32, 10) as int,
            ),
            final(reader).window_len() == old(reader).window_len() - scan_until(
                old(reader).window(),
                32,
                10,
            ),
            match mode_field(old(reader).window()) {
                Ok(Some(text)) => res matches Ok(Some(found)) && found@ == text,
                Ok(None) => res matches Ok(None),
                Err(kind) => res matches Err(e) && e.kind == kind && e.subject@ == encode_utf8(
                    file_path@,
                ) && e.entry == entry,
            },
    {
        let delimiter: u8 = 32;
        let ghost window = reader.window();
        let ghost taken = scan_until(window, 32, 10) as int;
        proof {
            lemma_scan_until_bound(window, 32, 10);
        }
        let mut buffer = reader.read_until(delimiter, 10);
        assert(taken > 0 ==> buffer@.last() == window[taken - 1]);
        let last = match buffer.pop() {
            Some(last) => last,
            None => return Ok(None),
        };
        if last != delimiter {
            return Err(Error::at_entry(ErrorKind::ParseTruncated, file_path.as_str(), entry));
        }
        if buffer.len() == 0 {
            return Err(Error::at_entry(ErrorKind::EmptyNameOrMode, file_path.as_str(), entry));
        }
        assert(buffer@ =~= window.take(taken - 1));
        Ok(Some(buffer))
    }

    /// Reads the name of an entry, up to and including the zero byte after
    /// it.
    pub fn parse_name(reader: &mut ByteReader, entry: usize, file_path: &String) -> (res: Result<
        Vec<u8>,
        Error,
    >)
        ensures
            final(reader).rest() == old(reader).rest().skip(
                scan_until(old(reader).window(), 0, u64::MAX as nat) as int,
            ),
            final(reader).window_len() == old(reader).window_len() - scan_until(
                old(reader).window(),
                0,
                u64::MAX as nat,
            ),
            match name_field(old(reader).window()) {
                Ok(name) => res matches Ok(found) && found@ == name,
                Err(kind) => res matches Err(e) && e.kind == kind && e.subject@ == encode_utf8(
                    file_path@,
                ) && e.entry == entry,
            },
    {
        let name_delimiter: u8 = 0;
        let ghost window = reader.window();
        let ghost taken = scan_until(window, 0, u64::MAX as nat) as int;
        proof {
            lemma_scan_until_bound(window, 0, u64::MAX as nat);
        }
        let mut buffer = reader.read_until(name_delimiter, u64::MAX);
        assert(taken > 0 ==> buffer@.last() == window[taken - 1]);
        let last = match buffer.pop() {
            Some(last) => last,
            None => return Err(
                Error::at_entry(ErrorKind::ParseTruncated, file_path.as_str(), entry),
            ),
        };
        if last != name_delimiter {
            return Err(Error::at_entry(ErrorKind::ParseTruncated, file_path.as_str(), entry));
        }
        if buffer.len() == 0 {
            return Err(Error::at_entry(ErrorKind::EmptyNameOrMode, file_path.as_str(), entry));
        }
        assert(buffer@ =~= window.take(taken - 1));
        Ok(buffer)
    }

    /// Reads the hash of an entry, 20 bytes, and gives it in hexadecimal.
    pub fn parse_sha(reader: &mut ByteReader, entry: usize, file_path: &String) -> (res: Result<
        String,
        Error,
    >)
        ensures
            match hash_field(old(reader).window()) {
                Ok(hash) => {
                    &&& res matches Ok(found) && found@ == hash
                    &&& final(reader).rest() == old(reader).rest().skip(20)
                    &&& final(reader).window_len() == old(reader).window_len() - 20
                },
                Err(kind) => {
                    &&& res matches Err(e) && e.kind == kind && e.subject@ == encode_utf8(
                        file_path@,
                    ) && e.entry == entry
                    &&& final(reader).rest() == old(reader).rest()
                    &&& final(reader).window_len() == old(reader).window_len()
                },
            },
    {
        proof {
            reader.lemma_window();
        }
        match reader.read_exact(HASH_RAW_LEN) {
            Some(sha_buf) => Ok(hex_encode(sha_buf.as_slice())),
            None => Err(Error::at_entry(ErrorKind::ParseTruncated, file_path.as_str(), entry)),
        }
    }

    /// Reads the mode that the text of a mode field stands for.
    pub fn parse_mode_text(text: &[u8], entry: usize, file_path: &String) -> (res: Result<
        ObjectMode,
        Error,
    >)
        ensures
            match mode_of_text(text@) {
                Ok(mode) => res matches Ok(found) && found == mode,
                Err(kind) => res matches Err(e) && e.kind == kind && e.subject@ == encode_utf8(
                    file_path@,
                ) && e.entry == entry,
            },
    {
        let value = match parse_u64(text) {
            Some(value) => value,
            None => return Err(Error::at_entry(ErrorKind::UnknownMode, file_path.as_str(), entry)),
        };
        if value > 120000 {
            return Err(Error::at_entry(ErrorKind::UnknownMode, file_path.as_str(), entry));
        }
        match ObjectMode::try_from(value as usize) {
            Ok(mode) => Ok(mode),
            Err(_) => Err(Error::at_entry(ErrorKind::UnknownMode, file_path.as_str(), entry)),
        }
    }
}

} // verus!
