//! A forward-only reader over the bytes of one object.

use vstd::prelude::*;

verus! {

/// How many bytes a read takes that stops after the first `delimiter`, after
/// `limit` bytes, or at the end of `s`, whichever comes first.
pub open spec fn scan_until(s: Seq<u8>, delimiter: u8, limit: nat) -> nat
    decreases limit,
{
    if limit == 0 || s.len() == 0 {
        0
    } else if s[0] == delimiter {
        1
    } else {
        1 + scan_until(s.skip(1), delimiter, (limit - 1) as nat)
    }
}

/// A read never takes more than there is, nor more than its limit.
pub proof fn lemma_scan_until_bound(s: Seq<u8>, delimiter: u8, limit: nat)
    ensures
        scan_until(s, delimiter, limit) <= s.len(),
        scan_until(s, delimiter, limit) <= limit,
    decreases limit,
{
    if limit != 0 && s.len() != 0 && s[0] != delimiter {
        lemma_scan_until_bound(s.skip(1), delimiter, (limit - 1) as nat);
    }
}

/// A read over `word`, `delimiter` and anything after them takes the word and
/// the delimiter, provided the word holds no delimiter and the limit leaves
/// room for both.
pub proof fn lemma_scan_until_word(word: Seq<u8>, delimiter: u8, tail: Seq<u8>, limit: nat)
    requires
        forall|i: int| 0 <= i < word.len() ==> word[i] != delimiter,
        word.len() < limit,
    ensures
        scan_until(word + seq![delimiter] + tail, delimiter, limit) == word.len() + 1,
    decreases word.len(),
{
    let s = word + seq![delimiter] + tail;
    if word.len() == 0 {
        assert(s[0] == delimiter);
    } else {
        assert(s[0] == word[0]);
        assert(s.skip(1) =~= word.skip(1) + seq![delimiter] + tail);
        lemma_scan_until_word(word.skip(1), delimiter, tail, (limit - 1) as nat);
    }
}

/// The bytes of an object that are still to be read. A reader can be told to
/// stop short of the end: reads then see only the bytes inside that window.
pub struct ByteReader {
    data: Vec<u8>,
    pos: usize,
    end: usize,
}

impl ByteReader {
    /// The place of reading lies inside the window, the window inside the
    /// bytes.
    #[verifier::type_invariant]
    spec fn valid(self) -> bool {
        self.pos <= self.end <= self.data.len()
    }

    /// Every byte that has not been read yet.
    pub closed spec fn rest(self) -> Seq<u8> {
        if self.pos <= self.data.len() {
            self.data@.skip(self.pos as int)
        } else {
            Seq::empty()
        }
    }

    /// How many of the unread bytes the reads can see.
    pub closed spec fn window_len(self) -> nat {
        if self.pos <= self.end <= self.data.len() {
            (self.end - self.pos) as nat
        } else {
            0
        }
    }

    /// The unread bytes that the reads can see: a prefix of `rest`.
    pub open spec fn window(self) -> Seq<u8> {
        self.rest().take(self.window_len() as int)
    }

    /// The window lies inside the unread bytes.
    pub proof fn lemma_window(self)
        ensures
            self.window_len() <= self.rest().len(),
    {
    }

    /// Unread bytes can be counted.
    pub proof fn lemma_rest_len(self)
        ensures
            self.rest().len() <= usize::MAX,
    {
    }

    /// A reader at the start of `data` that sees all of it.
    pub fn new(data: Vec<u8>) -> (res: ByteReader)
        ensures
            res.rest() == data@,
            res.window_len() == data@.len(),
    {
        let end = data.len();
        ByteReader { data, pos: 0, end }
    }

    /// Lets the reads see the next `limit` unread bytes, or all of them where
    /// there are fewer.
    pub fn limit(&mut self, limit: u64)
        ensures
            final(self).rest() == old(self).rest(),
            final(self).window_len() == if limit <= old(self).rest().len() {
                limit as nat
            } else {
                old(self).rest().len()
            },
    {
        proof {
            use_type_invariant(&*self);
        }
        let left = self.data.len() - self.pos;
        if limit <= left as u64 {
            self.end = self.pos + limit as usize;
        } else {
            self.end = self.data.len();
        }
    }

    /// Lets the reads see every unread byte.
    pub fn unlimit(&mut self)
        ensures
            final(self).rest() == old(self).rest(),
            final(self).window_len() == old(self).rest().len(),
    {
        proof {
            use_type_invariant(&*self);
        }
        self.end = self.data.len();
    }

    /// Whether no unread byte is left, inside the window or after it.
    pub fn is_exhausted(&self) -> (res: bool)
        ensures
            res == (self.rest().len() == 0),
    {
        proof {
            use_type_invariant(self);
        }
        self.pos == self.data.len()
    }

    /// Reads up to and including the first `delimiter`, but no more than
    /// `limit` bytes and nothing outside the window.
    pub fn read_until(&mut self, delimiter: u8, limit: u64) -> (res: Vec<u8>)
        ensures
            res@ == old(self).window().take(
                scan_until(old(self).window(), delimiter, limit as nat) as int,
            ),
            res@.len() == scan_until(old(self).window(), delimiter, limit as nat),
            final(self).rest() == old(self).rest().skip(res@.len() as int),
            final(self).window_len() == old(self).window_len() - res@.len(),
    {
        proof {
            use_type_invariant(&*self);
        }
        let ghost window = self.window();
        let ghost start = self.pos;
        let mut res: Vec<u8> = Vec::new();
        let mut found = false;
        assert(window.skip(0) == window);
        while !found && self.pos < self.end && (res.len() as u64) < limit
            invariant
                start <= self.pos <= self.end <= self.data.len(),
                self.end == old(self).end,
                self.data == old(self).data,
                window == old(self).window(),
                window == old(self).data@.subrange(start as int, old(self).end as int),
                res@.len() == self.pos - start,
                res@ == window.take(res@.len() as int),
                res@.len() <= limit,
                !found ==> scan_until(window, delimiter, limit as nat) == res@.len() + scan_until(
                    window.skip(res@.len() as int),
                    delimiter,
                    (limit - res@.len()) as nat,
                ),
                found ==> scan_until(window, delimiter, limit as nat) == res@.len(),
            decreases self.end - self.pos + if found { 0int } else { 1int },
        {
            let byte = self.data[self.pos];
            let ghost k = res@.len() as int;
            assert(window.skip(k)[0] == byte);
            assert(window.skip(k).skip(1) == window.skip(k + 1));
            res.push(byte);
            self.pos = self.pos + 1;
            assert(res@ == window.take(k + 1));
            if byte == delimiter {
                found = true;
            }
        }
        proof {
            if !found {
                assert(window.skip(res@.len() as int).len() == 0 || limit == res@.len());
            }
        }
        res
    }

    /// Reads exactly `count` bytes from the window. Where the window holds
    /// fewer, nothing is read.
    pub fn read_exact(&mut self, count: usize) -> (res: Option<Vec<u8>>)
        ensures
            res is Some <==> count <= old(self).window_len(),
            res matches Some(bytes) ==> {
                &&& bytes@ == old(self).window().take(count as int)
                &&& final(self).rest() == old(self).rest().skip(count as int)
                &&& final(self).window_len() == old(self).window_len() - count
            },
            res is None ==> {
                &&& final(self).rest() == old(self).rest()
                &&& final(self).window_len() == old(self).window_len()
            },
    {
        proof {
            use_type_invariant(&*self);
        }
        if count > self.end - self.pos {
            return None;
        }
        let ghost window = self.window();
        let ghost start = self.pos;
        let mut res: Vec<u8> = Vec::new();
        while res.len() < count
            invariant
                start <= self.pos <= self.end <= self.data.len(),
                self.end == old(self).end,
                self.data == old(self).data,
                count <= self.end - start,
                window == old(self).data@.subrange(start as int, old(self).end as int),
                res@.len() == self.pos - start,
                res@.len() <= count,
                res@ == window.take(res@.len() as int),
            decreases count - res.len(),
        {
            let byte = self.data[self.pos];
            let ghost k = res@.len() as int;
            res.push(byte);
            self.pos = self.pos + 1;
            assert(res@ == window.take(k + 1));
        }
        Some(res)
    }

    /// Appends every byte of the window to `writer` and says how many there
    /// were.
    pub fn copy_to(&mut self, writer: &mut Vec<u8>) -> (res: u64)
        ensures
            res == old(self).window_len(),
            final(writer)@ == old(writer)@ + old(self).window(),
            final(self).rest() == old(self).rest().skip(res as int),
            final(self).window_len() == 0,
    {
        proof {
            use_type_invariant(&*self);
        }
        let ghost window = self.window();
        let start = self.pos;
        while self.pos < self.end
            invariant
                start <= self.pos <= self.end <= self.data.len(),
                self.end == old(self).end,
                self.data == old(self).data,
                window == old(self).data@.subrange(start as int, old(self).end as int),
                writer@ == old(writer)@ + window.take(self.pos - start),
            decreases self.end - self.pos,
        {
            let byte = self.data[self.pos];
            let ghost k = self.pos - start;
            writer.push(byte);
            self.pos = self.pos + 1;
            assert(window.take(k + 1) == window.take(k).push(byte));
        }
        assert(window.take(self.pos - start) == window);
        (self.pos - start) as u64
    }
}

} // verus!
