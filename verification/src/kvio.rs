//! Positional reader and writer.
//!
//! Both track the logical byte offset the engine cares about. The reader
//! holds the bytes of one log and streams records off it during recovery;
//! the writer tracks the append offset of the active log, so every record's
//! exact byte range `[start, end)` is known when it is indexed.

use vstd::prelude::*;

use crate::codec::{decode_rec, decode_record, Command};
use crate::replay::is_ws;

verus! {

/// A positional reader over the bytes of one log file.
pub struct KvsReader {
    data: Vec<u8>,
    pos: usize,
}

impl KvsReader {
    /// The bytes the reader was opened over.
    pub closed spec fn data_seq(self) -> Seq<u8> {
        self.data@
    }

    /// The current read offset.
    pub closed spec fn pos_spec(self) -> int {
        self.pos as int
    }

    /// The offset never leaves the data.
    pub open spec fn wf(self) -> bool {
        0 <= self.pos_spec() <= self.data_seq().len()
    }

    /// Opens a reader at offset zero.
    pub fn new(data: Vec<u8>) -> (r: Self)
        ensures
            r.data_seq() == data@,
            r.pos_spec() == 0,
            r.wf(),
    {
        KvsReader { data, pos: 0 }
    }

    /// The current read offset.
    pub fn pos(&self) -> (r: u64)
        requires
            self.wf(),
        ensures
            r as int == self.pos_spec(),
    {
        self.pos as u64
    }

    /// Whether every byte has been read.
    pub fn at_end(&self) -> (r: bool)
        requires
            self.wf(),
        ensures
            r == (self.pos_spec() == self.data_seq().len()),
    {
        self.pos == self.data.len()
    }

    /// Advances past any whitespace permitted between records.
    pub fn skip_ws(&mut self)
        requires
            old(self).wf(),
        ensures
            final(self).wf(),
            final(self).data_seq() == old(self).data_seq(),
            old(self).pos_spec() <= final(self).pos_spec(),
            forall|j: int|
                old(self).pos_spec() <= j < final(self).pos_spec() ==> is_ws(
                    #[trigger] final(self).data_seq()[j],
                ),
            final(self).pos_spec() == final(self).data_seq().len() || !is_ws(
                final(self).data_seq()[final(self).pos_spec()],
            ),
    {
        loop
            invariant
                self.wf(),
                self.data@ == old(self).data@,
                old(self).pos_spec() <= self.pos_spec(),
                forall|j: int|
                    old(self).pos_spec() <= j < self.pos_spec() ==> is_ws(
                        #[trigger] self.data@[j],
                    ),
            decreases self.data@.len() - self.pos_spec(),
        {
            if self.pos == self.data.len() {
                return ;
            }
            let b = self.data[self.pos];
            if !(b == 32 || b == 9 || b == 10 || b == 13) {
                return ;
            }
            self.pos = self.pos + 1;
        }
    }

    /// Reads one record at the current offset and advances past it: the
    /// record with the byte range `[start, end)` it occupies. Leaves the
    /// offset unchanged when no whole record stands there.
    pub fn read_record(&mut self) -> (r: Option<(Command, usize, usize)>)
        requires
            old(self).wf(),
        ensures
            final(self).wf(),
            final(self).data_seq() == old(self).data_seq(),
            (match r {
                Some((cmd, start, end)) => {
                    &&& start == old(self).pos_spec()
                    &&& final(self).pos_spec() == end
                    &&& start < end <= final(self).data_seq().len()
                    &&& decode_rec(final(self).data_seq().skip(start as int)) == Some(
                        (cmd@, (end - start) as nat),
                    )
                },
                None => {
                    &&& *final(self) == *old(self)
                    &&& decode_rec(old(self).data_seq().skip(old(self).pos_spec())) is None
                },
            }),
    {
        let dlen = self.data.len();
        assert(dlen == self.data@.len());
        match decode_record(&self.data, self.pos) {
            Some((cmd, n)) => {
                proof {
                    crate::codec::lemma_decode_rec_len(
                        self.data@.skip(self.pos as int),
                        cmd@,
                        n as nat,
                    );
                }
                let start = self.pos;
                let end = self.pos + n;
                self.pos = end;
                Some((cmd, start, end))
            },
            None => None,
        }
    }
}

/// A positional writer for the active log: tracks the append offset so the
/// byte range of every appended record is known.
pub struct KvsWriter {
    pos: u64,
}

impl KvsWriter {
    /// The current append offset.
    pub closed spec fn pos_spec(self) -> u64 {
        self.pos
    }

    /// A writer for a fresh, empty log.
    pub fn new() -> (r: Self)
        ensures
            r.pos_spec() == 0,
    {
        KvsWriter { pos: 0 }
    }

    /// The current append offset: the next record begins here.
    pub fn pos(&self) -> (r: u64)
        ensures
            r == self.pos_spec(),
    {
        self.pos
    }

    /// Records that `n` bytes were appended.
    pub fn advance(&mut self, n: u64)
        requires
            old(self).pos_spec() + n <= u64::MAX,
        ensures
            final(self).pos_spec() == old(self).pos_spec() + n,
    {
        self.pos = self.pos + n;
    }
}

} // verus!
