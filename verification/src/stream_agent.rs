//! The buffers between the chat's command frames and a stream that may not
//! take or give everything at once: bytes read ahead of decoding, and bytes
//! written but not yet flushed, with how far flushing has come.

use vstd::prelude::*;
use crate::chat::{Command, Incomplete, complete, decodable, decode, frame_len, payload, tag_of, text_of};
use vstd::utf8::decode_utf8;

verus! {

/// Bytes read from the stream and not yet taken.
pub struct AgentReader {
    pub buf: Vec<u8>,
}

impl AgentReader {
    pub fn new() -> (r: Self)
        ensures
            r.buf@.len() == 0,
    {
        Self { buf: Vec::new() }
    }

    /// Keeps `bytes`, read from the stream, after those already kept.
    pub fn fill(&mut self, bytes: &[u8])
        ensures
            final(self).buf@ == old(self).buf@ + bytes@,
    {
        let n = bytes.len();
        let mut i: usize = 0;
        while i < n
            invariant
                i <= n,
                n == bytes@.len(),
                self.buf@ == old(self).buf@ + bytes@.subrange(0, i as int),
            decreases n - i,
        {
            self.buf.push(bytes[i]);
            proof {
                assert(self.buf@ =~= old(self).buf@ + bytes@.subrange(0, i + 1));
            }
            i = i + 1;
        }
        proof {
            assert(bytes@.subrange(0, n as int) =~= bytes@);
        }
    }

    /// Takes up to `max` of the kept bytes, the oldest first, as a read into
    /// a buffer of `max` bytes does.
    pub fn take(&mut self, max: usize) -> (r: Vec<u8>)
        ensures
            r@.len() == if max < old(self).buf@.len() {
                max as int
            } else {
                old(self).buf@.len() as int
            },
            r@ == old(self).buf@.take(r@.len() as int),
            final(self).buf@ == old(self).buf@.skip(r@.len() as int),
    {
        let len_min = if max < self.buf.len() {
            max
        } else {
            self.buf.len()
        };
        let mut taken: Vec<u8> = Vec::new();
        let mut rest: Vec<u8> = Vec::new();
        let n = self.buf.len();
        let mut i: usize = 0;
        while i < n
            invariant
                i <= n,
                n == self.buf@.len(),
                len_min <= n,
                self.buf == old(self).buf,
                taken@ == self.buf@.take(if i < len_min {
                    i as int
                } else {
                    len_min as int
                }),
                rest@ == if i < len_min {
                    Seq::<u8>::empty()
                } else {
                    self.buf@.subrange(len_min as int, i as int)
                },
            decreases n - i,
        {
            if i < len_min {
                taken.push(self.buf[i]);
                proof {
                    assert(taken@ =~= self.buf@.take(i + 1));
                    if i + 1 == len_min {
                        assert(rest@ =~= self.buf@.subrange(len_min as int, i + 1));
                    }
                }
            } else {
                rest.push(self.buf[i]);
                proof {
                    assert(rest@ =~= self.buf@.subrange(len_min as int, i + 1));
                }
            }
            i = i + 1;
        }
        proof {
            if n == len_min {
                assert(rest@ =~= self.buf@.skip(len_min as int));
            } else {
                assert(rest@ =~= self.buf@.skip(len_min as int));
            }
        }
        self.buf = rest;
        taken
    }

    /// Decodes the next command, as reading a whole frame from the kept
    /// bytes does: a whole frame is taken and decoded; when there is less
    /// than a whole frame, the bytes are used up and nothing is decoded.
    pub fn decode(&mut self) -> (r: Result<Command, Incomplete>)
        requires
            decodable(old(self).buf@),
        ensures
            match r {
                Ok(c) => {
                    &&& complete(old(self).buf@)
                    &&& tag_of(c) == old(self).buf@[0]
                    &&& text_of(c) == decode_utf8(payload(old(self).buf@))
                    &&& final(self).buf@ == old(self).buf@.skip(5 + frame_len(old(self).buf@))
                },
                Err(_) => {
                    &&& !complete(old(self).buf@)
                    &&& final(self).buf@.len() == 0
                },
            },
    {
        match decode(self.buf.as_slice()) {
            Ok((cmd, n)) => {
                let _ = self.take(n);
                Ok(cmd)
            },
            Err(e) => {
                self.buf = Vec::new();
                Err(e)
            },
        }
    }
}

/// What a write to the stream came to.
pub enum WriteResult {
    /// This many bytes were taken.
    Wrote(usize),
    /// The stream takes nothing now.
    WouldBlock,
    /// The stream failed.
    Failed,
}

/// What flushing does next.
pub enum FlushAction {
    /// Write the buffered bytes from this index on.
    Write(usize),
    /// Everything went; the buffer is cleared.
    Done,
    /// The stream takes nothing now; flushing stops and succeeds.
    Stop,
    /// Flushing fails.
    Fail,
}

/// Bytes written and not yet flushed, and how many of them have gone.
pub struct AgentWriter {
    pub buf: Vec<u8>,
    pub cursor: usize,
}

/// The writer of the asynchronous agent keeps the same state.
pub type AgentAsyncWriter = AgentWriter;

impl AgentWriter {
    pub fn new() -> (r: Self)
        ensures
            r.buf@.len() == 0,
            r.cursor == 0,
    {
        Self { buf: Vec::new(), cursor: 0 }
    }

    /// Empties the buffer.
    pub fn clear(&mut self)
        ensures
            final(self).buf@.len() == 0,
            final(self).cursor == 0,
    {
        self.cursor = 0;
        self.buf.clear();
    }

    /// Keeps `bytes` for the next flush, all of them.
    pub fn write(&mut self, bytes: &[u8]) -> (r: usize)
        ensures
            r == bytes@.len(),
            final(self).buf@ == old(self).buf@ + bytes@,
            final(self).cursor == old(self).cursor,
    {
        let n = bytes.len();
        let mut i: usize = 0;
        while i < n
            invariant
                i <= n,
                n == bytes@.len(),
                self.cursor == old(self).cursor,
                self.buf@ == old(self).buf@ + bytes@.subrange(0, i as int),
            decreases n - i,
        {
            self.buf.push(bytes[i]);
            proof {
                assert(self.buf@ =~= old(self).buf@ + bytes@.subrange(0, i + 1));
            }
            i = i + 1;
        }
        proof {
            assert(bytes@.subrange(0, n as int) =~= bytes@);
        }
        n
    }

    /// The start of a flush: the bytes from the cursor on go first; with
    /// none there, the buffer is cleared.
    pub fn flush_start(&mut self) -> (r: FlushAction)
        ensures
            old(self).cursor < old(self).buf@.len() ==> r == FlushAction::Write(old(self).cursor)
                && *final(self) == *old(self),
            old(self).cursor >= old(self).buf@.len() ==> r is Done && final(self).buf@.len() == 0
                && final(self).cursor == 0,
    {
        if self.cursor < self.buf.len() {
            FlushAction::Write(self.cursor)
        } else {
            self.clear();
            FlushAction::Done
        }
    }

    /// The next step of a flush after writing the bytes from `start` on came
    /// to `result`. Each write counts towards the cursor, and the next write
    /// starts as far past `start` as the cursor stands. A write that takes
    /// nothing fails the flush where `zero_fails`, and counts as any other
    /// write elsewhere.
    pub fn flush_step(&mut self, start: usize, result: WriteResult, zero_fails: bool) -> (r: FlushAction)
        requires
            start < old(self).buf@.len(),
            match result {
                WriteResult::Wrote(n) => n <= old(self).buf@.len() - start && (zero_fails && n == 0
                    || old(self).cursor + n <= old(self).buf@.len() - start),
                _ => true,
            },
        ensures
            match result {
                WriteResult::Wrote(n) => if zero_fails && n == 0 {
                    r is Fail && *final(self) == *old(self)
                } else if start + old(self).cursor + n == old(self).buf@.len() {
                    r is Done && final(self).buf@.len() == 0 && final(self).cursor == 0
                } else {
                    &&& r == FlushAction::Write((start + old(self).cursor + n) as usize)
                    &&& final(self).buf == old(self).buf
                    &&& final(self).cursor == old(self).cursor + n
                },
                WriteResult::WouldBlock => r is Stop && *final(self) == *old(self),
                WriteResult::Failed => r is Fail && *final(self) == *old(self),
            },
    {
        match result {
            WriteResult::Wrote(n) => {
                if zero_fails && n == 0 {
                    FlushAction::Fail
                } else {
                    let len = self.buf.len();
                    self.cursor = self.cursor + n;
                    let next = start + self.cursor;
                    if next == len {
                        self.clear();
                        FlushAction::Done
                    } else {
                        FlushAction::Write(next)
                    }
                }
            },
            WriteResult::WouldBlock => FlushAction::Stop,
            WriteResult::Failed => FlushAction::Fail,
        }
    }
}

/// What reading everything the stream has came to.
pub enum ReadResult {
    /// This many bytes were read.
    Read(usize),
    /// The stream has nothing now.
    WouldBlock,
    /// The stream failed.
    Failed,
}

/// Whether a read of everything the stream has leaves the connection
/// usable: reading nothing means the other side has closed it, and a stream
/// that has nothing now is no failure.
pub fn read_ok(result: ReadResult) -> (r: bool)
    ensures
        r == match result {
            ReadResult::Read(n) => n > 0,
            ReadResult::WouldBlock => true,
            ReadResult::Failed => false,
        },
{
    match result {
        ReadResult::Read(n) => n > 0,
        ReadResult::WouldBlock => true,
        ReadResult::Failed => false,
    }
}

} // verus!
