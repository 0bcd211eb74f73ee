//! An in-memory, seekable byte sink over a `Vec<u8>`.
//!
//! Writing at the current position overwrites the bytes that are there and
//! extends the buffer as needed; a position past the end is first filled up
//! with zero bytes. Each write moves the position past what it wrote.

use vstd::prelude::*;

verus! {

/// Why a cursor operation was refused.
#[derive(Debug, Clone, Copy, PartialEq, Eq, Structural)]
pub enum IoError {
    /// A seek to a negative position, or to one that does not fit in a `u64`.
    InvalidSeek,
    /// A write whose end would lie beyond the largest possible buffer length.
    PositionTooLarge,
}

/// Where a seek is measured from.
#[derive(Debug, Clone, Copy, PartialEq, Eq, Structural)]
pub enum SeekFrom {
    /// An absolute offset from the start of the buffer.
    Start(u64),
    /// An offset from the end of the buffer.
    End(i64),
    /// An offset from the current position.
    Current(i64),
}

/// A byte buffer together with a write position.
pub struct Cursor {
    inner: Vec<u8>,
    pos: u64,
}

impl View for Cursor {
    type V = Seq<u8>;

    /// The bytes held by the cursor.
    closed spec fn view(&self) -> Seq<u8> {
        self.inner@
    }
}

/// The buffer `buf` after `data` has been written at offset `pos`: the gap
/// between the old end and `pos`, if any, is zero-filled, the bytes in
/// `[pos, pos + data.len())` are those of `data`, every other byte keeps its
/// value, and the length is the larger of the old length and the end of the
/// write.
pub open spec fn written_at(buf: Seq<u8>, pos: nat, data: Seq<u8>) -> Seq<u8> {
    let end = pos + data.len();
    let len = if end > buf.len() { end } else { buf.len() };
    Seq::new(
        len,
        |k: int|
            if pos <= k < end {
                data[k - pos]
            } else if k < buf.len() {
                buf[k]
            } else {
                0u8
            },
    )
}

/// What a write of `data` through `before` did, given its result `r` and the
/// cursor `after` it left: where the end of the write fits in a `usize` it
/// succeeded, the bytes are `written_at(..)` of the old ones and the position
/// moved past the data; otherwise it was refused and nothing changed.
pub open spec fn write_outcome(before: Cursor, after: Cursor, data: Seq<u8>, r: Result<(), IoError>) -> bool {
    if before.at() + data.len() <= usize::MAX {
        &&& r is Ok
        &&& after@ == written_at(before@, before.at() as nat, data)
        &&& after.at() == before.at() + data.len()
    } else {
        &&& r == Err::<(), IoError>(IoError::PositionTooLarge)
        &&& after@ == before@
        &&& after.at() == before.at()
    }
}

/// Two writes in a row, the second starting where the first ended, leave the
/// bytes that one write of both pieces leaves.
pub proof fn lemma_written_at_concat(buf: Seq<u8>, pos: nat, d1: Seq<u8>, d2: Seq<u8>)
    ensures
        written_at(written_at(buf, pos, d1), pos + d1.len(), d2) == written_at(buf, pos, d1 + d2),
{
    assert(written_at(written_at(buf, pos, d1), pos + d1.len(), d2) =~= written_at(buf, pos, d1 + d2));
}

/// A write at the end of the buffer appends the data.
pub proof fn lemma_written_at_end(buf: Seq<u8>, data: Seq<u8>)
    ensures
        written_at(buf, buf.len(), data) == buf + data,
{
    assert(written_at(buf, buf.len(), data) =~= buf + data);
}

/// The position that a seek from `from` lands on, or `None` where it would be
/// negative or beyond `u64::MAX`.
pub open spec fn seek_target(len: nat, at: u64, from: SeekFrom) -> Option<u64> {
    let target: int = match from {
        SeekFrom::Start(n) => n as int,
        SeekFrom::End(d) => len + d,
        SeekFrom::Current(d) => at + d,
    };
    if 0 <= target <= u64::MAX {
        Some(target as u64)
    } else {
        None
    }
}

impl Cursor {
    /// The current write position.
    pub closed spec fn at(&self) -> u64 {
        self.pos
    }

    /// A cursor over `inner`, positioned at its start.
    pub fn new(inner: Vec<u8>) -> (c: Self)
        ensures
            c@ == inner@,
            c.at() == 0,
            c@.len() <= usize::MAX,
    {
        let _len: usize = inner.len();
        Cursor { inner, pos: 0 }
    }

    /// The number of bytes held; it always fits in a `usize`.
    pub fn len(&self) -> (n: usize)
        ensures
            n == self@.len(),
    {
        self.inner.len()
    }

    /// The underlying buffer.
    pub fn into_inner(self) -> (v: Vec<u8>)
        ensures
            v@ == self@,
    {
        self.inner
    }

    /// The current write position.
    pub fn position(&self) -> (p: u64)
        ensures
            p == self.at(),
            self@.len() <= usize::MAX,
    {
        let _len: usize = self.inner.len();
        self.pos
    }

    /// Moves the position; the bytes are untouched. Returns the new position.
    pub fn seek(&mut self, from: SeekFrom) -> (r: Result<u64, IoError>)
        ensures
            final(self)@ == old(self)@,
            final(self)@.len() <= usize::MAX,
            match seek_target(old(self)@.len(), old(self).at(), from) {
                Some(t) => r == Ok::<u64, IoError>(t) && final(self).at() == t,
                None => r == Err::<u64, IoError>(IoError::InvalidSeek) && final(self).at() == old(self).at(),
            },
    {
        let len: usize = self.inner.len();
        let target: Option<u64> = match from {
            SeekFrom::Start(n) => Some(n),
            SeekFrom::End(d) => {
                let base: u64 = len as u64;
                if d >= 0 {
                    base.checked_add(d as u64)
                } else {
                    let back: u64 = if d == i64::MIN { 0x8000_0000_0000_0000u64 } else { (-d) as u64 };
                    base.checked_sub(back)
                }
            },
            SeekFrom::Current(d) => {
                let base: u64 = self.pos;
                if d >= 0 {
                    base.checked_add(d as u64)
                } else {
                    let back: u64 = if d == i64::MIN { 0x8000_0000_0000_0000u64 } else { (-d) as u64 };
                    base.checked_sub(back)
                }
            },
        };
        match target {
            Some(t) => {
                self.pos = t;
                Ok(t)
            },
            None => Err(IoError::InvalidSeek),
        }
    }

    /// Writes all of `data` at the current position and moves the position
    /// past it. Refused, with nothing changed, where the end of the write
    /// would not fit in a `usize`.
    pub fn write_all(&mut self, data: &[u8]) -> (r: Result<(), IoError>)
        ensures
            write_outcome(*old(self), *final(self), data@, r),
            final(self)@.len() <= usize::MAX,
    {
        let _len: usize = self.inner.len();
        if self.pos > usize::MAX as u64 {
            return Err(IoError::PositionTooLarge);
        }
        let p: usize = self.pos as usize;
        if data.len() > usize::MAX - p {
            return Err(IoError::PositionTooLarge);
        }
        let ghost old_buf = self.inner@;
        while self.inner.len() < p
            invariant
                p <= usize::MAX,
                old_buf.len() <= self.inner@.len(),
                self.inner@.len() <= if old_buf.len() > p { old_buf.len() as int } else { p as int },
                forall|k: int| 0 <= k < old_buf.len() ==> self.inner@[k] == old_buf[k],
                forall|k: int| old_buf.len() <= k < self.inner@.len() ==> self.inner@[k] == 0u8,
            decreases p - self.inner@.len(),
        {
            self.inner.push(0u8);
        }
        let mut i: usize = 0;
        while i < data.len()
            invariant
                p + data@.len() <= usize::MAX,
                i <= data@.len(),
                self.inner@.len() == if old_buf.len() > p + i { old_buf.len() as int } else { p + i },
                forall|k: int| 0 <= k < p && k < old_buf.len() ==> self.inner@[k] == old_buf[k],
                forall|k: int| old_buf.len() <= k < p ==> self.inner@[k] == 0u8,
                forall|k: int| p <= k < p + i ==> self.inner@[k] == data@[k - p],
                forall|k: int| p + i <= k < old_buf.len() ==> self.inner@[k] == old_buf[k],
            decreases data@.len() - i,
        {
            if p + i < self.inner.len() {
                self.inner.set(p + i, data[i]);
            } else {
                self.inner.push(data[i]);
            }
            i = i + 1;
        }
        self.pos = (p + data.len()) as u64;
        assert(self.inner@ =~= written_at(old_buf, p as nat, data@));
        Ok(())
    }
}

} // verus!
