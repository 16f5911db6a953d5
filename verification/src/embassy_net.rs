use vstd::prelude::*;

use crate::poll::Poll;

verus! {

/// What a `TcpReaderLendingAsyncIterator` holds between reads: the reader and
/// its buffer while idle, the pending read while one runs.
pub enum Status<R, Fut, const BUF_SIZE: usize> {
    Data { tcp_reader: R, buffer: [u8; BUF_SIZE] },
    Future(Fut),
    Invalid,
}

/// A lending asynchronous iterator over the chunks of bytes that a TCP reader
/// delivers. Each chunk is lent out of the iterator's own buffer.
pub struct TcpReaderLendingAsyncIterator<R, Fut, const BUF_SIZE: usize> {
    status: Status<R, Fut, BUF_SIZE>,
    pos: usize,
}

/// The buffer and position after the compaction that precedes a read: once
/// the position has passed half the buffer, the bytes from it onwards move
/// to the front and the position returns to zero.
pub open spec fn compacted(buffer: Seq<u8>, pos: int) -> (Seq<u8>, int) {
    if pos > buffer.len() / 2 {
        (buffer.subrange(pos, buffer.len() as int) + buffer.subrange(
            buffer.len() - pos,
            buffer.len() as int,
        ), 0)
    } else {
        (buffer, pos)
    }
}

impl<R, Fut, const BUF_SIZE: usize> TcpReaderLendingAsyncIterator<R, Fut, BUF_SIZE> {
    /// The write offset never passes the end of the buffer.
    pub open spec fn wf(&self) -> bool {
        self.pos() <= BUF_SIZE
    }

    /// The current state of the reader.
    pub closed spec fn status(&self) -> Status<R, Fut, BUF_SIZE> {
        self.status
    }

    /// The offset in the buffer at which the next read writes.
    pub closed spec fn pos(&self) -> usize {
        self.pos
    }

    /// An idle iterator over `tcp_reader`, with a zeroed buffer.
    pub fn new(tcp_reader: R) -> (r: Self)
        ensures
            r.wf(),
            r.pos() == 0,
            r.status() matches Status::Data { tcp_reader: t, buffer: b } && t == tcp_reader
                && forall|i: int| 0 <= i < BUF_SIZE ==> b[i] == 0u8,
    {
        TcpReaderLendingAsyncIterator {
            status: Status::Data { tcp_reader, buffer: [0u8; BUF_SIZE] },
            pos: 0,
        }
    }

    /// The offset in the buffer at which the next read writes.
    pub fn position(&self) -> (r: usize)
        ensures
            r == self.pos(),
    {
        self.pos
    }

    /// Whether the reader is idle, so that polling starts a new read.
    pub fn is_idle(&self) -> (r: bool)
        ensures
            r == (self.status() is Data),
    {
        match &self.status {
            Status::Data { .. } => true,
            _ => false,
        }
    }

    /// Whether a read is under way.
    pub fn is_reading(&self) -> (r: bool)
        ensures
            r == (self.status() is Future),
    {
        match &self.status {
            Status::Future(_) => true,
            _ => false,
        }
    }

    /// Starts a read: compacts the buffer, then hands out the reader, the
    /// buffer and the offset at which the read is to write. The iterator is
    /// left without them until `set_future` and `handle_future_result`.
    pub fn start_read(&mut self) -> (r: (R, [u8; BUF_SIZE], usize))
        requires
            old(self).wf(),
            old(self).status() is Data,
        ensures
            final(self).wf(),
            old(self).status() matches Status::Data { tcp_reader: t, buffer: b } && {
                &&& r.0 == t
                &&& (r.1@, r.2 as int) == compacted(b@, old(self).pos() as int)
            },
            r.2 <= BUF_SIZE,
            BUF_SIZE - r.2 >= BUF_SIZE - BUF_SIZE / 2,
            final(self).pos() == r.2,
            final(self).status() is Invalid,
    {
        let pos = self.pos;
        let mut status = Status::Invalid;
        std::mem::swap(&mut status, &mut self.status);
        match status {
            Status::Data { tcp_reader, mut buffer } => {
                if pos > BUF_SIZE / 2 {
                    let ghost before = buffer@;
                    let len = BUF_SIZE - pos;
                    let mut i: usize = 0;
                    while i < len
                        invariant
                            pos <= BUF_SIZE,
                            len == BUF_SIZE - pos,
                            i <= len,
                            before.len() == BUF_SIZE,
                            forall|k: int| 0 <= k < i ==> buffer[k] == before[pos + k],
                            forall|k: int| i <= k < BUF_SIZE ==> buffer[k] == before[k],
                        decreases len - i,
                    {
                        let b = buffer[pos + i];
                        buffer[i] = b;
                        i = i + 1;
                    }
                    assert(buffer@ =~= before.subrange(pos as int, BUF_SIZE as int)
                        + before.subrange(BUF_SIZE - pos, BUF_SIZE as int));
                    self.pos = 0;
                    (tcp_reader, buffer, 0)
                } else {
                    (tcp_reader, buffer, pos)
                }
            },
            _ => vstd::pervasive::unreached(),
        }
    }

    /// Records the read that is under way.
    pub fn set_future(&mut self, future: Fut)
        ensures
            old(self).wf() ==> final(self).wf(),
            final(self).status() == Status::<R, Fut, BUF_SIZE>::Future(future),
            final(self).pos() == old(self).pos(),
    {
        self.status = Status::Future(future);
    }

    /// The read that is under way.
    pub fn future_mut(&mut self) -> (r: &mut Fut)
        requires
            old(self).status() is Future,
        ensures
            old(self).wf() ==> final(self).wf(),
            old(self).status() == Status::<R, Fut, BUF_SIZE>::Future(*r),
            final(self).status() == Status::<R, Fut, BUF_SIZE>::Future(*final(r)),
            final(self).pos() == old(self).pos(),
    {
        match &mut self.status {
            Status::Future(future) => future,
            _ => vstd::pervasive::unreached(),
        }
    }

    /// Takes back the reader and the buffer from a finished read and turns
    /// its result into the next item: the bytes just read, lent out of the
    /// buffer; the end of the stream when nothing was read; or the error.
    pub fn handle_future_result<E>(
        &mut self,
        result: Result<usize, E>,
        tcp_reader: R,
        buffer: [u8; BUF_SIZE],
    ) -> (r: Poll<Option<Result<&[u8], E>>>)
        requires
            old(self).wf(),
            result matches Ok(n) ==> old(self).pos() + n <= BUF_SIZE,
        ensures
            final(self).wf(),
            final(self).status() == (Status::<R, Fut, BUF_SIZE>::Data { tcp_reader, buffer }),
            match result {
                Err(e) => r == Poll::<Option<Result<&[u8], E>>>::Ready(Some(Err(e)))
                    && final(self).pos() == old(self).pos(),
                Ok(n) => if n == 0 {
                    r == Poll::<Option<Result<&[u8], E>>>::Ready(None)
                        && final(self).pos() == old(self).pos()
                } else {
                    &&& r matches Poll::Ready(Some(Ok(bytes))) && bytes@ == buffer@.subrange(
                        old(self).pos() as int,
                        old(self).pos() + n,
                    )
                    &&& final(self).pos() == old(self).pos() + n
                },
            },
    {
        self.status = Status::Data { tcp_reader, buffer };
        match result {
            Err(e) => Poll::Ready(Some(Err(e))),
            Ok(bytes_read) => {
                if bytes_read == 0 {
                    Poll::Ready(None)
                } else {
                    let pos = self.pos;
                    self.pos = pos + bytes_read;
                    match &self.status {
                        Status::Data { buffer, .. } => Poll::Ready(
                            Some(Ok(&buffer[pos..pos + bytes_read])),
                        ),
                        _ => vstd::pervasive::unreached(),
                    }
                }
            },
        }
    }
}

} // verus!
