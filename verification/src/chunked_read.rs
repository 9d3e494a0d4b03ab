//! Reading a file of known length in bounded requests.
//!
//! The caller owns the file. It reports what happened to it as a
//! [`ReadEvent`], and is told what to do next as a [`ReadAction`]; the bytes
//! read so far are kept in a [`ChunkedRead`].

use vstd::prelude::*;

verus! {

/// The largest number of bytes asked for in one request: 1 MiB.
pub const CHUNK_SIZE: usize = 1_048_576;

/// Why a file could not be loaded.
#[derive(Debug, Clone, Copy, PartialEq, Eq, Structural)]
pub enum ReadError {
    /// The file could not be opened.
    Open,
    /// The file ended before the expected number of bytes was read.
    Truncated,
    /// A request failed for any other reason.
    Io,
}

/// What happened to the file.
pub enum ReadEvent<'a> {
    /// The file could not be opened.
    OpenFailed,
    /// The file is open; nothing was requested yet.
    Opened,
    /// A request delivered these bytes: as many as were asked for, or fewer;
    /// none at the end of the file.
    Delivered(&'a [u8]),
    /// A request failed.
    Failed,
}

/// What the caller does next.
#[derive(Debug, Clone, Copy, PartialEq, Eq, Structural)]
pub enum ReadAction {
    /// Request this many bytes from the file, and report what came back.
    Request(usize),
    /// All bytes are in: take the buffer.
    Finish,
    /// Give up, for this reason.
    Abort(ReadError),
}

/// The number of bytes to request when `total_read` of `length` bytes are in:
/// what is missing, but no more than one chunk.
pub open spec fn request_size(total_read: int, length: int) -> int {
    if length - total_read < CHUNK_SIZE {
        length - total_read
    } else {
        CHUNK_SIZE as int
    }
}

/// The action that follows when `total_read` of `length` bytes are in and
/// nothing has failed: another request while bytes are missing.
pub open spec fn continuation(total_read: int, length: int) -> ReadAction {
    if total_read == length {
        ReadAction::Finish
    } else {
        ReadAction::Request(request_size(total_read, length) as usize)
    }
}

/// The buffer after an event, and the action that answers it.
///
/// A delivery is appended, however short it is, and reading goes on until all
/// bytes are in. An empty delivery while bytes are missing means that the
/// file has ended early. After any failure the buffer stays as it was.
pub open spec fn transition(buffer: Seq<u8>, length: int, event: ReadEvent) -> (
    Seq<u8>,
    ReadAction,
) {
    match event {
        ReadEvent::OpenFailed => (buffer, ReadAction::Abort(ReadError::Open)),
        ReadEvent::Failed => (buffer, ReadAction::Abort(ReadError::Io)),
        ReadEvent::Opened => (buffer, continuation(buffer.len() as int, length)),
        ReadEvent::Delivered(bytes) => if bytes@.len() == 0 && buffer.len() != length {
            (buffer, ReadAction::Abort(ReadError::Truncated))
        } else {
            (buffer + bytes@, continuation((buffer + bytes@).len() as int, length))
        },
    }
}

/// The progress of one load: the bytes read so far, out of `length`.
pub struct ChunkedRead {
    pub buffer: Vec<u8>,
    pub length: usize,
}

impl ChunkedRead {
    /// No more bytes are in than were asked for.
    pub open spec fn wf(&self) -> bool {
        self.buffer.len() <= self.length
    }

    /// All `length` bytes are in.
    pub open spec fn complete(&self) -> bool {
        self.buffer.len() == self.length
    }

    /// Starts a load of exactly `length` bytes.
    pub fn new(length: usize) -> (state: ChunkedRead)
        ensures
            state.wf(),
            state.length == length,
            state.buffer@ == Seq::<u8>::empty(),
    {
        ChunkedRead { buffer: Vec::new(), length }
    }

    /// The number of bytes read so far.
    pub fn total_read(&self) -> (total: usize)
        ensures
            total == self.buffer.len(),
    {
        self.buffer.len()
    }

    /// Whether all bytes are in.
    pub fn is_complete(&self) -> (done: bool)
        ensures
            done == self.complete(),
    {
        self.buffer.len() == self.length
    }

    /// The action that follows when nothing has failed: to finish when all
    /// bytes are in, else to request what is missing, one chunk at most.
    pub fn next_action(&self) -> (action: ReadAction)
        requires
            self.wf(),
        ensures
            action == continuation(self.buffer.len() as int, self.length as int),
            action is Finish <==> self.complete(),
            action matches ReadAction::Request(to_read) ==> 1 <= to_read <= CHUNK_SIZE
                && to_read <= self.length - self.buffer.len(),
            !(action is Abort),
    {
        let missing: usize = self.length - self.buffer.len();
        if missing == 0 {
            ReadAction::Finish
        } else if missing < CHUNK_SIZE {
            ReadAction::Request(missing)
        } else {
            ReadAction::Request(CHUNK_SIZE)
        }
    }

    /// Takes in one event and answers with the next action.
    ///
    /// A delivery holds no more bytes than were requested.
    pub fn on_event(&mut self, event: ReadEvent) -> (action: ReadAction)
        requires
            old(self).wf(),
            event matches ReadEvent::Delivered(bytes) ==> bytes@.len() <= request_size(
                old(self).buffer.len() as int,
                old(self).length as int,
            ),
        ensures
            final(self).wf(),
            final(self).length == old(self).length,
            (final(self).buffer@, action) == transition(
                old(self).buffer@,
                old(self).length as int,
                event,
            ),
    {
        match event {
            ReadEvent::OpenFailed => ReadAction::Abort(ReadError::Open),
            ReadEvent::Failed => ReadAction::Abort(ReadError::Io),
            ReadEvent::Opened => self.next_action(),
            ReadEvent::Delivered(bytes) => {
                if bytes.len() == 0 && self.buffer.len() != self.length {
                    ReadAction::Abort(ReadError::Truncated)
                } else {
                    self.buffer.extend_from_slice(bytes);
                    self.next_action()
                }
            },
        }
    }

    /// Hands out the bytes of a complete load.
    pub fn into_buffer(self) -> (buffer: Vec<u8>)
        requires
            self.complete(),
        ensures
            buffer == self.buffer,
            buffer.len() == self.length,
    {
        self.buffer
    }
}

} // verus!
