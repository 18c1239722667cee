//! What comes of one read from, or one write to, a stream that does not block.
use vstd::prelude::*;

verus! {

/// What one read brought.
#[derive(Debug)]
pub enum ReadEvent {
    /// The bytes that were read; none at the end of the stream.
    Bytes(Vec<u8>),
    /// Nothing yet.
    Retry,
    /// The stream failed, with that message.
    Failed(String),
}

pub enum ReadView {
    Bytes(Seq<u8>),
    Retry,
    Failed(Seq<char>),
}

impl View for ReadEvent {
    type V = ReadView;

    open spec fn view(&self) -> ReadView {
        match self {
            ReadEvent::Bytes(bytes) => ReadView::Bytes(bytes@),
            ReadEvent::Retry => ReadView::Retry,
            ReadEvent::Failed(message) => ReadView::Failed(message@),
        }
    }
}

/// What one write took.
#[derive(Debug)]
pub enum WriteEvent {
    /// The number of bytes that were written.
    Bytes(usize),
    /// Nothing yet.
    Retry,
    /// The stream failed, with that message.
    Failed(String),
}

pub enum WriteView {
    Bytes(usize),
    Retry,
    Failed(Seq<char>),
}

impl View for WriteEvent {
    type V = WriteView;

    open spec fn view(&self) -> WriteView {
        match self {
            WriteEvent::Bytes(n) => WriteView::Bytes(*n),
            WriteEvent::Retry => WriteView::Retry,
            WriteEvent::Failed(message) => WriteView::Failed(message@),
        }
    }
}

/// The position in a buffer after `n` more bytes of it went out.
pub open spec fn advanced(position: int, n: int, length: int) -> int {
    if position + n <= length {
        position + n
    } else {
        length
    }
}

/// The position in a buffer after `n` more bytes of it went out.
pub fn advance(position: usize, n: usize, length: usize) -> (r: usize)
    requires
        position <= length,
    ensures
        r == advanced(position as int, n as int, length as int),
        r <= length,
{
    if n <= length - position {
        position + n
    } else {
        length
    }
}

} // verus!
