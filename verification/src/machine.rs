//! The encoder as a state machine: its states, and what each pull and each
//! answer to a read makes of them.

use crate::buffer::max_chunk_len;
use crate::error::Error;
use crate::form::FormView;
use crate::wire::{
    closing, crlf, delimiter, encode, headers, layout, longest_frame, message, ContentView,
    PartView,
};
use vstd::prelude::*;

verus! {

/// How far the encoder has come.
#[derive(Debug, Clone, Copy, PartialEq, Eq, Structural)]
pub enum Phase {
    /// There is more to yield.
    Streaming,
    /// The closing line has been yielded.
    Complete,
    /// An error has ended the stream.
    Failed,
}

/// The content of the part that is being sent, as far as it is not sent yet.
pub enum SourceView<R> {
    /// The source, to be read by whoever drives the encoder, as the reads
    /// so far have left it.
    Reader(R),
    /// What is left of a text.
    Text(Seq<u8>),
}

/// What a pull, or an answer to a read, can come to.
pub enum StepView {
    /// A chunk to send on.
    Chunk(Seq<u8>),
    /// The source of the part that is being sent must be read: at most so
    /// many bytes, which are then handed in.
    Read(nat),
    /// The stream has ended.
    End,
}

/// The state of an encoder.
pub struct BodyView<R> {
    /// The boundary of the message.
    pub boundary: Seq<char>,
    /// The parts of the form, in their order.
    pub parts: Seq<PartView<R>>,
    /// The size of the buffer that a chunk is put together in.
    pub buf_size: nat,
    /// How far the encoder has come.
    pub phase: Phase,
    /// How many of the parts have been begun: their heads are written.
    pub begun: nat,
    /// What is left of the last part begun, while it is being sent.
    pub active: Option<SourceView<R>>,
    /// What has been taken so far of the content of each part begun.
    pub contents: Seq<Seq<u8>>,
    /// The chunk as far as it is put together, while a read is awaited.
    pub pending: Option<Seq<u8>>,
    /// All the bytes yielded so far, chunk after chunk.
    pub sent: Seq<u8>,
}

/// The size of the buffer of an encoder.
pub const BUF_SIZE: usize = 2048;

/// Where the content of `part` is taken from.
pub open spec fn source_of<R>(part: PartView<R>) -> SourceView<R> {
    match part.content {
        ContentView::Text(text) => SourceView::Text(encode(text)),
        ContentView::Read(read) => SourceView::Reader(read),
    }
}

/// The smaller of two numbers.
pub open spec fn least(a: int, b: int) -> int {
    if a <= b {
        a
    } else {
        b
    }
}

/// Whether `data` starts with `prefix`.
pub open spec fn starts_with(data: Seq<u8>, prefix: Seq<u8>) -> bool {
    prefix.len() <= data.len() && data.subrange(0, prefix.len() as int) =~= prefix
}

/// Whether `data` ends with `suffix`.
pub open spec fn ends_with(data: Seq<u8>, suffix: Seq<u8>) -> bool {
    suffix.len() <= data.len() && data.subrange(data.len() - suffix.len(), data.len() as int)
        =~= suffix
}

impl<R> BodyView<R> {
    /// The state of an encoder that has yielded nothing of `form` yet.
    pub open spec fn initial(form: FormView<R>) -> BodyView<R> {
        BodyView {
            boundary: form.boundary,
            parts: form.parts,
            buf_size: BUF_SIZE as nat,
            phase: Phase::Streaming,
            begun: 0,
            active: None,
            contents: Seq::empty(),
            pending: None,
            sent: Seq::empty(),
        }
    }

    /// The state after an error: nothing more is read or yielded.
    pub open spec fn failed(self) -> BodyView<R> {
        BodyView { phase: Phase::Failed, active: None, pending: None, ..self }
    }

    /// The state after `chunk` has been yielded.
    pub open spec fn emit(self, chunk: Seq<u8>) -> BodyView<R> {
        BodyView { sent: self.sent + chunk, ..self }
    }

    /// The state after `data` has been taken from the part that is being
    /// sent.
    pub open spec fn fed(self, data: Seq<u8>) -> BodyView<R> {
        BodyView {
            contents: self.contents.update(self.begun - 1, self.contents[self.begun - 1] + data),
            ..self
        }
    }

    /// The state after the head of the next part has been written.
    pub open spec fn begin(self) -> BodyView<R> {
        BodyView {
            begun: self.begun + 1,
            active: Some(source_of(self.parts[self.begun as int])),
            contents: self.contents.push(Seq::empty()),
            ..self
        }
    }

    /// What becomes of the encoder, and what it comes to, as it goes on with
    /// `chunk` put together so far. It goes from part to part for as long as
    /// there is room in the chunk and nothing to put there. A head or a
    /// closing line that would take a chunk beyond the buffer waits for the
    /// next chunk; only into an empty chunk it is written whatever its
    /// length.
    pub open spec fn advance(self, chunk: Seq<u8>) -> (BodyView<R>, Result<StepView, Error>)
        decreases self.parts.len() - self.begun, (if self.active is Some { 1nat } else { 0nat }),
    {
        match self.active {
            None => if self.begun >= self.parts.len() {
                let line = encode(closing(self.boundary));
                if chunk.len() > 0 && chunk.len() + line.len() > self.buf_size {
                    (self.emit(chunk), Ok(StepView::Chunk(chunk)))
                } else if chunk.len() + line.len() > max_chunk_len() {
                    (self.failed(), Err(Error::BoundaryWrite))
                } else {
                    (
                        BodyView { phase: Phase::Complete, ..self.emit(chunk + line) },
                        Ok(StepView::Chunk(chunk + line)),
                    )
                }
            } else {
                let part = self.parts[self.begun as int];
                let line = encode(delimiter(self.boundary));
                let block = encode(headers(part.content_type, part.content_disposition));
                if chunk.len() > 0 && chunk.len() + line.len() + block.len() > self.buf_size {
                    (self.emit(chunk), Ok(StepView::Chunk(chunk)))
                } else if chunk.len() + line.len() > max_chunk_len() {
                    (self.failed(), Err(Error::BoundaryWrite))
                } else if chunk.len() + line.len() + block.len() > max_chunk_len() {
                    (self.failed(), Err(Error::HeaderWrite))
                } else {
                    self.begin().advance(chunk + line + block)
                }
            },
            Some(source) => if chunk.len() >= self.buf_size {
                (self.emit(chunk), Ok(StepView::Chunk(chunk)))
            } else {
                match source {
                    SourceView::Reader(_) => (
                        BodyView { pending: Some(chunk), ..self },
                        Ok(StepView::Read((self.buf_size - chunk.len()) as nat)),
                    ),
                    SourceView::Text(rest) => if rest.len() == 0 {
                        BodyView { active: None, ..self }.advance(chunk)
                    } else {
                        let n = least(rest.len() as int, self.buf_size - chunk.len());
                        let data = rest.take(n);
                        (
                            BodyView {
                                active: Some(SourceView::Text(rest.skip(n))),
                                ..self.fed(data).emit(chunk + data)
                            },
                            Ok(StepView::Chunk(chunk + data)),
                        )
                    },
                }
            },
        }
    }

    /// What a pull makes of the encoder, and what it comes to.
    pub open spec fn poll(self) -> (BodyView<R>, Result<StepView, Error>) {
        if self.phase != Phase::Streaming {
            (self, Ok(StepView::End))
        } else {
            match self.pending {
                Some(chunk) => (self, Ok(StepView::Read((self.buf_size - chunk.len()) as nat))),
                None => self.advance(Seq::empty()),
            }
        }
    }

    /// What `data`, read from the source of the part that is being sent,
    /// makes of the encoder, and what it comes to. No data means that the
    /// source is exhausted.
    pub open spec fn supply(self, data: Seq<u8>) -> (BodyView<R>, Result<StepView, Error>) {
        let chunk = self.pending->0;
        if data.len() > 0 {
            (
                BodyView { pending: None, ..self.fed(data).emit(chunk + data) },
                Ok(StepView::Chunk(chunk + data)),
            )
        } else {
            BodyView { pending: None, active: None, ..self }.advance(chunk)
        }
    }

    /// What a failed read makes of the encoder.
    pub open spec fn read_failed(self) -> BodyView<R> {
        if self.phase == Phase::Streaming {
            self.failed()
        } else {
            self
        }
    }

    /// The source that is being read, if the part that is being sent has
    /// one.
    pub open spec fn reader(self) -> Option<R> {
        match self.active {
            Some(SourceView::Reader(read)) => Some(read),
            _ => None,
        }
    }

    /// The state after the source that is being read has become `read`.
    pub open spec fn reading(self, read: R) -> BodyView<R> {
        BodyView { active: Some(SourceView::Reader(read)), ..self }
    }

    /// Whether the encoder awaits what a read gives.
    pub open spec fn awaits_read(self) -> bool {
        self.phase == Phase::Streaming && self.pending is Some
    }

    /// The most that a read may give.
    pub open spec fn read_limit(self) -> nat {
        (self.buf_size - self.pending->0.len()) as nat
    }
}

impl<R> BodyView<R> {
    /// How many of the parts are done with: all that are begun, but for the
    /// one that is being sent.
    pub open spec fn settled(self) -> int {
        if self.active is Some {
            self.begun - 1
        } else {
            self.begun as int
        }
    }

    /// Whether the content taken from the text part `i` is its whole text.
    /// Of a part that is read from a source this says nothing.
    pub open spec fn whole(self, i: int) -> bool {
        self.parts[i].text() matches Some(text) ==> self.contents[i] == encode(text)
    }

    /// Whether what has been yielded starts as the message does: with the
    /// boundary line of the first part or, where the form has no parts,
    /// with the closing line, which is then all there is.
    pub open spec fn opens_well(self) -> bool {
        self.sent.len() > 0 ==> if self.parts.len() > 0 {
            starts_with(self.sent, encode(delimiter(self.boundary) + crlf()))
        } else {
            self.sent == encode(closing(self.boundary))
        }
    }

    /// What no chunk is longer than: the buffer, or the longest head or
    /// closing line where that is longer than the buffer and so goes out
    /// alone.
    pub open spec fn chunk_bound(self) -> nat {
        let longest = longest_frame(self.boundary, self.parts);
        if longest > self.buf_size {
            longest
        } else {
            self.buf_size
        }
    }

    /// Whether the buffer has a size that a chunk can have.
    pub open spec fn sized(self) -> bool {
        0 < self.buf_size <= max_chunk_len()
    }

    /// Whether a streaming encoder is in order, with `chunk` put together
    /// so far: what it has yielded, and `chunk` behind it, is the message
    /// as far as the parts begun and the content taken from them go.
    pub open spec fn sound(self, chunk: Seq<u8>) -> bool {
        &&& self.phase == Phase::Streaming
        &&& self.sized()
        &&& self.begun <= self.parts.len()
        &&& self.contents.len() == self.begun
        &&& match self.active {
            Some(SourceView::Reader(_)) => self.begun > 0 && self.parts[self.begun
                - 1].content is Read,
            Some(SourceView::Text(rest)) => {
                &&& self.begun > 0
                &&& self.parts[self.begun - 1].text() matches Some(text)
                &&& self.contents[self.begun - 1] + rest == encode(text)
            },
            None => true,
        }
        &&& forall|i: int| 0 <= i < self.settled() ==> self.whole(i)
        &&& self.sent + chunk == layout(
            self.boundary,
            self.parts.take(self.begun as int),
            self.contents,
        )
        &&& self.opens_well()
        &&& chunk.len() <= self.chunk_bound()
    }

    /// Whether the encoder is in order. While it streams, the bytes yielded
    /// are the message as far as it has come; once it is complete, they are
    /// the whole message.
    pub open spec fn wf(self) -> bool {
        match self.phase {
            Phase::Streaming => match self.pending {
                Some(chunk) => {
                    &&& self.reader() is Some
                    &&& chunk.len() < self.buf_size
                    &&& self.sound(chunk)
                },
                None => self.sound(Seq::empty()),
            },
            Phase::Complete => {
                &&& self.sized()
                &&& self.pending is None
                &&& self.active is None
                &&& self.begun == self.parts.len()
                &&& self.contents.len() == self.begun
                &&& forall|i: int| 0 <= i < self.begun ==> self.whole(i)
                &&& self.sent == message(self.boundary, self.parts, self.contents)
                &&& self.opens_well()
            },
            Phase::Failed => {
                &&& self.sized()
                &&& self.pending is None
                &&& self.active is None
                &&& self.opens_well()
            },
        }
    }
}

} // verus!
