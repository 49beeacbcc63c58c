//! The body: the encoder that turns a form into chunks of bytes, pull by
//! pull.

use crate::buffer::{frozen, max_chunk_len, written};
use crate::error::{Error, WriteZero};
use crate::form::Form;
use crate::laws::{
    lemma_initial, lemma_poll, lemma_read_failed, lemma_reading, lemma_supply, step_in_order,
};
use crate::machine::{BodyView, Phase, SourceView, StepView, BUF_SIZE};
use crate::part::{Inner, Part};
use crate::wire::{
    closing, crlf, dashes, delimiter, encode, headers, lemma_encode_concat, PartView,
};
use bytes::{Bytes, BytesMut};
use std::collections::VecDeque;
use vstd::prelude::*;
use vstd::slice::slice_subrange;

verus! {

/// What a pull, or an answer to a read, comes to.
pub enum Step {
    /// A chunk to send on.
    Chunk(Bytes),
    /// The source of the part that is being sent must be read: at most so
    /// many bytes, which are then handed to [`Body::supply`].
    Read(usize),
    /// The stream has ended.
    End,
}

impl View for Step {
    type V = StepView;

    open spec fn view(&self) -> StepView {
        match *self {
            Step::Chunk(chunk) => StepView::Chunk(frozen(chunk)),
            Step::Read(limit) => StepView::Read(limit as nat),
            Step::End => StepView::End,
        }
    }
}

/// The view of what a pull returns.
pub open spec fn outcome(step: Result<Step, Error>) -> Result<StepView, Error> {
    match step {
        Ok(step) => Ok(step@),
        Err(error) => Err(error),
    }
}

/// The largest number of bytes that a chunk is let to hold.
pub fn max_chunk() -> (max: usize)
    ensures
        max == max_chunk_len(),
{
    isize::MAX as usize
}

/// A chunk as it is written: what it holds, and whether every write so far
/// has found room.
pub struct Writing {
    /// The bytes that the chunk holds.
    pub held: Seq<u8>,
    /// Whether no write has failed yet.
    pub done: bool,
}

impl Writing {
    /// A chunk that holds `held` before anything is written to it.
    pub open spec fn start(held: Seq<u8>) -> Writing {
        Writing { held, done: true }
    }

    /// The chunk after the next write, of `bytes`. They are written, all of
    /// them, where no write has failed before and the chunk has room; else
    /// nothing is written, now or later.
    pub open spec fn put(self, bytes: Seq<u8>) -> Writing {
        if self.done && self.held.len() + bytes.len() <= max_chunk_len() {
            Writing { held: self.held + bytes, done: true }
        } else {
            Writing { held: self.held, done: false }
        }
    }

    /// The chunk after a boundary line has been written piece by piece.
    pub open spec fn put_boundary(self, boundary: Seq<char>) -> Writing {
        self.put(encode(crlf())).put(encode(dashes())).put(encode(boundary))
    }

    /// The chunk after the closing line has been written piece by piece.
    pub open spec fn put_final_boundary(self, boundary: Seq<char>) -> Writing {
        self.put_boundary(boundary).put(encode(dashes()))
    }

    /// The chunk after a header block has been written piece by piece.
    pub open spec fn put_headers(
        self,
        content_type: Seq<char>,
        content_disposition: Seq<char>,
    ) -> Writing {
        self.put(encode(crlf())).put(encode("Content-Type: "@)).put(encode(content_type)).put(
            encode(crlf()),
        ).put(encode("Content-Disposition: "@)).put(encode(content_disposition)).put(
            encode(crlf()),
        ).put(encode(crlf()))
    }
}

/// The chunk as it is after writing, with the result of the writing.
pub open spec fn writing(chunk: BytesMut, done: Result<(), WriteZero>) -> Writing {
    Writing { held: written(chunk), done: done is Ok }
}

/// Writes `bytes` to the chunk, all of them or none: none where the chunk
/// would grow beyond what a chunk is let to hold.
pub fn write_all(chunk: &mut BytesMut, bytes: &[u8]) -> (done: Result<(), WriteZero>)
    ensures
        writing(*final(chunk), done) == Writing::start(written(*old(chunk))).put(bytes@),
{
    let max = max_chunk();
    let len = chunk.len();
    if len > max || bytes.len() > max - len {
        Err(WriteZero)
    } else {
        chunk.extend_from_slice(bytes);
        Ok(())
    }
}

/// Writes a CRLF.
pub fn write_crlf(chunk: &mut BytesMut) -> (done: Result<(), WriteZero>)
    ensures
        writing(*final(chunk), done) == Writing::start(written(*old(chunk))).put(encode(crlf())),
{
    write_all(chunk, "\r\n".as_bytes())
}

/// Whether `len` is the length `n`, or `n` is more than can be counted.
pub open spec fn measures(len: Option<usize>, n: nat) -> bool {
    match len {
        Some(len) => len == n,
        None => n > usize::MAX,
    }
}

/// The length `total` and the length of `text` on the wire together;
/// `None` where that cannot be counted.
fn add_len(total: Option<usize>, text: &str, Ghost(n): Ghost<nat>) -> (sum: Option<usize>)
    requires
        measures(total, n),
    ensures
        measures(sum, n + encode(text@).len()),
{
    let len = text.as_bytes().len();
    match total {
        Some(total) => if len <= usize::MAX - total {
            Some(total + len)
        } else {
            None
        },
        None => None,
    }
}

/// Whether a chunk of `held` bytes and a piece of `frame` bytes behind it
/// are more than `size` bytes.
fn exceeds(held: usize, frame: Option<usize>, size: usize, Ghost(n): Ghost<nat>) -> (over: bool)
    requires
        measures(frame, n),
    ensures
        over == (held + n > size),
{
    match frame {
        Some(frame) => held > size || frame > size - held,
        None => true,
    }
}

/// The bytes of a boundary line are those of its pieces.
pub proof fn lemma_boundary_pieces(boundary: Seq<char>)
    ensures
        encode(delimiter(boundary)) == encode(crlf()) + encode(dashes()) + encode(boundary),
        encode(closing(boundary)) == encode(crlf()) + encode(dashes()) + encode(boundary)
            + encode(dashes()),
{
    lemma_encode_concat(crlf() + dashes(), boundary);
    lemma_encode_concat(crlf(), dashes());
    lemma_encode_concat(delimiter(boundary), dashes());
}

/// The bytes of a header block are those of its pieces.
pub proof fn lemma_headers_pieces(content_type: Seq<char>, content_disposition: Seq<char>)
    ensures
        encode(headers(content_type, content_disposition)) == encode(crlf()) + encode(
            "Content-Type: "@,
        ) + encode(content_type) + encode(crlf()) + encode("Content-Disposition: "@) + encode(
            content_disposition,
        ) + encode(crlf()) + encode(crlf()),
{
    let a = crlf();
    let b = a + "Content-Type: "@;
    let c = b + content_type;
    let d = c + crlf();
    let e = d + "Content-Disposition: "@;
    let f = e + content_disposition;
    let g = f + crlf();
    lemma_encode_concat(a, "Content-Type: "@);
    lemma_encode_concat(b, content_type);
    lemma_encode_concat(c, crlf());
    lemma_encode_concat(d, "Content-Disposition: "@);
    lemma_encode_concat(e, content_disposition);
    lemma_encode_concat(f, crlf());
    lemma_encode_concat(g, crlf());
}

/// The content of the part that is being sent.
pub(crate) enum Active<R> {
    /// A source, read by whoever drives the body.
    Reader(R),
    /// A text, sent up to the byte at `pos`.
    Text { text: String, pos: usize },
}

impl<R> View for Active<R> {
    type V = SourceView<R>;

    open(crate) spec fn view(&self) -> SourceView<R> {
        match *self {
            Active::Reader(read) => SourceView::Reader(read),
            Active::Text { text, pos } => SourceView::Text(encode(text@).skip(pos as int)),
        }
    }
}

/// Multipart body: the encoder of a form. It owns the sources of the form's
/// parts, and lets go of each as soon as it is exhausted.
pub struct Body<R> {
    /// The amount of data to write with each chunk.
    buf_size: usize,
    /// The content of the part that is being sent.
    current: Option<Active<R>>,
    /// The parts that are not begun yet. When there are none left, and none
    /// is being sent, the body is fully written.
    parts: VecDeque<Part<R>>,
    /// The multipart boundary.
    boundary: String,
    /// The chunk as far as it is put together, while a read is awaited.
    pending: Option<BytesMut>,
    /// How far the body has come.
    phase: Phase,
    /// The parts of the form.
    form: Ghost<Seq<PartView<R>>>,
    /// How many parts have been begun.
    begun: Ghost<nat>,
    /// What has been taken of the content of each part begun.
    contents: Ghost<Seq<Seq<u8>>>,
    /// The bytes yielded so far.
    sent: Ghost<Seq<u8>>,
}

impl<R> View for Body<R> {
    type V = BodyView<R>;

    closed spec fn view(&self) -> BodyView<R> {
        BodyView {
            boundary: self.boundary@,
            parts: self.form@,
            buf_size: self.buf_size as nat,
            phase: self.phase,
            begun: self.begun@,
            active: match self.current {
                Some(active) => Some(active@),
                None => None,
            },
            contents: self.contents@,
            pending: match self.pending {
                Some(chunk) => Some(written(chunk)),
                None => None,
            },
            sent: self.sent@,
        }
    }
}

impl<R> Body<R> {
    /// Whether the body holds what its view says: the parts that are not
    /// begun, and no more of a text than there is.
    pub(crate) closed spec fn rep(&self) -> bool {
        &&& self.bounded()
        &&& self.phase == Phase::Failed ==> self.parts@.len() == 0
        &&& self.phase != Phase::Failed ==> self.parts@.map_values(|part: Part<R>| part@)
            == self.form@.skip(self.begun@ as int)
        &&& match self.current {
            Some(Active::Text { text, pos }) => pos <= encode(text@).len(),
            _ => true,
        }
        &&& match self.pending {
            Some(chunk) => {
                &&& written(chunk).len() < self.buf_size
                &&& self.phase == Phase::Streaming
                &&& self.current matches Some(Active::Reader(_))
            },
            None => true,
        }
    }

    /// Whether the body is in order: it holds what its view says, and its
    /// view is in order.
    pub closed spec fn wf(&self) -> bool {
        self.rep() && self@.wf()
    }

    /// An encoder in order has a view in order.
    pub proof fn lemma_view_wf(&self)
        requires
            self.wf(),
        ensures
            self@.wf(),
    {
    }

    /// Whether the buffer has a size that a chunk can have, and no more
    /// parts are begun than there are.
    pub(crate) closed spec fn bounded(&self) -> bool {
        &&& 0 < self.buf_size <= max_chunk_len()
        &&& self.begun@ <= self.form@.len()
    }

    /// Implements section 4.1 of RFC 7578: writes a line break, two hyphens
    /// and the boundary.
    pub(crate) fn write_boundary(&self, chunk: &mut BytesMut) -> (done: Result<(), WriteZero>)
        ensures
            done is Ok <==> written(*old(chunk)).len() + encode(delimiter(self@.boundary)).len()
                <= max_chunk_len(),
            done is Ok ==> written(*final(chunk)) == written(*old(chunk)) + encode(
                delimiter(self@.boundary),
            ),
            writing(*final(chunk), done) == Writing::start(written(*old(chunk))).put_boundary(
                self@.boundary,
            ),
    {
        proof {
            lemma_boundary_pieces(self.boundary@);
        }
        write_crlf(chunk)?;
        write_all(chunk, "--".as_bytes())?;
        write_all(chunk, self.boundary.as_str().as_bytes())
    }

    /// The length of a boundary line, without the line break that ends it.
    pub(crate) fn boundary_len(&self) -> (len: Option<usize>)
        ensures
            measures(len, encode(delimiter(self@.boundary)).len()),
    {
        proof {
            lemma_boundary_pieces(self.boundary@);
        }
        let ghost a = encode(crlf()).len();
        let ghost b = a + encode(dashes()).len();
        let len = add_len(Some(0), "\r\n", Ghost(0));
        let len = add_len(len, "--", Ghost(a));
        add_len(len, self.boundary.as_str(), Ghost(b))
    }

    /// The length of the last boundary line of the form.
    pub(crate) fn final_boundary_len(&self) -> (len: Option<usize>)
        ensures
            measures(len, encode(closing(self@.boundary)).len()),
    {
        proof {
            lemma_boundary_pieces(self.boundary@);
        }
        let len = self.boundary_len();
        add_len(len, "--", Ghost(encode(delimiter(self.boundary@)).len()))
    }

    /// The length of the head of `part`: the boundary line and the header
    /// block.
    pub(crate) fn head_len(&self, part: &Part<R>) -> (len: Option<usize>)
        ensures
            measures(
                len,
                encode(delimiter(self@.boundary)).len() + encode(
                    headers(part@.content_type, part@.content_disposition),
                ).len(),
            ),
    {
        proof {
            lemma_headers_pieces(part@.content_type, part@.content_disposition);
        }
        let ghost a = encode(delimiter(self.boundary@)).len();
        let ghost b = a + encode(crlf()).len();
        let ghost c = b + encode("Content-Type: "@).len();
        let ghost d = c + encode(part@.content_type).len();
        let ghost e = d + encode(crlf()).len();
        let ghost f = e + encode("Content-Disposition: "@).len();
        let ghost g = f + encode(part@.content_disposition).len();
        let ghost h = g + encode(crlf()).len();
        let len = self.boundary_len();
        let len = add_len(len, "\r\n", Ghost(a));
        let len = add_len(len, "Content-Type: ", Ghost(b));
        let len = add_len(len, part.content_type.as_str(), Ghost(c));
        let len = add_len(len, "\r\n", Ghost(d));
        let len = add_len(len, "Content-Disposition: ", Ghost(e));
        let len = add_len(len, part.content_disposition.as_str(), Ghost(f));
        let len = add_len(len, "\r\n", Ghost(g));
        add_len(len, "\r\n", Ghost(h))
    }

    /// Writes the last boundary line of the form: the boundary line and two
    /// more hyphens.
    pub(crate) fn write_final_boundary(&self, chunk: &mut BytesMut) -> (done: Result<
        (),
        WriteZero,
    >)
        ensures
            done is Ok <==> written(*old(chunk)).len() + encode(closing(self@.boundary)).len()
                <= max_chunk_len(),
            done is Ok ==> written(*final(chunk)) == written(*old(chunk)) + encode(
                closing(self@.boundary),
            ),
            writing(*final(chunk), done) == Writing::start(
                written(*old(chunk)),
            ).put_final_boundary(self@.boundary),
    {
        proof {
            lemma_boundary_pieces(self.boundary@);
        }
        self.write_boundary(chunk)?;
        write_all(chunk, "--".as_bytes())
    }

    /// Writes the `Content-Type` and `Content-Disposition` headers of
    /// `part`, behind the line break that ends the boundary line and before
    /// the empty line that ends the headers.
    pub(crate) fn write_headers(&self, chunk: &mut BytesMut, part: &Part<R>) -> (done: Result<
        (),
        WriteZero,
    >)
        ensures
            done is Ok <==> written(*old(chunk)).len() + encode(
                headers(part@.content_type, part@.content_disposition),
            ).len() <= max_chunk_len(),
            done is Ok ==> written(*final(chunk)) == written(*old(chunk)) + encode(
                headers(part@.content_type, part@.content_disposition),
            ),
            writing(*final(chunk), done) == Writing::start(written(*old(chunk))).put_headers(
                part@.content_type,
                part@.content_disposition,
            ),
    {
        proof {
            lemma_headers_pieces(part@.content_type, part@.content_disposition);
        }
        write_crlf(chunk)?;
        write_all(chunk, "Content-Type: ".as_bytes())?;
        write_all(chunk, part.content_type.as_str().as_bytes())?;
        write_crlf(chunk)?;
        write_all(chunk, "Content-Disposition: ".as_bytes())?;
        write_all(chunk, part.content_disposition.as_str().as_bytes())?;
        write_crlf(chunk)?;
        write_crlf(chunk)
    }
}

impl<R> Body<R> {
    /// Ends the stream after an error, and lets go of every source.
    fn fail(&mut self)
        requires
            old(self).bounded(),
        ensures
            final(self).rep(),
            final(self)@ == old(self)@.failed(),
    {
        self.phase = Phase::Failed;
        self.current = None;
        self.pending = None;
        self.parts.clear();
    }

    /// Whether a chunk of `held` bytes and what is to be written next, the
    /// head of the next part or the closing line, are more than the buffer
    /// holds.
    fn frame_exceeds(&self, held: usize) -> (over: bool)
        requires
            self.rep(),
            self@.phase == Phase::Streaming,
        ensures
            over == (held + (if self@.begun >= self@.parts.len() {
                encode(closing(self@.boundary)).len()
            } else {
                encode(delimiter(self@.boundary)).len() + encode(
                    headers(
                        self@.parts[self@.begun as int].content_type,
                        self@.parts[self@.begun as int].content_disposition,
                    ),
                ).len()
            }) > self@.buf_size),
    {
        let ghost views = self.parts@.map_values(|part: Part<R>| part@);
        assert(views.len() == self.parts@.len());
        if self.parts.len() == 0 {
            let frame = self.final_boundary_len();
            exceeds(held, frame, self.buf_size, Ghost(encode(closing(self@.boundary)).len()))
        } else {
            let part = &self.parts[0];
            assert(views[0] == part@);
            let frame = self.head_len(part);
            exceeds(
                held,
                frame,
                self.buf_size,
                Ghost(
                    encode(delimiter(self@.boundary)).len() + encode(
                        headers(part@.content_type, part@.content_disposition),
                    ).len(),
                ),
            )
        }
    }

    /// Goes on with the chunk put together so far, from part to part, until
    /// there is a chunk to yield or a source to read.
    fn advance(&mut self, chunk: BytesMut) -> (step: Result<Step, Error>)
        requires
            old(self).rep(),
            old(self)@.phase == Phase::Streaming,
            old(self)@.pending is None,
        ensures
            final(self).rep(),
            (final(self)@, outcome(step)) == old(self)@.advance(written(chunk)),
    {
        let mut buf = chunk;
        loop
            invariant
                self.rep(),
                self@.phase == Phase::Streaming,
                self@.pending is None,
                self@.advance(written(buf)) == old(self)@.advance(written(chunk)),
            decreases self@.parts.len() - self@.begun, (if self@.active is Some {
                1nat
            } else {
                0nat
            }),
        {
            let ghost before = self@;
            let ghost held = written(buf);
            let ghost waiting = self.parts@;
            proof {
                assert(waiting.map_values(|part: Part<R>| part@).len() == waiting.len());
            }
            let held = buf.len();
            match self.current.take() {
                None => if held > 0 && self.frame_exceeds(held) {
                    proof {
                        self.sent@ = self.sent@ + written(buf);
                    }
                    return Ok(Step::Chunk(buf.freeze()));
                } else {
                    match self.parts.pop_front() {
                    None => {
                        if self.write_final_boundary(&mut buf).is_err() {
                            self.fail();
                            return Err(Error::BoundaryWrite);
                        }
                        self.phase = Phase::Complete;
                        proof {
                            self.sent@ = self.sent@ + written(buf);
                        }
                        return Ok(Step::Chunk(buf.freeze()));
                    },
                    Some(part) => {
                        proof {
                            let views = waiting.map_values(|part: Part<R>| part@);
                            assert(views[0] == part@);
                            assert(part@ == before.parts[before.begun as int]);
                            let left = self.parts@.map_values(|part: Part<R>| part@);
                            assert forall|i: int| 0 <= i < left.len() implies left[i]
                                == before.parts.skip(before.begun as int + 1)[i] by {
                                assert(left[i] == views[i + 1]);
                            }
                            assert(left =~= before.parts.skip(before.begun as int + 1));
                        }
                        if self.write_boundary(&mut buf).is_err() {
                            self.fail();
                            return Err(Error::BoundaryWrite);
                        }
                        if self.write_headers(&mut buf, &part).is_err() {
                            self.fail();
                            return Err(Error::HeaderWrite);
                        }
                        self.current = Some(
                            match part.inner {
                                Inner::Read(read) => Active::Reader(read),
                                Inner::Text(text) => Active::Text { text, pos: 0 },
                            },
                        );
                        proof {
                            self.begun@ = self.begun@ + 1;
                            self.contents@ = self.contents@.push(Seq::empty());
                            if let Some(text) = part@.text() {
                                assert(encode(text).skip(0) =~= encode(text));
                            }
                            assert(self@ == before.begin());
                        }
                    },
                    }
                },
                Some(active) => {
                    let len = held;
                    if len >= self.buf_size {
                        self.current = Some(active);
                        proof {
                            self.sent@ = self.sent@ + written(buf);
                        }
                        return Ok(Step::Chunk(buf.freeze()));
                    }
                    let limit = self.buf_size - len;
                    match active {
                        Active::Reader(read) => {
                            self.current = Some(Active::Reader(read));
                            self.pending = Some(buf);
                            return Ok(Step::Read(limit));
                        },
                        Active::Text { text, pos } => {
                            let bytes = text.as_str().as_bytes();
                            let rest = bytes.len() - pos;
                            if rest > 0 {
                                let n = if rest < limit {
                                    rest
                                } else {
                                    limit
                                };
                                buf.extend_from_slice(slice_subrange(bytes, pos, pos + n));
                                self.current = Some(Active::Text { text, pos: pos + n });
                                proof {
                                    let left = encode(text@).skip(pos as int);
                                    let data = left.take(n as int);
                                    assert(bytes@.subrange(pos as int, pos + n) =~= data);
                                    assert(left.skip(n as int) =~= encode(text@).skip(pos + n));
                                    self.contents@ = self.contents@.update(
                                        self.begun@ - 1,
                                        self.contents@[self.begun@ - 1] + data,
                                    );
                                    self.sent@ = self.sent@ + written(buf);
                                }
                                return Ok(Step::Chunk(buf.freeze()));
                            }
                        },
                    }
                },
            }
        }
    }
}

impl<R> Body<R> {
    /// Pulls the next chunk. Where the content of a part has to be read
    /// from its source first, the pull says so, and says so again until the
    /// answer is handed to [`Body::supply`]. After the closing line, and
    /// after an error, every pull finds the stream ended. No chunk is empty,
    /// and none is longer than the buffer, but for a head or a closing line
    /// that is longer than the buffer by itself and goes out alone.
    pub fn poll_next(&mut self) -> (step: Result<Step, Error>)
        requires
            old(self).wf(),
        ensures
            final(self).wf(),
            (final(self)@, outcome(step)) == old(self)@.poll(),
            step_in_order(old(self)@, final(self)@, outcome(step)),
    {
        proof {
            lemma_poll(self@);
        }
        match self.phase {
            Phase::Streaming => {},
            _ => {
                return Ok(Step::End);
            },
        }
        let awaited = match &self.pending {
            Some(chunk) => Some(chunk.len()),
            None => None,
        };
        match awaited {
            Some(len) => Ok(Step::Read(self.buf_size - len)),
            None => {
                let chunk = BytesMut::with_capacity(self.buf_size);
                self.advance(chunk)
            },
        }
    }
}

impl<R> Body<R> {
    /// How many bytes the read that the body awaits may give at most, if it
    /// awaits one.
    pub fn awaited(&self) -> (limit: Option<usize>)
        requires
            self.wf(),
        ensures
            limit is Some <==> self@.awaits_read(),
            limit matches Some(limit) ==> limit == self@.read_limit() && limit > 0,
    {
        match &self.pending {
            Some(chunk) => Some(self.buf_size - chunk.len()),
            None => None,
        }
    }

    /// Takes what was read from the source of the part that is being sent,
    /// in answer to [`Step::Read`]. Data goes out with the chunk at once. No
    /// data means that the source is exhausted: the body lets go of it and
    /// goes on to the next part, or to the closing line.
    pub fn supply(&mut self, data: &[u8]) -> (step: Result<Step, Error>)
        requires
            old(self).wf(),
            old(self)@.awaits_read(),
            data@.len() <= old(self)@.read_limit(),
        ensures
            final(self).wf(),
            (final(self)@, outcome(step)) == old(self)@.supply(data@),
            step_in_order(old(self)@, final(self)@, outcome(step)),
    {
        proof {
            lemma_supply(self@, data@);
        }
        let mut chunk = self.pending.take().unwrap();
        if data.len() > 0 {
            chunk.extend_from_slice(data);
            proof {
                self.contents@ = self.contents@.update(
                    self.begun@ - 1,
                    self.contents@[self.begun@ - 1] + data@,
                );
                self.sent@ = self.sent@ + written(chunk);
            }
            Ok(Step::Chunk(chunk.freeze()))
        } else {
            self.current = None;
            self.advance(chunk)
        }
    }

    /// Ends the stream because the source of the part that is being sent
    /// could not be read. The body lets go of every source.
    pub fn read_failed(&mut self) -> (error: Error)
        requires
            old(self).wf(),
        ensures
            final(self).wf(),
            final(self)@ == old(self)@.read_failed(),
            error == Error::ContentRead,
    {
        proof {
            lemma_read_failed(self@);
        }
        match self.phase {
            Phase::Streaming => {
                self.fail();
            },
            _ => {},
        }
        Error::ContentRead
    }

    /// The source of the part that is being sent, for whoever has to read
    /// it. Whatever reading makes of the source, the body is as it was in
    /// all else.
    pub fn reader_mut(&mut self) -> (read: Option<&mut R>)
        requires
            old(self).wf(),
        ensures
            match read {
                Some(read) => {
                    &&& old(self)@.reader() == Some(*read)
                    &&& final(self)@ == old(self)@.reading(*final(read))
                },
                None => old(self)@.reader() is None && final(self)@ == old(self)@,
            },
            final(self).wf(),
    {
        proof {
            if self@.reader() is Some {
                assert forall|read: R| (#[trigger] self@.reading(read)).wf() by {
                    lemma_reading(self@, read);
                }
            }
        }
        match &mut self.current {
            Some(Active::Reader(read)) => Some(read),
            _ => None,
        }
    }

    /// The bounds on the number of chunks still to come: none is known.
    pub fn size_hint(&self) -> (hint: (usize, Option<usize>))
        ensures
            hint == (0usize, None::<usize>),
    {
        (0, None)
    }
}

impl<R> From<Form<R>> for Body<R> {
    /// Turns a `Form` into a multipart `Body`.
    fn from(form: Form<R>) -> (body: Body<R>)
        ensures
            body.wf(),
            body@ == BodyView::initial(form@),
    {
        let ghost all = form@.parts;
        proof {
            lemma_initial(form@);
        }
        let Form { parts, boundary } = form;
        let mut stack = parts;
        let mut queue: VecDeque<Part<R>> = VecDeque::new();
        while stack.len() > 0
            invariant
                stack@.map_values(|part: Part<R>| part@) + queue@.map_values(|part: Part<R>| part@)
                    == all,
            decreases stack.len(),
        {
            let ghost below = stack@;
            let ghost behind = queue@;
            let part = stack.pop().unwrap();
            queue.push_front(part);
            assert(stack@.map_values(|part: Part<R>| part@) + queue@.map_values(
                |part: Part<R>| part@,
            ) =~= below.map_values(|part: Part<R>| part@) + behind.map_values(
                |part: Part<R>| part@,
            ));
        }
        assert(queue@.map_values(|part: Part<R>| part@) =~= all.skip(0));
        Body {
            buf_size: BUF_SIZE,
            current: None,
            parts: queue,
            boundary,
            pending: None,
            phase: Phase::Streaming,
            form: Ghost(all),
            begun: Ghost(0),
            contents: Ghost(Seq::empty()),
            sent: Ghost(Seq::empty()),
        }
    }
}

impl<R> vstd::std_specs::convert::FromSpecImpl<Form<R>> for Body<R> {
    open spec fn obeys_from_spec() -> bool {
        false
    }

    open spec fn from_spec(form: Form<R>) -> Body<R> {
        arbitrary()
    }
}

} // verus!
