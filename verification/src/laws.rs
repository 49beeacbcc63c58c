//! What holds of every encoder: each step keeps it in order, and an encoder
//! in order has yielded the message, as far as it has come.

use crate::buffer::max_chunk_len;
use crate::error::Error;
use crate::form::FormView;
use crate::machine::{ends_with, least, starts_with, BodyView, Phase, SourceView, StepView};
use crate::wire::{
    closing, crlf, dashes, delimiter, encode, head, headers, layout, lemma_closing_fits,
    lemma_delimiter_len, lemma_encode_concat, lemma_head_fits, lemma_longest_frame_within,
    message, ContentView, PartView,
};
use vstd::prelude::*;

verus! {

/// Beginning a part adds its head to the layout.
pub proof fn lemma_layout_begin<R>(
    boundary: Seq<char>,
    parts: Seq<PartView<R>>,
    contents: Seq<Seq<u8>>,
    begun: int,
)
    requires
        0 <= begun < parts.len(),
    ensures
        layout(boundary, parts.take(begun + 1), contents.push(Seq::empty())) == layout(
            boundary,
            parts.take(begun),
            contents,
        ) + encode(head(boundary, parts[begun])),
{
    let more = parts.take(begun + 1);
    assert(more.drop_last() =~= parts.take(begun));
    assert(contents.push(Seq::empty()).drop_last() =~= contents);
    assert(more.last() == parts[begun]);
    assert(layout(boundary, more, contents.push(Seq::empty())) =~= layout(
        boundary,
        parts.take(begun),
        contents,
    ) + encode(head(boundary, parts[begun])));
}

/// Content taken from the last part begun goes to the end of the layout.
pub proof fn lemma_layout_feed<R>(
    boundary: Seq<char>,
    parts: Seq<PartView<R>>,
    contents: Seq<Seq<u8>>,
    data: Seq<u8>,
)
    requires
        parts.len() > 0,
        contents.len() == parts.len(),
    ensures
        layout(
            boundary,
            parts,
            contents.update(contents.len() - 1, contents[contents.len() - 1] + data),
        ) == layout(boundary, parts, contents) + data,
{
    let last = contents.len() - 1;
    let fed = contents.update(last, contents[last] + data);
    assert(fed.drop_last() =~= contents.drop_last());
    assert(layout(boundary, parts, fed) =~= layout(boundary, parts, contents) + data);
}

/// The head of a part starts with a boundary line.
pub proof fn lemma_head_opens<R>(boundary: Seq<char>, part: PartView<R>)
    ensures
        starts_with(encode(head(boundary, part)), encode(delimiter(boundary) + crlf())),
{
    let line = delimiter(boundary) + crlf();
    let rest = "Content-Type: "@ + part.content_type + crlf() + "Content-Disposition: "@
        + part.content_disposition + crlf() + crlf();
    assert(head(boundary, part) =~= line + rest);
    lemma_encode_concat(line, rest);
    assert((encode(line) + encode(rest)).subrange(0, encode(line).len() as int) =~= encode(line));
}

/// A layout of one part or more starts with a boundary line.
pub proof fn lemma_layout_opens<R>(boundary: Seq<char>, parts: Seq<PartView<R>>, contents: Seq<Seq<u8>>)
    requires
        parts.len() > 0,
    ensures
        starts_with(layout(boundary, parts, contents), encode(delimiter(boundary) + crlf())),
    decreases parts.len(),
{
    let line = encode(delimiter(boundary) + crlf());
    let before = layout(boundary, parts.drop_last(), contents.drop_last());
    let all = layout(boundary, parts, contents);
    if parts.len() == 1 {
        lemma_head_opens(boundary, parts.last());
        assert(before =~= Seq::<u8>::empty());
        assert(all.subrange(0, line.len() as int) =~= encode(
            head(boundary, parts.last()),
        ).subrange(0, line.len() as int));
    } else {
        lemma_layout_opens(boundary, parts.drop_last(), contents.drop_last());
        assert(all.subrange(0, line.len() as int) =~= before.subrange(0, line.len() as int));
    }
}

/// What starts with a line still does when more is put behind it.
pub proof fn lemma_starts_with_more(data: Seq<u8>, more: Seq<u8>, prefix: Seq<u8>)
    requires
        starts_with(data, prefix),
    ensures
        starts_with(data + more, prefix),
{
    assert((data + more).subrange(0, prefix.len() as int) =~= data.subrange(
        0,
        prefix.len() as int,
    ));
}

/// What holds of every step of an encoder. It stays in order and keeps its
/// form. A chunk that it yields is not empty, is no longer than the buffer
/// unless it is one head or closing line that is, and is added to what it
/// has yielded; the chunk that completes the stream ends with the closing
/// line. A
/// read that it asks for has room for one byte at least, and for no more
/// than the buffer holds; it is a read of the source that the part was
/// added with, or, where the part was being read before, of the source as
/// the reads have left it. The stream ends only where it was at its end
/// before. An error ends the stream, and is no error of reading.
pub open spec fn step_in_order<R>(
    before: BodyView<R>,
    after: BodyView<R>,
    step: Result<StepView, Error>,
) -> bool {
    &&& after.wf()
    &&& after.boundary == before.boundary
    &&& after.parts == before.parts
    &&& after.buf_size == before.buf_size
    &&& match step {
        Ok(StepView::Chunk(chunk)) => {
            &&& 0 < chunk.len() <= before.chunk_bound()
            &&& after.sent == before.sent + chunk
            &&& after.phase != Phase::Failed
            &&& !after.awaits_read()
            &&& after.phase == Phase::Complete ==> ends_with(
                chunk,
                encode(closing(before.boundary)),
            )
        },
        Ok(StepView::Read(limit)) => {
            &&& 0 < limit <= before.buf_size
            &&& after.sent == before.sent
            &&& after.awaits_read()
            &&& after.read_limit() == limit
            &&& after.begun >= before.begun
            &&& if after.begun == before.begun {
                after.reader() == before.reader()
            } else {
                after.parts[after.begun - 1].content == ContentView::Read(after.reader()->0)
            }
        },
        Ok(StepView::End) => after == before && before.phase != Phase::Streaming,
        Err(error) => {
            &&& after.sent == before.sent
            &&& after.phase == Phase::Failed
            &&& error != Error::ContentRead
        },
    }
}

/// The parts that were done with stay so where nothing is taken from them.
proof fn lemma_settled_kept<R>(before: BodyView<R>, after: BodyView<R>)
    requires
        after.parts == before.parts,
        after.settled() <= before.settled(),
        forall|i: int| 0 <= i < after.settled() ==> after.contents[i] == before.contents[i],
        forall|i: int| 0 <= i < before.settled() ==> before.whole(i),
    ensures
        forall|i: int| 0 <= i < after.settled() ==> after.whole(i),
{
    assert forall|i: int| 0 <= i < after.settled() implies after.whole(i) by {
        assert(before.whole(i));
    }
}

/// What is yielded still starts as the message does when a chunk is added
/// to it.
proof fn lemma_opens_kept<R>(state: BodyView<R>, chunk: Seq<u8>, more: Seq<u8>)
    requires
        state.sound(chunk),
        state.parts.len() > 0,
        chunk.len() + more.len() > 0,
        state.begun > 0 || state.sent.len() > 0,
    ensures
        starts_with(state.sent + (chunk + more), encode(delimiter(state.boundary) + crlf())),
{
    let line_start = encode(delimiter(state.boundary) + crlf());
    let so_far = layout(state.boundary, state.parts.take(state.begun as int), state.contents);
    if state.sent.len() > 0 {
        lemma_starts_with_more(state.sent, chunk + more, line_start);
    } else {
        lemma_layout_opens(state.boundary, state.parts.take(state.begun as int), state.contents);
        assert(chunk =~= so_far);
        lemma_starts_with_more(chunk, more, line_start);
        assert(state.sent + (chunk + more) =~= chunk + more);
    }
}

/// An encoder stays in order as it yields the chunk put together so far.
proof fn lemma_emit<R>(state: BodyView<R>, chunk: Seq<u8>)
    requires
        state.sound(chunk),
        state.pending is None,
        chunk.len() > 0,
    ensures
        step_in_order(state, state.emit(chunk), Ok(StepView::Chunk(chunk))),
{
    let after = state.emit(chunk);
    if state.begun == 0 {
        assert(state.parts.take(0) =~= Seq::<PartView<R>>::empty());
        assert(state.sent + chunk =~= Seq::<u8>::empty());
    }
    lemma_opens_kept(state, chunk, Seq::empty());
    assert(chunk + Seq::<u8>::empty() =~= chunk);
    assert(after.sent + Seq::<u8>::empty() =~= state.sent + chunk);
    lemma_settled_kept(state, after);
}

/// An encoder that has sent all its parts stays in order as it closes the
/// message.
proof fn lemma_advance_closing<R>(state: BodyView<R>, chunk: Seq<u8>)
    requires
        state.sound(chunk),
        state.pending is None,
        state.active is None,
        state.begun >= state.parts.len(),
        chunk.len() == 0 || chunk.len() + encode(closing(state.boundary)).len() <= state.buf_size,
    ensures
        step_in_order(state, state.advance(chunk).0, state.advance(chunk).1),
        !(state.advance(chunk).1 matches Ok(StepView::End)),
{
    let (after, step) = state.advance(chunk);
    let so_far = layout(state.boundary, state.parts.take(state.begun as int), state.contents);
    let line = encode(closing(state.boundary));
    lemma_closing_fits(state.boundary, state.parts);
    lemma_delimiter_len(state.boundary);
    if chunk.len() + line.len() <= max_chunk_len() {
        assert(state.parts.take(state.begun as int) =~= state.parts);
        assert(state.sent + (chunk + line) =~= so_far + line);
        if state.parts.len() == 0 {
            assert(state.sent + chunk =~= Seq::<u8>::empty());
            assert(state.sent + (chunk + line) =~= line);
        } else {
            lemma_opens_kept(state, chunk, line);
        }
        assert((chunk + line).subrange(chunk.len() as int, (chunk + line).len() as int)
            =~= line);
        lemma_settled_kept(state, after);
    }
}

/// An encoder stays in order as it begins the next part.
proof fn lemma_begin<R>(state: BodyView<R>, chunk: Seq<u8>)
    requires
        state.sound(chunk),
        state.pending is None,
        state.active is None,
        state.begun < state.parts.len(),
        chunk.len() == 0 || chunk.len() + encode(
            head(state.boundary, state.parts[state.begun as int]),
        ).len() <= state.buf_size,
    ensures
        ({
            let part = state.parts[state.begun as int];
            let line = encode(delimiter(state.boundary));
            let block = encode(headers(part.content_type, part.content_disposition));
            &&& state.begin().sound(chunk + line + block)
            &&& line + block == encode(head(state.boundary, part))
        }),
{
    let part = state.parts[state.begun as int];
    let line = encode(delimiter(state.boundary));
    let block = encode(headers(part.content_type, part.content_disposition));
    let so_far = layout(state.boundary, state.parts.take(state.begun as int), state.contents);
    let next = state.begin();
    let more = chunk + line + block;
    lemma_head_fits(state.boundary, state.parts, state.begun as int);
    lemma_layout_begin(state.boundary, state.parts, state.contents, state.begun as int);
    lemma_encode_concat(
        delimiter(state.boundary),
        headers(part.content_type, part.content_disposition),
    );
    assert(state.sent + more =~= so_far + (line + block));
    match part.text() {
        Some(text) => {
            assert(next.contents[next.begun - 1] + encode(text) =~= encode(text));
        },
        None => {},
    }
    lemma_settled_kept(state, next);
}

/// An encoder stays in order as it asks for a read.
proof fn lemma_advance_read<R>(state: BodyView<R>, chunk: Seq<u8>)
    requires
        state.sound(chunk),
        state.pending is None,
        state.reader() is Some,
        chunk.len() < state.buf_size,
    ensures
        step_in_order(state, state.advance(chunk).0, state.advance(chunk).1),
        !(state.advance(chunk).1 matches Ok(StepView::End)),
{
    lemma_settled_kept(state, state.advance(chunk).0);
}

/// An encoder stays in order as it yields some of the text that is being
/// sent.
proof fn lemma_advance_text<R>(state: BodyView<R>, chunk: Seq<u8>, rest: Seq<u8>)
    requires
        state.sound(chunk),
        state.pending is None,
        state.active == Some(SourceView::<R>::Text(rest)),
        chunk.len() < state.buf_size,
        rest.len() > 0,
    ensures
        step_in_order(state, state.advance(chunk).0, state.advance(chunk).1),
        !(state.advance(chunk).1 matches Ok(StepView::End)),
{
    let (after, step) = state.advance(chunk);
    let so_far = layout(state.boundary, state.parts.take(state.begun as int), state.contents);
    let last = state.begun - 1;
    let n = least(rest.len() as int, state.buf_size - chunk.len());
    let data = rest.take(n);
    lemma_layout_feed(state.boundary, state.parts.take(state.begun as int), state.contents, data);
    assert(state.contents[last] + data + rest.skip(n) =~= state.contents[last] + rest);
    assert(after.sent + Seq::<u8>::empty() =~= so_far + data);
    assert(state.sent + (chunk + data) =~= so_far + data);
    lemma_opens_kept(state, chunk, data);
    lemma_settled_kept(state, after);
}

/// An encoder stays in order as it lets go of a text that is sent, or of a
/// source that is exhausted.
proof fn lemma_release<R>(state: BodyView<R>, chunk: Seq<u8>)
    requires
        state.sound(chunk),
        state.pending is None,
        state.active == Some(SourceView::<R>::Text(Seq::empty())) || state.reader() is Some,
    ensures
        (BodyView { active: None, ..state }).sound(chunk),
{
    let next = BodyView { active: None, ..state };
    let last = state.begun - 1;
    assert(state.contents[last] + Seq::<u8>::empty() =~= state.contents[last]);
    assert forall|i: int| 0 <= i < next.settled() implies next.whole(i) by {
        if i < last {
            assert(state.whole(i));
        }
    }
}

/// An encoder that goes on with a chunk stays in order.
pub proof fn lemma_advance<R>(state: BodyView<R>, chunk: Seq<u8>)
    requires
        state.sound(chunk),
        state.pending is None,
    ensures
        step_in_order(state, state.advance(chunk).0, state.advance(chunk).1),
        !(state.advance(chunk).1 matches Ok(StepView::End)),
    decreases state.parts.len() - state.begun, (if state.active is Some {
        1nat
    } else {
        0nat
    }),
{
    match state.active {
        None => {
            if state.begun >= state.parts.len() {
                let line = encode(closing(state.boundary));
                if chunk.len() > 0 && chunk.len() + line.len() > state.buf_size {
                    lemma_emit(state, chunk);
                } else {
                    lemma_advance_closing(state, chunk);
                }
            } else {
                let part = state.parts[state.begun as int];
                let line = encode(delimiter(state.boundary));
                let block = encode(headers(part.content_type, part.content_disposition));
                lemma_encode_concat(
                    delimiter(state.boundary),
                    headers(part.content_type, part.content_disposition),
                );
                if chunk.len() > 0 && chunk.len() + line.len() + block.len() > state.buf_size {
                    lemma_emit(state, chunk);
                } else if chunk.len() + line.len() + block.len() <= max_chunk_len() {
                    lemma_begin(state, chunk);
                    lemma_advance(state.begin(), chunk + line + block);
                }
            }
        },
        Some(source) => {
            if chunk.len() >= state.buf_size {
                lemma_emit(state, chunk);
            } else {
                match source {
                    SourceView::Reader(_) => {
                        lemma_advance_read(state, chunk);
                    },
                    SourceView::Text(rest) => {
                        if rest.len() == 0 {
                            assert(rest =~= Seq::<u8>::empty());
                            lemma_release(state, chunk);
                            lemma_advance(BodyView { active: None, ..state }, chunk);
                        } else {
                            lemma_advance_text(state, chunk, rest);
                        }
                    },
                }
            }
        },
    }
}

/// An encoder that has yielded nothing of a form yet is in order.
pub proof fn lemma_initial<R>(form: FormView<R>)
    ensures
        BodyView::<R>::initial(form).wf(),
        BodyView::<R>::initial(form).sent.len() == 0,
        BodyView::<R>::initial(form).parts == form.parts,
        BodyView::<R>::initial(form).boundary == form.boundary,
{
    let state = BodyView::<R>::initial(form);
    assert(state.parts.take(0) =~= Seq::<PartView<R>>::empty());
    assert(state.sent + Seq::<u8>::empty() =~= layout(
        state.boundary,
        state.parts.take(0),
        state.contents,
    ));
    assert(max_chunk_len() >= 2048) by {
        assert(isize::MAX >= 0x7fff_ffff);
    }
}

/// A pull keeps the encoder in order.
pub proof fn lemma_poll<R>(state: BodyView<R>)
    requires
        state.wf(),
    ensures
        step_in_order(state, state.poll().0, state.poll().1),
{
    if state.phase == Phase::Streaming && state.pending is None {
        lemma_advance(state, Seq::empty());
    }
}

/// An answer to a read keeps the encoder in order, and what was read is
/// added to the content of the part that is being sent.
pub proof fn lemma_supply<R>(state: BodyView<R>, data: Seq<u8>)
    requires
        state.wf(),
        state.awaits_read(),
        data.len() <= state.read_limit(),
    ensures
        step_in_order(state, state.supply(data).0, state.supply(data).1),
        !(state.supply(data).1 matches Ok(StepView::End)),
        data.len() > 0 ==> state.supply(data).0.contents == state.contents.update(
            state.begun - 1,
            state.contents[state.begun - 1] + data,
        ),
{
    let chunk = state.pending->0;
    let (after, step) = state.supply(data);
    let so_far = layout(state.boundary, state.parts.take(state.begun as int), state.contents);
    if data.len() > 0 {
        lemma_layout_feed(
            state.boundary,
            state.parts.take(state.begun as int),
            state.contents,
            data,
        );
        assert(after.sent + Seq::<u8>::empty() =~= so_far + data);
        lemma_opens_kept(state, chunk, data);
        lemma_settled_kept(state, after);
    } else {
        let waiting = BodyView { pending: None, ..state };
        lemma_settled_kept(state, waiting);
        lemma_release(waiting, chunk);
        lemma_advance(BodyView { active: None, ..waiting }, chunk);
    }
}

/// A failed read leaves the encoder in order, and ends a stream that was
/// under way.
pub proof fn lemma_read_failed<R>(state: BodyView<R>)
    requires
        state.wf(),
    ensures
        state.read_failed().wf(),
        state.read_failed().sent == state.sent,
        state.phase == Phase::Streaming ==> state.read_failed().phase == Phase::Failed,
        state.phase != Phase::Streaming ==> state.read_failed() == state,
{
}

/// Reading the source of the part that is being sent leaves the encoder in
/// order, whatever it makes of the source.
pub proof fn lemma_reading<R>(state: BodyView<R>, read: R)
    requires
        state.wf(),
        state.reader() is Some,
    ensures
        state.reading(read).wf(),
{
    lemma_settled_kept(state, state.reading(read));
}

/// Where every head and the closing line fit the buffer, no chunk is longer
/// than the buffer.
pub proof fn lemma_chunks_fit_buffer<R>(
    before: BodyView<R>,
    after: BodyView<R>,
    step: Result<StepView, Error>,
)
    requires
        step_in_order(before, after, step),
        encode(closing(before.boundary)).len() <= before.buf_size,
        forall|i: int|
            0 <= i < before.parts.len() ==> encode(
                head(before.boundary, #[trigger] before.parts[i]),
            ).len() <= before.buf_size,
    ensures
        step matches Ok(StepView::Chunk(chunk)) ==> chunk.len() <= before.buf_size,
{
    lemma_longest_frame_within(before.boundary, before.parts, before.buf_size);
}

/// What can happen to an encoder.
pub enum Event {
    /// It is pulled.
    Pull,
    /// It is handed what a read gave.
    Data(Seq<u8>),
    /// It is told that a read failed.
    ReadFailed,
}

/// The bytes that a step yields.
pub open spec fn yielded(step: Result<StepView, Error>) -> Seq<u8> {
    match step {
        Ok(StepView::Chunk(chunk)) => chunk,
        _ => Seq::empty(),
    }
}

/// What an event makes of an encoder, and the bytes that the encoder yields
/// on it. Data that the encoder has not asked for, or more of it than it
/// has asked for, is not handed in.
pub open spec fn react<R>(state: BodyView<R>, event: Event) -> (BodyView<R>, Seq<u8>) {
    match event {
        Event::Pull => (state.poll().0, yielded(state.poll().1)),
        Event::Data(data) => if state.awaits_read() && data.len() <= state.read_limit() {
            (state.supply(data).0, yielded(state.supply(data).1))
        } else {
            (state, Seq::empty())
        },
        Event::ReadFailed => (state.read_failed(), Seq::empty()),
    }
}

/// What a course of events makes of an encoder, and all the bytes that the
/// encoder yields in its course, chunk after chunk.
pub open spec fn run<R>(state: BodyView<R>, events: Seq<Event>) -> (BodyView<R>, Seq<u8>)
    decreases events.len(),
{
    if events.len() == 0 {
        (state, Seq::empty())
    } else {
        let (before, out) = run(state, events.drop_last());
        let (after, more) = react(before, events.last());
        (after, out + more)
    }
}

/// Whatever happens to an encoder in order, it stays in order, it keeps its
/// form, and what it has yielded grows by just the bytes of its chunks.
pub proof fn lemma_run<R>(state: BodyView<R>, events: Seq<Event>)
    requires
        state.wf(),
    ensures
        run(state, events).0.wf(),
        run(state, events).0.boundary == state.boundary,
        run(state, events).0.parts == state.parts,
        run(state, events).0.sent == state.sent + run(state, events).1,
    decreases events.len(),
{
    if events.len() == 0 {
        assert(state.sent + Seq::<u8>::empty() =~= state.sent);
    } else {
        lemma_run(state, events.drop_last());
        let (before, out) = run(state, events.drop_last());
        let (after, more) = react(before, events.last());
        match events.last() {
            Event::Pull => {
                lemma_poll(before);
            },
            Event::Data(data) => {
                if before.awaits_read() && data.len() <= before.read_limit() {
                    lemma_supply(before, data);
                }
            },
            Event::ReadFailed => {
                lemma_read_failed(before);
            },
        }
        assert(before.sent + more =~= state.sent + (out + more));
        assert(before.sent + Seq::<u8>::empty() =~= before.sent);
    }
}

/// Once the closing line is yielded, or an error has ended the stream,
/// nothing is yielded any more and nothing changes, whatever happens.
pub proof fn lemma_ended_stream_is_silent<R>(state: BodyView<R>, events: Seq<Event>)
    requires
        state.phase != Phase::Streaming,
    ensures
        run(state, events).0 == state,
        run(state, events).1.len() == 0,
    decreases events.len(),
{
    if events.len() > 0 {
        lemma_ended_stream_is_silent(state, events.drop_last());
    }
}

/// The chunks of a stream that has come to its end make up the message of
/// the form: the parts in the order in which they were added, each with
/// its head and the content taken from it, and the closing line. The
/// content of a text part is its text.
pub proof fn lemma_complete_stream<R>(form: FormView<R>, events: Seq<Event>)
    requires
        run(BodyView::<R>::initial(form), events).0.phase == Phase::Complete,
    ensures
        ({
            let (end, out) = run(BodyView::<R>::initial(form), events);
            &&& out == message(form.boundary, form.parts, end.contents)
            &&& end.contents.len() == form.parts.len()
            &&& forall|i: int|
                0 <= i < form.parts.len() ==> (#[trigger] form.parts[i].text() matches Some(text)
                    ==> end.contents[i] == encode(text))
        }),
{
    let start = BodyView::<R>::initial(form);
    lemma_initial(form);
    lemma_run(start, events);
    let (end, out) = run(start, events);
    assert(start.sent + out =~= out);
    assert forall|i: int| 0 <= i < form.parts.len() implies (#[trigger] form.parts[i].text() matches Some(
        text,
    ) ==> end.contents[i] == encode(text)) by {
        assert(end.whole(i));
    }
}

/// The first bytes that a stream yields are a boundary line: a line break,
/// two hyphens and the boundary, and behind them, where the form has
/// parts, a line break. Of a form without parts the stream yields the
/// closing line and no more, so that two hyphens follow instead.
pub proof fn lemma_stream_opens<R>(form: FormView<R>, events: Seq<Event>)
    requires
        run(BodyView::<R>::initial(form), events).1.len() > 0,
    ensures
        starts_with(run(BodyView::<R>::initial(form), events).1, encode(delimiter(form.boundary))),
        form.parts.len() > 0 ==> starts_with(
            run(BodyView::<R>::initial(form), events).1,
            encode(delimiter(form.boundary) + crlf()),
        ),
        form.parts.len() == 0 ==> run(BodyView::<R>::initial(form), events).1 == encode(
            closing(form.boundary),
        ),
{
    let start = BodyView::<R>::initial(form);
    let out = run(start, events).1;
    let line = encode(delimiter(form.boundary));
    lemma_initial(form);
    lemma_run(start, events);
    assert(start.sent + out =~= out);
    if form.parts.len() > 0 {
        lemma_encode_concat(delimiter(form.boundary), crlf());
        assert(out.subrange(0, line.len() as int) =~= out.subrange(
            0,
            (line + encode(crlf())).len() as int,
        ).subrange(0, line.len() as int));
    } else {
        lemma_encode_concat(delimiter(form.boundary), dashes());
        assert((line + encode(dashes())).subrange(0, line.len() as int) =~= line);
    }
}

/// The message of a form without parts is the closing line, and the first
/// pull yields all of it: a line break, two hyphens, the boundary, two
/// hyphens. The next pull finds the stream ended.
pub proof fn lemma_empty_form<R>(form: FormView<R>)
    requires
        form.parts.len() == 0,
        encode(closing(form.boundary)).len() <= max_chunk_len(),
    ensures
        message(form.boundary, form.parts, Seq::empty()) == encode(closing(form.boundary)),
        BodyView::<R>::initial(form).poll().1 == Ok::<StepView, Error>(
            StepView::Chunk(encode(closing(form.boundary))),
        ),
        BodyView::<R>::initial(form).poll().0.phase == Phase::Complete,
        BodyView::<R>::initial(form).poll().0.sent == encode(closing(form.boundary)),
        BodyView::<R>::initial(form).poll().0.poll().1 == Ok::<StepView, Error>(StepView::End),
{
    let line = encode(closing(form.boundary));
    assert(Seq::<u8>::empty() + line =~= line);
    assert(Seq::<u8>::empty() + (Seq::<u8>::empty() + line) =~= line);
}

} // verus!
