//! Where the boundary lines stand in a message: one at the head of each
//! part, the closing line at the end, and no other that the encoder wrote.

use crate::form::FormView;
use crate::laws::{
    lemma_complete_stream, lemma_head_opens, lemma_starts_with_more, run, Event,
};
use crate::machine::{BodyView, Phase};
use crate::machine::starts_with;
use crate::wire::{
    closing, crlf, dashes, delimiter, encode, head, layout, lemma_delimiter_len,
    lemma_encode_concat, lemma_encode_len, message, offset, PartView,
};
use vstd::prelude::*;

verus! {

/// The layout of the first parts of a form is the start of the layout of
/// all of them.
pub proof fn lemma_layout_prefix<R>(
    boundary: Seq<char>,
    parts: Seq<PartView<R>>,
    contents: Seq<Seq<u8>>,
    i: int,
)
    requires
        contents.len() == parts.len(),
        0 <= i <= parts.len(),
    ensures
        starts_with(
            layout(boundary, parts, contents),
            layout(boundary, parts.take(i), contents.take(i)),
        ),
    decreases parts.len(),
{
    let all = layout(boundary, parts, contents);
    if i == parts.len() {
        assert(parts.take(i) =~= parts);
        assert(contents.take(i) =~= contents);
        assert(all.subrange(0, all.len() as int) =~= all);
    } else {
        lemma_layout_prefix(boundary, parts.drop_last(), contents.drop_last(), i);
        assert(parts.drop_last().take(i) =~= parts.take(i));
        assert(contents.drop_last().take(i) =~= contents.take(i));
        lemma_starts_with_more(
            layout(boundary, parts.drop_last(), contents.drop_last()),
            encode(head(boundary, parts.last())) + contents.last(),
            layout(boundary, parts.take(i), contents.take(i)),
        );
        assert(all =~= layout(boundary, parts.drop_last(), contents.drop_last()) + (encode(
            head(boundary, parts.last()),
        ) + contents.last()));
    }
}

/// In the message of a form each part has its place, in the order of the
/// parts: its head, which starts with a boundary line, its content right
/// behind the head, and behind that the head of the next part.
pub proof fn lemma_part_framed<R>(
    boundary: Seq<char>,
    parts: Seq<PartView<R>>,
    contents: Seq<Seq<u8>>,
    i: int,
)
    requires
        contents.len() == parts.len(),
        0 <= i < parts.len(),
    ensures
        ({
            let whole = message(boundary, parts, contents);
            let start = offset(boundary, parts, contents, i);
            let top = encode(head(boundary, parts[i]));
            let next = offset(boundary, parts, contents, i + 1);
            &&& 0 <= start
            &&& start + top.len() + contents[i].len() == next
            &&& next <= whole.len()
            &&& whole.subrange(start, start + top.len()) == top
            &&& whole.subrange(start + top.len(), next) == contents[i]
            &&& starts_with(top, encode(delimiter(boundary) + crlf()))
        }),
{
    let whole = message(boundary, parts, contents);
    let all = layout(boundary, parts, contents);
    let upto = layout(boundary, parts.take(i + 1), contents.take(i + 1));
    let before = layout(boundary, parts.take(i), contents.take(i));
    let top = encode(head(boundary, parts[i]));
    lemma_layout_prefix(boundary, parts, contents, i + 1);
    lemma_head_opens(boundary, parts[i]);
    assert(parts.take(i + 1).drop_last() =~= parts.take(i));
    assert(contents.take(i + 1).drop_last() =~= contents.take(i));
    assert(upto =~= before + top + contents[i]);
    let a = before.len() as int;
    let b = a + top.len();
    let c = upto.len() as int;
    assert(whole.subrange(0, c) =~= all.subrange(0, c));
    assert(whole.subrange(a, b) =~= upto.subrange(a, b));
    assert(whole.subrange(b, c) =~= upto.subrange(b, c));
    assert(upto.subrange(a, b) =~= top);
    assert(upto.subrange(b, c) =~= contents[i]);
}

/// The message of a form ends with the closing line, which stands right
/// behind the content of the last part, and nowhere else does the encoder
/// put one.
pub proof fn lemma_closing_framed<R>(
    boundary: Seq<char>,
    parts: Seq<PartView<R>>,
    contents: Seq<Seq<u8>>,
)
    requires
        contents.len() == parts.len(),
    ensures
        ({
            let whole = message(boundary, parts, contents);
            let end = offset(boundary, parts, contents, parts.len() as int);
            &&& whole.len() == end + encode(closing(boundary)).len()
            &&& whole.subrange(end, whole.len() as int) == encode(closing(boundary))
        }),
{
    let whole = message(boundary, parts, contents);
    let all = layout(boundary, parts, contents);
    assert(parts.take(parts.len() as int) =~= parts);
    assert(contents.take(parts.len() as int) =~= contents);
    assert(whole.subrange(all.len() as int, whole.len() as int) =~= encode(closing(boundary)));
}

/// Whether `pattern` stands in `data` at the place `at`.
pub open spec fn occurs_at(data: Seq<u8>, pattern: Seq<u8>, at: int) -> bool {
    0 <= at && at + pattern.len() <= data.len() && data.subrange(at, at + pattern.len())
        == pattern
}

/// The places in `data` at which `pattern` stands.
pub open spec fn occurrences(data: Seq<u8>, pattern: Seq<u8>) -> Set<int> {
    Set::new(|at: int| occurs_at(data, pattern, at))
}

/// The boundary line that opens a part: a line break, two hyphens, the
/// boundary, a line break.
pub open spec fn opening_line(boundary: Seq<char>) -> Seq<u8> {
    encode(delimiter(boundary) + crlf())
}

/// The boundary line that closes the message: a line break, two hyphens,
/// the boundary, two hyphens.
pub open spec fn closing_line(boundary: Seq<char>) -> Seq<u8> {
    encode(closing(boundary))
}

/// The places at which the first `count` parts of a message begin.
pub open spec fn heads<R>(
    boundary: Seq<char>,
    parts: Seq<PartView<R>>,
    contents: Seq<Seq<u8>>,
    count: int,
) -> Set<int> {
    Set::new(
        |at: int| exists|i: int| 0 <= i < count && at == offset(boundary, parts, contents, i),
    )
}

/// Whether the message can be read in one way only: no boundary line
/// stands in it but where the encoder wrote one. That fails where a header
/// or the content of a part spells out a boundary line itself.
pub open spec fn unambiguous<R>(
    boundary: Seq<char>,
    parts: Seq<PartView<R>>,
    contents: Seq<Seq<u8>>,
) -> bool {
    let whole = message(boundary, parts, contents);
    forall|at: int|
        (occurs_at(whole, opening_line(boundary), at) || occurs_at(
            whole,
            closing_line(boundary),
            at,
        )) ==> exists|i: int| 0 <= i <= parts.len() && at == offset(boundary, parts, contents, i)
}

/// The head of a part is not empty.
pub proof fn lemma_head_len<R>(boundary: Seq<char>, part: PartView<R>)
    ensures
        encode(head(boundary, part)).len() >= 4,
{
    lemma_delimiter_len(boundary);
    lemma_encode_len(head(boundary, part));
}

/// A later part begins further on in the message.
pub proof fn lemma_offsets_increase<R>(
    boundary: Seq<char>,
    parts: Seq<PartView<R>>,
    contents: Seq<Seq<u8>>,
    i: int,
    j: int,
)
    requires
        contents.len() == parts.len(),
        0 <= i < j <= parts.len(),
    ensures
        offset(boundary, parts, contents, i) < offset(boundary, parts, contents, j),
    decreases j - i,
{
    lemma_part_framed(boundary, parts, contents, j - 1);
    lemma_head_len(boundary, parts[j - 1]);
    if i < j - 1 {
        lemma_offsets_increase(boundary, parts, contents, i, j - 1);
    }
}

/// A message of so many parts has so many places at which a part begins.
pub proof fn lemma_heads_counted<R>(
    boundary: Seq<char>,
    parts: Seq<PartView<R>>,
    contents: Seq<Seq<u8>>,
    count: int,
)
    requires
        contents.len() == parts.len(),
        0 <= count <= parts.len(),
    ensures
        heads(boundary, parts, contents, count).finite(),
        heads(boundary, parts, contents, count).len() == count,
    decreases count,
{
    let all = heads(boundary, parts, contents, count);
    if count == 0 {
        assert(all =~= Set::<int>::empty());
    } else {
        let fewer = heads(boundary, parts, contents, count - 1);
        let last = offset(boundary, parts, contents, count - 1);
        lemma_heads_counted(boundary, parts, contents, count - 1);
        assert(!fewer.contains(last)) by {
            if fewer.contains(last) {
                let i = choose|i: int|
                    0 <= i < count - 1 && last == offset(boundary, parts, contents, i);
                lemma_offsets_increase(boundary, parts, contents, i, count - 1);
            }
        }
        assert(all =~= fewer.insert(last));
    }
}

/// No line is both a line that opens a part and the line that closes the
/// message: where the one ends with a line break, the other ends with two
/// hyphens.
pub proof fn lemma_lines_differ(boundary: Seq<char>, data: Seq<u8>, at: int)
    ensures
        !(occurs_at(data, opening_line(boundary), at) && occurs_at(
            data,
            closing_line(boundary),
            at,
        )),
{
    reveal_strlit("\r\n");
    reveal_strlit("--");
    let line = encode(delimiter(boundary));
    lemma_encode_concat(delimiter(boundary), crlf());
    lemma_encode_concat(delimiter(boundary), dashes());
    vstd::utf8::is_ascii_chars_encode_utf8(crlf());
    vstd::utf8::is_ascii_chars_encode_utf8(dashes());
    let opening = opening_line(boundary);
    let closing = closing_line(boundary);
    assert(opening[line.len() as int] == encode(crlf())[0]);
    assert(closing[line.len() as int] == encode(dashes())[0]);
    assert(opening != closing);
}

/// In a message that can be read in one way only, there are as many lines
/// that open a part as the form has parts, one at the head of each, and
/// one line that closes the message, at its end.
pub proof fn lemma_boundary_lines_counted<R>(
    boundary: Seq<char>,
    parts: Seq<PartView<R>>,
    contents: Seq<Seq<u8>>,
)
    requires
        contents.len() == parts.len(),
        unambiguous(boundary, parts, contents),
    ensures
        ({
            let whole = message(boundary, parts, contents);
            let opened = occurrences(whole, opening_line(boundary));
            let closed = occurrences(whole, closing_line(boundary));
            &&& opened == heads(boundary, parts, contents, parts.len() as int)
            &&& opened.finite()
            &&& opened.len() == parts.len()
            &&& closed == set![offset(boundary, parts, contents, parts.len() as int)]
            &&& closed.len() == 1
        }),
{
    let whole = message(boundary, parts, contents);
    let count = parts.len() as int;
    let opening = opening_line(boundary);
    let closing = closing_line(boundary);
    let opened = occurrences(whole, opening);
    let closed = occurrences(whole, closing);
    let begun = heads(boundary, parts, contents, count);
    let end = offset(boundary, parts, contents, count);
    lemma_closing_framed(boundary, parts, contents);
    assert(occurs_at(whole, closing, end));
    assert forall|i: int| 0 <= i < count implies occurs_at(
        whole,
        opening,
        #[trigger] offset(boundary, parts, contents, i),
    ) by {
        let start = offset(boundary, parts, contents, i);
        let top = encode(head(boundary, parts[i]));
        lemma_part_framed(boundary, parts, contents, i);
        assert(whole.subrange(start, start + opening.len()) =~= whole.subrange(
            start,
            start + top.len(),
        ).subrange(0, opening.len() as int));
    }
    assert forall|at: int| opened.contains(at) <==> begun.contains(at) by {
        lemma_lines_differ(boundary, whole, at);
        if opened.contains(at) {
            let i = choose|i: int|
                0 <= i <= parts.len() && at == offset(boundary, parts, contents, i);
            assert(i < count);
        }
        if begun.contains(at) {
            let i = choose|i: int| 0 <= i < count && at == offset(boundary, parts, contents, i);
            assert(occurs_at(whole, opening, offset(boundary, parts, contents, i)));
        }
    }
    assert(opened =~= begun);
    lemma_heads_counted(boundary, parts, contents, count);
    assert forall|at: int| closed.contains(at) <==> at == end by {
        lemma_lines_differ(boundary, whole, at);
        if closed.contains(at) {
            let i = choose|i: int|
                0 <= i <= parts.len() && at == offset(boundary, parts, contents, i);
            if i < count {
                assert(occurs_at(whole, opening, offset(boundary, parts, contents, i)));
            }
        }
    }
    assert(closed =~= set![end]);
}

/// The number of bytes that the heads of the parts take.
pub open spec fn heads_len<R>(boundary: Seq<char>, parts: Seq<PartView<R>>) -> nat
    decreases parts.len(),
{
    if parts.len() == 0 {
        0
    } else {
        heads_len(boundary, parts.drop_last()) + encode(head(boundary, parts.last())).len()
    }
}

/// The number of bytes that the contents of the parts take.
pub open spec fn contents_len(contents: Seq<Seq<u8>>) -> nat
    decreases contents.len(),
{
    if contents.len() == 0 {
        0
    } else {
        contents_len(contents.drop_last()) + contents.last().len()
    }
}

/// A message is as long as the heads of its parts, their contents and the
/// closing line together.
pub proof fn lemma_message_len<R>(
    boundary: Seq<char>,
    parts: Seq<PartView<R>>,
    contents: Seq<Seq<u8>>,
)
    requires
        contents.len() == parts.len(),
    ensures
        layout(boundary, parts, contents).len() == heads_len(boundary, parts) + contents_len(
            contents,
        ),
        message(boundary, parts, contents).len() == heads_len(boundary, parts) + contents_len(
            contents,
        ) + encode(closing(boundary)).len(),
    decreases parts.len(),
{
    if parts.len() > 0 {
        lemma_message_len(boundary, parts.drop_last(), contents.drop_last());
    }
}

/// Whether `pattern` stands somewhere in `data`.
pub open spec fn occurs_in(data: Seq<u8>, pattern: Seq<u8>) -> bool {
    exists|at: int| occurs_at(data, pattern, at)
}

/// Whether no byte of `data` is a carriage return.
pub open spec fn no_cr(data: Seq<u8>) -> bool {
    forall|k: int| 0 <= k < data.len() ==> data[k] != 13u8
}

/// What marks a boundary line: two hyphens and the boundary.
pub open spec fn mark(boundary: Seq<char>) -> Seq<u8> {
    encode(dashes() + boundary)
}

/// Whether a part keeps clear of the boundary: neither its content nor one
/// of its two header values holds two hyphens and the boundary.
pub open spec fn part_clear<R>(boundary: Seq<char>, part: PartView<R>, content: Seq<u8>) -> bool {
    &&& !occurs_in(content, mark(boundary))
    &&& !occurs_in(encode(part.content_type), mark(boundary))
    &&& !occurs_in(encode(part.content_disposition), mark(boundary))
}

/// Whether a form keeps clear of its boundary: the boundary holds no
/// carriage return, and every part keeps clear of the boundary.
pub open spec fn clear_of_boundary<R>(
    boundary: Seq<char>,
    parts: Seq<PartView<R>>,
    contents: Seq<Seq<u8>>,
) -> bool {
    &&& no_cr(encode(boundary))
    &&& forall|i: int|
        0 <= i < parts.len() ==> #[trigger] part_clear(boundary, parts[i], contents[i])
}

/// The bytes of the pieces of a boundary line, and of the names of the two
/// headers: none of these names holds a carriage return or starts with a
/// hyphen.
pub proof fn lemma_marks(boundary: Seq<char>)
    ensures
        encode(crlf()) == seq![13u8, 10u8],
        encode(dashes()) == seq![45u8, 45u8],
        encode(delimiter(boundary)) == seq![13u8, 10u8, 45u8, 45u8] + encode(boundary),
        encode(delimiter(boundary)) == encode(crlf()) + mark(boundary),
        mark(boundary) == seq![45u8, 45u8] + encode(boundary),
        no_cr(encode("Content-Type: "@)),
        no_cr(encode("Content-Disposition: "@)),
        encode("Content-Type: "@).len() > 0 && encode("Content-Type: "@)[0] != 45u8,
        encode("Content-Disposition: "@).len() > 0 && encode("Content-Disposition: "@)[0] != 45u8,
{
    reveal_strlit("\r\n");
    reveal_strlit("--");
    reveal_strlit("Content-Type: ");
    reveal_strlit("Content-Disposition: ");
    vstd::utf8::is_ascii_chars_encode_utf8(crlf());
    vstd::utf8::is_ascii_chars_encode_utf8(dashes());
    vstd::utf8::is_ascii_chars_encode_utf8("Content-Type: "@);
    vstd::utf8::is_ascii_chars_encode_utf8("Content-Disposition: "@);
    lemma_encode_concat(crlf() + dashes(), boundary);
    lemma_encode_concat(crlf(), dashes());
    lemma_encode_concat(dashes(), boundary);
    lemma_encode_concat(crlf(), dashes() + boundary);
    assert(crlf() + dashes() + boundary =~= crlf() + (dashes() + boundary));
    assert(encode(crlf()) =~= seq![13u8, 10u8]);
    assert(encode(dashes()) =~= seq![45u8, 45u8]);
    assert(encode(crlf()) + encode(dashes()) + encode(boundary) =~= seq![13u8, 10u8, 45u8, 45u8]
        + encode(boundary));
}

/// A pattern that holds a carriage return at its start only stands, in two
/// runs of bytes of which the second starts with a carriage return, in
/// the one or in the other, and never across the two.
pub proof fn lemma_occurs_in_one(a: Seq<u8>, b: Seq<u8>, pattern: Seq<u8>, at: int)
    requires
        occurs_at(a + b, pattern, at),
        forall|k: int| 1 <= k < pattern.len() ==> pattern[k] != 13u8,
        b.len() > 0 ==> b[0] == 13u8,
    ensures
        (at + pattern.len() <= a.len() && occurs_at(a, pattern, at)) || (at >= a.len()
            && occurs_at(b, pattern, at - a.len())),
{
    let len = pattern.len() as int;
    let found = (a + b).subrange(at, at + len);
    if at + len <= a.len() {
        assert(a.subrange(at, at + len) =~= found);
    } else if at >= a.len() {
        assert(b.subrange(at - a.len(), at - a.len() + len) =~= found);
    } else {
        let k = a.len() - at;
        assert(found[k] == (a + b)[a.len() as int]);
        assert((a + b)[a.len() as int] == b[0]);
        assert(pattern[k] == 13u8);
    }
}

/// A boundary line stands nowhere in a line break, a header name and a
/// value that keeps clear of the boundary.
pub proof fn lemma_block_clear(name: Seq<u8>, value: Seq<u8>, boundary: Seq<char>, at: int)
    requires
        no_cr(encode(boundary)),
        no_cr(name),
        name.len() > 0 ==> name[0] != 45u8,
        !occurs_in(value, mark(boundary)),
    ensures
        !occurs_at(encode(crlf()) + name + value, encode(delimiter(boundary)), at),
{
    lemma_marks(boundary);
    let line = encode(delimiter(boundary));
    let block = encode(crlf()) + name + value;
    let found = block.subrange(at, at + line.len());
    if occurs_at(block, line, at) {
        assert(found[0] == block[at]);
        assert(line[0] == 13u8);
        if at == 0 {
            assert(found[2] == block[2]);
            assert(line[2] == 45u8);
            if name.len() == 0 {
                assert(value.subrange(0, mark(boundary).len() as int) =~= found.subrange(
                    2,
                    line.len() as int,
                ));
                assert(line.subrange(2, line.len() as int) =~= mark(boundary));
                assert(occurs_at(value, mark(boundary), 0));
            }
        } else if at < 2 + name.len() {
            if at >= 2 {
                assert(block[at] == name[at - 2]);
            }
        } else {
            let inside = at - 2 - name.len() + 2;
            assert(value.subrange(inside, inside + mark(boundary).len()) =~= found.subrange(
                2,
                line.len() as int,
            ));
            assert(line.subrange(2, line.len() as int) =~= mark(boundary));
            assert(occurs_at(value, mark(boundary), inside));
        }
    }
}

/// In the head and the content of a part that keeps clear of the boundary,
/// a boundary line stands at the start and nowhere else.
pub proof fn lemma_part_clear<R>(
    boundary: Seq<char>,
    part: PartView<R>,
    content: Seq<u8>,
    at: int,
)
    requires
        no_cr(encode(boundary)),
        part_clear(boundary, part, content),
        occurs_at(encode(head(boundary, part)) + content, encode(delimiter(boundary)), at),
    ensures
        at == 0,
{
    lemma_marks(boundary);
    crate::body::lemma_headers_pieces(part.content_type, part.content_disposition);
    lemma_encode_concat(
        delimiter(boundary),
        crate::wire::headers(part.content_type, part.content_disposition),
    );
    let line = encode(delimiter(boundary));
    let typed = encode(crlf()) + encode("Content-Type: "@) + encode(part.content_type);
    let named = encode(crlf()) + encode("Content-Disposition: "@) + encode(
        part.content_disposition,
    );
    let blank = encode(crlf());
    let body = encode(crlf()) + content;
    let empty = Seq::<u8>::empty();
    assert(encode(head(boundary, part)) + content =~= line + (typed + (named + (blank + body))));
    assert forall|k: int| 1 <= k < line.len() implies line[k] != 13u8 by {
        if k >= 4 {
            assert(line[k] == encode(boundary)[k - 4]);
        }
    }
    lemma_occurs_in_one(line, typed + (named + (blank + body)), line, at);
    if at >= line.len() {
        let at1 = at - line.len();
        lemma_occurs_in_one(typed, named + (blank + body), line, at1);
        if at1 + line.len() <= typed.len() {
            lemma_block_clear(encode("Content-Type: "@), encode(part.content_type), boundary, at1);
        } else {
            let at2 = at1 - typed.len();
            lemma_occurs_in_one(named, blank + body, line, at2);
            if at2 + line.len() <= named.len() {
                lemma_block_clear(
                    encode("Content-Disposition: "@),
                    encode(part.content_disposition),
                    boundary,
                    at2,
                );
            } else {
                let at3 = at2 - named.len();
                lemma_occurs_in_one(blank, body, line, at3);
                if at3 + line.len() <= blank.len() {
                } else {
                    assert(body =~= encode(crlf()) + empty + content);
                    lemma_block_clear(empty, content, boundary, at3 - blank.len());
                }
            }
        }
    }
}

/// In the layout of parts that keep clear of the boundary, a boundary line
/// stands only where a part begins.
pub proof fn lemma_layout_clear<R>(
    boundary: Seq<char>,
    parts: Seq<PartView<R>>,
    contents: Seq<Seq<u8>>,
    at: int,
)
    requires
        contents.len() == parts.len(),
        clear_of_boundary(boundary, parts, contents),
        occurs_at(layout(boundary, parts, contents), encode(delimiter(boundary)), at),
    ensures
        exists|i: int| 0 <= i < parts.len() && at == offset(boundary, parts, contents, i),
    decreases parts.len(),
{
    lemma_marks(boundary);
    let line = encode(delimiter(boundary));
    if parts.len() == 0 {
        assert(false);
    } else {
        let last = parts.len() - 1;
        let before = layout(boundary, parts.drop_last(), contents.drop_last());
        let block = encode(head(boundary, parts.last())) + contents.last();
        assert(layout(boundary, parts, contents) =~= before + block);
        assert forall|k: int| 1 <= k < line.len() implies line[k] != 13u8 by {
            if k >= 4 {
                assert(line[k] == encode(boundary)[k - 4]);
            }
        }
        lemma_head_len(boundary, parts.last());
        lemma_encode_concat(
            delimiter(boundary),
            crate::wire::headers(parts.last().content_type, parts.last().content_disposition),
        );
        assert(block[0] == line[0]);
        lemma_occurs_in_one(before, block, line, at);
        if at >= before.len() {
            assert(part_clear(boundary, parts[last], contents[last]));
            lemma_part_clear(boundary, parts.last(), contents.last(), at - before.len());
            assert(parts.take(last) =~= parts.drop_last());
            assert(contents.take(last) =~= contents.drop_last());
            assert(at == offset(boundary, parts, contents, last));
        } else {
            assert forall|i: int| 0 <= i < parts.drop_last().len() implies #[trigger] part_clear(
                boundary,
                parts.drop_last()[i],
                contents.drop_last()[i],
            ) by {
                assert(part_clear(boundary, parts[i], contents[i]));
            }
            lemma_layout_clear(boundary, parts.drop_last(), contents.drop_last(), at);
            let i = choose|i: int|
                0 <= i < parts.drop_last().len() && at == offset(
                    boundary,
                    parts.drop_last(),
                    contents.drop_last(),
                    i,
                );
            assert(parts.drop_last().take(i) =~= parts.take(i));
            assert(contents.drop_last().take(i) =~= contents.take(i));
            assert(at == offset(boundary, parts, contents, i));
        }
    }
}

/// A message whose form keeps clear of its boundary can be read in one way
/// only.
pub proof fn lemma_clear_is_unambiguous<R>(
    boundary: Seq<char>,
    parts: Seq<PartView<R>>,
    contents: Seq<Seq<u8>>,
)
    requires
        contents.len() == parts.len(),
        clear_of_boundary(boundary, parts, contents),
    ensures
        unambiguous(boundary, parts, contents),
{
    lemma_marks(boundary);
    let whole = message(boundary, parts, contents);
    let all = layout(boundary, parts, contents);
    let line = encode(delimiter(boundary));
    let end = encode(closing(boundary));
    lemma_encode_concat(delimiter(boundary), crlf());
    lemma_encode_concat(delimiter(boundary), dashes());
    assert forall|k: int| 1 <= k < line.len() implies line[k] != 13u8 by {
        if k >= 4 {
            assert(line[k] == encode(boundary)[k - 4]);
        }
    }
    assert forall|at: int|
        (occurs_at(whole, opening_line(boundary), at) || occurs_at(
            whole,
            closing_line(boundary),
            at,
        )) implies exists|i: int|
        0 <= i <= parts.len() && at == offset(boundary, parts, contents, i) by {
        if occurs_at(whole, opening_line(boundary), at) {
            assert(whole.subrange(at, at + line.len()) =~= whole.subrange(
                at,
                at + opening_line(boundary).len(),
            ).subrange(0, line.len() as int));
            assert(opening_line(boundary).subrange(0, line.len() as int) =~= line);
        } else {
            assert(whole.subrange(at, at + line.len()) =~= whole.subrange(
                at,
                at + end.len(),
            ).subrange(0, line.len() as int));
            assert(end.subrange(0, line.len() as int) =~= line);
        }
        assert(occurs_at(whole, line, at));
        lemma_occurs_in_one(all, end, line, at);
        if at >= all.len() {
            let inside = at - all.len();
            if inside > 0 {
                assert(end.subrange(inside, inside + line.len())[0] == end[inside]);
                assert(end[inside] == line[inside]);
            }
            assert(parts.take(parts.len() as int) =~= parts);
            assert(contents.take(parts.len() as int) =~= contents);
            assert(at == offset(boundary, parts, contents, parts.len() as int));
        } else {
            lemma_layout_clear(boundary, parts, contents, at);
            let i = choose|i: int|
                0 <= i < parts.len() && at == offset(boundary, parts, contents, i);
            assert(0 <= i <= parts.len() && at == offset(boundary, parts, contents, i));
        }
    }
}

/// In the message of a form that keeps clear of its boundary, there are as
/// many lines that open a part as the form has parts, one at the head of
/// each, and one line that closes the message, at its end.
pub proof fn lemma_clear_form_counted<R>(
    boundary: Seq<char>,
    parts: Seq<PartView<R>>,
    contents: Seq<Seq<u8>>,
)
    requires
        contents.len() == parts.len(),
        clear_of_boundary(boundary, parts, contents),
    ensures
        ({
            let whole = message(boundary, parts, contents);
            let opened = occurrences(whole, opening_line(boundary));
            let closed = occurrences(whole, closing_line(boundary));
            &&& opened == heads(boundary, parts, contents, parts.len() as int)
            &&& opened.finite()
            &&& opened.len() == parts.len()
            &&& closed == set![offset(boundary, parts, contents, parts.len() as int)]
            &&& closed.len() == 1
        }),
{
    lemma_clear_is_unambiguous(boundary, parts, contents);
    lemma_boundary_lines_counted(boundary, parts, contents);
}

/// The chunks of a stream that has come to its end, of a form that keeps
/// clear of its boundary, hold as many lines that open a part as the form
/// has parts, the head of each part behind the line that opens it, and one
/// closing line, with which they end.
pub proof fn lemma_complete_stream_counted<R>(form: FormView<R>, events: Seq<Event>)
    requires
        run(BodyView::<R>::initial(form), events).0.phase == Phase::Complete,
        clear_of_boundary(
            form.boundary,
            form.parts,
            run(BodyView::<R>::initial(form), events).0.contents,
        ),
    ensures
        ({
            let (end, out) = run(BodyView::<R>::initial(form), events);
            let opened = occurrences(out, opening_line(form.boundary));
            let closed = occurrences(out, closing_line(form.boundary));
            &&& opened.finite()
            &&& opened.len() == form.parts.len()
            &&& opened == heads(form.boundary, form.parts, end.contents, form.parts.len() as int)
            &&& forall|i: int|
                0 <= i < form.parts.len() ==> occurs_at(
                    out,
                    encode(head(form.boundary, form.parts[i])),
                    #[trigger] offset(form.boundary, form.parts, end.contents, i),
                )
            &&& closed.len() == 1
            &&& closed == set![out.len() - closing_line(form.boundary).len()]
        }),
{
    let (end, out) = run(BodyView::<R>::initial(form), events);
    lemma_complete_stream(form, events);
    lemma_clear_form_counted(form.boundary, form.parts, end.contents);
    lemma_closing_framed(form.boundary, form.parts, end.contents);
    assert forall|i: int| 0 <= i < form.parts.len() implies occurs_at(
        out,
        encode(head(form.boundary, form.parts[i])),
        #[trigger] offset(form.boundary, form.parts, end.contents, i),
    ) by {
        lemma_part_framed(form.boundary, form.parts, end.contents, i);
    }
}

} // verus!
