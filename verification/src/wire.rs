//! The wire format of a `multipart/form-data` message: what stands between
//! the contents of its parts, character by character, and where the parts'
//! contents go.

use vstd::prelude::*;
use vstd::utf8::encode_utf8;

verus! {

/// The content of a part: the source that it is read from, or its text.
pub enum ContentView<R> {
    /// The source, as it was when the part was added.
    Read(R),
    /// The text.
    Text(Seq<char>),
}

/// What one part of a form states about itself, and what it holds.
pub struct PartView<R> {
    /// The value of the part's `Content-Type` header.
    pub content_type: Seq<char>,
    /// The value of the part's `Content-Disposition` header.
    pub content_disposition: Seq<char>,
    /// The content of the part.
    pub content: ContentView<R>,
}

impl<R> PartView<R> {
    /// The text of a text part; `None` for a part that is read from a
    /// source.
    pub open spec fn text(self) -> Option<Seq<char>> {
        match self.content {
            ContentView::Read(_) => None,
            ContentView::Text(text) => Some(text),
        }
    }
}

/// The line break of the format.
pub open spec fn crlf() -> Seq<char> {
    "\r\n"@
}

/// The two hyphens that open every boundary line and close the last one.
pub open spec fn dashes() -> Seq<char> {
    "--"@
}

/// A boundary line as it opens a part, without the line break that ends it:
/// a line break, two hyphens, the boundary.
pub open spec fn delimiter(boundary: Seq<char>) -> Seq<char> {
    crlf() + dashes() + boundary
}

/// The boundary line that ends the message: a delimiter and two more
/// hyphens, with no line break behind them.
pub open spec fn closing(boundary: Seq<char>) -> Seq<char> {
    delimiter(boundary) + dashes()
}

/// The header block of a part: the line break that ends the boundary line,
/// the two header lines, and the empty line before the content.
pub open spec fn headers(content_type: Seq<char>, content_disposition: Seq<char>) -> Seq<char> {
    crlf() + "Content-Type: "@ + content_type + crlf() + "Content-Disposition: "@
        + content_disposition + crlf() + crlf()
}

/// All that is written ahead of a part's content.
pub open spec fn head<R>(boundary: Seq<char>, part: PartView<R>) -> Seq<char> {
    delimiter(boundary) + headers(part.content_type, part.content_disposition)
}

/// The value of a part's `Content-Disposition` header.
pub open spec fn disposition(name: Seq<char>, filename: Option<Seq<char>>) -> Seq<char> {
    match filename {
        Some(filename) => "form-data; name=\""@ + name + "\""@ + "; filename=\""@ + filename
            + "\""@,
        None => "form-data; name=\""@ + name + "\""@,
    }
}

/// The value of the `Content-Type` header of a request that carries the
/// message.
pub open spec fn request_content_type(boundary: Seq<char>) -> Seq<char> {
    "multipart/form-data; boundary=\""@ + boundary + "\""@
}

/// The bytes that stand for a text on the wire.
pub open spec fn encode(text: Seq<char>) -> Seq<u8> {
    encode_utf8(text)
}

/// The message up to the end of the last of `parts`: each part's head and,
/// right behind it, its content.
pub open spec fn layout<R>(
    boundary: Seq<char>,
    parts: Seq<PartView<R>>,
    contents: Seq<Seq<u8>>,
) -> Seq<u8>
    decreases parts.len(),
{
    if parts.len() == 0 {
        Seq::empty()
    } else {
        layout(boundary, parts.drop_last(), contents.drop_last()) + encode(
            head(boundary, parts.last()),
        ) + contents.last()
    }
}

/// The whole message: the parts in their order, then the closing line.
pub open spec fn message<R>(
    boundary: Seq<char>,
    parts: Seq<PartView<R>>,
    contents: Seq<Seq<u8>>,
) -> Seq<u8> {
    layout(boundary, parts, contents) + encode(closing(boundary))
}

/// Where the head of part `i` starts in the message: behind the parts
/// before it and their contents.
pub open spec fn offset<R>(
    boundary: Seq<char>,
    parts: Seq<PartView<R>>,
    contents: Seq<Seq<u8>>,
    i: int,
) -> int {
    layout(boundary, parts.take(i), contents.take(i)).len() as int
}

/// The number of bytes of the longest piece that the encoder writes at a
/// time: the head of a part, or the closing line.
pub open spec fn longest_frame<R>(boundary: Seq<char>, parts: Seq<PartView<R>>) -> nat
    decreases parts.len(),
{
    if parts.len() == 0 {
        encode(closing(boundary)).len()
    } else {
        let before = longest_frame(boundary, parts.drop_last());
        let last = encode(head(boundary, parts.last())).len();
        if before >= last {
            before
        } else {
            last
        }
    }
}

/// The closing line is no longer than the longest piece.
pub proof fn lemma_closing_fits<R>(boundary: Seq<char>, parts: Seq<PartView<R>>)
    ensures
        encode(closing(boundary)).len() <= longest_frame(boundary, parts),
    decreases parts.len(),
{
    if parts.len() > 0 {
        lemma_closing_fits(boundary, parts.drop_last());
    }
}

/// No head is longer than the longest piece.
pub proof fn lemma_head_fits<R>(boundary: Seq<char>, parts: Seq<PartView<R>>, i: int)
    requires
        0 <= i < parts.len(),
    ensures
        encode(head(boundary, parts[i])).len() <= longest_frame(boundary, parts),
    decreases parts.len(),
{
    if i < parts.len() - 1 {
        lemma_head_fits(boundary, parts.drop_last(), i);
    }
}

/// Where no head and no closing line is longer than `bound`, the longest
/// piece is not.
pub proof fn lemma_longest_frame_within<R>(
    boundary: Seq<char>,
    parts: Seq<PartView<R>>,
    bound: nat,
)
    requires
        encode(closing(boundary)).len() <= bound,
        forall|i: int| 0 <= i < parts.len() ==> encode(head(boundary, #[trigger] parts[i])).len()
            <= bound,
    ensures
        longest_frame(boundary, parts) <= bound,
    decreases parts.len(),
{
    if parts.len() > 0 {
        assert forall|i: int| 0 <= i < parts.drop_last().len() implies encode(
            head(boundary, #[trigger] parts.drop_last()[i]),
        ).len() <= bound by {
            assert(parts.drop_last()[i] == parts[i]);
        }
        lemma_longest_frame_within(boundary, parts.drop_last(), bound);
        assert(parts.last() == parts[parts.len() - 1]);
    }
}

/// The bytes of two texts in a row are the bytes of the first and then the
/// bytes of the second.
pub proof fn lemma_encode_concat(a: Seq<char>, b: Seq<char>)
    ensures
        encode(a + b) == encode(a) + encode(b),
    decreases a.len(),
{
    if a.len() == 0 {
        assert(a + b =~= b);
        assert(encode(a) + encode(b) =~= encode(b));
    } else {
        lemma_encode_concat(a.drop_first(), b);
        assert((a + b).drop_first() =~= a.drop_first() + b);
        assert((a + b)[0] == a[0]);
        assert(encode(a + b) =~= encode(a) + encode(b));
    }
}

/// A text takes one byte at least for each of its characters.
pub proof fn lemma_encode_len(text: Seq<char>)
    ensures
        encode(text).len() >= text.len(),
    decreases text.len(),
{
    if text.len() > 0 {
        lemma_encode_len(text.drop_first());
    }
}

/// Every boundary line holds a line break and two hyphens besides the
/// boundary.
pub proof fn lemma_delimiter_len(boundary: Seq<char>)
    ensures
        delimiter(boundary).len() == boundary.len() + 4,
        closing(boundary).len() == boundary.len() + 6,
        encode(delimiter(boundary)).len() >= 4,
        encode(closing(boundary)).len() >= 6,
{
    reveal_strlit("\r\n");
    reveal_strlit("--");
    lemma_encode_len(delimiter(boundary));
    lemma_encode_len(closing(boundary));
}

} // verus!
