//! One part of a form: a named field with its headers and its content.

use crate::media::{octet_stream, text_plain};
use crate::wire::{disposition, ContentView, PartView};
use vstd::prelude::*;
use vstd::string::StringExecFns;

verus! {

/// The content of a part.
pub enum Inner<R> {
    /// Content that is read from a source: a file, or any other stream of
    /// bytes. The part owns the source.
    Read(R),
    /// A text, sent as it is.
    Text(String),
}

impl<R> Inner<R> {
    /// The content, with the text as a sequence of characters.
    pub open spec fn content(self) -> ContentView<R> {
        match self {
            Inner::Read(read) => ContentView::Read(read),
            Inner::Text(text) => ContentView::Text(text@),
        }
    }

    /// The content type of a part that was given none.
    pub open spec fn default_content_type_spec(self) -> Seq<char> {
        match self {
            Inner::Read(_) => "application/octet-stream"@,
            Inner::Text(_) => "text/plain"@,
        }
    }

    /// Returns the default `Content-Type` header value: that of arbitrary
    /// bytes for a source, that of plain text for a text.
    pub fn default_content_type(&self) -> (content_type: String)
        ensures
            content_type@ == self.default_content_type_spec(),
    {
        match self {
            Inner::Read(_) => octet_stream(),
            Inner::Text(_) => text_plain(),
        }
    }
}

/// One part of a body delimited by a boundary line.
pub struct Part<R> {
    pub(crate) inner: Inner<R>,
    /// The value of the `Content-Type` header.
    pub(crate) content_type: String,
    /// The value of the `Content-Disposition` header.
    pub(crate) content_disposition: String,
}

impl<R> View for Part<R> {
    type V = PartView<R>;

    open(crate) spec fn view(&self) -> PartView<R> {
        PartView {
            content_type: self.content_type@,
            content_disposition: self.content_disposition@,
            content: self.inner.content(),
        }
    }
}

impl<R> Part<R> {
    /// Builds a part for the field `name`. The disposition names the field
    /// and, where one is given, the file. The content type is `mime` where
    /// one is given, else the default for the kind of content.
    pub(crate) fn new(inner: Inner<R>, name: &str, mime: Option<String>, filename: Option<&str>) -> (part:
        Part<R>)
        ensures
            part@ == (PartView {
                content_type: match mime {
                    Some(mime) => mime@,
                    None => inner.default_content_type_spec(),
                },
                content_disposition: disposition(
                    name@,
                    match filename {
                        Some(filename) => Some(filename@),
                        None => None,
                    },
                ),
                content: inner.content(),
            }),
    {
        let mut content_disposition = String::from_str("form-data; name=\"");
        content_disposition.append(name);
        content_disposition.append("\"");
        if let Some(filename) = filename {
            content_disposition.append("; filename=\"");
            content_disposition.append(filename);
            content_disposition.append("\"");
        }
        let content_type = match mime {
            Some(mime) => mime,
            None => inner.default_content_type(),
        };
        Part { inner, content_type, content_disposition }
    }
}

} // verus!
