//! The form: a boundary and the parts in the order in which they were added.

use crate::boundary::{is_random_boundary, BoundaryGenerator, RandomAsciiGenerator};
use crate::error::FileError;
use crate::media::{option_view, parse_media_type, parsed_media_type};
use crate::part::{Inner, Part};
use crate::wire::{disposition, request_content_type, ContentView, PartView};
use vstd::prelude::*;
use vstd::string::StringExecFns;

verus! {

/// What a form holds.
pub struct FormView<R> {
    /// The boundary of the message.
    pub boundary: Seq<char>,
    /// The parts, in the order in which they were added.
    pub parts: Seq<PartView<R>>,
}

impl<R> FormView<R> {
    /// The form with `part` added behind the parts it has.
    pub open spec fn with(self, part: PartView<R>) -> FormView<R> {
        FormView { boundary: self.boundary, parts: self.parts.push(part) }
    }
}

/// A text part for the field `name`.
pub open spec fn text_part<R>(name: Seq<char>, text: Seq<char>) -> PartView<R> {
    PartView {
        content_type: "text/plain"@,
        content_disposition: disposition(name, None),
        content: ContentView::Text(text),
    }
}

/// A part for the field `name` that is read from `read`, with the file
/// name and the content type that it was given, if any.
pub open spec fn reader_part<R>(
    name: Seq<char>,
    filename: Option<Seq<char>>,
    mime: Option<Seq<char>>,
    read: R,
) -> PartView<R> {
    PartView {
        content_type: match mime {
            Some(mime) => mime,
            None => "application/octet-stream"@,
        },
        content_disposition: disposition(name, filename),
        content: ContentView::Read(read),
    }
}

/// The content type that a file is given. Where its path has an extension,
/// the extension decides, and `mime` is not looked at: the file gets the
/// media type that the extension reads as, if it reads as one. Where the
/// path has none, the file gets `mime`.
pub open spec fn file_media_type(extension: Option<Seq<char>>, mime: Option<Seq<char>>) -> Option<
    Seq<char>,
> {
    match extension {
        Some(extension) => parsed_media_type(extension),
        None => mime,
    }
}

/// The part for a file at `path` that is read from `read`: it is named
/// after its path.
pub open spec fn file_part<R>(
    name: Seq<char>,
    path: Seq<char>,
    extension: Option<Seq<char>>,
    mime: Option<Seq<char>>,
    read: R,
) -> PartView<R> {
    reader_part(name, Some(path), file_media_type(extension, mime), read)
}

/// What came of opening a path for reading and asking what it is.
pub enum Opened<R> {
    /// The path could not be opened.
    OpenFailed,
    /// The path was opened, and its metadata could not be read.
    MetadataFailed,
    /// The path was opened and is no regular file.
    NotAFile,
    /// The path was opened and is a regular file, to be read from the source.
    File(R),
}

/// `Path::extension` on `path`, as a string. Where a file name ends and what
/// counts as its extension is the platform's to say; on every platform a
/// path that holds no `.` has no extension.
#[verifier::external_body]
fn path_extension(path: &str) -> (extension: Option<String>)
    ensures
        !path@.contains('.') ==> extension is None,
{
    match std::path::Path::new(path).extension() {
        Some(extension) => Some(extension.to_string_lossy().into_owned()),
        None => None,
    }
}

/// Implements the multipart/form-data media type as described by RFC 7578.
pub struct Form<R> {
    pub(crate) parts: Vec<Part<R>>,
    /// The boundary, generated when the form was created.
    pub(crate) boundary: String,
}

impl<R> View for Form<R> {
    type V = FormView<R>;

    open(crate) spec fn view(&self) -> FormView<R> {
        FormView { boundary: self.boundary@, parts: self.parts@.map_values(|part: Part<R>| part@) }
    }
}

impl<R> Default for Form<R> {
    /// Creates a new form with the default boundary generator.
    fn default() -> (form: Form<R>)
        ensures
            form@.parts.len() == 0,
            is_random_boundary(form@.boundary),
    {
        Form::new(&RandomAsciiGenerator)
    }
}

impl<R> Form<R> {
    /// Creates a new form with the boundary that `generator` makes.
    pub fn new<G: BoundaryGenerator>(generator: &G) -> (form: Form<R>)
        ensures
            form@.parts.len() == 0,
            generator.may_generate(form@.boundary),
    {
        Form { parts: Vec::new(), boundary: generator.generate_boundary() }
    }

    /// The boundary of the form.
    pub fn boundary(&self) -> (boundary: &str)
        ensures
            boundary@ == self@.boundary,
    {
        self.boundary.as_str()
    }

    /// The number of parts added so far.
    pub fn len(&self) -> (len: usize)
        ensures
            len == self@.parts.len(),
    {
        self.parts.len()
    }

    /// The value of the `Content-Type` header of a request whose body is
    /// this form.
    pub fn content_type(&self) -> (value: String)
        ensures
            value@ == request_content_type(self@.boundary),
    {
        let mut value = String::from_str("multipart/form-data; boundary=\"");
        value.append(self.boundary.as_str());
        value.append("\"");
        value
    }

    /// Adds `part` behind the parts of the form.
    fn push(&mut self, part: Part<R>)
        ensures
            final(self)@ == old(self)@.with(part@),
    {
        self.parts.push(part);
        assert(self@.parts =~= old(self)@.with(part@).parts);
    }

    /// Adds a text part to the form.
    pub fn add_text(&mut self, name: &str, text: &str)
        ensures
            final(self)@ == old(self)@.with(text_part(name@, text@)),
    {
        self.push(Part::new(Inner::Text(String::from_str(text)), name, None, None));
    }

    /// Adds a part that is read from `read` to the form.
    pub fn add_reader(&mut self, name: &str, read: R)
        ensures
            final(self)@ == old(self)@.with(reader_part(name@, None, None, read)),
    {
        self.push(Part::new(Inner::Read(read), name, None, None));
    }

    /// Adds a file, and derives its content type from the extension of
    /// `path`; a path that holds no `.` has none. `opened` is what came of
    /// opening `path`.
    pub fn add_file(&mut self, name: &str, path: &str, opened: Opened<R>) -> (added: Result<
        (),
        FileError,
    >)
        ensures
            added == file_outcome(opened),
            added is Err ==> final(self)@ == old(self)@,
            opened matches Opened::File(read) ==> exists|extension: Option<Seq<char>>|
                final(self)@ == old(self)@.with(
                    #[trigger] file_part(name@, path@, extension, None, read),
                ),
            opened matches Opened::File(read) ==> (!path@.contains('.') ==> final(self)@ == old(
                self,
            )@.with(file_part(name@, path@, None, None, read))),
    {
        self._add_file(name, path, None, opened)
    }

    /// Adds a part that is read from `read` to the form, as a file.
    pub fn add_reader_file(&mut self, name: &str, read: R, filename: &str)
        ensures
            final(self)@ == old(self)@.with(reader_part(name@, Some(filename@), None, read)),
    {
        self.push(Part::new(Inner::Read(read), name, None, Some(filename)));
    }

    /// Adds a part that is read from `read` to the form, as a file with the
    /// content type `mime`.
    pub fn add_reader_file_with_mime(&mut self, name: &str, read: R, filename: &str, mime: &str)
        ensures
            final(self)@ == old(self)@.with(
                reader_part(name@, Some(filename@), Some(mime@), read),
            ),
    {
        self.push(
            Part::new(Inner::Read(read), name, Some(String::from_str(mime)), Some(filename)),
        );
    }

    /// Adds a file with the content type `mime`, unless the extension of
    /// `path` decides otherwise. `opened` is what came of opening `path`.
    pub fn add_file_with_mime(&mut self, name: &str, path: &str, mime: &str, opened: Opened<R>) -> (added:
        Result<(), FileError>)
        ensures
            added == file_outcome(opened),
            added is Err ==> final(self)@ == old(self)@,
            opened matches Opened::File(read) ==> exists|extension: Option<Seq<char>>|
                final(self)@ == old(self)@.with(
                    #[trigger] file_part(name@, path@, extension, Some(mime@), read),
                ),
            opened matches Opened::File(read) ==> (!path@.contains('.') ==> final(self)@ == old(
                self,
            )@.with(file_part(name@, path@, None, Some(mime@), read))),
    {
        self._add_file(name, path, Some(mime), opened)
    }

    /// Adds a file part to the form, with the extension that its path has.
    fn _add_file(&mut self, name: &str, path: &str, mime: Option<&str>, opened: Opened<R>) -> (added:
        Result<(), FileError>)
        ensures
            added == file_outcome(opened),
            added is Err ==> final(self)@ == old(self)@,
            opened matches Opened::File(read) ==> exists|extension: Option<Seq<char>>|
                final(self)@ == old(self)@.with(
                    #[trigger] file_part(name@, path@, extension, str_option_view(mime), read),
                ),
            opened matches Opened::File(read) ==> (!path@.contains('.') ==> final(self)@ == old(
                self,
            )@.with(file_part(name@, path@, None, str_option_view(mime), read))),
    {
        let extension = path_extension(path);
        let ghost found = option_view(extension);
        let ghost given = opened;
        let added = match &extension {
            Some(extension) => self.add_opened_file(name, path, Some(extension.as_str()), mime, opened),
            None => self.add_opened_file(name, path, None, mime, opened),
        };
        proof {
            if let Opened::File(read) = given {
                assert(self@ == old(self)@.with(
                    file_part(name@, path@, found, str_option_view(mime), read),
                ));
            }
        }
        added
    }

    /// Adds the file at `path` to the form, given the extension of `path`
    /// and what came of opening it. Nothing is added unless the path was
    /// opened and is a regular file.
    pub fn add_opened_file(
        &mut self,
        name: &str,
        path: &str,
        extension: Option<&str>,
        mime: Option<&str>,
        opened: Opened<R>,
    ) -> (added: Result<(), FileError>)
        ensures
            added == file_outcome(opened),
            added is Err ==> final(self)@ == old(self)@,
            opened matches Opened::File(read) ==> final(self)@ == old(self)@.with(
                file_part(name@, path@, str_option_view(extension), str_option_view(mime), read),
            ),
    {
        let read = match opened {
            Opened::OpenFailed => {
                return Err(FileError::Open);
            },
            Opened::MetadataFailed => {
                return Err(FileError::Metadata);
            },
            Opened::NotAFile => {
                return Err(FileError::InvalidInput);
            },
            Opened::File(read) => read,
        };
        let mime = match extension {
            Some(extension) => parse_media_type(extension),
            None => match mime {
                Some(mime) => Some(String::from_str(mime)),
                None => None,
            },
        };
        self.push(Part::new(Inner::Read(read), name, mime, Some(path)));
        Ok(())
    }
}

/// The view of an optional string slice.
pub open spec fn str_option_view(value: Option<&str>) -> Option<Seq<char>> {
    match value {
        Some(text) => Some(text@),
        None => None,
    }
}

/// Whether a file is added: only one that was opened and is a regular file.
pub open spec fn file_outcome<R>(opened: Opened<R>) -> Result<(), FileError> {
    match opened {
        Opened::OpenFailed => Err(FileError::Open),
        Opened::MetadataFailed => Err(FileError::Metadata),
        Opened::NotAFile => Err(FileError::InvalidInput),
        Opened::File(_) => Ok(()),
    }
}

} // verus!
