use std::io::{Cursor, Read};

use hyper_multipart_rfc7578::client::multipart::{
    Body, BoundaryGenerator, Form, Opened, RandomAsciiGenerator, Step,
};
use hyper_multipart_rfc7578::boundary::boundary_from;
use hyper_multipart_rfc7578::client::FileError;

struct Named(&'static str);

impl BoundaryGenerator for Named {
    fn generate_boundary(&self) -> String {
        self.0.to_string()
    }
}

type Source = Cursor<Vec<u8>>;

fn source(data: &[u8]) -> Source {
    Cursor::new(data.to_vec())
}

/// The whole message of a form, as text.
fn message(form: Form<Source>) -> String {
    let mut body = Body::from(form);
    let mut all = Vec::new();
    loop {
        let mut step = body.poll_next().unwrap();
        while let Step::Read(limit) = step {
            let mut buf = vec![0u8; limit];
            let n = body.reader_mut().unwrap().read(&mut buf).unwrap();
            step = body.supply(&buf[..n]).unwrap();
        }
        match step {
            Step::Chunk(chunk) => all.extend_from_slice(&chunk),
            _ => return String::from_utf8(all).unwrap(),
        }
    }
}

fn part(content_type: &str, disposition: &str, content: &str) -> String {
    format!(
        "\r\n--b\r\nContent-Type: {}\r\nContent-Disposition: {}\r\n\r\n{}\r\n--b--",
        content_type, disposition, content
    )
}

#[test]
fn new_form_has_the_boundary_of_its_generator() {
    let form: Form<Source> = Form::new(&Named("boundary"));
    assert_eq!(form.boundary(), "boundary");
    assert_eq!(form.len(), 0);
}

#[test]
fn default_boundary_is_six_letters_and_digits() {
    for _ in 0..100 {
        let form: Form<Source> = Form::default();
        assert_eq!(form.boundary().len(), 6);
        assert!(form.boundary().chars().all(|c| c.is_ascii_alphanumeric()));
        assert_eq!(form.len(), 0);
    }
}

#[test]
fn random_generator_can_be_asked_on_its_own() {
    let first = RandomAsciiGenerator.generate_boundary();
    assert_eq!(first.chars().count(), 6);
    assert!(first.chars().all(|c| c.is_ascii_alphanumeric()));
    let drawn: Vec<String> = (0..20).map(|_| RandomAsciiGenerator.generate_boundary()).collect();
    assert!(drawn.iter().any(|boundary| *boundary != first));
}

#[test]
fn request_content_type_names_the_boundary() {
    let form: Form<Source> = Form::new(&Named("abc123"));
    assert_eq!(form.content_type(), "multipart/form-data; boundary=\"abc123\"");
}

#[test]
fn parts_are_counted() {
    let mut form: Form<Source> = Form::new(&Named("b"));
    form.add_text("a", "1");
    assert_eq!(form.len(), 1);
    form.add_reader("b", source(b"2"));
    assert_eq!(form.len(), 2);
    form.add_reader_file("c", source(b"3"), "c.txt");
    assert_eq!(form.len(), 3);
    form.add_reader_file_with_mime("d", source(b"4"), "d.txt", "text/plain");
    assert_eq!(form.len(), 4);
    form.add_file("e", "e.txt", Opened::File(source(b"5"))).unwrap();
    assert_eq!(form.len(), 5);
    form.add_file_with_mime("f", "f", "text/csv", Opened::File(source(b"6"))).unwrap();
    assert_eq!(form.len(), 6);
}

#[test]
fn text_part_is_plain_text() {
    let mut form: Form<Source> = Form::new(&Named("b"));
    form.add_text("text", "Hello World!");
    assert_eq!(
        message(form),
        part("text/plain", "form-data; name=\"text\"", "Hello World!")
    );
}

#[test]
fn reader_part_is_arbitrary_bytes() {
    let mut form: Form<Source> = Form::new(&Named("b"));
    form.add_reader("input", source(b"Hello World!"));
    assert_eq!(
        message(form),
        part("application/octet-stream", "form-data; name=\"input\"", "Hello World!")
    );
}

#[test]
fn reader_file_has_a_filename() {
    let mut form: Form<Source> = Form::new(&Named("b"));
    form.add_reader_file("input", source(b"Hello World!"), "filename.txt");
    assert_eq!(
        message(form),
        part(
            "application/octet-stream",
            "form-data; name=\"input\"; filename=\"filename.txt\"",
            "Hello World!"
        )
    );
}

#[test]
fn reader_file_with_mime_has_that_content_type() {
    let mut form: Form<Source> = Form::new(&Named("b"));
    form.add_reader_file_with_mime("input", source(b"Hello World!"), "filename.txt", "text/plain");
    assert_eq!(
        message(form),
        part(
            "text/plain",
            "form-data; name=\"input\"; filename=\"filename.txt\"",
            "Hello World!"
        )
    );
}

#[test]
fn file_is_named_after_its_path() {
    let mut form: Form<Source> = Form::new(&Named("b"));
    assert_eq!(form.add_file("file", "dir/notes", Opened::File(source(b"abc"))), Ok(()));
    assert_eq!(
        message(form),
        part(
            "application/octet-stream",
            "form-data; name=\"file\"; filename=\"dir/notes\"",
            "abc"
        )
    );
}

#[test]
fn extension_that_is_no_media_type_gives_arbitrary_bytes() {
    let mut form: Form<Source> = Form::new(&Named("b"));
    form.add_file("file", "notes.txt", Opened::File(source(b"abc"))).unwrap();
    assert_eq!(
        message(form),
        part(
            "application/octet-stream",
            "form-data; name=\"file\"; filename=\"notes.txt\"",
            "abc"
        )
    );
}

#[test]
fn file_without_extension_gets_the_given_content_type() {
    let mut form: Form<Source> = Form::new(&Named("b"));
    form.add_file_with_mime("data", "table", "text/csv", Opened::File(source(b"1,2"))).unwrap();
    assert_eq!(
        message(form),
        part("text/csv", "form-data; name=\"data\"; filename=\"table\"", "1,2")
    );
}

#[test]
fn extension_wins_over_the_given_content_type() {
    let mut form: Form<Source> = Form::new(&Named("b"));
    form.add_file_with_mime("data", "test.csv", "text/csv", Opened::File(source(b"1,2")))
        .unwrap();
    assert_eq!(
        message(form),
        part(
            "application/octet-stream",
            "form-data; name=\"data\"; filename=\"test.csv\"",
            "1,2"
        )
    );
}

#[test]
fn extension_that_reads_as_a_media_type_is_taken() {
    let mut form: Form<Source> = Form::new(&Named("b"));
    form.add_opened_file(
        "data",
        "odd",
        Some("Text/CSV"),
        Some("image/png"),
        Opened::File(source(b"1,2")),
    )
    .unwrap();
    assert_eq!(
        message(form),
        part("text/csv", "form-data; name=\"data\"; filename=\"odd\"", "1,2")
    );
}

#[test]
fn opened_file_without_extension_or_content_type_is_arbitrary_bytes() {
    let mut form: Form<Source> = Form::new(&Named("b"));
    form.add_opened_file("data", "odd", None, None, Opened::File(source(b"1,2"))).unwrap();
    assert_eq!(
        message(form),
        part("application/octet-stream", "form-data; name=\"data\"; filename=\"odd\"", "1,2")
    );
}

#[test]
fn directory_is_not_added() {
    let mut form: Form<Source> = Form::new(&Named("b"));
    form.add_text("a", "1");
    assert_eq!(form.add_file("dir", "some/dir", Opened::NotAFile), Err(FileError::InvalidInput));
    assert_eq!(form.len(), 1);
    assert_eq!(
        form.add_file_with_mime("dir", "some/dir", "text/plain", Opened::NotAFile),
        Err(FileError::InvalidInput)
    );
    assert_eq!(form.len(), 1);
    assert_eq!(message(form), part("text/plain", "form-data; name=\"a\"", "1"));
}

#[test]
fn path_that_cannot_be_opened_is_not_added() {
    let mut form: Form<Source> = Form::new(&Named("b"));
    assert_eq!(form.add_file("file", "missing.txt", Opened::OpenFailed), Err(FileError::Open));
    assert_eq!(form.len(), 0);
    assert_eq!(message(form), "\r\n--b--");
}

#[test]
fn file_without_metadata_is_not_added() {
    let mut form: Form<Source> = Form::new(&Named("b"));
    assert_eq!(
        form.add_file("file", "odd.txt", Opened::MetadataFailed),
        Err(FileError::Metadata)
    );
    assert_eq!(form.len(), 0);
}

#[test]
fn parts_keep_the_order_in_which_they_were_added() {
    let mut form: Form<Source> = Form::new(&Named("b"));
    form.add_reader("z", source(b"1"));
    form.add_text("a", "2");
    form.add_reader("m", source(b"3"));
    let all = message(form);
    let z = all.find("name=\"z\"").unwrap();
    let a = all.find("name=\"a\"").unwrap();
    let m = all.find("name=\"m\"").unwrap();
    assert!(z < a && a < m);
}

#[test]
fn boundary_is_made_of_the_bytes_drawn_in_their_order() {
    assert_eq!(boundary_from(b"aB3dE9"), "aB3dE9");
    assert_eq!(boundary_from(b"9Ed3Ba"), "9Ed3Ba");
    assert_eq!(boundary_from(b""), "");
}
