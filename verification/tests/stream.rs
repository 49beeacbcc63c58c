use std::cell::Cell;
use std::io::{self, Cursor, Read};
use std::rc::Rc;

use hyper_multipart_rfc7578::client::multipart::{Body, BoundaryGenerator, Form, Opened, Step};
use hyper_multipart_rfc7578::client::Error;

struct TestGenerator;

impl BoundaryGenerator for TestGenerator {
    fn generate_boundary(&self) -> String {
        "test".to_string()
    }
}

/// A source that fails on its first read.
struct Broken;

impl Read for Broken {
    fn read(&mut self, _: &mut [u8]) -> io::Result<usize> {
        Err(io::Error::new(io::ErrorKind::Other, "broken"))
    }
}

/// A source that says when it is dropped.
struct Watched {
    data: Cursor<Vec<u8>>,
    dropped: Rc<Cell<bool>>,
}

impl Read for Watched {
    fn read(&mut self, buf: &mut [u8]) -> io::Result<usize> {
        self.data.read(buf)
    }
}

impl Drop for Watched {
    fn drop(&mut self) {
        self.dropped.set(true);
    }
}

fn test_form<R>() -> Form<R> {
    Form::new(&TestGenerator)
}

/// Pulls one chunk, reading the source whenever the body asks for it.
fn pull<R: Read>(body: &mut Body<R>) -> Option<Result<Vec<u8>, Error>> {
    let mut step = body.poll_next();
    loop {
        match step {
            Err(error) => return Some(Err(error)),
            Ok(Step::End) => return None,
            Ok(Step::Chunk(chunk)) => return Some(Ok(chunk.to_vec())),
            Ok(Step::Read(limit)) => {
                let mut buf = vec![0u8; limit];
                let read = body.reader_mut().expect("a source to read").read(&mut buf);
                match read {
                    Ok(n) => step = body.supply(&buf[..n]),
                    Err(_) => return Some(Err(body.read_failed())),
                }
            }
        }
    }
}

/// Pulls until the stream ends.
fn chunks<R: Read>(form: Form<R>) -> Vec<Vec<u8>> {
    let mut body = Body::from(form);
    let mut all = Vec::new();
    while let Some(chunk) = pull(&mut body) {
        all.push(chunk.expect("a chunk"));
    }
    all
}

fn stream<R: Read>(form: Form<R>) -> Vec<u8> {
    chunks(form).concat()
}

fn head(content_type: &str, disposition: &str) -> String {
    format!(
        "\r\n--test\r\nContent-Type: {}\r\nContent-Disposition: {}\r\n\r\n",
        content_type, disposition
    )
}

fn occurrences(haystack: &[u8], needle: &[u8]) -> usize {
    haystack.windows(needle.len()).filter(|window| *window == needle).count()
}

#[test]
fn empty_form_is_the_closing_line() {
    let form: Form<Cursor<Vec<u8>>> = test_form();
    let all = chunks(form);
    assert_eq!(all, vec![b"\r\n--test--".to_vec()]);
}

#[test]
fn empty_form_ends_after_the_closing_line() {
    let form: Form<Cursor<Vec<u8>>> = test_form();
    let mut body = Body::from(form);
    assert!(matches!(body.poll_next(), Ok(Step::Chunk(_))));
    assert!(matches!(body.poll_next(), Ok(Step::End)));
    assert!(matches!(body.poll_next(), Ok(Step::End)));
}

#[test]
fn stream_opens_with_a_boundary_line() {
    let mut form: Form<Cursor<Vec<u8>>> = test_form();
    form.add_reader("input", Cursor::new(b"data".to_vec()));
    form.add_text("field", "value");
    let all = chunks(form);
    assert!(all[0].starts_with(b"\r\n--test\r\n"));
}

#[test]
fn one_boundary_line_for_each_part_and_one_closing_line() {
    let mut form: Form<Cursor<Vec<u8>>> = test_form();
    form.add_text("one", "1");
    form.add_reader("two", Cursor::new(b"22".to_vec()));
    form.add_text("three", "");
    form.add_reader_file("four", Cursor::new(Vec::new()), "four.bin");
    let all = stream(form);
    assert_eq!(occurrences(&all, b"\r\n--test\r\nContent-Type: "), 4);
    assert_eq!(occurrences(&all, b"\r\n--test\r\n"), 4);
    assert_eq!(occurrences(&all, b"\r\n--test--"), 1);
    assert!(all.ends_with(b"\r\n--test--"));
}

#[test]
fn text_part_follows_its_headers() {
    let mut form: Form<Cursor<Vec<u8>>> = test_form();
    form.add_text("field", "Hello World!");
    let all = stream(form);
    let text = String::from_utf8(all).unwrap();
    assert!(text.contains("Content-Disposition: form-data; name=\"field\"\r\n\r\nHello World!"));
    assert_eq!(
        text,
        "\r\n--test\r\nContent-Type: text/plain\r\n\
         Content-Disposition: form-data; name=\"field\"\r\n\r\nHello World!\r\n--test--"
    );
}

#[test]
fn chunks_make_up_the_message_in_the_order_of_the_parts() {
    let mut form: Form<Cursor<Vec<u8>>> = test_form();
    form.add_text("text", "Hello World!");
    form.add_reader("input", Cursor::new(b"raw bytes".to_vec()));
    form.add_reader_file("file", Cursor::new(vec![0u8, 159, 255]), "blob.bin");
    form.add_reader_file_with_mime("page", Cursor::new(b"<p>".to_vec()), "p.html", "text/html");
    let mut expected = Vec::new();
    expected.extend_from_slice(head("text/plain", "form-data; name=\"text\"").as_bytes());
    expected.extend_from_slice(b"Hello World!");
    expected.extend_from_slice(
        head("application/octet-stream", "form-data; name=\"input\"").as_bytes(),
    );
    expected.extend_from_slice(b"raw bytes");
    expected.extend_from_slice(
        head("application/octet-stream", "form-data; name=\"file\"; filename=\"blob.bin\"")
            .as_bytes(),
    );
    expected.extend_from_slice(&[0u8, 159, 255]);
    expected.extend_from_slice(
        head("text/html", "form-data; name=\"page\"; filename=\"p.html\"").as_bytes(),
    );
    expected.extend_from_slice(b"<p>");
    expected.extend_from_slice(b"\r\n--test--");
    assert_eq!(stream(form), expected);
}

#[test]
fn text_then_file() {
    let file = b"fn main() {}\n".to_vec();
    let mut form: Form<Cursor<Vec<u8>>> = test_form();
    form.add_text("filename", "a.txt");
    form.add_file("input", "a.txt", Opened::File(Cursor::new(file.clone()))).unwrap();
    let first = head("text/plain", "form-data; name=\"filename\"");
    let second =
        head("application/octet-stream", "form-data; name=\"input\"; filename=\"a.txt\"");
    let all = stream(form);
    let mut expected = Vec::new();
    expected.extend_from_slice(first.as_bytes());
    expected.extend_from_slice(b"a.txt");
    expected.extend_from_slice(second.as_bytes());
    expected.extend_from_slice(&file);
    expected.extend_from_slice(b"\r\n--test--");
    assert_eq!(all, expected);
    assert_eq!(
        all.len(),
        first.len() + "a.txt".len() + second.len() + file.len() + "\r\n--test--".len()
    );
}

#[test]
fn text_is_sent_as_utf8() {
    let mut form: Form<Cursor<Vec<u8>>> = test_form();
    form.add_text("greeting", "grüße, 世界");
    let all = stream(form);
    let mut expected = head("text/plain", "form-data; name=\"greeting\"").into_bytes();
    expected.extend_from_slice("grüße, 世界".as_bytes());
    expected.extend_from_slice(b"\r\n--test--");
    assert_eq!(all, expected);
}

#[test]
fn head_and_first_content_share_a_chunk() {
    let mut form: Form<Cursor<Vec<u8>>> = test_form();
    form.add_reader("input", Cursor::new(b"data".to_vec()));
    let all = chunks(form);
    let mut first = head("application/octet-stream", "form-data; name=\"input\"").into_bytes();
    first.extend_from_slice(b"data");
    assert_eq!(all, vec![first, b"\r\n--test--".to_vec()]);
}

#[test]
fn no_chunk_is_longer_than_the_buffer() {
    let content: Vec<u8> = (0..5000u32).map(|i| (i % 251) as u8).collect();
    let mut form: Form<Cursor<Vec<u8>>> = test_form();
    form.add_reader("input", Cursor::new(content.clone()));
    let all = chunks(form);
    let top = head("application/octet-stream", "form-data; name=\"input\"");
    let lengths: Vec<usize> = all.iter().map(|chunk| chunk.len()).collect();
    assert_eq!(lengths, vec![2048, 2048, 5000 + top.len() - 4096, 10]);
    let mut expected = top.into_bytes();
    expected.extend_from_slice(&content);
    expected.extend_from_slice(b"\r\n--test--");
    assert_eq!(all.concat(), expected);
}

#[test]
fn long_text_is_sent_in_several_chunks() {
    let text = "x".repeat(3000);
    let mut form: Form<Cursor<Vec<u8>>> = test_form();
    form.add_text("long", &text);
    let all = chunks(form);
    let top = head("text/plain", "form-data; name=\"long\"");
    let lengths: Vec<usize> = all.iter().map(|chunk| chunk.len()).collect();
    assert_eq!(lengths, vec![2048, 3000 + top.len() - 2048, 10]);
    assert_eq!(all.concat(), format!("{}{}\r\n--test--", top, text).into_bytes());
}

#[test]
fn empty_parts_keep_their_heads() {
    let mut form: Form<Cursor<Vec<u8>>> = test_form();
    form.add_text("a", "");
    form.add_reader("b", Cursor::new(Vec::new()));
    form.add_text("c", "x");
    let all = chunks(form);
    let first = format!(
        "{}{}{}x",
        head("text/plain", "form-data; name=\"a\""),
        head("application/octet-stream", "form-data; name=\"b\""),
        head("text/plain", "form-data; name=\"c\""),
    );
    assert_eq!(all, vec![first.into_bytes(), b"\r\n--test--".to_vec()]);
}

#[test]
fn last_empty_part_shares_its_chunk_with_the_closing_line() {
    let mut form: Form<Cursor<Vec<u8>>> = test_form();
    form.add_reader("a", Cursor::new(Vec::new()));
    let all = chunks(form);
    let only = format!(
        "{}\r\n--test--",
        head("application/octet-stream", "form-data; name=\"a\"")
    );
    assert_eq!(all, vec![only.into_bytes()]);
}

#[test]
fn head_longer_than_the_buffer_goes_out_alone() {
    let name = "n".repeat(3000);
    let mut form: Form<Cursor<Vec<u8>>> = test_form();
    form.add_reader(&name, Cursor::new(b"data".to_vec()));
    let all = chunks(form);
    let top = head(
        "application/octet-stream",
        &format!("form-data; name=\"{}\"", name),
    );
    assert_eq!(
        all,
        vec![top.into_bytes(), b"data".to_vec(), b"\r\n--test--".to_vec()]
    );
}

#[test]
fn failed_read_ends_the_stream() {
    let mut form: Form<Broken> = test_form();
    form.add_reader("input", Broken);
    let mut body = Body::from(form);
    assert_eq!(pull(&mut body), Some(Err(Error::ContentRead)));
    assert_eq!(pull(&mut body), None);
    assert!(body.reader_mut().is_none());
}

#[test]
fn pull_repeats_the_request_until_it_is_answered() {
    let mut form: Form<Cursor<Vec<u8>>> = test_form();
    form.add_reader("input", Cursor::new(b"data".to_vec()));
    let top = head("application/octet-stream", "form-data; name=\"input\"");
    let mut body = Body::from(form);
    assert_eq!(body.awaited(), None);
    assert!(matches!(body.poll_next(), Ok(Step::Read(limit)) if limit == 2048 - top.len()));
    assert!(matches!(body.poll_next(), Ok(Step::Read(limit)) if limit == 2048 - top.len()));
    assert_eq!(body.awaited(), Some(2048 - top.len()));
    match body.supply(b"da") {
        Ok(Step::Chunk(chunk)) => assert_eq!(chunk.to_vec(), format!("{}da", top).into_bytes()),
        _ => panic!("a chunk"),
    }
    assert_eq!(body.awaited(), None);
    assert!(matches!(body.poll_next(), Ok(Step::Read(2048))));
    match body.supply(b"ta") {
        Ok(Step::Chunk(chunk)) => assert_eq!(chunk.to_vec(), b"ta".to_vec()),
        _ => panic!("a chunk"),
    }
    assert!(matches!(body.poll_next(), Ok(Step::Read(2048))));
    match body.supply(b"") {
        Ok(Step::Chunk(chunk)) => assert_eq!(chunk.to_vec(), b"\r\n--test--".to_vec()),
        _ => panic!("a chunk"),
    }
    assert!(matches!(body.poll_next(), Ok(Step::End)));
}

#[test]
fn exhausted_source_is_let_go() {
    let dropped = Rc::new(Cell::new(false));
    let mut form: Form<Watched> = test_form();
    form.add_reader(
        "input",
        Watched { data: Cursor::new(b"data".to_vec()), dropped: dropped.clone() },
    );
    form.add_text("more", "text");
    let mut body = Body::from(form);
    assert!(pull(&mut body).is_some());
    assert!(!dropped.get());
    assert!(pull(&mut body).is_some());
    assert!(dropped.get());
}

#[test]
fn dropped_body_lets_go_of_its_source() {
    let dropped = Rc::new(Cell::new(false));
    let mut form: Form<Watched> = test_form();
    form.add_reader(
        "input",
        Watched { data: Cursor::new(b"data".to_vec()), dropped: dropped.clone() },
    );
    let mut body = Body::from(form);
    assert!(pull(&mut body).is_some());
    assert!(!dropped.get());
    drop(body);
    assert!(dropped.get());
}

#[test]
fn failed_read_lets_go_of_every_source() {
    let dropped = Rc::new(Cell::new(false));
    let mut form: Form<Box<dyn Read>> = test_form();
    form.add_reader("broken", Box::new(Broken));
    form.add_reader(
        "input",
        Box::new(Watched { data: Cursor::new(Vec::new()), dropped: dropped.clone() }),
    );
    let mut body = Body::from(form);
    assert_eq!(pull(&mut body), Some(Err(Error::ContentRead)));
    assert!(dropped.get());
}

#[test]
fn size_hint_knows_nothing() {
    let form: Form<Cursor<Vec<u8>>> = test_form();
    let body = Body::from(form);
    assert_eq!(body.size_hint(), (0, None));
}

#[test]
fn many_empty_parts_in_a_row() {
    let count = 50_000;
    let mut form: Form<Cursor<Vec<u8>>> = test_form();
    for _ in 0..count {
        form.add_text("e", "");
    }
    let top = head("text/plain", "form-data; name=\"e\"");
    let all = chunks(form);
    let total: usize = all.iter().map(|chunk| chunk.len()).sum();
    assert_eq!(total, count * top.len() + "\r\n--test--".len());
    assert!(all.iter().all(|chunk| !chunk.is_empty()));
    assert!(all.iter().all(|chunk| chunk.len() <= 2048));
    assert!(all.iter().all(|chunk| chunk.len() + top.len() > 2048 || chunk.ends_with(b"--")));
    assert_eq!(occurrences(&all.concat(), b"\r\n--test\r\n"), 50_000);
}

#[test]
fn source_is_offered_only_while_it_is_read() {
    let mut form: Form<Cursor<Vec<u8>>> = test_form();
    form.add_text("text", "abc");
    form.add_reader("input", Cursor::new(b"data".to_vec()));
    let mut body = Body::from(form);
    assert!(body.reader_mut().is_none());
    assert!(matches!(body.poll_next(), Ok(Step::Chunk(_))));
    assert!(body.reader_mut().is_none());
    assert!(matches!(body.poll_next(), Ok(Step::Read(_))));
    assert_eq!(body.reader_mut().map(|read| read.get_ref().clone()), Some(b"data".to_vec()));
    assert!(matches!(body.supply(b""), Ok(Step::Chunk(_))));
    assert!(body.reader_mut().is_none());
}

#[test]
fn each_part_is_read_from_its_own_source() {
    let mut form: Form<Cursor<Vec<u8>>> = test_form();
    form.add_reader("first", Cursor::new(b"one".to_vec()));
    form.add_reader("second", Cursor::new(b"two".to_vec()));
    let all = String::from_utf8(stream(form)).unwrap();
    assert!(all.contains("name=\"first\"\r\n\r\none\r\n--test\r\n"));
    assert!(all.contains("name=\"second\"\r\n\r\ntwo\r\n--test--"));
}

#[test]
fn heads_of_empty_parts_do_not_pile_up_beyond_the_buffer() {
    let first = "a".repeat(1000);
    let second = "b".repeat(1000);
    let mut form: Form<Cursor<Vec<u8>>> = test_form();
    form.add_text(&first, "");
    form.add_text(&second, "");
    let one = head("text/plain", &format!("form-data; name=\"{}\"", first));
    let two = head("text/plain", &format!("form-data; name=\"{}\"", second));
    assert_eq!(one.len(), 1079);
    let all = chunks(form);
    assert_eq!(
        all,
        vec![one.into_bytes(), format!("{}\r\n--test--", two).into_bytes()]
    );
    assert!(all.iter().all(|chunk| chunk.len() <= 2048));
}

#[test]
fn closing_line_waits_where_the_chunk_has_no_room_for_it() {
    let bare = head("application/octet-stream", "form-data; name=\"\"").len();
    let name = "n".repeat(2043 - bare);
    let mut form: Form<Cursor<Vec<u8>>> = test_form();
    form.add_reader(&name, Cursor::new(Vec::new()));
    let top = head("application/octet-stream", &format!("form-data; name=\"{}\"", name));
    assert_eq!(top.len(), 2043);
    let all = chunks(form);
    assert_eq!(all, vec![top.into_bytes(), b"\r\n--test--".to_vec()]);
}

#[test]
fn no_chunk_of_mixed_parts_is_longer_than_the_buffer() {
    let mut form: Form<Cursor<Vec<u8>>> = test_form();
    for i in 0..40 {
        let name = "x".repeat(100 + 37 * i);
        match i % 3 {
            0 => form.add_text(&name, ""),
            1 => form.add_reader(&name, Cursor::new(vec![7u8; 300 * i])),
            _ => form.add_text(&name, &"y".repeat(50 * i)),
        }
    }
    let all = chunks(form);
    assert!(all.iter().all(|chunk| !chunk.is_empty() && chunk.len() <= 2048));
    assert_eq!(occurrences(&all.concat(), b"\r\n--test\r\n"), 40);
    assert!(all.concat().ends_with(b"\r\n--test--"));
}

struct Odd;

impl BoundaryGenerator for Odd {
    fn generate_boundary(&self) -> String {
        "x\r\n--x".to_string()
    }
}

#[test]
fn boundary_with_a_line_break_lets_content_pass_for_a_boundary_line() {
    let mut form: Form<Cursor<Vec<u8>>> = Form::new(&Odd);
    form.add_text("a", "--x");
    let all = stream(form);
    assert!(all.ends_with(b"\r\n--x\r\n--x--"));
    assert_eq!(occurrences(b"--x", b"--x\r\n--x"), 0);
    assert_eq!(occurrences(&all, b"\r\n--x\r\n--x\r\n"), 2);
}

#[test]
fn content_that_spells_a_boundary_line_is_sent_as_it_is() {
    let mut form: Form<Cursor<Vec<u8>>> = test_form();
    form.add_text("a", "\r\n--test\r\n");
    let all = stream(form);
    assert_eq!(occurrences(&all, b"\r\n--test\r\n"), 2);
    assert_eq!(occurrences(&all, b"\r\n--test--"), 1);
}
