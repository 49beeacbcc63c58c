//! An implementation of the `multipart/form-data` media type described in
//! [RFC 7578](https://tools.ietf.org/html/rfc7578): a form is built part by
//! part and then encoded as a stream of byte chunks, pull by pull, without
//! the whole message ever being held in memory.
//!
//! Only the client side is implemented: forms are written, not read.
//!
//! ## Usage
//!
//! A [`client::multipart::Form`] takes texts, and sources of bytes of a type
//! of the caller's choice. [`client::multipart::Body`] encodes the form. It
//! reads no source itself: where a pull needs the content of a part, it
//! comes to [`client::multipart::Step::Read`], the caller reads the source
//! that `reader_mut` hands out, and hands what was read to `supply`; no
//! bytes read means that the source is exhausted. A pull, or such an
//! answer, that comes to [`client::multipart::Step::Chunk`] has the next
//! chunk of the message.
//!
//! ## What is proved
//!
//! [`machine`] says as a state machine what every pull and every answer
//! makes of the body, and the functions of [`body`] are proved to do just
//! that. [`laws`] and [`framing`] prove of that machine that the chunks of
//! a stream that has come to its end are the message of the form as
//! [`wire`] lays it out.

pub mod body;
pub mod boundary;
pub mod buffer;
pub mod client;
pub mod error;
pub mod form;
pub mod framing;
pub mod laws;
pub mod machine;
pub mod media;
pub mod part;
pub mod wire;
