//! The client side: what it takes to send a form.

pub mod multipart;

pub use crate::error::{Error, FileError};
