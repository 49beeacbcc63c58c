//! The data structures for building a multipart form and the body that is
//! sent to a server.

pub use crate::body::{Body, Step};
pub use crate::boundary::{BoundaryGenerator, RandomAsciiGenerator};
pub use crate::form::{Form, Opened};
pub use crate::part::Part;
