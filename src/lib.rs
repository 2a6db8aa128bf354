//! A minimal client-side HTTP/1.x message engine.
//!
//! The library does no I/O of its own: the caller owns the byte stream, hands
//! each network read to [`Context::refill`], and calls the reading methods
//! again whenever they report [`Progress::Pending`].

pub mod bbuf;
pub mod context;
pub mod error;
pub mod framing;
pub mod headers;
pub mod laws;
pub mod lines;
pub mod method;
pub mod outside;
pub mod status_line;
pub mod text;

pub use bbuf::Buffer;
pub use context::{Context, Progress, State};
pub use error::HttpError;
pub use headers::{HeaderIter, HttpHeader};
pub use method::Method;
pub use status_line::Status;
