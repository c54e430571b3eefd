//! A small HTTP/1.1 message library: wire parsing and serialisation of
//! requests and responses, builders, and prefix route selection.

pub mod error;
pub mod extract;
pub mod header;
pub mod round_trip;
pub mod request;
pub mod response;
pub mod server;
pub mod target;
pub mod wire;

pub use error::HttpError;
pub use extract::Reader;
pub use header::{Header, IntoHeader, IntoHeaderValue};
pub use response::{IntoResponse, Response, ResponseBuilder};
pub use request::{Method, Request, RequestBuilder};
pub use target::Target;
pub use server::{not_found, with_server_header, Router};
