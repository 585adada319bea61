//! A minimal HTTP/1.0 client core: the request that is put on the wire, the
//! plan for one exchange with a server, and the parser that splits a raw
//! response into its status line, header map and body.

pub mod bytes;
pub mod headers;
pub mod error;
pub mod response;
pub mod request;
pub mod render;
