//! An HTTP/1.1 server core: request parsing, routing, and response headers
//! whose wire size is tracked exactly.

pub mod bytes;
pub mod content_type;
pub mod cookie;
pub mod date;
pub mod decode;
pub mod fang;
pub mod header;
pub mod headers;
pub mod method;
pub mod num;
pub mod request;
pub mod response;
pub mod router;
pub mod server;
pub mod status;
