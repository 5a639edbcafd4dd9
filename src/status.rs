//! Response statuses and their status lines.
use vstd::prelude::*;
use vstd::utf8::is_ascii_chars;
use crate::bytes::{ascii, lemma_ascii_bytes};

verus! {

#[derive(Clone, Copy, PartialEq, Eq, Structural, Debug)]
pub enum Status {
    OK,
    Created,
    NoContent,
    NotModified,
    BadRequest,
    Unauthorized,
    Forbidden,
    NotFound,
    MethodNotAllowed,
    PayloadTooLarge,
    InternalServerError,
    ServiceUnavailable,
    HTTPVersionNotSupported,
}

pub open spec fn status_code(s: Status) -> u16 {
    match s {
        Status::OK => 200,
        Status::Created => 201,
        Status::NoContent => 204,
        Status::NotModified => 304,
        Status::BadRequest => 400,
        Status::Unauthorized => 401,
        Status::Forbidden => 403,
        Status::NotFound => 404,
        Status::MethodNotAllowed => 405,
        Status::PayloadTooLarge => 413,
        Status::InternalServerError => 500,
        Status::ServiceUnavailable => 503,
        Status::HTTPVersionNotSupported => 505,
    }
}

/// The status line, line break included.
pub open spec fn status_line(s: Status) -> Seq<char> {
    match s {
        Status::OK => "HTTP/1.1 200 OK\r\n"@,
        Status::Created => "HTTP/1.1 201 Created\r\n"@,
        Status::NoContent => "HTTP/1.1 204 No Content\r\n"@,
        Status::NotModified => "HTTP/1.1 304 Not Modified\r\n"@,
        Status::BadRequest => "HTTP/1.1 400 Bad Request\r\n"@,
        Status::Unauthorized => "HTTP/1.1 401 Unauthorized\r\n"@,
        Status::Forbidden => "HTTP/1.1 403 Forbidden\r\n"@,
        Status::NotFound => "HTTP/1.1 404 Not Found\r\n"@,
        Status::MethodNotAllowed => "HTTP/1.1 405 Method Not Allowed\r\n"@,
        Status::PayloadTooLarge => "HTTP/1.1 413 Payload Too Large\r\n"@,
        Status::InternalServerError => "HTTP/1.1 500 Internal Server Error\r\n"@,
        Status::ServiceUnavailable => "HTTP/1.1 503 Service Unavailable\r\n"@,
        Status::HTTPVersionNotSupported => "HTTP/1.1 505 HTTP Version Not Supported\r\n"@,
    }
}

proof fn lemma_status_line_ascii(s: Status)
    ensures
        is_ascii_chars(status_line(s)),
{
    reveal_strlit("HTTP/1.1 200 OK\r\n");
    reveal_strlit("HTTP/1.1 201 Created\r\n");
    reveal_strlit("HTTP/1.1 204 No Content\r\n");
    reveal_strlit("HTTP/1.1 304 Not Modified\r\n");
    reveal_strlit("HTTP/1.1 400 Bad Request\r\n");
    reveal_strlit("HTTP/1.1 401 Unauthorized\r\n");
    reveal_strlit("HTTP/1.1 403 Forbidden\r\n");
    reveal_strlit("HTTP/1.1 404 Not Found\r\n");
    reveal_strlit("HTTP/1.1 405 Method Not Allowed\r\n");
    reveal_strlit("HTTP/1.1 413 Payload Too Large\r\n");
    reveal_strlit("HTTP/1.1 500 Internal Server Error\r\n");
    reveal_strlit("HTTP/1.1 503 Service Unavailable\r\n");
    reveal_strlit("HTTP/1.1 505 HTTP Version Not Supported\r\n");
}

impl Status {
    pub fn code(&self) -> (r: u16)
        ensures
            r == status_code(*self),
    {
        match self {
            Status::OK => 200,
            Status::Created => 201,
            Status::NoContent => 204,
            Status::NotModified => 304,
            Status::BadRequest => 400,
            Status::Unauthorized => 401,
            Status::Forbidden => 403,
            Status::NotFound => 404,
            Status::MethodNotAllowed => 405,
            Status::PayloadTooLarge => 413,
            Status::InternalServerError => 500,
            Status::ServiceUnavailable => 503,
            Status::HTTPVersionNotSupported => 505,
        }
    }

    fn line(&self) -> (r: &'static str)
        ensures
            r@ == status_line(*self),
    {
        match self {
            Status::OK => "HTTP/1.1 200 OK\r\n",
            Status::Created => "HTTP/1.1 201 Created\r\n",
            Status::NoContent => "HTTP/1.1 204 No Content\r\n",
            Status::NotModified => "HTTP/1.1 304 Not Modified\r\n",
            Status::BadRequest => "HTTP/1.1 400 Bad Request\r\n",
            Status::Unauthorized => "HTTP/1.1 401 Unauthorized\r\n",
            Status::Forbidden => "HTTP/1.1 403 Forbidden\r\n",
            Status::NotFound => "HTTP/1.1 404 Not Found\r\n",
            Status::MethodNotAllowed => "HTTP/1.1 405 Method Not Allowed\r\n",
            Status::PayloadTooLarge => "HTTP/1.1 413 Payload Too Large\r\n",
            Status::InternalServerError => "HTTP/1.1 500 Internal Server Error\r\n",
            Status::ServiceUnavailable => "HTTP/1.1 503 Service Unavailable\r\n",
            Status::HTTPVersionNotSupported => "HTTP/1.1 505 HTTP Version Not Supported\r\n",
        }
    }

    /// The status line as bytes.
    pub fn line_bytes(&self) -> (r: &'static [u8])
        ensures
            r@ == ascii(status_line(*self)),
    {
        let s = self.line();
        proof {
            lemma_status_line_ascii(*self);
            lemma_ascii_bytes(s);
        }
        s.as_bytes()
    }
}

} // verus!
