//! What a connection does with a request: the response for a request that
//! cannot be routed or parsed, and whether the connection stays open.
use vstd::prelude::*;
use vstd::string::StringExecFns;
use crate::bytes::{ascii, eq_ignore_case, lemma_ascii_bytes, range_eq_ignore_case};
use crate::header::{header_index, Header};
use crate::headers::{lemma_sep_bytes, list_sep, utf8};
use crate::method::{lemma_method_name_len, method_name, Method, N_METHODS};
use crate::request::{header_value, range_of, Pair, ParseError, Request, Slice};
use crate::response::Response;
use crate::router::{captures_view, lemma_allowed_len, route, walk, RouteError, Routed, Router};
use crate::status::Status;
use crate::bytes::lemma_utf8_concat;

verus! {

/// Method names joined by `, `, as the `Allow` header lists them.
pub open spec fn joined_names(ms: Seq<Method>) -> Seq<char>
    decreases ms.len(),
{
    if ms.len() == 0 {
        Seq::empty()
    } else if ms.len() == 1 {
        method_name(ms[0])
    } else {
        joined_names(ms.drop_last()) + list_sep() + method_name(ms.last())
    }
}

/// The value of an `Allow` header for `ms`.
pub fn allow_value(ms: &Vec<Method>) -> (r: String)
    requires
        ms@.len() <= N_METHODS,
    ensures
        r@ == joined_names(ms@),
        utf8(r@).len() <= 9 * ms@.len(),
{
    let mut acc = String::new();
    let mut k: usize = 0;
    while k < ms.len()
        invariant
            k <= ms@.len() <= N_METHODS,
            acc@ == joined_names(ms@.subrange(0, k as int)),
            utf8(acc@).len() <= 9 * k,
        decreases ms@.len() - k,
    {
        let m = ms[k];
        let ghost before = acc@;
        proof {
            lemma_method_name_len(m);
            assert(ms@.subrange(0, k as int + 1).drop_last() =~= ms@.subrange(0, k as int));
        }
        if k > 0 {
            acc.append(", ");
            proof {
                lemma_sep_bytes();
                lemma_utf8_concat(before, list_sep());
            }
        } else {
            assert(before =~= Seq::<char>::empty());
        }
        let ghost mid = acc@;
        acc.append(m.as_str());
        proof {
            lemma_utf8_concat(mid, method_name(m));
            if k == 0 {
                assert(mid + method_name(m) =~= method_name(m));
            }
        }
        k = k + 1;
    }
    assert(ms@.subrange(0, ms@.len() as int) =~= ms@);
    acc
}

/// The response to a request that could not be routed: 404, or 405 with the
/// methods the path has in `Allow`.
pub fn route_error_response(e: &RouteError) -> (r: Response)
    requires
        e matches RouteError::MethodNotAllowed(ms) ==> ms@.len() <= N_METHODS,
    ensures
        r.wf(),
        r.body_view() is None,
        r.headers_view().custom_view().len() == 0,
        r.headers_view().cookies_view().len() == 0,
        match e {
            RouteError::MethodNotAllowed(ms) => r.status_view() == Status::MethodNotAllowed
                && r.headers_view().standard_view() == Seq::new(45, |i: int| None::<Seq<char>>).update(
                header_index(Header::Allow),
                Some(joined_names(ms@)),
            ),
            RouteError::NotFound => r.status_view() == Status::NotFound
                && r.headers_view().standard_view() == Seq::new(45, |i: int| None::<Seq<char>>),
            _ => r.status_view() == Status::InternalServerError
                && r.headers_view().standard_view() == Seq::new(45, |i: int| None::<Seq<char>>),
        },
{
    match e {
        RouteError::MethodNotAllowed(ms) => {
            let allow = allow_value(ms);
            let mut r = Response::new(Status::MethodNotAllowed);
            proof {
                reveal_strlit("HTTP/1.1 405 Method Not Allowed\r\n");
                reveal_strlit("Allow");
            }
            r.set_header(Header::Allow, allow.as_str());
            r
        },
        RouteError::NotFound => Response::new(Status::NotFound),
        _ => Response::new(Status::InternalServerError),
    }
}

/// The response to a request that could not be parsed.
pub fn parse_error_response(e: ParseError) -> (r: Response)
    ensures
        r.wf(),
        r.body_view() is None,
        r.headers_view().standard_view() == Seq::new(45, |i: int| None::<Seq<char>>),
        r.status_view() == match e {
            ParseError::BadRequest => Status::BadRequest,
            ParseError::HTTPVersionNotSupported => Status::HTTPVersionNotSupported,
        },
{
    match e {
        ParseError::BadRequest => Response::new(Status::BadRequest),
        ParseError::HTTPVersionNotSupported => Response::new(Status::HTTPVersionNotSupported),
    }
}

/// Where a request goes: to a handler, with what its parameters captured,
/// or straight to a response.
pub enum Dispatch {
    Handler(usize, Vec<(Vec<u8>, Slice)>),
    Respond(Response),
}

/// Routes a parsed request by its method and its path as it arrived.
pub fn dispatch(router: &Router, req: &Request) -> (r: Dispatch)
    requires
        router.wf(),
    ensures
        match route(router.view(), req.head().method, range_of(req.bytes(), req.head().path)) {
            Routed::Found(h, caps) => r matches Dispatch::Handler(x, v) && x == h && captures_view(v@) == caps,
            Routed::MethodNotAllowed(ms) => r matches Dispatch::Respond(resp) && resp.wf()
                && resp.status_view() == Status::MethodNotAllowed && resp.headers_view().value_of(Header::Allow)
                == Some(joined_names(ms)),
            Routed::NotFound => r matches Dispatch::Respond(resp) && resp.wf() && resp.status_view() == Status::NotFound,
        },
{
    let path = req.path_bytes();
    match router.search(req.method(), path.as_slice()) {
        Ok((h, caps)) => Dispatch::Handler(h, caps),
        Err(e) => {
            proof {
                match route(router.view(), req.head().method, path@) {
                    Routed::MethodNotAllowed(ms) => {
                        let walked = walk(router.view(), 0, path@, 1, Seq::empty());
                        lemma_allowed_len(router.view()[walked->Some_0.0].handlers, 0);
                    },
                    _ => {},
                }
                crate::header::lemma_header_index_range(Header::Allow);
            }
            Dispatch::Respond(route_error_response(&e))
        },
    }
}

/// Whether the request asks for the connection to close after its response.
pub open spec fn wants_close(s: Seq<u8>, hs: Seq<Pair>) -> bool {
    header_value(s, hs, ascii("Connection"@)) matches Some(v) && eq_ignore_case(v, ascii("close"@))
}

/// Whether the connection may carry another request after this one.
pub fn keep_alive(req: &Request) -> (r: bool)
    ensures
        r == !wants_close(req.bytes(), req.head().headers),
{
    proof {
        reveal_strlit("Connection");
        lemma_ascii_bytes("Connection");
        reveal_strlit("close");
        lemma_ascii_bytes("close");
    }
    match req.header_bytes("Connection".as_bytes()) {
        None => true,
        Some(v) => {
            let close = "close".as_bytes();
            let same = range_eq_ignore_case(v.as_slice(), 0, v.len(), close);
            assert(v@.subrange(0, v@.len() as int) =~= v@);
            !same
        },
    }
}

/// What a connection does after writing a response.
#[derive(Clone, Copy, PartialEq, Eq, Structural, Debug)]
pub enum Next {
    /// Read the next request.
    ReadNext,
    /// Shut down the write side and close.
    Close,
}

/// A connection reads on only after a request that parsed and that did not
/// ask to close.
pub fn after_response(parsed: bool, keep: bool) -> (r: Next)
    ensures
        r == (if parsed && keep {
            Next::ReadNext
        } else {
            Next::Close
        }),
{
    if parsed && keep {
        Next::ReadNext
    } else {
        Next::Close
    }
}

} // verus!
