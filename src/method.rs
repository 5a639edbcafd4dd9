//! The request methods this server understands.
use vstd::prelude::*;
use crate::bytes::eq_bytes;
use vstd::utf8::{encode_utf8, is_ascii_chars, is_ascii_chars_encode_utf8};

verus! {

#[derive(Clone, Copy, PartialEq, Eq, Structural, Debug)]
pub enum Method {
    GET,
    PUT,
    POST,
    PATCH,
    DELETE,
    HEAD,
    OPTIONS,
}

/// The token that names a method on the wire.
pub open spec fn method_token(m: Method) -> Seq<u8> {
    match m {
        Method::GET => seq![71u8, 69, 84],
        Method::PUT => seq![80u8, 85, 84],
        Method::POST => seq![80u8, 79, 83, 84],
        Method::PATCH => seq![80u8, 65, 84, 67, 72],
        Method::DELETE => seq![68u8, 69, 76, 69, 84, 69],
        Method::HEAD => seq![72u8, 69, 65, 68],
        Method::OPTIONS => seq![79u8, 80, 84, 73, 79, 78, 83],
    }
}

/// The method's name as text.
pub open spec fn method_name(m: Method) -> Seq<char> {
    match m {
        Method::GET => seq!['G', 'E', 'T'],
        Method::PUT => seq!['P', 'U', 'T'],
        Method::POST => seq!['P', 'O', 'S', 'T'],
        Method::PATCH => seq!['P', 'A', 'T', 'C', 'H'],
        Method::DELETE => seq!['D', 'E', 'L', 'E', 'T', 'E'],
        Method::HEAD => seq!['H', 'E', 'A', 'D'],
        Method::OPTIONS => seq!['O', 'P', 'T', 'I', 'O', 'N', 'S'],
    }
}

/// A method's name takes at most seven bytes.
pub proof fn lemma_method_name_len(m: Method)
    ensures
        encode_utf8(method_name(m)).len() == method_name(m).len() <= 7,
{
    assert(is_ascii_chars(method_name(m)));
    is_ascii_chars_encode_utf8(method_name(m));
}

/// A method's name, as bytes, is its token.
pub proof fn lemma_method_token_bytes(m: Method)
    ensures
        encode_utf8(method_name(m)) == method_token(m),
{
    assert(is_ascii_chars(method_name(m)));
    is_ascii_chars_encode_utf8(method_name(m));
    assert(encode_utf8(method_name(m)) =~= method_token(m));
}

/// The method named by a token, if any.
pub open spec fn method_of(b: Seq<u8>) -> Option<Method> {
    if b == method_token(Method::GET) {
        Some(Method::GET)
    } else if b == method_token(Method::PUT) {
        Some(Method::PUT)
    } else if b == method_token(Method::POST) {
        Some(Method::POST)
    } else if b == method_token(Method::PATCH) {
        Some(Method::PATCH)
    } else if b == method_token(Method::DELETE) {
        Some(Method::DELETE)
    } else if b == method_token(Method::HEAD) {
        Some(Method::HEAD)
    } else if b == method_token(Method::OPTIONS) {
        Some(Method::OPTIONS)
    } else {
        None
    }
}

/// Tokens and methods correspond one to one.
pub proof fn lemma_method_token_roundtrip(m: Method)
    ensures
        method_of(method_token(m)) == Some(m),
{
    assert(method_token(Method::GET) != method_token(Method::PUT));
    assert(method_token(Method::PUT)[1] != method_token(Method::POST)[1]);
    assert(method_token(Method::POST)[1] != method_token(Method::PATCH)[1]);
    assert(method_token(Method::PATCH)[1] != method_token(Method::DELETE)[1]);
}

impl Method {
    pub fn from_bytes(bytes: &[u8]) -> (r: Option<Method>)
        ensures
            r == method_of(bytes@),
    {
        if eq_bytes(bytes, &[71u8, 69, 84]) {
            Some(Method::GET)
        } else if eq_bytes(bytes, &[80u8, 85, 84]) {
            Some(Method::PUT)
        } else if eq_bytes(bytes, &[80u8, 79, 83, 84]) {
            Some(Method::POST)
        } else if eq_bytes(bytes, &[80u8, 65, 84, 67, 72]) {
            Some(Method::PATCH)
        } else if eq_bytes(bytes, &[68u8, 69, 76, 69, 84, 69]) {
            Some(Method::DELETE)
        } else if eq_bytes(bytes, &[72u8, 69, 65, 68]) {
            Some(Method::HEAD)
        } else if eq_bytes(bytes, &[79u8, 80, 84, 73, 79, 78, 83]) {
            Some(Method::OPTIONS)
        } else {
            None
        }
    }

    /// The method's name.
    pub fn as_str(&self) -> (r: &'static str)
        ensures
            r@ == method_name(*self),
    {
        proof {
            reveal_strlit("GET");
            reveal_strlit("PUT");
            reveal_strlit("POST");
            reveal_strlit("PATCH");
            reveal_strlit("DELETE");
            reveal_strlit("HEAD");
            reveal_strlit("OPTIONS");
        }
        match self {
            Method::GET => "GET",
            Method::PUT => "PUT",
            Method::POST => "POST",
            Method::PATCH => "PATCH",
            Method::DELETE => "DELETE",
            Method::HEAD => "HEAD",
            Method::OPTIONS => "OPTIONS",
        }
    }
}

#[allow(non_snake_case)]
impl Method {
    pub fn isGET(&self) -> (r: bool)
        ensures
            r == (*self == Method::GET),
    {
        matches!(self, Method::GET)
    }

    pub fn isPUT(&self) -> (r: bool)
        ensures
            r == (*self == Method::PUT),
    {
        matches!(self, Method::PUT)
    }

    pub fn isPOST(&self) -> (r: bool)
        ensures
            r == (*self == Method::POST),
    {
        matches!(self, Method::POST)
    }

    pub fn isPATCH(&self) -> (r: bool)
        ensures
            r == (*self == Method::PATCH),
    {
        matches!(self, Method::PATCH)
    }

    pub fn isDELETE(&self) -> (r: bool)
        ensures
            r == (*self == Method::DELETE),
    {
        matches!(self, Method::DELETE)
    }

    pub fn isHEAD(&self) -> (r: bool)
        ensures
            r == (*self == Method::HEAD),
    {
        matches!(self, Method::HEAD)
    }

    pub fn isOPTIONS(&self) -> (r: bool)
        ensures
            r == (*self == Method::OPTIONS),
    {
        matches!(self, Method::OPTIONS)
    }
}

/// Number of methods; each has a slot index below it.
pub const N_METHODS: usize = 7;

/// The slot a method occupies in per-method tables.
pub open spec fn method_index(m: Method) -> int {
    match m {
        Method::GET => 0,
        Method::PUT => 1,
        Method::POST => 2,
        Method::PATCH => 3,
        Method::DELETE => 4,
        Method::HEAD => 5,
        Method::OPTIONS => 6,
    }
}

impl Method {
    pub fn index(&self) -> (r: usize)
        ensures
            r as int == method_index(*self),
            r < N_METHODS,
    {
        match self {
            Method::GET => 0,
            Method::PUT => 1,
            Method::POST => 2,
            Method::PATCH => 3,
            Method::DELETE => 4,
            Method::HEAD => 5,
            Method::OPTIONS => 6,
        }
    }

    /// The method in a given slot.
    pub fn from_index(i: usize) -> (r: Method)
        requires
            i < N_METHODS,
        ensures
            method_index(r) == i,
    {
        if i == 0 {
            Method::GET
        } else if i == 1 {
            Method::PUT
        } else if i == 2 {
            Method::POST
        } else if i == 3 {
            Method::PATCH
        } else if i == 4 {
            Method::DELETE
        } else if i == 5 {
            Method::HEAD
        } else {
            Method::OPTIONS
        }
    }
}

} // verus!
