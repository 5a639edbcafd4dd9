//! The body formats a request can declare.
use vstd::prelude::*;
use crate::bytes::{
    ascii, eq_ignore_case, find2, find2_from, lemma_ascii_bytes, lemma_find2, range_eq_ignore_case,
    skip_ws, skip_ws_from, trim_back, trim_back_from, copy_range,
};
use vstd::utf8::is_ascii_chars;

verus! {

#[derive(Clone, PartialEq, Eq, Debug)]
pub enum ContentType {
    Text,
    HTML,
    JSON,
    URLEncoded,
    /// `multipart/form-data`, with the boundary that separates its parts.
    FormData(Vec<u8>),
    OctetStream,
}

/// A content type as a value: the boundary as a byte sequence.
pub enum ContentTypeView {
    Text,
    HTML,
    JSON,
    URLEncoded,
    FormData(Seq<u8>),
    OctetStream,
}

impl View for ContentType {
    type V = ContentTypeView;

    open spec fn view(&self) -> ContentTypeView {
        match self {
            ContentType::Text => ContentTypeView::Text,
            ContentType::HTML => ContentTypeView::HTML,
            ContentType::JSON => ContentTypeView::JSON,
            ContentType::URLEncoded => ContentTypeView::URLEncoded,
            ContentType::FormData(b) => ContentTypeView::FormData(b@),
            ContentType::OctetStream => ContentTypeView::OctetStream,
        }
    }
}

/// What a `Content-Type` value says: the media type before any `;` decides,
/// compared without regard to case, and a form's boundary follows `boundary=`.
/// A media type that is not one of the known ones is taken as opaque bytes.
pub open spec fn content_type_of(v: Seq<u8>) -> ContentTypeView {
    let semi = find2(v, 0, 59, 59);
    let media = v.subrange(0, trim_back(v, 0, semi));
    if eq_ignore_case(media, ascii("text/plain"@)) {
        ContentTypeView::Text
    } else if eq_ignore_case(media, ascii("text/html"@)) {
        ContentTypeView::HTML
    } else if eq_ignore_case(media, ascii("application/json"@)) {
        ContentTypeView::JSON
    } else if eq_ignore_case(media, ascii("application/x-www-form-urlencoded"@)) {
        ContentTypeView::URLEncoded
    } else if eq_ignore_case(media, ascii("multipart/form-data"@)) {
        ContentTypeView::FormData(form_boundary(v, semi))
    } else {
        ContentTypeView::OctetStream
    }
}

/// The boundary parameter that follows the `;` at `semi`, or nothing.
pub open spec fn form_boundary(v: Seq<u8>, semi: int) -> Seq<u8> {
    if semi >= v.len() {
        Seq::empty()
    } else {
        let p = skip_ws(v, semi + 1, v.len() as int);
        if p + 9 <= v.len() && eq_ignore_case(v.subrange(p, p + 9), ascii("boundary="@)) {
            v.subrange(p + 9, v.len() as int)
        } else {
            Seq::empty()
        }
    }
}

fn literal_is(v: &[u8], end: usize, lit: &str) -> (r: bool)
    requires
        end <= v@.len(),
        is_ascii_chars(lit@),
    ensures
        r == eq_ignore_case(v@.subrange(0, end as int), ascii(lit@)),
{
    proof {
        lemma_ascii_bytes(lit);
    }
    range_eq_ignore_case(v, 0, end, lit.as_bytes())
}

impl ContentType {
    pub fn from_bytes(v: &[u8]) -> (r: ContentType)
        ensures
            r@ == content_type_of(v@),
    {
        proof {
            reveal_strlit("text/plain");
            reveal_strlit("text/html");
            reveal_strlit("application/json");
            reveal_strlit("application/x-www-form-urlencoded");
            reveal_strlit("multipart/form-data");
        }
        let semi = find2_from(v, 0, 59, 59);
        proof {
            lemma_find2(v@, 0, 59, 59);
        }
        let end = trim_back_from(v, 0, semi);
        if literal_is(v, end, "text/plain") {
            ContentType::Text
        } else if literal_is(v, end, "text/html") {
            ContentType::HTML
        } else if literal_is(v, end, "application/json") {
            ContentType::JSON
        } else if literal_is(v, end, "application/x-www-form-urlencoded") {
            ContentType::URLEncoded
        } else if literal_is(v, end, "multipart/form-data") {
            ContentType::FormData(boundary_of(v, semi))
        } else {
            ContentType::OctetStream
        }
    }
}

fn boundary_of(v: &[u8], semi: usize) -> (r: Vec<u8>)
    requires
        semi <= v@.len(),
    ensures
        r@ == form_boundary(v@, semi as int),
{
    if semi >= v.len() {
        return Vec::new();
    }
    let p = skip_ws_from(v, semi + 1, v.len());
    proof {
        reveal_strlit("boundary=");
        lemma_ascii_bytes("boundary=");
    }
    if v.len() - p >= 9 && range_eq_ignore_case(v, p, p + 9, "boundary=".as_bytes()) {
        copy_range(v, p + 9, v.len())
    } else {
        Vec::new()
    }
}

} // verus!
