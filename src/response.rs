//! Responses: a status, a header table and an optional body.
use vstd::prelude::*;
use crate::bytes::{ascii, extend_bytes};
use crate::header::{header_bytes, header_index, Header};
use crate::headers::{appended, utf8, Headers};
use crate::num::{decimal, itoa};
use crate::status::{status_line, Status};

verus! {

pub struct Response {
    status: Status,
    headers: Headers,
    body: Option<Vec<u8>>,
}

/// Whether a response with this status carries no body by its nature.
pub open spec fn bodiless(s: Status) -> bool {
    s == Status::NoContent || s == Status::NotModified
}

pub proof fn lemma_decimal_len(n: nat)
    ensures
        1 <= decimal(n).len() <= n + 1,
    decreases n,
{
    if n >= 10 {
        lemma_decimal_len(n / 10);
    }
}

impl Response {
    pub closed spec fn status_view(&self) -> Status {
        self.status
    }

    pub fn status(&self) -> (r: Status)
        ensures
            r == self.status_view(),
    {
        self.status
    }

    pub closed spec fn headers_view(&self) -> Headers {
        self.headers
    }

    pub closed spec fn body_view(&self) -> Option<Seq<u8>> {
        match &self.body {
            Some(b) => Some(b@),
            None => None,
        }
    }

    pub closed spec fn wf(&self) -> bool {
        self.headers.wf()
    }

    pub open spec fn body_bytes(&self) -> Seq<u8> {
        match self.body_view() {
            Some(b) => b,
            None => Seq::empty(),
        }
    }

    /// The response on the wire: status line, header block, body.
    pub open spec fn wire(&self) -> Seq<u8> {
        ascii(status_line(self.status_view())) + self.headers_view().wire() + self.body_bytes()
    }

    /// A response with no headers and no body.
    pub fn new(status: Status) -> (r: Response)
        ensures
            r.wf(),
            r.status_view() == status,
            r.headers_view().standard_view() == Seq::new(45, |i: int| None::<Seq<char>>),
            r.headers_view().custom_view().len() == 0,
            r.headers_view().cookies_view().len() == 0,
            r.body_view() is None,
            r.wire().len() == status_line(status).len() + 2,
    {
        Response { status, headers: Headers::new(), body: None }
    }

    pub fn set_body(&mut self, body: Vec<u8>)
        ensures
            final(self).wf() == old(self).wf(),
            final(self).status_view() == old(self).status_view(),
            final(self).headers_view() == old(self).headers_view(),
            final(self).body_view() == Some(body@),
    {
        self.body = Some(body);
    }

    pub fn body(&self) -> (r: Option<&[u8]>)
        ensures
            match self.body_view() {
                Some(b) => r matches Some(x) && x@ == b,
                None => r is None,
            },
    {
        match &self.body {
            Some(b) => Some(b.as_slice()),
            None => None,
        }
    }

    pub fn header(&self, h: Header) -> (r: Option<&str>)
        requires
            self.wf(),
        ensures
            match self.headers_view().value_of(h) {
                Some(v) => r matches Some(s) && s@ == v,
                None => r is None,
            },
    {
        self.headers.get(h)
    }

    pub fn custom_header(&self, name: &str) -> (r: Option<&str>)
        requires
            self.wf(),
        ensures
            match crate::headers::custom_value(self.headers_view().custom_view(), name@) {
                Some(v) => r matches Some(s) && s@ == v,
                None => r is None,
            },
    {
        self.headers.get_custom(name)
    }

    /// Sets a standard header.
    pub fn set_header(&mut self, h: Header, value: &str)
        requires
            old(self).wf(),
            old(self).wire().len() + header_bytes(h).len() + 4 + utf8(value@).len() <= usize::MAX,
        ensures
            final(self).wf(),
            final(self).status_view() == old(self).status_view(),
            final(self).body_view() == old(self).body_view(),
            final(self).headers_view().standard_view() == old(self).headers_view().standard_view().update(
                header_index(h),
                Some(value@),
            ),
            final(self).headers_view().custom_view() == old(self).headers_view().custom_view(),
            final(self).headers_view().cookies_view() == old(self).headers_view().cookies_view(),
    {
        self.headers.insert(h, value);
    }

    /// Adds to a standard header, joining with `, `.
    pub fn append_header(&mut self, h: Header, value: &str)
        requires
            old(self).wf(),
            old(self).wire().len() + header_bytes(h).len() + 4 + utf8(value@).len() <= usize::MAX,
        ensures
            final(self).wf(),
            final(self).status_view() == old(self).status_view(),
            final(self).body_view() == old(self).body_view(),
            final(self).headers_view().standard_view() == old(self).headers_view().standard_view().update(
                header_index(h),
                Some(appended(old(self).headers_view().value_of(h), value@)),
            ),
            final(self).headers_view().custom_view() == old(self).headers_view().custom_view(),
            final(self).headers_view().cookies_view() == old(self).headers_view().cookies_view(),
    {
        self.headers.append(h, value);
    }

    /// Sets a custom header.
    pub fn set_custom_header(&mut self, name: &str, value: &str)
        requires
            old(self).wf(),
            old(self).wire().len() + utf8(name@).len() + 4 + utf8(value@).len() <= usize::MAX,
        ensures
            final(self).wf(),
            final(self).status_view() == old(self).status_view(),
            final(self).body_view() == old(self).body_view(),
            final(self).headers_view().custom_view() == crate::headers::custom_set(
                old(self).headers_view().custom_view(),
                name@,
                value@,
            ),
            final(self).headers_view().standard_view() == old(self).headers_view().standard_view(),
            final(self).headers_view().cookies_view() == old(self).headers_view().cookies_view(),
    {
        self.headers.insert_custom(name, value);
    }

    /// Adds a `Set-Cookie` line.
    pub fn set_cookie(&mut self, cookie: &str)
        requires
            old(self).wf(),
            old(self).wire().len() + 14 + utf8(cookie@).len() <= usize::MAX,
        ensures
            final(self).wf(),
            final(self).status_view() == old(self).status_view(),
            final(self).body_view() == old(self).body_view(),
            final(self).headers_view().cookies_view() == old(self).headers_view().cookies_view().push(cookie@),
            final(self).headers_view().standard_view() == old(self).headers_view().standard_view(),
            final(self).headers_view().custom_view() == old(self).headers_view().custom_view(),
    {
        self.headers.set_cookie(cookie);
    }

    /// Fills in what the wire needs before writing: `Content-Length` from
    /// the body (0 without one, unless the status has no body by nature),
    /// and `Date`, when they are not set yet.
    pub fn finalize(&mut self, date: &str)
        requires
            old(self).wf(),
            old(self).wire().len() + 64 + utf8(date@).len() <= usize::MAX,
        ensures
            final(self).wf(),
            final(self).status_view() == old(self).status_view(),
            final(self).body_view() == old(self).body_view(),
            final(self).headers_view().custom_view() == old(self).headers_view().custom_view(),
            final(self).headers_view().cookies_view() == old(self).headers_view().cookies_view(),
            forall|h: Header| h != Header::ContentLength && h != Header::Date ==> #[trigger] final(self).headers_view().value_of(h) == old(self).headers_view().value_of(h),
            old(self).headers_view().value_of(Header::Date) is Some ==> final(self).headers_view().value_of(Header::Date) == old(self).headers_view().value_of(Header::Date),
            old(self).headers_view().value_of(Header::Date) is None ==> final(self).headers_view().value_of(Header::Date) == Some(date@),
            match old(self).headers_view().value_of(Header::ContentLength) {
                Some(v) => final(self).headers_view().value_of(Header::ContentLength) == Some(v),
                None => match old(self).body_view() {
                    Some(b) => final(self).headers_view().value_of(Header::ContentLength) matches Some(v) && utf8(v) == decimal(b.len()),
                    None => if bodiless(old(self).status_view()) {
                        final(self).headers_view().value_of(Header::ContentLength) is None
                    } else {
                        final(self).headers_view().value_of(Header::ContentLength) matches Some(v) && utf8(v) == decimal(0)
                    },
                },
            },
    {
        proof {
            crate::headers::lemma_wf_slots(self.headers);
        }
        if self.headers.get(Header::ContentLength).is_none() {
            let len: usize = match &self.body {
                Some(b) => b.len(),
                None => 0,
            };
            if self.body.is_some() || !(self.status == Status::NoContent || self.status == Status::NotModified) {
                let text = itoa(len);
                proof {
                    lemma_decimal_len(len as nat);
                    reveal_strlit("Content-Length");
                }
                self.headers.insert(Header::ContentLength, text.as_str());
            }
        }
        proof {
            crate::headers::lemma_wf_slots(self.headers);
        }
        if self.headers.get(Header::Date).is_none() {
            proof {
                reveal_strlit("Date");
                reveal_strlit("Content-Length");
            }
            self.headers.insert(Header::Date, date);
        }
        proof {
            assert forall|h: Header| h != Header::ContentLength && h != Header::Date implies #[trigger] self.headers.value_of(h) == old(self).headers.value_of(h) by {
                crate::header::lemma_header_index_injective(h);
                crate::header::lemma_header_index_range(h);
            }
        }
    }

    /// Writes the response after what `buf` holds.
    pub fn write_to(&self, buf: &mut Vec<u8>)
        requires
            self.wf(),
        ensures
            final(buf)@ == old(buf)@ + self.wire(),
    {
        extend_bytes(buf, self.status.line_bytes());
        self.headers.write_to(buf);
        match &self.body {
            Some(b) => extend_bytes(buf, b.as_slice()),
            None => {},
        }
        assert(final(buf)@ =~= old(buf)@ + self.wire());
    }

    /// The exact number of bytes `write_to` emits.
    pub fn size(&self) -> (r: usize)
        requires
            self.wf(),
            self.wire().len() <= usize::MAX,
        ensures
            r == self.wire().len(),
    {
        let line = self.status.line_bytes();
        let body_len: usize = match &self.body {
            Some(b) => b.len(),
            None => 0,
        };
        line.len() + self.headers.size() + body_len
    }

    /// The response as bytes, in a buffer reserved at its exact size.
    pub fn to_bytes(&self) -> (r: Vec<u8>)
        requires
            self.wf(),
            self.wire().len() <= usize::MAX,
        ensures
            r@ == self.wire(),
    {
        let mut buf: Vec<u8> = Vec::with_capacity(self.size());
        self.write_to(&mut buf);
        assert(buf@ =~= self.wire());
        buf
    }
}

} // verus!
