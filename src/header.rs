//! The standard response headers, each with a fixed slot.
use vstd::prelude::*;
use vstd::utf8::is_ascii_chars;
use crate::bytes::{ascii, eq_ignore_case, lemma_ascii_bytes, range_eq_ignore_case};

verus! {

/// Number of standard headers.
pub const N_SERVER_HEADERS: usize = 45;

/// A standard response header. Its slot is its position here, which is also
/// the order in which headers are written.
#[derive(Clone, Copy, PartialEq, Eq, Structural, Debug)]
pub enum Header {
    AcceptRanges,
    AccessControlAllowCredentials,
    AccessControlAllowHeaders,
    AccessControlAllowMethods,
    AccessControlAllowOrigin,
    AccessControlExposeHeaders,
    AccessControlMaxAge,
    Age,
    Allow,
    AltSvc,
    CacheControl,
    CacheStatus,
    CDNCacheControl,
    Connection,
    ContentDisposition,
    ContentEncoding,
    ContentLanguage,
    ContentLength,
    ContentLocation,
    ContentRange,
    ContentSecurityPolicy,
    ContentSecurityPolicyReportOnly,
    ContentType,
    Date,
    ETag,
    Expires,
    Link,
    Location,
    ProxyAuthenticate,
    ReferrerPolicy,
    Refresh,
    RetryAfter,
    SecWebSocketAccept,
    SecWebSocketProtocol,
    SecWebSocketVersion,
    Server,
    StrictTransportSecurity,
    Trailer,
    TransferEncoding,
    Upgrade,
    Vary,
    Via,
    WWWAuthenticate,
    XContentTypeOptions,
    XFrameOptions,
}

/// The header's name as written on the wire.
pub open spec fn header_name(h: Header) -> Seq<char> {
    match h {
        Header::AcceptRanges => "Accept-Ranges"@,
        Header::AccessControlAllowCredentials => "Access-Control-Allow-Credentials"@,
        Header::AccessControlAllowHeaders => "Access-Control-Allow-Headers"@,
        Header::AccessControlAllowMethods => "Access-Control-Allow-Methods"@,
        Header::AccessControlAllowOrigin => "Access-Control-Allow-Origin"@,
        Header::AccessControlExposeHeaders => "Access-Control-Expose-Headers"@,
        Header::AccessControlMaxAge => "Access-Control-Max-Age"@,
        Header::Age => "Age"@,
        Header::Allow => "Allow"@,
        Header::AltSvc => "Alt-Svc"@,
        Header::CacheControl => "Cache-Control"@,
        Header::CacheStatus => "Cache-Status"@,
        Header::CDNCacheControl => "CDN-Cache-Control"@,
        Header::Connection => "Connection"@,
        Header::ContentDisposition => "Content-Disposition"@,
        Header::ContentEncoding => "Content-Encoding"@,
        Header::ContentLanguage => "Content-Language"@,
        Header::ContentLength => "Content-Length"@,
        Header::ContentLocation => "Content-Location"@,
        Header::ContentRange => "Content-Range"@,
        Header::ContentSecurityPolicy => "Content-Security-Policy"@,
        Header::ContentSecurityPolicyReportOnly => "Content-Security-Policy-Report-Only"@,
        Header::ContentType => "Content-Type"@,
        Header::Date => "Date"@,
        Header::ETag => "ETag"@,
        Header::Expires => "Expires"@,
        Header::Link => "Link"@,
        Header::Location => "Location"@,
        Header::ProxyAuthenticate => "Proxy-Authenticate"@,
        Header::ReferrerPolicy => "Referrer-Policy"@,
        Header::Refresh => "Refresh"@,
        Header::RetryAfter => "Retry-After"@,
        Header::SecWebSocketAccept => "Sec-WebSocket-Accept"@,
        Header::SecWebSocketProtocol => "Sec-WebSocket-Protocol"@,
        Header::SecWebSocketVersion => "Sec-WebSocket-Version"@,
        Header::Server => "Server"@,
        Header::StrictTransportSecurity => "Strict-Transport-Security"@,
        Header::Trailer => "Trailer"@,
        Header::TransferEncoding => "Transfer-Encoding"@,
        Header::Upgrade => "Upgrade"@,
        Header::Vary => "Vary"@,
        Header::Via => "Via"@,
        Header::WWWAuthenticate => "WWW-Authenticate"@,
        Header::XContentTypeOptions => "X-Content-Type-Options"@,
        Header::XFrameOptions => "X-Frame-Options"@,
    }
}

/// The header's name as bytes.
pub open spec fn header_bytes(h: Header) -> Seq<u8> {
    ascii(header_name(h))
}

/// The header's slot.
pub open spec fn header_index(h: Header) -> int {
    match h {
        Header::AcceptRanges => 0,
        Header::AccessControlAllowCredentials => 1,
        Header::AccessControlAllowHeaders => 2,
        Header::AccessControlAllowMethods => 3,
        Header::AccessControlAllowOrigin => 4,
        Header::AccessControlExposeHeaders => 5,
        Header::AccessControlMaxAge => 6,
        Header::Age => 7,
        Header::Allow => 8,
        Header::AltSvc => 9,
        Header::CacheControl => 10,
        Header::CacheStatus => 11,
        Header::CDNCacheControl => 12,
        Header::Connection => 13,
        Header::ContentDisposition => 14,
        Header::ContentEncoding => 15,
        Header::ContentLanguage => 16,
        Header::ContentLength => 17,
        Header::ContentLocation => 18,
        Header::ContentRange => 19,
        Header::ContentSecurityPolicy => 20,
        Header::ContentSecurityPolicyReportOnly => 21,
        Header::ContentType => 22,
        Header::Date => 23,
        Header::ETag => 24,
        Header::Expires => 25,
        Header::Link => 26,
        Header::Location => 27,
        Header::ProxyAuthenticate => 28,
        Header::ReferrerPolicy => 29,
        Header::Refresh => 30,
        Header::RetryAfter => 31,
        Header::SecWebSocketAccept => 32,
        Header::SecWebSocketProtocol => 33,
        Header::SecWebSocketVersion => 34,
        Header::Server => 35,
        Header::StrictTransportSecurity => 36,
        Header::Trailer => 37,
        Header::TransferEncoding => 38,
        Header::Upgrade => 39,
        Header::Vary => 40,
        Header::Via => 41,
        Header::WWWAuthenticate => 42,
        Header::XContentTypeOptions => 43,
        Header::XFrameOptions => 44,
    }
}

/// Every standard header name is ASCII.
pub proof fn lemma_header_name_ascii(h: Header)
    ensures
        is_ascii_chars(header_name(h)),
{
    reveal_strlit("Accept-Ranges");
    reveal_strlit("Access-Control-Allow-Credentials");
    reveal_strlit("Access-Control-Allow-Headers");
    reveal_strlit("Access-Control-Allow-Methods");
    reveal_strlit("Access-Control-Allow-Origin");
    reveal_strlit("Access-Control-Expose-Headers");
    reveal_strlit("Access-Control-Max-Age");
    reveal_strlit("Age");
    reveal_strlit("Allow");
    reveal_strlit("Alt-Svc");
    reveal_strlit("Cache-Control");
    reveal_strlit("Cache-Status");
    reveal_strlit("CDN-Cache-Control");
    reveal_strlit("Connection");
    reveal_strlit("Content-Disposition");
    reveal_strlit("Content-Encoding");
    reveal_strlit("Content-Language");
    reveal_strlit("Content-Length");
    reveal_strlit("Content-Location");
    reveal_strlit("Content-Range");
    reveal_strlit("Content-Security-Policy");
    reveal_strlit("Content-Security-Policy-Report-Only");
    reveal_strlit("Content-Type");
    reveal_strlit("Date");
    reveal_strlit("ETag");
    reveal_strlit("Expires");
    reveal_strlit("Link");
    reveal_strlit("Location");
    reveal_strlit("Proxy-Authenticate");
    reveal_strlit("Referrer-Policy");
    reveal_strlit("Refresh");
    reveal_strlit("Retry-After");
    reveal_strlit("Sec-WebSocket-Accept");
    reveal_strlit("Sec-WebSocket-Protocol");
    reveal_strlit("Sec-WebSocket-Version");
    reveal_strlit("Server");
    reveal_strlit("Strict-Transport-Security");
    reveal_strlit("Trailer");
    reveal_strlit("Transfer-Encoding");
    reveal_strlit("Upgrade");
    reveal_strlit("Vary");
    reveal_strlit("Via");
    reveal_strlit("WWW-Authenticate");
    reveal_strlit("X-Content-Type-Options");
    reveal_strlit("X-Frame-Options");
}

impl Header {
    pub fn as_str(&self) -> (r: &'static str)
        ensures
            r@ == header_name(*self),
    {
        match self {
            Header::AcceptRanges => "Accept-Ranges",
            Header::AccessControlAllowCredentials => "Access-Control-Allow-Credentials",
            Header::AccessControlAllowHeaders => "Access-Control-Allow-Headers",
            Header::AccessControlAllowMethods => "Access-Control-Allow-Methods",
            Header::AccessControlAllowOrigin => "Access-Control-Allow-Origin",
            Header::AccessControlExposeHeaders => "Access-Control-Expose-Headers",
            Header::AccessControlMaxAge => "Access-Control-Max-Age",
            Header::Age => "Age",
            Header::Allow => "Allow",
            Header::AltSvc => "Alt-Svc",
            Header::CacheControl => "Cache-Control",
            Header::CacheStatus => "Cache-Status",
            Header::CDNCacheControl => "CDN-Cache-Control",
            Header::Connection => "Connection",
            Header::ContentDisposition => "Content-Disposition",
            Header::ContentEncoding => "Content-Encoding",
            Header::ContentLanguage => "Content-Language",
            Header::ContentLength => "Content-Length",
            Header::ContentLocation => "Content-Location",
            Header::ContentRange => "Content-Range",
            Header::ContentSecurityPolicy => "Content-Security-Policy",
            Header::ContentSecurityPolicyReportOnly => "Content-Security-Policy-Report-Only",
            Header::ContentType => "Content-Type",
            Header::Date => "Date",
            Header::ETag => "ETag",
            Header::Expires => "Expires",
            Header::Link => "Link",
            Header::Location => "Location",
            Header::ProxyAuthenticate => "Proxy-Authenticate",
            Header::ReferrerPolicy => "Referrer-Policy",
            Header::Refresh => "Refresh",
            Header::RetryAfter => "Retry-After",
            Header::SecWebSocketAccept => "Sec-WebSocket-Accept",
            Header::SecWebSocketProtocol => "Sec-WebSocket-Protocol",
            Header::SecWebSocketVersion => "Sec-WebSocket-Version",
            Header::Server => "Server",
            Header::StrictTransportSecurity => "Strict-Transport-Security",
            Header::Trailer => "Trailer",
            Header::TransferEncoding => "Transfer-Encoding",
            Header::Upgrade => "Upgrade",
            Header::Vary => "Vary",
            Header::Via => "Via",
            Header::WWWAuthenticate => "WWW-Authenticate",
            Header::XContentTypeOptions => "X-Content-Type-Options",
            Header::XFrameOptions => "X-Frame-Options",
        }
    }

    pub fn as_bytes(&self) -> (r: &'static [u8])
        ensures
            r@ == header_bytes(*self),
    {
        let s = self.as_str();
        proof {
            lemma_header_name_ascii(*self);
            lemma_ascii_bytes(s);
        }
        s.as_bytes()
    }

    /// The header's slot.
    pub fn index(&self) -> (r: usize)
        ensures
            r as int == header_index(*self),
            r < N_SERVER_HEADERS,
    {
        match self {
            Header::AcceptRanges => 0,
            Header::AccessControlAllowCredentials => 1,
            Header::AccessControlAllowHeaders => 2,
            Header::AccessControlAllowMethods => 3,
            Header::AccessControlAllowOrigin => 4,
            Header::AccessControlExposeHeaders => 5,
            Header::AccessControlMaxAge => 6,
            Header::Age => 7,
            Header::Allow => 8,
            Header::AltSvc => 9,
            Header::CacheControl => 10,
            Header::CacheStatus => 11,
            Header::CDNCacheControl => 12,
            Header::Connection => 13,
            Header::ContentDisposition => 14,
            Header::ContentEncoding => 15,
            Header::ContentLanguage => 16,
            Header::ContentLength => 17,
            Header::ContentLocation => 18,
            Header::ContentRange => 19,
            Header::ContentSecurityPolicy => 20,
            Header::ContentSecurityPolicyReportOnly => 21,
            Header::ContentType => 22,
            Header::Date => 23,
            Header::ETag => 24,
            Header::Expires => 25,
            Header::Link => 26,
            Header::Location => 27,
            Header::ProxyAuthenticate => 28,
            Header::ReferrerPolicy => 29,
            Header::Refresh => 30,
            Header::RetryAfter => 31,
            Header::SecWebSocketAccept => 32,
            Header::SecWebSocketProtocol => 33,
            Header::SecWebSocketVersion => 34,
            Header::Server => 35,
            Header::StrictTransportSecurity => 36,
            Header::Trailer => 37,
            Header::TransferEncoding => 38,
            Header::Upgrade => 39,
            Header::Vary => 40,
            Header::Via => 41,
            Header::WWWAuthenticate => 42,
            Header::XContentTypeOptions => 43,
            Header::XFrameOptions => 44,
        }
    }

    /// The header in a given slot.
    pub fn from_index(i: usize) -> (r: Header)
        requires
            i < N_SERVER_HEADERS,
        ensures
            header_index(r) == i,
    {
        match i {
            0 => Header::AcceptRanges,
            1 => Header::AccessControlAllowCredentials,
            2 => Header::AccessControlAllowHeaders,
            3 => Header::AccessControlAllowMethods,
            4 => Header::AccessControlAllowOrigin,
            5 => Header::AccessControlExposeHeaders,
            6 => Header::AccessControlMaxAge,
            7 => Header::Age,
            8 => Header::Allow,
            9 => Header::AltSvc,
            10 => Header::CacheControl,
            11 => Header::CacheStatus,
            12 => Header::CDNCacheControl,
            13 => Header::Connection,
            14 => Header::ContentDisposition,
            15 => Header::ContentEncoding,
            16 => Header::ContentLanguage,
            17 => Header::ContentLength,
            18 => Header::ContentLocation,
            19 => Header::ContentRange,
            20 => Header::ContentSecurityPolicy,
            21 => Header::ContentSecurityPolicyReportOnly,
            22 => Header::ContentType,
            23 => Header::Date,
            24 => Header::ETag,
            25 => Header::Expires,
            26 => Header::Link,
            27 => Header::Location,
            28 => Header::ProxyAuthenticate,
            29 => Header::ReferrerPolicy,
            30 => Header::Refresh,
            31 => Header::RetryAfter,
            32 => Header::SecWebSocketAccept,
            33 => Header::SecWebSocketProtocol,
            34 => Header::SecWebSocketVersion,
            35 => Header::Server,
            36 => Header::StrictTransportSecurity,
            37 => Header::Trailer,
            38 => Header::TransferEncoding,
            39 => Header::Upgrade,
            40 => Header::Vary,
            41 => Header::Via,
            42 => Header::WWWAuthenticate,
            43 => Header::XContentTypeOptions,
            _ => Header::XFrameOptions,
        }
    }

    /// The standard header with this name, compared without regard to ASCII case.
    pub fn from_bytes(bytes: &[u8]) -> (r: Option<Header>)
        ensures
            match r {
                Some(h) => eq_ignore_case(header_bytes(h), bytes@),
                None => forall|h: Header| !eq_ignore_case(#[trigger] header_bytes(h), bytes@),
            },
    {
        let mut i: usize = 0;
        while i < N_SERVER_HEADERS
            invariant
                i <= N_SERVER_HEADERS,
                forall|h: Header| header_index(h) < i ==> !eq_ignore_case(#[trigger] header_bytes(h), bytes@),
            decreases N_SERVER_HEADERS - i,
        {
            let h = Header::from_index(i);
            let name = h.as_bytes();
            if range_eq_ignore_case(name, 0, name.len(), bytes) {
                assert(name@.subrange(0, name@.len() as int) =~= name@);
                return Some(h);
            }
            assert(name@.subrange(0, name@.len() as int) =~= name@);
            proof {
                lemma_header_index_injective(h);
            }
            i = i + 1;
        }
        proof {
            assert forall|h: Header| !eq_ignore_case(#[trigger] header_bytes(h), bytes@) by {
                lemma_header_index_range(h);
            }
        }
        None
    }
}

pub proof fn lemma_header_index_range(h: Header)
    ensures
        0 <= header_index(h) < N_SERVER_HEADERS,
{
}

pub proof fn lemma_header_index_injective(h: Header)
    ensures
        forall|g: Header| header_index(g) == header_index(h) ==> g == h,
{
}

/// The header in slot `i`.
pub open spec fn header_at(i: int) -> Header {
    if i == 0 {
        Header::AcceptRanges
    } else if i == 1 {
        Header::AccessControlAllowCredentials
    } else if i == 2 {
        Header::AccessControlAllowHeaders
    } else if i == 3 {
        Header::AccessControlAllowMethods
    } else if i == 4 {
        Header::AccessControlAllowOrigin
    } else if i == 5 {
        Header::AccessControlExposeHeaders
    } else if i == 6 {
        Header::AccessControlMaxAge
    } else if i == 7 {
        Header::Age
    } else if i == 8 {
        Header::Allow
    } else if i == 9 {
        Header::AltSvc
    } else if i == 10 {
        Header::CacheControl
    } else if i == 11 {
        Header::CacheStatus
    } else if i == 12 {
        Header::CDNCacheControl
    } else if i == 13 {
        Header::Connection
    } else if i == 14 {
        Header::ContentDisposition
    } else if i == 15 {
        Header::ContentEncoding
    } else if i == 16 {
        Header::ContentLanguage
    } else if i == 17 {
        Header::ContentLength
    } else if i == 18 {
        Header::ContentLocation
    } else if i == 19 {
        Header::ContentRange
    } else if i == 20 {
        Header::ContentSecurityPolicy
    } else if i == 21 {
        Header::ContentSecurityPolicyReportOnly
    } else if i == 22 {
        Header::ContentType
    } else if i == 23 {
        Header::Date
    } else if i == 24 {
        Header::ETag
    } else if i == 25 {
        Header::Expires
    } else if i == 26 {
        Header::Link
    } else if i == 27 {
        Header::Location
    } else if i == 28 {
        Header::ProxyAuthenticate
    } else if i == 29 {
        Header::ReferrerPolicy
    } else if i == 30 {
        Header::Refresh
    } else if i == 31 {
        Header::RetryAfter
    } else if i == 32 {
        Header::SecWebSocketAccept
    } else if i == 33 {
        Header::SecWebSocketProtocol
    } else if i == 34 {
        Header::SecWebSocketVersion
    } else if i == 35 {
        Header::Server
    } else if i == 36 {
        Header::StrictTransportSecurity
    } else if i == 37 {
        Header::Trailer
    } else if i == 38 {
        Header::TransferEncoding
    } else if i == 39 {
        Header::Upgrade
    } else if i == 40 {
        Header::Vary
    } else if i == 41 {
        Header::Via
    } else if i == 42 {
        Header::WWWAuthenticate
    } else if i == 43 {
        Header::XContentTypeOptions
    } else {
        Header::XFrameOptions
    }
}

pub proof fn lemma_header_at(h: Header)
    ensures
        header_at(header_index(h)) == h,
{
}

} // verus!
