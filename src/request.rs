//! Requests: parsing the start line and header block out of received bytes,
//! and reading the parsed parts back.
use vstd::prelude::*;
use crate::bytes::{
    ascii, copy_range, eq_ignore_case, extend_bytes, find2, find2_from, is_ws, lemma_ascii_bytes,
    lemma_find2, lemma_find2_at, range_eq, range_eq_ignore_case, skip_ws, skip_ws_from, trim_back,
    trim_back_from, CR, LF, SP,
};
use crate::content_type::{content_type_of, ContentType, ContentTypeView};
use crate::decode::{lossy_string, pct_decode, percent_decoded, utf8_lossy};
use crate::method::{lemma_method_token_bytes, lemma_method_token_roundtrip, method_of, method_token, Method};
use vstd::string::StringSliceAdditionalSpecFns;
use vstd::utf8::{decode_utf8, valid_utf8};

verus! {

/// Bytes read for the start line and headers of one request.
pub const METADATA_SIZE: usize = 1024;

/// The most body bytes a request keeps.
pub const PAYLOAD_LIMIT: usize = 65536;

/// The most query pairs a request may carry.
pub const QUERIES_LIMIT: usize = 4;

/// The most header lines a request may carry.
pub const HEADERS_LIMIT: usize = 32;

pub const COLON: u8 = 58;
pub const QUESTION: u8 = 63;
pub const AMPERSAND: u8 = 38;
pub const EQUALS: u8 = 61;

/// A range `start..end` of a request's bytes.
#[derive(Clone, Copy, PartialEq, Eq, Structural, Debug)]
pub struct Slice {
    pub start: usize,
    pub end: usize,
}

impl View for Slice {
    type V = (int, int);

    open spec fn view(&self) -> (int, int) {
        (self.start as int, self.end as int)
    }
}

#[derive(Clone, Copy, PartialEq, Eq, Structural, Debug)]
pub enum ParseError {
    BadRequest,
    HTTPVersionNotSupported,
}

/// A pair of ranges: a key and its value.
pub type Pair = ((int, int), (int, int));

pub open spec fn pairs_view(v: Seq<(Slice, Slice)>) -> Seq<Pair> {
    v.map_values(|p: (Slice, Slice)| (p.0@, p.1@))
}

/// The parts of a request's start line and header block, as ranges of its bytes.
pub struct Head {
    pub method: Method,
    pub path: (int, int),
    pub queries: Seq<Pair>,
    pub headers: Seq<Pair>,
    /// Where the bytes after the header block begin.
    pub body_start: int,
}

pub open spec fn join_pairs(acc: Seq<Pair>, r: Result<Seq<Pair>, ParseError>) -> Result<
    Seq<Pair>,
    ParseError,
> {
    match r {
        Ok(v) => Ok(acc + v),
        Err(e) => Err(e),
    }
}

pub open spec fn join_headers(acc: Seq<Pair>, r: Result<(Seq<Pair>, int), ParseError>) -> Result<
    (Seq<Pair>, int),
    ParseError,
> {
    match r {
        Ok((v, b)) => Ok((acc + v, b)),
        Err(e) => Err(e),
    }
}

/// The `key=value` pairs of a query string `s[i..end]`, joined by `&`.
/// `end` is the space that closes the request target.
pub open spec fn parse_queries(s: Seq<u8>, i: int, end: int) -> Result<Seq<Pair>, ParseError>
    decreases end - i,
    via parse_queries_decreases
{
    if i >= end || i < 0 || i >= s.len() {
        Ok(Seq::empty())
    } else {
        let amp = find2(s, i, AMPERSAND, SP);
        let eq = find2(s, i, EQUALS, AMPERSAND);
        if eq >= amp {
            Err(ParseError::BadRequest)
        } else {
            let pair = ((i, eq), (eq + 1, amp));
            if amp >= end {
                Ok(seq![pair])
            } else {
                join_pairs(seq![pair], parse_queries(s, amp + 1, end))
            }
        }
    }
}

#[via_fn]
proof fn parse_queries_decreases(s: Seq<u8>, i: int, end: int) {
    if i < end && i >= 0 && i < s.len() {
        lemma_find2(s, i, AMPERSAND, SP);
    }
}

/// Where the line that ends at `le` is followed by the next one, or -1 when
/// its CR is not followed by LF. A line that runs to the end of the data
/// closes the header block.
pub open spec fn next_line(s: Seq<u8>, le: int) -> int {
    if le >= s.len() {
        s.len() as int
    } else if le + 1 < s.len() && s[le + 1] == LF {
        le + 2
    } else {
        -1
    }
}

/// The header lines from `s[i..]` up to the empty line (or the end of the
/// data), each `name: value` with the value trimmed, and where the body begins.
pub open spec fn parse_headers(s: Seq<u8>, i: int) -> Result<(Seq<Pair>, int), ParseError>
    decreases s.len() - i,
    via parse_headers_decreases
{
    if i >= s.len() {
        Ok((Seq::empty(), s.len() as int))
    } else if s[i] == CR {
        if i + 1 < s.len() && s[i + 1] == LF {
            Ok((Seq::empty(), i + 2))
        } else {
            Err(ParseError::BadRequest)
        }
    } else {
        let le = find2(s, i, CR, CR);
        let colon = find2(s, i, COLON, CR);
        if colon >= le || colon == i || next_line(s, le) < 0 {
            Err(ParseError::BadRequest)
        } else {
            let vs = skip_ws(s, colon + 1, le);
            let ve = trim_back(s, vs, le);
            join_headers(seq![((i, colon), (vs, ve))], parse_headers(s, next_line(s, le)))
        }
    }
}

#[via_fn]
proof fn parse_headers_decreases(s: Seq<u8>, i: int) {
    if 0 <= i < s.len() {
        lemma_find2(s, i, CR, CR);
    }
}

/// The start line and header block of `s`.
pub open spec fn parse_head(s: Seq<u8>) -> Result<Head, ParseError> {
    let e = find2(s, 0, CR, CR);
    let sp1 = find2(s, 0, SP, SP);
    let t_end = find2(s, sp1 + 1, SP, SP);
    let q = find2(s, sp1 + 1, QUESTION, SP);
    if !(e + 1 < s.len() && s[e + 1] == LF) || sp1 >= e {
        Err(ParseError::BadRequest)
    } else if method_of(s.subrange(0, sp1)) is None || t_end >= e {
        Err(ParseError::BadRequest)
    } else if s.subrange(t_end + 1, e) != ascii("HTTP/1.1"@) {
        Err(ParseError::HTTPVersionNotSupported)
    } else {
        let queries = if q < t_end {
            parse_queries(s, q + 1, t_end)
        } else {
            Ok(Seq::empty())
        };
        match queries {
            Err(x) => Err(x),
            Ok(qs) => if qs.len() > QUERIES_LIMIT {
                Err(ParseError::BadRequest)
            } else {
                match parse_headers(s, e + 2) {
                    Err(x) => Err(x),
                    Ok((hs, b)) => if hs.len() > HEADERS_LIMIT {
                        Err(ParseError::BadRequest)
                    } else {
                        Ok(
                            Head {
                                method: method_of(s.subrange(0, sp1))->Some_0,
                                path: (sp1 + 1, q),
                                queries: qs,
                                headers: hs,
                                body_start: b,
                            },
                        )
                    },
                }
            },
        }
    }
}

pub open spec fn range_of(s: Seq<u8>, r: (int, int)) -> Seq<u8> {
    s.subrange(r.0, r.1)
}

/// The index of the first pair whose key is `name` up to ASCII case, from `k` on.
pub open spec fn first_key_from(s: Seq<u8>, ps: Seq<Pair>, name: Seq<u8>, k: int) -> Option<int>
    decreases ps.len() - k,
{
    if k >= ps.len() {
        None
    } else if eq_ignore_case(range_of(s, ps[k].0), name) {
        Some(k)
    } else {
        first_key_from(s, ps, name, k + 1)
    }
}

/// The value of the first header named `name`, up to ASCII case.
pub open spec fn header_value(s: Seq<u8>, hs: Seq<Pair>, name: Seq<u8>) -> Option<Seq<u8>> {
    match first_key_from(s, hs, name, 0) {
        Some(k) => Some(range_of(s, hs[k].1)),
        None => None,
    }
}

proof fn lemma_join_pairs(acc: Seq<Pair>, p: Pair, r: Result<Seq<Pair>, ParseError>)
    ensures
        join_pairs(acc, join_pairs(seq![p], r)) == join_pairs(acc.push(p), r),
{
    match r {
        Ok(v) => {
            assert(acc + (seq![p] + v) =~= acc.push(p) + v);
        },
        Err(_) => {},
    }
}

proof fn lemma_join_headers(acc: Seq<Pair>, p: Pair, r: Result<(Seq<Pair>, int), ParseError>)
    ensures
        join_headers(acc, join_headers(seq![p], r)) == join_headers(acc.push(p), r),
{
    match r {
        Ok((v, b)) => {
            assert(acc + (seq![p] + v) =~= acc.push(p) + v);
        },
        Err(_) => {},
    }
}

proof fn lemma_pairs_view_push(v: Seq<(Slice, Slice)>, x: (Slice, Slice))
    ensures
        pairs_view(v.push(x)) == pairs_view(v).push((x.0@, x.1@)),
{
    assert(pairs_view(v.push(x)) =~= pairs_view(v).push((x.0@, x.1@)));
}

/// All ranges of `ps` lie within `len` bytes, each from its start to its end.
pub open spec fn pairs_within(ps: Seq<Pair>, len: int) -> bool {
    forall|k: int|
        0 <= k < ps.len() ==> 0 <= (#[trigger] ps[k]).0.0 <= ps[k].0.1 <= len && 0 <= ps[k].1.0
            <= ps[k].1.1 <= len
}

fn parse_queries_exec(s: &[u8], i0: usize, end: usize) -> (r: Result<
    Vec<(Slice, Slice)>,
    ParseError,
>)
    requires
        i0 <= end <= s@.len(),
    ensures
        match r {
            Ok(v) => parse_queries(s@, i0 as int, end as int) == Ok::<Seq<Pair>, ParseError>(
                pairs_view(v@),
            ) && pairs_within(pairs_view(v@), s@.len() as int),
            Err(x) => parse_queries(s@, i0 as int, end as int) == Err::<Seq<Pair>, ParseError>(x),
        },
{
    let mut acc: Vec<(Slice, Slice)> = Vec::new();
    let mut i: usize = i0;
    proof {
        assert(pairs_view(acc@) =~= Seq::<Pair>::empty());
        match parse_queries(s@, i0 as int, end as int) {
            Ok(v) => assert(Seq::<Pair>::empty() + v =~= v),
            Err(_) => {},
        }
    }
    loop
        invariant
            i0 <= i <= end <= s@.len(),
            parse_queries(s@, i0 as int, end as int) == join_pairs(
                pairs_view(acc@),
                parse_queries(s@, i as int, end as int),
            ),
            pairs_within(pairs_view(acc@), s@.len() as int),
        decreases end - i,
    {
        if i >= end {
            proof {
                assert(pairs_view(acc@) + Seq::<Pair>::empty() =~= pairs_view(acc@));
            }
            return Ok(acc);
        }
        let amp = find2_from(s, i, AMPERSAND, SP);
        let eq = find2_from(s, i, EQUALS, AMPERSAND);
        proof {
            lemma_find2(s@, i as int, AMPERSAND, SP);
            lemma_find2(s@, i as int, EQUALS, AMPERSAND);
        }
        if eq >= amp {
            return Err(ParseError::BadRequest);
        }
        let pair = (Slice { start: i, end: eq }, Slice { start: eq + 1, end: amp });
        proof {
            lemma_pairs_view_push(acc@, pair);
        }
        let ghost before = pairs_view(acc@);
        acc.push(pair);
        if amp >= end {
            proof {
                assert(before + seq![(pair.0@, pair.1@)] =~= pairs_view(acc@));
            }
            return Ok(acc);
        }
        proof {
            lemma_join_pairs(before, (pair.0@, pair.1@), parse_queries(s@, amp + 1, end as int));
        }
        i = amp + 1;
    }
}

fn parse_headers_exec(s: &[u8], i0: usize) -> (r: Result<(Vec<(Slice, Slice)>, usize), ParseError>)
    requires
        i0 <= s@.len(),
    ensures
        match r {
            Ok((v, b)) => parse_headers(s@, i0 as int) == Ok::<(Seq<Pair>, int), ParseError>(
                (pairs_view(v@), b as int),
            ) && pairs_within(pairs_view(v@), s@.len() as int) && b <= s@.len(),
            Err(x) => parse_headers(s@, i0 as int) == Err::<(Seq<Pair>, int), ParseError>(x),
        },
{
    let mut acc: Vec<(Slice, Slice)> = Vec::new();
    let mut i: usize = i0;
    proof {
        assert(pairs_view(acc@) =~= Seq::<Pair>::empty());
        match parse_headers(s@, i0 as int) {
            Ok((v, b)) => assert(Seq::<Pair>::empty() + v =~= v),
            Err(_) => {},
        }
    }
    loop
        invariant
            i0 <= i <= s@.len(),
            parse_headers(s@, i0 as int) == join_headers(
                pairs_view(acc@),
                parse_headers(s@, i as int),
            ),
            pairs_within(pairs_view(acc@), s@.len() as int),
        decreases s@.len() - i,
    {
        if i >= s.len() {
            proof {
                assert(pairs_view(acc@) + Seq::<Pair>::empty() =~= pairs_view(acc@));
            }
            return Ok((acc, s.len()));
        }
        if s[i] == CR {
            if i + 1 < s.len() && s[i + 1] == LF {
                proof {
                    assert(pairs_view(acc@) + Seq::<Pair>::empty() =~= pairs_view(acc@));
                }
                return Ok((acc, i + 2));
            }
            return Err(ParseError::BadRequest);
        }
        let le = find2_from(s, i, CR, CR);
        let colon = find2_from(s, i, COLON, CR);
        proof {
            lemma_find2(s@, i as int, CR, CR);
            lemma_find2(s@, i as int, COLON, CR);
        }
        let next: usize;
        if le >= s.len() {
            next = s.len();
        } else if le + 1 < s.len() && s[le + 1] == LF {
            next = le + 2;
        } else {
            return Err(ParseError::BadRequest);
        }
        if colon >= le || colon == i {
            return Err(ParseError::BadRequest);
        }
        let vs = skip_ws_from(s, colon + 1, le);
        let ve = trim_back_from(s, vs, le);
        let pair = (Slice { start: i, end: colon }, Slice { start: vs, end: ve });
        proof {
            lemma_pairs_view_push(acc@, pair);
            lemma_join_headers(pairs_view(acc@), (pair.0@, pair.1@), parse_headers(s@, next as int));
        }
        acc.push(pair);
        i = next;
    }
}

pub open spec fn is_digit(b: u8) -> bool {
    48 <= b <= 57
}

pub open spec fn all_digits(v: Seq<u8>) -> bool {
    v.len() > 0 && forall|i: int| 0 <= i < v.len() ==> is_digit(#[trigger] v[i])
}

/// The number that a string of decimal digits spells.
pub open spec fn decimal_value(v: Seq<u8>) -> nat
    decreases v.len(),
{
    if v.len() == 0 {
        0
    } else {
        decimal_value(v.drop_last()) * 10 + (v.last() - 48) as nat
    }
}

pub open spec fn min(a: int, b: int) -> int {
    if a <= b {
        a
    } else {
        b
    }
}

/// The decimal number in `s[start..end]`, capped at `cap`, or `None` when
/// it is not a decimal number.
fn capped_decimal(s: &[u8], start: usize, end: usize, cap: usize) -> (r: Option<usize>)
    requires
        start <= end <= s@.len(),
        cap <= 1_000_000,
    ensures
        r is Some <==> all_digits(s@.subrange(start as int, end as int)),
        r matches Some(n) ==> n == min(
            decimal_value(s@.subrange(start as int, end as int)) as int,
            cap as int,
        ),
{
    if start == end {
        return None;
    }
    let ghost v = s@.subrange(start as int, end as int);
    let mut acc: usize = 0;
    let mut i: usize = start;
    while i < end
        invariant
            start <= i <= end <= s@.len(),
            v == s@.subrange(start as int, end as int),
            acc as int == min(decimal_value(s@.subrange(start as int, i as int)) as int, cap as int),
            cap <= 1_000_000,
            forall|k: int| start <= k < i ==> is_digit(s@[k]),
        decreases end - i,
    {
        let b = s[i];
        if b < 48 || b > 57 {
            assert(v[i - start] == b);
            return None;
        }
        let ghost prev = s@.subrange(start as int, i as int);
        let ghost next = s@.subrange(start as int, i as int + 1);
        assert(next.drop_last() =~= prev);
        let d = (b - 48) as usize;
        if acc >= cap {
            assert(decimal_value(next) >= decimal_value(prev)) by (nonlinear_arith)
                requires
                    decimal_value(next) == decimal_value(prev) * 10 + d,
            ;
            acc = cap;
        } else {
            let t = acc * 10 + d;
            if t > cap {
                acc = cap;
            } else {
                acc = t;
            }
        }
        i = i + 1;
    }
    assert forall|k: int| 0 <= k < v.len() implies is_digit(#[trigger] v[k]) by {
        assert(v[k] == s@[k + start]);
    }
    Some(acc)
}

/// How many body bytes a request with this head carries: the declared
/// `Content-Length` capped at the limit; when that header is not a number,
/// whatever followed the header block, capped the same way; none without it.
pub open spec fn payload_size(s: Seq<u8>, h: Head) -> int {
    match header_value(s, h.headers, ascii("Content-Length"@)) {
        None => 0,
        Some(v) => if all_digits(v) {
            min(decimal_value(v) as int, PAYLOAD_LIMIT as int)
        } else {
            min(s.len() - h.body_start, PAYLOAD_LIMIT as int)
        },
    }
}

/// Whether the first `Content-Length` header is a number over the limit;
/// the body is then cut at the limit.
pub open spec fn declared_over_limit(s: Seq<u8>, h: Head) -> bool {
    header_value(s, h.headers, ascii("Content-Length"@)) matches Some(v) && all_digits(v) && decimal_value(v)
        > PAYLOAD_LIMIT
}

/// The declared content type; `Text` when none is declared.
pub open spec fn content_type_in(s: Seq<u8>, h: Head) -> ContentTypeView {
    match header_value(s, h.headers, ascii("Content-Type"@)) {
        None => ContentTypeView::Text,
        Some(v) => content_type_of(v),
    }
}

/// How many body bytes arrived with the head.
pub open spec fn taken_of(s: Seq<u8>, h: Head) -> int {
    let n = payload_size(s, h);
    if n == 0 {
        0
    } else {
        min(n, s.len() - h.body_start)
    }
}

/// The part of the body that arrived with the head.
pub open spec fn payload_of(s: Seq<u8>, h: Head) -> Option<(ContentTypeView, Seq<u8>)> {
    let n = payload_size(s, h);
    if n == 0 {
        None
    } else {
        Some(
            (
                content_type_in(s, h),
                s.subrange(h.body_start, h.body_start + min(n, s.len() - h.body_start)),
            ),
        )
    }
}

fn first_key(s: &[u8], ps: &Vec<(Slice, Slice)>, name: &[u8]) -> (r: Option<usize>)
    requires
        pairs_within(pairs_view(ps@), s@.len() as int),
    ensures
        match r {
            Some(k) => first_key_from(s@, pairs_view(ps@), name@, 0) == Some(k as int) && k
                < ps@.len(),
            None => first_key_from(s@, pairs_view(ps@), name@, 0) is None,
        },
{
    let ghost pv = pairs_view(ps@);
    let mut k: usize = 0;
    while k < ps.len()
        invariant
            k <= ps@.len(),
            pv == pairs_view(ps@),
            pairs_within(pv, s@.len() as int),
            first_key_from(s@, pv, name@, 0) == first_key_from(s@, pv, name@, k as int),
        decreases ps@.len() - k,
    {
        let (key, _) = ps[k];
        assert(pv[k as int] == (ps@[k as int].0@, ps@[k as int].1@));
        if range_eq_ignore_case(s, key.start, key.end, name) {
            return Some(k);
        }
        k = k + 1;
    }
    None
}

/// A request: the bytes of its start line and headers, the ranges that the
/// parser found in them, and its body.
pub struct Request {
    metadata: Vec<u8>,
    method: Method,
    path: Slice,
    queries: Vec<(Slice, Slice)>,
    headers: Vec<(Slice, Slice)>,
    body_start: usize,
    /// Meaningful only when `payload_size` is not 0.
    content_type: ContentType,
    body: Vec<u8>,
    payload_size: usize,
    /// How many body bytes came in the parsed buffer.
    taken: usize,
    /// Whether the declared `Content-Length` was over the payload limit.
    too_large: bool,
}

impl Request {
    #[verifier::type_invariant]
    spec fn inv(&self) -> bool {
        &&& pairs_within(pairs_view(self.queries@), self.metadata@.len() as int)
        &&& pairs_within(pairs_view(self.headers@), self.metadata@.len() as int)
        &&& self.path.start <= self.path.end <= self.metadata@.len()
        &&& self.queries@.len() <= QUERIES_LIMIT
        &&& self.headers@.len() <= HEADERS_LIMIT
        &&& self.payload_size <= PAYLOAD_LIMIT
        &&& self.body@.len() <= self.payload_size
        &&& self.body_start + self.taken <= self.metadata@.len()
    }

    /// The bytes the request was parsed from.
    pub closed spec fn bytes(&self) -> Seq<u8> {
        self.metadata@
    }

    pub closed spec fn head(&self) -> Head {
        Head {
            method: self.method,
            path: self.path@,
            queries: pairs_view(self.queries@),
            headers: pairs_view(self.headers@),
            body_start: self.body_start as int,
        }
    }

    /// The content type and the body bytes received so far.
    pub closed spec fn payload_view(&self) -> Option<(ContentTypeView, Seq<u8>)> {
        if self.payload_size == 0 {
            None
        } else {
            Some((self.content_type@, self.body@))
        }
    }

    /// Whether the request declared more body than the limit.
    pub closed spec fn over_limit(&self) -> bool {
        self.too_large
    }

    /// How many body bytes came in the parsed buffer.
    pub closed spec fn taken(&self) -> int {
        self.taken as int
    }

    /// How many body bytes the request carries in all.
    pub closed spec fn payload_len(&self) -> int {
        self.payload_size as int
    }

    /// Parses the start line, the header block and what arrived of the body.
    pub fn parse(buf: Vec<u8>) -> (r: Result<Request, ParseError>)
        ensures
            match r {
                Ok(req) => parse_head(buf@) == Ok::<Head, ParseError>(req.head()) && req.bytes()
                    == buf@ && req.payload_view() == payload_of(buf@, req.head())
                    && req.payload_len() == payload_size(buf@, req.head())
                    && req.taken() == taken_of(buf@, req.head())
                    && req.over_limit() == declared_over_limit(buf@, req.head()),
                Err(e) => parse_head(buf@) == Err::<Head, ParseError>(e),
            },
    {
        let s = buf.as_slice();
        let e = find2_from(s, 0, CR, CR);
        let sp1 = find2_from(s, 0, SP, SP);
        proof {
            lemma_find2(s@, 0, CR, CR);
            lemma_find2(s@, 0, SP, SP);
        }
        if !(e < s.len() && e + 1 < s.len() && s[e + 1] == LF) || sp1 >= e {
            return Err(ParseError::BadRequest);
        }
        let t_end = find2_from(s, sp1 + 1, SP, SP);
        let q = find2_from(s, sp1 + 1, QUESTION, SP);
        proof {
            lemma_find2(s@, sp1 + 1, SP, SP);
            lemma_find2(s@, sp1 + 1, QUESTION, SP);
        }
        let m = Method::from_bytes(copy_range(s, 0, sp1).as_slice());
        if m.is_none() || t_end >= e {
            return Err(ParseError::BadRequest);
        }
        let method = m.unwrap();
        proof {
            reveal_strlit("HTTP/1.1");
            lemma_ascii_bytes("HTTP/1.1");
        }
        if !range_eq(s, t_end + 1, e, "HTTP/1.1".as_bytes()) {
            return Err(ParseError::HTTPVersionNotSupported);
        }
        let queries = if q < t_end {
            match parse_queries_exec(s, q + 1, t_end) {
                Ok(v) => v,
                Err(x) => {
                    return Err(x);
                },
            }
        } else {
            let empty: Vec<(Slice, Slice)> = Vec::new();
            assert(pairs_view(empty@) =~= Seq::<Pair>::empty());
            empty
        };
        if queries.len() > QUERIES_LIMIT {
            return Err(ParseError::BadRequest);
        }
        let (headers, body_start) = match parse_headers_exec(s, e + 2) {
            Ok(hb) => hb,
            Err(x) => {
                return Err(x);
            },
        };
        if headers.len() > HEADERS_LIMIT {
            return Err(ParseError::BadRequest);
        }
        let path = Slice { start: sp1 + 1, end: q };
        let ghost head = Head {
            method,
            path: path@,
            queries: pairs_view(queries@),
            headers: pairs_view(headers@),
            body_start: body_start as int,
        };
        assert(parse_head(s@) == Ok::<Head, ParseError>(head));
        proof {
            reveal_strlit("Content-Length");
            lemma_ascii_bytes("Content-Length");
            reveal_strlit("Content-Type");
            lemma_ascii_bytes("Content-Type");
        }
        let mut too_large = false;
        let size: usize = match first_key(s, &headers, "Content-Length".as_bytes()) {
            None => 0,
            Some(k) => {
                let v = headers[k].1;
                assert(pairs_view(headers@)[k as int] == (headers@[k as int].0@, headers@[k as int].1@));
                match capped_decimal(s, v.start, v.end, PAYLOAD_LIMIT + 1) {
                    Some(n) => {
                        too_large = n > PAYLOAD_LIMIT;
                        if too_large {
                            PAYLOAD_LIMIT
                        } else {
                            n
                        }
                    },
                    None => if s.len() - body_start > PAYLOAD_LIMIT {
                        PAYLOAD_LIMIT
                    } else {
                        s.len() - body_start
                    },
                }
            },
        };
        assert(size as int == payload_size(s@, head));
        assert(too_large == declared_over_limit(s@, head));
        let (content_type, body, taken) = if size == 0 {
            (ContentType::Text, Vec::new(), 0)
        } else {
            let ct = match first_key(s, &headers, "Content-Type".as_bytes()) {
                None => ContentType::Text,
                Some(k) => {
                    let v = headers[k].1;
                    assert(pairs_view(headers@)[k as int] == (headers@[k as int].0@, headers@[k as int].1@));
                    ContentType::from_bytes(copy_range(s, v.start, v.end).as_slice())
                },
            };
            assert(ct@ == content_type_in(s@, head));
            let avail = s.len() - body_start;
            let take = if size < avail {
                size
            } else {
                avail
            };
            (ct, copy_range(s, body_start, body_start + take), take)
        };
        let req = Request {
            metadata: buf,
            method,
            path,
            queries,
            headers,
            body_start,
            content_type,
            body,
            payload_size: size,
            taken,
            too_large,
        };
        assert(req.head() == head);
        Ok(req)
    }
}

/// The index of the first pair whose key, once percent-decoded, is `name` up
/// to ASCII case, from `k` on.
pub open spec fn first_decoded_key_from(s: Seq<u8>, ps: Seq<Pair>, name: Seq<u8>, k: int) -> Option<
    int,
>
    decreases ps.len() - k,
{
    if k >= ps.len() {
        None
    } else if eq_ignore_case(pct_decode(range_of(s, ps[k].0)), name) {
        Some(k)
    } else {
        first_decoded_key_from(s, ps, name, k + 1)
    }
}

impl Request {
    pub fn method(&self) -> (r: Method)
        ensures
            r == self.head().method,
    {
        self.method
    }

    /// The path, percent-decoded.
    pub fn path(&self) -> (r: String)
        ensures
            r@ == utf8_lossy(pct_decode(range_of(self.bytes(), self.head().path))),
            valid_utf8(pct_decode(range_of(self.bytes(), self.head().path))) ==> r@ == decode_utf8(
                pct_decode(range_of(self.bytes(), self.head().path)),
            ),
    {
        proof {
            use_type_invariant(self);
        }
        let raw = copy_range(self.metadata.as_slice(), self.path.start, self.path.end);
        let decoded = percent_decoded(raw.as_slice());
        lossy_string(decoded.as_slice())
    }

    /// The value of the first query parameter named `key` (up to ASCII case),
    /// both percent-decoded.
    pub fn query(&self, key: &str) -> (r: Option<String>)
        ensures
            match first_decoded_key_from(self.bytes(), self.head().queries, key.spec_bytes(), 0) {
                Some(k) => r matches Some(v) && v@ == utf8_lossy(
                    pct_decode(range_of(self.bytes(), self.head().queries[k].1)),
                ) && (valid_utf8(pct_decode(range_of(self.bytes(), self.head().queries[k].1))) ==> v@
                    == decode_utf8(pct_decode(range_of(self.bytes(), self.head().queries[k].1)))),
                None => r is None,
            },
    {
        proof {
            use_type_invariant(self);
        }
        let ghost pv = pairs_view(self.queries@);
        let s = self.metadata.as_slice();
        let name = key.as_bytes();
        let mut k: usize = 0;
        while k < self.queries.len()
            invariant
                k <= self.queries@.len(),
                pv == pairs_view(self.queries@),
                pairs_within(pv, s@.len() as int),
                s@ == self.bytes(),
                name@ == key.spec_bytes(),
                first_decoded_key_from(s@, pv, name@, 0) == first_decoded_key_from(
                    s@,
                    pv,
                    name@,
                    k as int,
                ),
            decreases self.queries@.len() - k,
        {
            let (kr, vr) = self.queries[k];
            assert(pv[k as int] == (kr@, vr@));
            let raw_key = copy_range(s, kr.start, kr.end);
            let dk = percent_decoded(raw_key.as_slice());
            if range_eq_ignore_case(dk.as_slice(), 0, dk.len(), name) {
                assert(dk@.subrange(0, dk@.len() as int) =~= dk@);
                let raw = copy_range(s, vr.start, vr.end);
                let decoded = percent_decoded(raw.as_slice());
                return Some(lossy_string(decoded.as_slice()));
            }
            assert(dk@.subrange(0, dk@.len() as int) =~= dk@);
            k = k + 1;
        }
        None
    }

    /// The value of the first header named `key` (up to ASCII case).
    pub fn header(&self, key: &str) -> (r: Option<String>)
        ensures
            match header_value(self.bytes(), self.head().headers, key.spec_bytes()) {
                Some(v) => r matches Some(t) && t@ == utf8_lossy(v) && (valid_utf8(v) ==> t@ == decode_utf8(v)),
                None => r is None,
            },
    {
        proof {
            use_type_invariant(self);
        }
        let s = self.metadata.as_slice();
        match first_key(s, &self.headers, key.as_bytes()) {
            None => None,
            Some(k) => {
                let v = self.headers[k].1;
                assert(pairs_view(self.headers@)[k as int] == (
                    self.headers@[k as int].0@,
                    self.headers@[k as int].1@,
                ));
                let raw = copy_range(s, v.start, v.end);
                Some(lossy_string(raw.as_slice()))
            },
        }
    }

    /// Whether the declared body was over the limit and got cut there.
    pub fn payload_too_large(&self) -> (r: bool)
        ensures
            r == self.over_limit(),
    {
        self.too_large
    }

    /// The path as it arrived, not decoded.
    pub fn path_bytes(&self) -> (r: Vec<u8>)
        ensures
            r@ == range_of(self.bytes(), self.head().path),
    {
        proof {
            use_type_invariant(self);
        }
        copy_range(self.metadata.as_slice(), self.path.start, self.path.end)
    }

    /// The raw value of the first header named `key` (up to ASCII case).
    pub fn header_bytes(&self, key: &[u8]) -> (r: Option<Vec<u8>>)
        ensures
            match header_value(self.bytes(), self.head().headers, key@) {
                Some(v) => r matches Some(t) && t@ == v,
                None => r is None,
            },
    {
        proof {
            use_type_invariant(self);
        }
        let s = self.metadata.as_slice();
        match first_key(s, &self.headers, key) {
            None => None,
            Some(k) => {
                let v = self.headers[k].1;
                assert(pairs_view(self.headers@)[k as int] == (
                    self.headers@[k as int].0@,
                    self.headers@[k as int].1@,
                ));
                Some(copy_range(s, v.start, v.end))
            },
        }
    }

    /// How many bytes of the buffer this request took: its head and the
    /// body bytes that came with it. What follows belongs to the next request.
    pub fn consumed(&self) -> (r: usize)
        ensures
            r == self.head().body_start + self.taken(),
    {
        proof {
            use_type_invariant(self);
        }
        let n = self.metadata.len();
        assert(self.body_start + self.taken <= n);
        self.body_start + self.taken
    }

    /// The content type and the body bytes received so far.
    pub fn payload(&self) -> (r: Option<(&ContentType, &[u8])>)
        ensures
            match self.payload_view() {
                Some((ct, body)) => r matches Some((c, b)) && c@ == ct && b@ == body,
                None => r is None,
            },
    {
        if self.payload_size == 0 {
            None
        } else {
            Some((&self.content_type, self.body.as_slice()))
        }
    }

    /// How many body bytes are still to be read.
    pub fn missing_payload(&self) -> (r: usize)
        ensures
            r == self.payload_len() - match self.payload_view() {
                Some((_, body)) => body.len() as int,
                None => 0,
            },
    {
        proof {
            use_type_invariant(self);
        }
        self.payload_size - self.body.len()
    }

    /// Adds body bytes read after the head.
    pub fn fill_payload(&mut self, more: &[u8])
        requires
            old(self).payload_view() is Some,
            more@.len() <= old(self).payload_len() - old(self).payload_view()->Some_0.1.len(),
        ensures
            final(self).payload_view() == Some((
                old(self).payload_view()->Some_0.0,
                old(self).payload_view()->Some_0.1 + more@,
            )),
            final(self).bytes() == old(self).bytes(),
            final(self).head() == old(self).head(),
            final(self).payload_len() == old(self).payload_len(),
            final(self).taken() == old(self).taken(),
            final(self).over_limit() == old(self).over_limit(),
    {
        proof {
            use_type_invariant(&*self);
        }
        let mut body = self.body.clone();
        extend_bytes(&mut body, more);
        self.body = body;
    }
}

/// The value of the first `key=value` pair of a URL-encoded form whose key,
/// percent-decoded, is `key` up to ASCII case; the value percent-decoded.
pub fn form_value(body: &[u8], key: &str) -> (r: Option<String>)
    ensures
        match parse_queries(body@, 0, body@.len() as int) {
            Ok(ps) => match first_decoded_key_from(body@, ps, key.spec_bytes(), 0) {
                Some(k) => r matches Some(v) && v@ == utf8_lossy(pct_decode(range_of(body@, ps[k].1))) && (valid_utf8(
                    pct_decode(range_of(body@, ps[k].1)),
                ) ==> v@ == decode_utf8(pct_decode(range_of(body@, ps[k].1)))),
                None => r is None,
            },
            Err(_) => r is None,
        },
{
    let pairs = match parse_queries_exec(body, 0, body.len()) {
        Ok(v) => v,
        Err(_) => {
            return None;
        },
    };
    let ghost pv = pairs_view(pairs@);
    let name = key.as_bytes();
    let mut k: usize = 0;
    while k < pairs.len()
        invariant
            k <= pairs@.len(),
            pv == pairs_view(pairs@),
            pairs_within(pv, body@.len() as int),
            name@ == key.spec_bytes(),
            parse_queries(body@, 0, body@.len() as int) == Ok::<Seq<Pair>, ParseError>(pv),
            first_decoded_key_from(body@, pv, name@, 0) == first_decoded_key_from(body@, pv, name@, k as int),
        decreases pairs@.len() - k,
    {
        let (kr, vr) = pairs[k];
        assert(pv[k as int] == (kr@, vr@));
        let raw_key = copy_range(body, kr.start, kr.end);
        let dk = percent_decoded(raw_key.as_slice());
        assert(dk@.subrange(0, dk@.len() as int) =~= dk@);
        if range_eq_ignore_case(dk.as_slice(), 0, dk.len(), name) {
            let raw = copy_range(body, vr.start, vr.end);
            let decoded = percent_decoded(raw.as_slice());
            return Some(lossy_string(decoded.as_slice()));
        }
        k = k + 1;
    }
    None
}

pub open spec fn crlf() -> Seq<u8> {
    seq![CR, LF]
}

/// Header lines `name: value` with line breaks, in order.
pub open spec fn header_lines(hs: Seq<(Seq<u8>, Seq<u8>)>) -> Seq<u8>
    decreases hs.len(),
{
    if hs.len() == 0 {
        Seq::empty()
    } else {
        hs[0].0 + seq![COLON, SP] + hs[0].1 + crlf() + header_lines(hs.drop_first())
    }
}

/// A request as a client writes it: start line, header lines, the empty
/// line, the body.
pub open spec fn request_bytes(m: Method, path: Seq<u8>, hs: Seq<(Seq<u8>, Seq<u8>)>, body: Seq<u8>) -> Seq<u8> {
    method_token(m) + seq![SP] + path + seq![SP] + ascii("HTTP/1.1"@) + crlf() + header_lines(hs) + crlf() + body
}

pub open spec fn byte_pairs(v: Seq<(Vec<u8>, Vec<u8>)>) -> Seq<(Seq<u8>, Seq<u8>)> {
    v.map_values(|p: (Vec<u8>, Vec<u8>)| (p.0@, p.1@))
}

proof fn lemma_header_lines_push(hs: Seq<(Seq<u8>, Seq<u8>)>, h: (Seq<u8>, Seq<u8>))
    ensures
        header_lines(hs.push(h)) == header_lines(hs) + h.0 + seq![COLON, SP] + h.1 + crlf(),
    decreases hs.len(),
{
    if hs.len() == 0 {
        let e = Seq::<(Seq<u8>, Seq<u8>)>::empty();
        assert(hs.push(h).drop_first() =~= e);
        assert(hs.push(h)[0] == h);
        assert(header_lines(e) == Seq::<u8>::empty());
        assert(header_lines(hs) == Seq::<u8>::empty());
        assert(header_lines(hs.push(h)) =~= header_lines(hs) + h.0 + seq![COLON, SP] + h.1 + crlf());
    } else {
        assert(hs.push(h).drop_first() =~= hs.drop_first().push(h));
        assert(hs.push(h)[0] == hs[0]);
        lemma_header_lines_push(hs.drop_first(), h);
        assert(header_lines(hs.push(h)) =~= header_lines(hs) + h.0 + seq![COLON, SP] + h.1 + crlf());
    }
}

/// An empty line (CR LF CR LF) starts at `i`.
pub open spec fn blank_line_at(s: Seq<u8>, i: int) -> bool {
    0 <= i && i + 4 <= s.len() && s[i] == CR && s[i + 1] == LF && s[i + 2] == CR && s[i + 3] == LF
}

/// Whether `s` holds the empty line that ends a header block.
pub fn head_complete(s: &[u8]) -> (r: bool)
    ensures
        r == exists|i: int| blank_line_at(s@, i),
{
    let mut i: usize = 0;
    while s.len() >= 4 && i <= s.len() - 4
        invariant
            forall|k: int| 0 <= k < i ==> !blank_line_at(s@, k),
        decreases s@.len() - i,
    {
        if s[i] == CR && s[i + 1] == LF && s[i + 2] == CR && s[i + 3] == LF {
            assert(blank_line_at(s@, i as int));
            return true;
        }
        i = i + 1;
    }
    assert forall|k: int| !blank_line_at(s@, k) by {
        if 0 <= k < i {
        }
    }
    false
}

/// Writes a request: start line, header lines, the empty line, the body.
pub fn write_request(m: Method, path: &[u8], headers: &Vec<(Vec<u8>, Vec<u8>)>, body: &[u8]) -> (r: Vec<u8>)
    ensures
        r@ == request_bytes(m, path@, byte_pairs(headers@), body@),
{
    let mut out: Vec<u8> = Vec::new();
    let name = m.as_str();
    proof {
        crate::method::lemma_method_name_len(m);
        lemma_method_token_bytes(m);
        reveal_strlit("HTTP/1.1");
        lemma_ascii_bytes("HTTP/1.1");
    }
    extend_bytes(&mut out, name.as_bytes());
    out.push(SP);
    extend_bytes(&mut out, path);
    out.push(SP);
    extend_bytes(&mut out, "HTTP/1.1".as_bytes());
    out.push(CR);
    out.push(LF);
    let ghost start = out@;
    let ghost hv = byte_pairs(headers@);
    let mut i: usize = 0;
    while i < headers.len()
        invariant
            i <= headers@.len(),
            hv == byte_pairs(headers@),
            out@ == start + header_lines(hv.subrange(0, i as int)),
        decreases headers@.len() - i,
    {
        proof {
            assert(hv.subrange(0, i as int + 1) =~= hv.subrange(0, i as int).push(hv[i as int]));
            lemma_header_lines_push(hv.subrange(0, i as int), hv[i as int]);
        }
        extend_bytes(&mut out, headers[i].0.as_slice());
        out.push(COLON);
        out.push(SP);
        extend_bytes(&mut out, headers[i].1.as_slice());
        out.push(CR);
        out.push(LF);
        assert(out@ =~= start + header_lines(hv.subrange(0, i as int + 1)));
        i = i + 1;
    }
    assert(hv.subrange(0, hv.len() as int) =~= hv);
    out.push(CR);
    out.push(LF);
    extend_bytes(&mut out, body);
    assert(out@ =~= request_bytes(m, path@, hv, body@));
    out
}

/// A path that a request line carries as it is: no space, CR or `?`.
pub open spec fn plain_path(p: Seq<u8>) -> bool {
    forall|i: int| 0 <= i < p.len() ==> p[i] != SP && p[i] != CR && p[i] != QUESTION
}

/// A header that a header line carries as it is: a non-empty name without
/// `:` or CR, a value without CR that does not start or end with a space
/// or tab.
pub open spec fn plain_header(h: (Seq<u8>, Seq<u8>)) -> bool {
    &&& h.0.len() > 0
    &&& forall|i: int| 0 <= i < h.0.len() ==> h.0[i] != COLON && h.0[i] != CR
    &&& forall|i: int| 0 <= i < h.1.len() ==> h.1[i] != CR
    &&& h.1.len() > 0 ==> !is_ws(h.1[0]) && !is_ws(h.1.last())
}

proof fn lemma_parse_lines(s: Seq<u8>, pos: int, hs: Seq<(Seq<u8>, Seq<u8>)>, rest: Seq<u8>)
    requires
        0 <= pos <= s.len(),
        s.subrange(pos, s.len() as int) == header_lines(hs) + crlf() + rest,
        forall|i: int| 0 <= i < hs.len() ==> plain_header(#[trigger] hs[i]),
    ensures
        parse_headers(s, pos) is Ok,
        parse_headers(s, pos)->Ok_0.0.len() == hs.len(),
        parse_headers(s, pos)->Ok_0.1 == s.len() - rest.len(),
        forall|i: int| 0 <= i < hs.len() ==> range_of(s, (#[trigger] parse_headers(s, pos)->Ok_0.0[i]).0) == hs[i].0
            && range_of(s, parse_headers(s, pos)->Ok_0.0[i].1) == hs[i].1,
    decreases hs.len(),
{
    let t = s.subrange(pos, s.len() as int);
    assert(forall|k: int| 0 <= k < t.len() ==> s[pos + k] == #[trigger] t[k]);
    if hs.len() == 0 {
        assert(header_lines(hs) =~= Seq::<u8>::empty());
        assert(t =~= crlf() + rest);
        assert(t[0] == CR && t[1] == LF);
        assert(s[pos] == CR && s[pos + 1] == LF);
        assert(parse_headers(s, pos) == Ok::<(Seq<Pair>, int), ParseError>((Seq::empty(), pos + 2)));
        assert(pos + 2 == s.len() - rest.len());
    } else {
        let name = hs[0].0;
        let value = hs[0].1;
        let tail = header_lines(hs.drop_first()) + crlf() + rest;
        assert(t =~= name + seq![COLON, SP] + value + crlf() + tail);
        let colon = pos + name.len();
        let le = colon + 2 + value.len();
        assert(plain_header(hs[0]));
        assert forall|k: int| pos <= k < colon implies s[k] != COLON && s[k] != CR by {
            assert(t[k - pos] == name[k - pos]);
        }
        assert(s[colon] == COLON) by {
            assert(t[name.len() as int] == COLON);
        }
        assert(s[colon + 1] == SP) by {
            assert(t[name.len() as int + 1] == SP);
        }
        assert forall|k: int| colon + 2 <= k < le implies s[k] == value[k - colon - 2] by {
            assert(t[k - pos] == value[k - colon - 2]);
        }
        assert(s[le] == CR && s[le + 1] == LF) by {
            assert(t[le - pos] == CR);
            assert(t[le - pos + 1] == LF);
        }
        assert(s[pos] != CR) by {
            assert(t[0] == name[0]);
        }
        lemma_find2_at(s, pos, colon, COLON, CR);
        assert forall|k: int| pos <= k < le implies s[k] != CR && s[k] != CR by {
            if k < colon {
            } else if k == colon {
            } else if k == colon + 1 {
            } else {
            }
        }
        lemma_find2_at(s, pos, le, CR, CR);
        assert(next_line(s, le) == le + 2);
        let vs = colon + 2;
        if value.len() == 0 {
            assert(skip_ws(s, colon + 1, le) == vs) by {
                reveal_with_fuel(skip_ws, 3);
            }
            assert(trim_back(s, vs, le) == le);
        } else {
            assert(s[vs] == value[0]);
            assert(skip_ws(s, colon + 1, le) == vs) by {
                reveal_with_fuel(skip_ws, 3);
            }
            assert(s[le - 1] == value.last());
            assert(trim_back(s, vs, le) == le);
        }
        assert forall|k: int| 0 <= k < tail.len() implies s.subrange(le + 2, s.len() as int)[k] == tail[k] by {
            assert(t[le + 2 - pos + k] == tail[k]);
        }
        assert(s.subrange(le + 2, s.len() as int) =~= tail);
        assert forall|i: int| 0 <= i < hs.drop_first().len() implies plain_header(#[trigger] hs.drop_first()[i]) by {
            assert(hs.drop_first()[i] == hs[i + 1]);
        }
        lemma_parse_lines(s, le + 2, hs.drop_first(), rest);
        let rs_tail = parse_headers(s, le + 2)->Ok_0.0;
        let rs = seq![((pos, colon), (vs, le))] + rs_tail;
        assert(pos < s.len());
        assert(find2(s, pos, CR, CR) == le);
        assert(find2(s, pos, COLON, CR) == colon);
        assert(skip_ws(s, colon + 1, le) == vs);
        assert(trim_back(s, vs, le) == le);
        assert(parse_headers(s, pos) == join_headers(seq![((pos, colon), (vs, le))], parse_headers(s, le + 2)));
        assert(s.subrange(pos, colon) =~= name);
        assert(s.subrange(vs, le) =~= value);
        assert forall|i: int| 0 <= i < hs.len() implies range_of(s, #[trigger] rs[i].0) == hs[i].0 && range_of(s, rs[i].1) == hs[i].1 by {
            if i > 0 {
                assert(rs[i] == rs_tail[i - 1]);
                assert(hs[i] == hs.drop_first()[i - 1]);
            }
        }
        assert(parse_headers(s, pos) == Ok::<(Seq<Pair>, int), ParseError>((rs, s.len() - rest.len())));
    }
}

proof fn lemma_token_plain(m: Method)
    ensures
        forall|i: int| 0 <= i < method_token(m).len() ==> 65 <= #[trigger] method_token(m)[i] <= 90,
        method_token(m).len() > 0,
{
}

proof fn lemma_version_bytes()
    ensures
        ascii("HTTP/1.1"@) == seq![72u8, 84, 84, 80, 47, 49, 46, 49],
{
    reveal_strlit("HTTP/1.1");
    assert(ascii("HTTP/1.1"@) =~= seq![72u8, 84, 84, 80, 47, 49, 46, 49]);
}

/// Where the parts of a request line lie in `s`.
proof fn lemma_request_line(s: Seq<u8>, tok: Seq<u8>, path: Seq<u8>, rest: Seq<u8>)
    requires
        s == tok + seq![SP] + path + seq![SP] + seq![72u8, 84, 84, 80, 47, 49, 46, 49] + crlf() + rest,
        forall|i: int| 0 <= i < tok.len() ==> 65 <= #[trigger] tok[i] <= 90,
        plain_path(path),
    ensures
        find2(s, 0, SP, SP) == tok.len(),
        find2(s, 0, CR, CR) == tok.len() + path.len() + 10,
        find2(s, tok.len() as int + 1, SP, SP) == tok.len() as int + 1 + path.len() as int,
        find2(s, tok.len() as int + 1, QUESTION, SP) == tok.len() as int + 1 + path.len() as int,
        s[tok.len() as int + path.len() as int + 11] == LF,
        s.subrange(0, tok.len() as int) == tok,
        s.subrange(tok.len() as int + 1, tok.len() as int + 1 + path.len() as int) == path,
        s.subrange(tok.len() as int + path.len() as int + 2, tok.len() as int + path.len() as int + 10) == seq![72u8, 84, 84, 80, 47, 49, 46, 49],
        s.subrange(tok.len() as int + path.len() as int + 12, s.len() as int) == rest,
{
    let v = seq![72u8, 84, 84, 80, 47, 49, 46, 49];
    let a = tok.len() as int;
    let t_end = a + 1 + path.len();
    let e = t_end + 9;
    assert forall|k: int| 0 <= k < a implies s[k] == tok[k] by {}
    assert(s[a] == SP);
    assert forall|k: int| a + 1 <= k < t_end implies s[k] == path[k - a - 1] by {}
    assert(s[t_end] == SP);
    assert forall|k: int| t_end + 1 <= k < e implies s[k] == v[k - t_end - 1] by {}
    assert(s[e] == CR && s[e + 1] == LF);
    assert(s.subrange(0, a) =~= tok);
    assert(s.subrange(a + 1, t_end) =~= path);
    assert(s.subrange(t_end + 1, e) =~= v);
    assert(s.subrange(e + 2, s.len() as int) =~= rest);
    lemma_find2_at(s, 0, a, SP, SP);
    assert forall|k: int| 0 <= k < e implies s[k] != CR && s[k] != CR by {
        if a + 1 <= k < t_end {
            assert(path[k - a - 1] != CR);
        } else if t_end + 1 <= k < e {
            assert(v[k - t_end - 1] != CR);
        }
    }
    lemma_find2_at(s, 0, e, CR, CR);
    assert forall|k: int| a + 1 <= k < t_end implies s[k] != SP && s[k] != QUESTION by {
        assert(path[k - a - 1] != SP && path[k - a - 1] != QUESTION);
    }
    lemma_find2_at(s, a + 1, t_end, SP, SP);
    lemma_find2_at(s, a + 1, t_end, QUESTION, SP);
}

/// Request parser round trip: the bytes of a request written from a method,
/// a path without space, CR or `?`, headers whose names and values a header
/// line carries as they are (at most the list's capacity), and a body parse
/// back to that method, that path, no query, those headers in their order,
/// and the body right after the header block.
#[verifier::rlimit(40)]
pub proof fn law_parse_round_trip(m: Method, path: Seq<u8>, hs: Seq<(Seq<u8>, Seq<u8>)>, body: Seq<u8>)
    requires
        plain_path(path),
        hs.len() <= HEADERS_LIMIT,
        forall|i: int| 0 <= i < hs.len() ==> plain_header(#[trigger] hs[i]),
    ensures
        parse_head(request_bytes(m, path, hs, body)) is Ok,
        parse_head(request_bytes(m, path, hs, body))->Ok_0.method == m,
        range_of(request_bytes(m, path, hs, body), parse_head(request_bytes(m, path, hs, body))->Ok_0.path) == path,
        parse_head(request_bytes(m, path, hs, body))->Ok_0.queries.len() == 0,
        parse_head(request_bytes(m, path, hs, body))->Ok_0.headers.len() == hs.len(),
        forall|i: int| 0 <= i < hs.len() ==> range_of(
            request_bytes(m, path, hs, body),
            (#[trigger] parse_head(request_bytes(m, path, hs, body))->Ok_0.headers[i]).0,
        ) == hs[i].0 && range_of(
            request_bytes(m, path, hs, body),
            parse_head(request_bytes(m, path, hs, body))->Ok_0.headers[i].1,
        ) == hs[i].1,
        request_bytes(m, path, hs, body).subrange(
            parse_head(request_bytes(m, path, hs, body))->Ok_0.body_start,
            request_bytes(m, path, hs, body).len() as int,
        ) == body,
        parse_head(request_bytes(m, path, hs, body))->Ok_0.body_start == request_bytes(m, path, hs, body).len()
            - body.len(),
{
    let s = request_bytes(m, path, hs, body);
    let tok = method_token(m);
    let rest = header_lines(hs) + crlf() + body;
    lemma_token_plain(m);
    lemma_version_bytes();
    lemma_method_token_roundtrip(m);
    assert(s =~= tok + seq![SP] + path + seq![SP] + seq![72u8, 84, 84, 80, 47, 49, 46, 49] + crlf() + rest);
    lemma_request_line(s, tok, path, rest);
    let e = tok.len() as int + path.len() as int + 10;
    lemma_parse_lines(s, e + 2, hs, body);
    assert(s.subrange(s.len() - body.len(), s.len() as int) =~= body);
}

/// The index of the first header in `hs`, from `k` on, named `name` up to
/// ASCII case.
pub open spec fn first_named_from(hs: Seq<(Seq<u8>, Seq<u8>)>, name: Seq<u8>, k: int) -> Option<int>
    decreases hs.len() - k,
{
    if k >= hs.len() {
        None
    } else if eq_ignore_case(hs[k].0, name) {
        Some(k)
    } else {
        first_named_from(hs, name, k + 1)
    }
}

proof fn lemma_first_named(hs: Seq<(Seq<u8>, Seq<u8>)>, name: Seq<u8>, k: int)
    requires
        0 <= k,
    ensures
        first_named_from(hs, name, k) matches Some(j) ==> k <= j < hs.len(),
    decreases hs.len() - k,
{
    if k < hs.len() {
        lemma_first_named(hs, name, k + 1);
    }
}

proof fn lemma_first_key_matches(s: Seq<u8>, rs: Seq<Pair>, hs: Seq<(Seq<u8>, Seq<u8>)>, name: Seq<u8>, k: int)
    requires
        rs.len() == hs.len(),
        forall|i: int| 0 <= i < hs.len() ==> range_of(s, (#[trigger] rs[i]).0) == hs[i].0,
        0 <= k,
    ensures
        first_key_from(s, rs, name, k) == first_named_from(hs, name, k),
    decreases hs.len() - k,
{
    if k < hs.len() {
        assert(range_of(s, rs[k].0) == hs[k].0);
        lemma_first_key_matches(s, rs, hs, name, k + 1);
    }
}

proof fn lemma_decimal_value(n: nat)
    ensures
        all_digits(crate::num::decimal(n)),
        decimal_value(crate::num::decimal(n)) == n,
    decreases n,
{
    let d = crate::num::decimal(n);
    assert(n % 10 < 10);
    assert(d.last() == (48 + n % 10) as u8);
    assert((d.last() - 48) as nat == n % 10);
    if n >= 10 {
        lemma_decimal_value(n / 10);
        let p = crate::num::decimal(n / 10);
        assert(d.drop_last() =~= p);
        assert(n == (n / 10) * 10 + n % 10);
        assert(decimal_value(d) == decimal_value(d.drop_last()) * 10 + (d.last() - 48) as nat);
        assert forall|i: int| 0 <= i < d.len() implies is_digit(#[trigger] d[i]) by {
            if i < p.len() {
                assert(d[i] == p[i]);
            }
        }
    } else {
        assert(d.drop_last() =~= Seq::<u8>::empty());
        assert(decimal_value(d.drop_last()) == 0);
        assert(decimal_value(d) == decimal_value(d.drop_last()) * 10 + (d.last() - 48) as nat);
    }
}

/// The body too comes back: when the first `Content-Length` header of such a
/// request gives the body's length in decimal, and the body is not empty
/// and within the payload limit, the parsed payload is exactly the body.
pub proof fn law_parse_round_trip_body(m: Method, path: Seq<u8>, hs: Seq<(Seq<u8>, Seq<u8>)>, body: Seq<u8>)
    requires
        plain_path(path),
        hs.len() <= HEADERS_LIMIT,
        forall|i: int| 0 <= i < hs.len() ==> plain_header(#[trigger] hs[i]),
        first_named_from(hs, ascii("Content-Length"@), 0) matches Some(j) && hs[j].1 == crate::num::decimal(body.len()),
        0 < body.len() <= PAYLOAD_LIMIT,
    ensures
        payload_of(request_bytes(m, path, hs, body), parse_head(request_bytes(m, path, hs, body))->Ok_0) matches Some((_, b))
            && b == body,
{
    law_parse_round_trip(m, path, hs, body);
    let s = request_bytes(m, path, hs, body);
    let h = parse_head(s)->Ok_0;
    lemma_first_key_matches(s, h.headers, hs, ascii("Content-Length"@), 0);
    let j = first_named_from(hs, ascii("Content-Length"@), 0)->Some_0;
    lemma_first_named(hs, ascii("Content-Length"@), 0);
    assert(range_of(s, h.headers[j].1) == hs[j].1);
    lemma_decimal_value(body.len());
    assert(payload_size(s, h) == body.len());
    assert(s.len() - h.body_start == body.len());
}

/// Back-to-back requests separate where the first ends: when a request
/// written as above is followed by other bytes on the connection, and its
/// body is announced by its first `Content-Length` header (or it has neither
/// body nor such a header), the parser takes exactly the first request's
/// bytes, and what is left is what followed.
pub proof fn law_back_to_back(m: Method, path: Seq<u8>, hs: Seq<(Seq<u8>, Seq<u8>)>, body: Seq<u8>, next: Seq<u8>)
    requires
        plain_path(path),
        hs.len() <= HEADERS_LIMIT,
        forall|i: int| 0 <= i < hs.len() ==> plain_header(#[trigger] hs[i]),
        (first_named_from(hs, ascii("Content-Length"@), 0) is None && body.len() == 0) || (
        first_named_from(hs, ascii("Content-Length"@), 0) matches Some(j) && hs[j].1 == crate::num::decimal(body.len())
            && 0 < body.len() <= PAYLOAD_LIMIT),
    ensures
        parse_head(request_bytes(m, path, hs, body) + next) is Ok,
        parse_head(request_bytes(m, path, hs, body) + next)->Ok_0.body_start + taken_of(
            request_bytes(m, path, hs, body) + next,
            parse_head(request_bytes(m, path, hs, body) + next)->Ok_0,
        ) == request_bytes(m, path, hs, body).len(),
{
    let s = request_bytes(m, path, hs, body) + next;
    assert(s =~= request_bytes(m, path, hs, body + next));
    law_parse_round_trip(m, path, hs, body + next);
    let h = parse_head(s)->Ok_0;
    lemma_first_key_matches(s, h.headers, hs, ascii("Content-Length"@), 0);
    lemma_first_named(hs, ascii("Content-Length"@), 0);
    match first_named_from(hs, ascii("Content-Length"@), 0) {
        None => {
            assert(payload_size(s, h) == 0);
        },
        Some(j) => {
            assert(range_of(s, h.headers[j].1) == hs[j].1);
            lemma_decimal_value(body.len());
            assert(payload_size(s, h) == body.len());
        },
    }
}

} // verus!
