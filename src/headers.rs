//! The response header table: a slot per standard header, a list of custom
//! headers, the `Set-Cookie` lines, and the exact byte size of all of it on
//! the wire.
use vstd::prelude::*;
use vstd::string::{StringExecFns, StringSliceAdditionalSpecFns};
use vstd::utf8::{encode_utf8, encode_utf8_decode_utf8};
use crate::bytes::{ascii, eq_bytes, extend_bytes, lemma_ascii_bytes, lemma_utf8_concat};
use crate::header::{
    header_at, header_bytes, header_index, header_name, lemma_header_at,
    Header, N_SERVER_HEADERS,
};

verus! {

pub open spec fn utf8(s: Seq<char>) -> Seq<u8> {
    encode_utf8(s)
}

/// `name: value` followed by a line break.
pub open spec fn header_line(name: Seq<u8>, value: Seq<u8>) -> Seq<u8> {
    name + seq![58u8, 32u8] + value + seq![13u8, 10u8]
}

/// Bytes of one `name: value` line, 0 when the value is absent.
pub open spec fn line_len(name: Seq<u8>, v: Option<Seq<char>>) -> int {
    match v {
        Some(t) => name.len() + 4 + utf8(t).len() as int,
        None => 0,
    }
}

/// The separator that joins appended values.
pub open spec fn list_sep() -> Seq<char> {
    seq![',', ' ']
}

/// A header's value after appending `v`: joined to what was there by `, `.
pub open spec fn appended(prev: Option<Seq<char>>, v: Seq<char>) -> Seq<char> {
    match prev {
        Some(p) => p + list_sep() + v,
        None => v,
    }
}

/// The value of one header slot.
#[derive(Clone, Debug)]
pub struct Value {
    inner: Option<String>,
}

impl View for Value {
    type V = Option<Seq<char>>;

    closed spec fn view(&self) -> Option<Seq<char>> {
        match &self.inner {
            Some(s) => Some(s@),
            None => None,
        }
    }
}

/// Bytes a value takes, 0 when absent.
pub open spec fn value_len(v: Option<Seq<char>>) -> int {
    match v {
        Some(s) => utf8(s).len() as int,
        None => 0,
    }
}

impl Value {
    pub fn none() -> (r: Value)
        ensures
            r@ is None,
    {
        Value { inner: None }
    }

    fn size(&self) -> (r: usize)
        ensures
            r == value_len(self@),
    {
        match &self.inner {
            None => 0,
            Some(v) => v.as_str().as_bytes().len(),
        }
    }

    pub fn as_str(&self) -> (r: &str)
        ensures
            r@ == match self@ {
                Some(s) => s,
                None => Seq::<char>::empty(),
            },
    {
        match &self.inner {
            Some(s) => s.as_str(),
            None => {
                proof {
                    reveal_strlit("");
                }
                ""
            },
        }
    }

    /// Adds `value`: joined to the current text by `, `, or set when there
    /// is none.
    pub fn append(&mut self, value: &str)
        ensures
            final(self)@ == Some(appended(old(self)@, value@)),
    {
        match &mut self.inner {
            None => {
                self.inner = Some(value.to_owned());
            },
            Some(v) => {
                proof {
                    lemma_sep_bytes();
                }
                v.append(", ");
                v.append(value);
            },
        }
    }

    pub fn replace(&mut self, new_value: &str)
        ensures
            final(self)@ == Some(new_value@),
    {
        self.inner = Some(new_value.to_owned());
    }
}

/// The lines of the standard headers that are present, in slot order.
pub open spec fn standard_part(vals: Seq<Option<Seq<char>>>) -> Seq<u8>
    decreases vals.len(),
{
    if vals.len() == 0 {
        Seq::empty()
    } else {
        standard_part(vals.drop_last()) + slot_line(vals.len() - 1, vals.last())
    }
}

pub open spec fn slot_line(i: int, v: Option<Seq<char>>) -> Seq<u8> {
    match v {
        Some(t) => header_line(header_bytes(header_at(i)), utf8(t)),
        None => Seq::empty(),
    }
}

/// The lines of the custom headers, in the order they were first set.
pub open spec fn custom_part(c: Seq<(Seq<char>, Seq<char>)>) -> Seq<u8>
    decreases c.len(),
{
    if c.len() == 0 {
        Seq::empty()
    } else {
        custom_part(c.drop_last()) + header_line(utf8(c.last().0), utf8(c.last().1))
    }
}

pub open spec fn set_cookie_name() -> Seq<u8> {
    ascii("Set-Cookie"@)
}

/// One `Set-Cookie` line per cookie, in the order they were added.
pub open spec fn cookie_part(c: Seq<Seq<char>>) -> Seq<u8>
    decreases c.len(),
{
    if c.len() == 0 {
        Seq::empty()
    } else {
        cookie_part(c.drop_last()) + header_line(set_cookie_name(), utf8(c.last()))
    }
}

/// The header block on the wire: standard headers, custom headers, cookies,
/// and the empty line that ends the block.
pub open spec fn wire_of(
    standard: Seq<Option<Seq<char>>>,
    custom: Seq<(Seq<char>, Seq<char>)>,
    cookies: Seq<Seq<char>>,
) -> Seq<u8> {
    standard_part(standard) + custom_part(custom) + cookie_part(cookies) + seq![13u8, 10u8]
}

pub open spec fn distinct_names(c: Seq<(Seq<char>, Seq<char>)>) -> bool {
    forall|i: int, j: int| 0 <= i < j < c.len() ==> (#[trigger] c[i]).0 != (#[trigger] c[j]).0
}

proof fn lemma_standard_update(vals: Seq<Option<Seq<char>>>, k: int, x: Option<Seq<char>>)
    requires
        0 <= k < vals.len(),
    ensures
        standard_part(vals.update(k, x)).len() == standard_part(vals).len() - slot_line(
            k,
            vals[k],
        ).len() + slot_line(k, x).len(),
    decreases vals.len(),
{
    let u = vals.update(k, x);
    if k == vals.len() - 1 {
        assert(u.drop_last() =~= vals.drop_last());
    } else {
        assert(u.drop_last() =~= vals.drop_last().update(k, x));
        lemma_standard_update(vals.drop_last(), k, x);
    }
}

proof fn lemma_custom_update(c: Seq<(Seq<char>, Seq<char>)>, k: int, x: (Seq<char>, Seq<char>))
    requires
        0 <= k < c.len(),
    ensures
        custom_part(c.update(k, x)).len() == custom_part(c).len() - header_line(
            utf8(c[k].0),
            utf8(c[k].1),
        ).len() + header_line(utf8(x.0), utf8(x.1)).len(),
    decreases c.len(),
{
    let u = c.update(k, x);
    if k == c.len() - 1 {
        assert(u.drop_last() =~= c.drop_last());
    } else {
        assert(u.drop_last() =~= c.drop_last().update(k, x));
        lemma_custom_update(c.drop_last(), k, x);
    }
}

proof fn lemma_custom_remove(c: Seq<(Seq<char>, Seq<char>)>, k: int)
    requires
        0 <= k < c.len(),
    ensures
        custom_part(c.remove(k)).len() == custom_part(c).len() - header_line(
            utf8(c[k].0),
            utf8(c[k].1),
        ).len(),
    decreases c.len(),
{
    let u = c.remove(k);
    if k == c.len() - 1 {
        assert(u =~= c.drop_last());
    } else {
        assert(u.drop_last() =~= c.drop_last().remove(k));
        assert(u.last() == c.last());
        lemma_custom_remove(c.drop_last(), k);
    }
}

proof fn lemma_custom_push(c: Seq<(Seq<char>, Seq<char>)>, x: (Seq<char>, Seq<char>))
    ensures
        custom_part(c.push(x)) == custom_part(c) + header_line(utf8(x.0), utf8(x.1)),
{
    assert(c.push(x).drop_last() =~= c);
}

proof fn lemma_cookie_push(c: Seq<Seq<char>>, x: Seq<char>)
    ensures
        cookie_part(c.push(x)) == cookie_part(c) + header_line(set_cookie_name(), utf8(x)),
{
    assert(c.push(x).drop_last() =~= c);
}

/// The response header table.
pub struct Headers {
    standard: Vec<Value>,
    custom: Vec<(String, String)>,
    setcookie: Vec<String>,
    size: usize,
}

impl Headers {
    pub closed spec fn standard_view(&self) -> Seq<Option<Seq<char>>> {
        self.standard@.map_values(|v: Value| v@)
    }

    pub closed spec fn custom_view(&self) -> Seq<(Seq<char>, Seq<char>)> {
        self.custom@.map_values(|p: (String, String)| (p.0@, p.1@))
    }

    pub closed spec fn cookies_view(&self) -> Seq<Seq<char>> {
        self.setcookie@.map_values(|s: String| s@)
    }

    /// The bytes this table writes.
    pub open spec fn wire(&self) -> Seq<u8> {
        wire_of(self.standard_view(), self.custom_view(), self.cookies_view())
    }

    /// The size the table keeps track of.
    pub closed spec fn tracked_size(&self) -> int {
        self.size as int
    }

    pub closed spec fn wf(&self) -> bool {
        &&& self.standard@.len() == N_SERVER_HEADERS
        &&& self.size == self.wire().len()
        &&& distinct_names(self.custom_view())
    }

    /// The value of a standard header.
    pub open spec fn value_of(&self, h: Header) -> Option<Seq<char>> {
        self.standard_view()[header_index(h)]
    }

    pub fn new() -> (r: Headers)
        ensures
            r.wf(),
            r.standard_view() == Seq::new(N_SERVER_HEADERS as nat, |i: int| None::<Seq<char>>),
            r.custom_view() == Seq::<(Seq<char>, Seq<char>)>::empty(),
            r.cookies_view() == Seq::<Seq<char>>::empty(),
            r.wire().len() == 2,
    {
        let mut standard: Vec<Value> = Vec::new();
        let mut i: usize = 0;
        while i < N_SERVER_HEADERS
            invariant
                i <= N_SERVER_HEADERS,
                standard@.len() == i,
                forall|k: int| 0 <= k < i ==> (#[trigger] standard@[k])@ is None,
            decreases N_SERVER_HEADERS - i,
        {
            standard.push(Value::none());
            i = i + 1;
        }
        let r = Headers { standard, custom: Vec::new(), setcookie: Vec::new(), size: 2 };
        proof {
            let sv = r.standard_view();
            assert(sv =~= Seq::new(N_SERVER_HEADERS as nat, |i: int| None::<Seq<char>>));
            lemma_standard_none(sv);
            assert(r.custom_view() =~= Seq::<(Seq<char>, Seq<char>)>::empty());
            assert(r.cookies_view() =~= Seq::<Seq<char>>::empty());
        }
        r
    }

    /// The byte size of the header block on the wire.
    pub fn size(&self) -> (r: usize)
        requires
            self.wf(),
        ensures
            r == self.wire().len(),
    {
        self.size
    }
}

proof fn lemma_standard_none(vals: Seq<Option<Seq<char>>>)
    requires
        forall|k: int| 0 <= k < vals.len() ==> vals[k] is None,
    ensures
        standard_part(vals).len() == 0,
    decreases vals.len(),
{
    if vals.len() > 0 {
        lemma_standard_none(vals.drop_last());
    }
}

/// Appends `name: value` and a line break to `buf`.
fn write_line(buf: &mut Vec<u8>, name: &[u8], value: &[u8])
    ensures
        final(buf)@ == old(buf)@ + header_line(name@, value@),
{
    extend_bytes(buf, name);
    buf.push(58);
    buf.push(32);
    extend_bytes(buf, value);
    buf.push(13);
    buf.push(10);
    assert(final(buf)@ =~= old(buf)@ + header_line(name@, value@));
}

/// The position of the custom header `name`, from `i` on.
pub open spec fn custom_pos_from(c: Seq<(Seq<char>, Seq<char>)>, name: Seq<char>, i: int) -> Option<
    int,
>
    decreases c.len() - i,
{
    if i >= c.len() {
        None
    } else if c[i].0 == name {
        Some(i)
    } else {
        custom_pos_from(c, name, i + 1)
    }
}

pub open spec fn custom_pos(c: Seq<(Seq<char>, Seq<char>)>, name: Seq<char>) -> Option<int> {
    custom_pos_from(c, name, 0)
}

proof fn lemma_custom_pos_from(c: Seq<(Seq<char>, Seq<char>)>, name: Seq<char>, i: int)
    requires
        0 <= i <= c.len(),
    ensures
        match custom_pos_from(c, name, i) {
            Some(k) => i <= k < c.len() && c[k].0 == name,
            None => forall|k: int| i <= k < c.len() ==> c[k].0 != name,
        },
    decreases c.len() - i,
{
    if i < c.len() && c[i].0 != name {
        lemma_custom_pos_from(c, name, i + 1);
    }
}

/// The custom headers after setting `name` to `v`: in place when present,
/// added at the end when not.
pub open spec fn custom_set(c: Seq<(Seq<char>, Seq<char>)>, name: Seq<char>, v: Seq<char>) -> Seq<
    (Seq<char>, Seq<char>),
> {
    match custom_pos(c, name) {
        Some(k) => c.update(k, (name, v)),
        None => c.push((name, v)),
    }
}

/// The current value of the custom header `name`.
pub open spec fn custom_value(c: Seq<(Seq<char>, Seq<char>)>, name: Seq<char>) -> Option<Seq<char>> {
    match custom_pos(c, name) {
        Some(k) => Some(c[k].1),
        None => None,
    }
}

/// The custom headers without `name`.
pub open spec fn custom_removed(c: Seq<(Seq<char>, Seq<char>)>, name: Seq<char>) -> Seq<
    (Seq<char>, Seq<char>),
> {
    match custom_pos(c, name) {
        Some(k) => c.remove(k),
        None => c,
    }
}

/// Two custom lists with the same names at every position are equally free of repeats.
proof fn lemma_same_names_distinct(a: Seq<(Seq<char>, Seq<char>)>, b: Seq<(Seq<char>, Seq<char>)>)
    requires
        distinct_names(a),
        a.len() == b.len(),
        forall|i: int| 0 <= i < a.len() ==> (#[trigger] a[i]).0 == (#[trigger] b[i]).0,
    ensures
        distinct_names(b),
{
    assert forall|i: int, j: int| 0 <= i < j < b.len() implies (#[trigger] b[i]).0 != (
    #[trigger] b[j]).0 by {
        assert(a[i].0 == b[i].0);
        assert(a[j].0 == b[j].0);
    }
}

proof fn lemma_wire_len(
    standard: Seq<Option<Seq<char>>>,
    custom: Seq<(Seq<char>, Seq<char>)>,
    cookies: Seq<Seq<char>>,
)
    ensures
        wire_of(standard, custom, cookies).len() == standard_part(standard).len() + custom_part(
            custom,
        ).len() + cookie_part(cookies).len() + 2,
{
}

pub proof fn lemma_sep_bytes()
    ensures
        ", "@ == list_sep(),
        utf8(list_sep()).len() == 2,
{
    reveal_strlit(", ");
    assert(", "@ =~= list_sep());
    lemma_ascii_bytes(", ");
    assert(", ".spec_bytes() == encode_utf8(list_sep()));
    assert(ascii(list_sep()).len() == list_sep().len());
}

proof fn lemma_appended_len(p: Seq<char>, v: Seq<char>)
    ensures
        utf8(p + list_sep() + v).len() == utf8(p).len() + 2 + utf8(v).len(),
{
    lemma_sep_bytes();
    lemma_utf8_concat(p, list_sep());
    lemma_utf8_concat(p + list_sep(), v);
}

impl Headers {
    /// Sets a standard header, replacing any value it had.
    pub fn insert(&mut self, h: Header, value: &str)
        requires
            old(self).wf(),
            old(self).wire().len() + header_bytes(h).len() + 4 + utf8(value@).len() <= usize::MAX,
        ensures
            final(self).wf(),
            final(self).standard_view() == old(self).standard_view().update(
                header_index(h),
                Some(value@),
            ),
            final(self).custom_view() == old(self).custom_view(),
            final(self).cookies_view() == old(self).cookies_view(),
            final(self).wire().len() <= old(self).wire().len() + header_bytes(h).len() + 4 + utf8(value@).len(),
            final(self).wire().len() == old(self).wire().len() - line_len(header_bytes(h), old(self).value_of(h))
                + line_len(header_bytes(h), Some(value@)),
    {
        let k = h.index();
        let name_len = h.as_bytes().len();
        let value_len = value.as_bytes().len();
        let prev = self.standard[k].size();
        let ghost vals = self.standard_view();
        proof {
            lemma_header_at(h);
            lemma_standard_update(vals, k as int, Some(value@));
            lemma_standard_update(vals, k as int, None);
            lemma_wire_len(vals, self.custom_view(), self.cookies_view());
            assert(vals[k as int] == self.standard@[k as int]@);
        }
        if self.standard[k].inner.is_some() {
            self.size = self.size - prev + value_len;
        } else {
            self.size = self.size + name_len + 4 + value_len;
        }
        self.standard.set(k, Value { inner: Some(value.to_owned()) });
        proof {
            assert(self.standard_view() =~= vals.update(k as int, Some(value@)));
            assert(self.custom_view() =~= old(self).custom_view());
            assert(self.cookies_view() =~= old(self).cookies_view());
            lemma_wire_len(self.standard_view(), self.custom_view(), self.cookies_view());
        }
    }

    /// Removes a standard header; nothing happens when it is absent.
    pub fn remove(&mut self, h: Header)
        requires
            old(self).wf(),
        ensures
            final(self).wf(),
            final(self).standard_view() == old(self).standard_view().update(header_index(h), None),
            final(self).custom_view() == old(self).custom_view(),
            final(self).cookies_view() == old(self).cookies_view(),
            final(self).wire().len() == old(self).wire().len() - line_len(header_bytes(h), old(self).value_of(h)),
    {
        let k = h.index();
        let name_len = h.as_bytes().len();
        let prev = self.standard[k].size();
        let ghost vals = self.standard_view();
        proof {
            lemma_header_at(h);
            lemma_standard_update(vals, k as int, None);
            lemma_wire_len(vals, self.custom_view(), self.cookies_view());
            assert(vals[k as int] == self.standard@[k as int]@);
        }
        if self.standard[k].inner.is_some() {
            self.size = self.size - (name_len + 4 + prev);
        }
        self.standard.set(k, Value::none());
        proof {
            assert(self.standard_view() =~= vals.update(k as int, None));
            assert(self.custom_view() =~= old(self).custom_view());
            assert(self.cookies_view() =~= old(self).cookies_view());
            lemma_wire_len(self.standard_view(), self.custom_view(), self.cookies_view());
        }
    }

    /// Adds `value` to a standard header: joined to the present value by
    /// `, `, or set when there is none.
    pub fn append(&mut self, h: Header, value: &str)
        requires
            old(self).wf(),
            old(self).wire().len() + header_bytes(h).len() + 4 + utf8(value@).len() <= usize::MAX,
        ensures
            final(self).wf(),
            final(self).standard_view() == old(self).standard_view().update(
                header_index(h),
                Some(appended(old(self).value_of(h), value@)),
            ),
            final(self).custom_view() == old(self).custom_view(),
            final(self).cookies_view() == old(self).cookies_view(),
            final(self).wire().len() == old(self).wire().len() + match old(self).value_of(h) {
                Some(_) => 2 + utf8(value@).len() as int,
                None => line_len(header_bytes(h), Some(value@)),
            },
    {
        let k = h.index();
        if self.standard[k].inner.is_none() {
            proof {
                assert(self.standard_view()[k as int] == self.standard@[k as int]@);
            }
            self.insert(h, value);
            return;
        }
        let value_len = value.as_bytes().len();
        let ghost vals = self.standard_view();
        let mut joined = self.standard[k].as_str().to_owned();
        let ghost cur = joined@;
        proof {
            assert(vals[k as int] == self.standard@[k as int]@);
            assert(vals[k as int] == Some(cur));
            lemma_header_at(h);
            lemma_sep_bytes();
            lemma_appended_len(cur, value@);
            lemma_standard_update(vals, k as int, Some(cur + list_sep() + value@));
            lemma_wire_len(vals, self.custom_view(), self.cookies_view());
        }
        joined.append(", ");
        joined.append(value);
        self.size = self.size + 2 + value_len;
        self.standard.set(k, Value { inner: Some(joined) });
        proof {
            assert(self.standard_view() =~= vals.update(k as int, Some(cur + list_sep() + value@)));
            assert(self.custom_view() =~= old(self).custom_view());
            assert(self.cookies_view() =~= old(self).cookies_view());
            lemma_wire_len(self.standard_view(), self.custom_view(), self.cookies_view());
        }
    }

    /// The value of a standard header.
    pub fn get(&self, h: Header) -> (r: Option<&str>)
        requires
            self.wf(),
        ensures
            match self.value_of(h) {
                Some(v) => r matches Some(s) && s@ == v,
                None => r is None,
            },
    {
        let k = h.index();
        proof {
            assert(self.standard_view()[k as int] == self.standard@[k as int]@);
        }
        if self.standard[k].inner.is_some() {
            Some(self.standard[k].as_str())
        } else {
            None
        }
    }
}

impl Headers {
    fn find_custom(&self, name: &str) -> (r: Option<usize>)
        ensures
            match custom_pos(self.custom_view(), name@) {
                Some(k) => 0 <= k < self.custom@.len() && (r matches Some(j) && j as int == k),
                None => r is None,
            },
    {
        let ghost c = self.custom_view();
        let mut k: usize = 0;
        while k < self.custom.len()
            invariant
                k <= self.custom@.len(),
                c == self.custom_view(),
                custom_pos(c, name@) == custom_pos_from(c, name@, k as int),
            decreases self.custom@.len() - k,
        {
            let same = eq_bytes(self.custom[k].0.as_str().as_bytes(), name.as_bytes());
            proof {
                assert(c[k as int] == (self.custom@[k as int].0@, self.custom@[k as int].1@));
                encode_utf8_decode_utf8(c[k as int].0);
                encode_utf8_decode_utf8(name@);
            }
            if same {
                return Some(k);
            }
            k = k + 1;
        }
        None
    }

    /// Sets a custom header, replacing any value it had.
    pub fn insert_custom(&mut self, name: &str, value: &str)
        requires
            old(self).wf(),
            old(self).wire().len() + utf8(name@).len() + 4 + utf8(value@).len() <= usize::MAX,
        ensures
            final(self).wf(),
            final(self).custom_view() == custom_set(old(self).custom_view(), name@, value@),
            final(self).standard_view() == old(self).standard_view(),
            final(self).cookies_view() == old(self).cookies_view(),
            final(self).wire().len() == old(self).wire().len() - line_len(utf8(name@), custom_value(old(self).custom_view(), name@))
                + line_len(utf8(name@), Some(value@)),
    {
        let ghost c = self.custom_view();
        let name_len = name.as_bytes().len();
        let value_len = value.as_bytes().len();
        proof {
            lemma_custom_pos_from(c, name@, 0);
            lemma_wire_len(self.standard_view(), c, self.cookies_view());
        }
        match self.find_custom(name) {
            Some(k) => {
                let prev = self.custom[k].1.as_str().as_bytes().len();
                proof {
                    assert(c[k as int] == (self.custom@[k as int].0@, self.custom@[k as int].1@));
                    lemma_custom_update(c, k as int, (name@, value@));
                    lemma_custom_remove(c, k as int);
                    assert(c[k as int].0 == name@);
                }
                self.size = self.size - prev + value_len;
                self.custom.set(k, (name.to_owned(), value.to_owned()));
                proof {
                    assert(self.custom_view() =~= c.update(k as int, (name@, value@)));
                    lemma_same_names_distinct(c, self.custom_view());
                }
            },
            None => {
                proof {
                    lemma_custom_push(c, (name@, value@));
                }
                self.size = self.size + name_len + 4 + value_len;
                self.custom.push((name.to_owned(), value.to_owned()));
                proof {
                    assert(self.custom_view() =~= c.push((name@, value@)));
                    let n = self.custom_view();
                    assert forall|i: int, j: int| 0 <= i < j < n.len() implies (#[trigger] n[i]).0
                        != (#[trigger] n[j]).0 by {
                        if j < c.len() {
                            assert(n[i] == c[i] && n[j] == c[j]);
                        } else {
                            assert(n[i] == c[i]);
                        }
                    }
                }
            },
        }
        proof {
            assert(self.standard_view() =~= old(self).standard_view());
            assert(self.cookies_view() =~= old(self).cookies_view());
            lemma_wire_len(self.standard_view(), self.custom_view(), self.cookies_view());
            assert(distinct_names(self.custom_view()));
        }
    }

    /// Adds `value` to a custom header: joined to the present value by `, `,
    /// or set when there is none.
    pub fn append_custom(&mut self, name: &str, value: &str)
        requires
            old(self).wf(),
            old(self).wire().len() + utf8(name@).len() + 4 + utf8(value@).len() <= usize::MAX,
        ensures
            final(self).wf(),
            final(self).custom_view() == custom_set(
                old(self).custom_view(),
                name@,
                appended(custom_value(old(self).custom_view(), name@), value@),
            ),
            final(self).standard_view() == old(self).standard_view(),
            final(self).cookies_view() == old(self).cookies_view(),
            final(self).wire().len() == old(self).wire().len() + match custom_value(old(self).custom_view(), name@) {
                Some(_) => 2 + utf8(value@).len() as int,
                None => line_len(utf8(name@), Some(value@)),
            },
    {
        let ghost c = self.custom_view();
        proof {
            lemma_custom_pos_from(c, name@, 0);
        }
        match self.find_custom(name) {
            None => {
                self.insert_custom(name, value);
            },
            Some(k) => {
                let value_len = value.as_bytes().len();
                let mut joined = self.custom[k].1.as_str().to_owned();
                let ghost cur = joined@;
                proof {
                    assert(c[k as int] == (self.custom@[k as int].0@, self.custom@[k as int].1@));
                    lemma_sep_bytes();
                    lemma_appended_len(cur, value@);
                    lemma_custom_update(c, k as int, (name@, cur + list_sep() + value@));
                    assert(c[k as int].0 == name@);
                    lemma_wire_len(self.standard_view(), c, self.cookies_view());
                }
                joined.append(", ");
                joined.append(value);
                self.size = self.size + 2 + value_len;
                self.custom.set(k, (name.to_owned(), joined));
                proof {
                    assert(self.custom_view() =~= c.update(k as int, (name@, cur + list_sep() + value@)));
                    lemma_same_names_distinct(c, self.custom_view());
                    assert(self.standard_view() =~= old(self).standard_view());
                    assert(self.cookies_view() =~= old(self).cookies_view());
                    lemma_wire_len(self.standard_view(), self.custom_view(), self.cookies_view());
                    assert(distinct_names(self.custom_view()));
                }
            },
        }
    }

    /// Removes a custom header; nothing happens when it is absent.
    pub fn remove_custom(&mut self, name: &str)
        requires
            old(self).wf(),
        ensures
            final(self).wf(),
            final(self).custom_view() == custom_removed(old(self).custom_view(), name@),
            final(self).standard_view() == old(self).standard_view(),
            final(self).cookies_view() == old(self).cookies_view(),
            final(self).wire().len() == old(self).wire().len() - line_len(utf8(name@), custom_value(old(self).custom_view(), name@)),
    {
        let ghost c = self.custom_view();
        proof {
            lemma_custom_pos_from(c, name@, 0);
        }
        match self.find_custom(name) {
            None => {},
            Some(k) => {
                let name_len = self.custom[k].0.as_str().as_bytes().len();
                let prev = self.custom[k].1.as_str().as_bytes().len();
                proof {
                    assert(c[k as int] == (self.custom@[k as int].0@, self.custom@[k as int].1@));
                    lemma_custom_remove(c, k as int);
                    lemma_wire_len(self.standard_view(), c, self.cookies_view());
                }
                self.size = self.size - (name_len + 4 + prev);
                let _ = self.custom.remove(k);
                proof {
                    assert(self.custom_view() =~= c.remove(k as int));
                    assert(self.standard_view() =~= old(self).standard_view());
                    assert(self.cookies_view() =~= old(self).cookies_view());
                    lemma_wire_len(self.standard_view(), self.custom_view(), self.cookies_view());
                    assert forall|i: int, j: int|
                        0 <= i < j < self.custom_view().len() implies (
                        #[trigger] self.custom_view()[i]).0 != (#[trigger] self.custom_view()[j]).0 by {
                        let i0 = if i < k { i } else { i + 1 };
                        let j0 = if j < k { j } else { j + 1 };
                        assert(self.custom_view()[i] == c[i0]);
                        assert(self.custom_view()[j] == c[j0]);
                    }
                }
            },
        }
    }

    /// The value of a custom header.
    pub fn get_custom(&self, name: &str) -> (r: Option<&str>)
        requires
            self.wf(),
        ensures
            match custom_value(self.custom_view(), name@) {
                Some(v) => r matches Some(s) && s@ == v,
                None => r is None,
            },
    {
        match self.find_custom(name) {
            Some(k) => {
                proof {
                    assert(self.custom_view()[k as int] == (
                        self.custom@[k as int].0@,
                        self.custom@[k as int].1@,
                    ));
                }
                Some(self.custom[k].1.as_str())
            },
            None => None,
        }
    }

    /// Adds one `Set-Cookie` line holding `cookie`.
    pub fn set_cookie(&mut self, cookie: &str)
        requires
            old(self).wf(),
            old(self).wire().len() + 14 + utf8(cookie@).len() <= usize::MAX,
        ensures
            final(self).wf(),
            final(self).cookies_view() == old(self).cookies_view().push(cookie@),
            final(self).standard_view() == old(self).standard_view(),
            final(self).custom_view() == old(self).custom_view(),
            final(self).wire().len() == old(self).wire().len() + 14 + utf8(cookie@).len(),
    {
        let ghost c = self.cookies_view();
        proof {
            reveal_strlit("Set-Cookie");
            lemma_ascii_bytes("Set-Cookie");
            lemma_cookie_push(c, cookie@);
            lemma_wire_len(self.standard_view(), self.custom_view(), c);
        }
        self.size = self.size + 14 + cookie.as_bytes().len();
        self.setcookie.push(cookie.to_owned());
        proof {
            assert(self.cookies_view() =~= c.push(cookie@));
            assert(self.standard_view() =~= old(self).standard_view());
            assert(self.custom_view() =~= old(self).custom_view());
            lemma_wire_len(self.standard_view(), self.custom_view(), self.cookies_view());
        }
    }

    /// Writes the header block after what `buf` holds.
    pub fn write_to(&self, buf: &mut Vec<u8>)
        requires
            self.wf(),
        ensures
            final(buf)@ == old(buf)@ + self.wire(),
    {
        let ghost sv = self.standard_view();
        let ghost cv = self.custom_view();
        let ghost kv = self.cookies_view();
        let mut i: usize = 0;
        while i < N_SERVER_HEADERS
            invariant
                i <= N_SERVER_HEADERS,
                self.wf(),
                sv == self.standard_view(),
                buf@ == old(buf)@ + standard_part(sv.subrange(0, i as int)),
            decreases N_SERVER_HEADERS - i,
        {
            let h = Header::from_index(i);
            proof {
                assert(sv[i as int] == self.standard@[i as int]@);
                assert(sv.subrange(0, i as int + 1).drop_last() =~= sv.subrange(0, i as int));
                lemma_header_at(h);
            }
            if self.standard[i].inner.is_some() {
                let v = self.standard[i].as_str();
                write_line(buf, h.as_bytes(), v.as_bytes());
            }
            proof {
                assert(buf@ =~= old(buf)@ + standard_part(sv.subrange(0, i as int + 1)));
            }
            i = i + 1;
        }
        assert(sv.subrange(0, N_SERVER_HEADERS as int) =~= sv);
        let ghost after_std = buf@;
        let mut j: usize = 0;
        while j < self.custom.len()
            invariant
                j <= self.custom@.len(),
                cv == self.custom_view(),
                buf@ == after_std + custom_part(cv.subrange(0, j as int)),
            decreases self.custom@.len() - j,
        {
            proof {
                assert(cv[j as int] == (self.custom@[j as int].0@, self.custom@[j as int].1@));
                assert(cv.subrange(0, j as int + 1).drop_last() =~= cv.subrange(0, j as int));
            }
            write_line(buf, self.custom[j].0.as_str().as_bytes(), self.custom[j].1.as_str().as_bytes());
            proof {
                assert(buf@ =~= after_std + custom_part(cv.subrange(0, j as int + 1)));
            }
            j = j + 1;
        }
        assert(cv.subrange(0, cv.len() as int) =~= cv);
        let ghost after_custom = buf@;
        let name = "Set-Cookie";
        proof {
            reveal_strlit("Set-Cookie");
            lemma_ascii_bytes("Set-Cookie");
        }
        let mut n: usize = 0;
        while n < self.setcookie.len()
            invariant
                n <= self.setcookie@.len(),
                kv == self.cookies_view(),
                name.spec_bytes() == set_cookie_name(),
                buf@ == after_custom + cookie_part(kv.subrange(0, n as int)),
            decreases self.setcookie@.len() - n,
        {
            proof {
                assert(kv[n as int] == self.setcookie@[n as int]@);
                assert(kv.subrange(0, n as int + 1).drop_last() =~= kv.subrange(0, n as int));
            }
            write_line(buf, name.as_bytes(), self.setcookie[n].as_str().as_bytes());
            proof {
                assert(buf@ =~= after_custom + cookie_part(kv.subrange(0, n as int + 1)));
            }
            n = n + 1;
        }
        assert(kv.subrange(0, kv.len() as int) =~= kv);
        buf.push(13);
        buf.push(10);
        assert(buf@ =~= old(buf)@ + self.wire());
    }
}

/// Name and value of every standard header present, in slot order.
pub open spec fn standard_entries(vals: Seq<Option<Seq<char>>>) -> Seq<(Seq<char>, Seq<char>)>
    decreases vals.len(),
{
    if vals.len() == 0 {
        Seq::empty()
    } else {
        standard_entries(vals.drop_last()) + match vals.last() {
            Some(v) => seq![(header_name(header_at(vals.len() - 1)), v)],
            None => Seq::empty(),
        }
    }
}

/// Every header as a name and a value: standard ones, custom ones, then one
/// `Set-Cookie` entry per cookie.
pub open spec fn entries_of(
    standard: Seq<Option<Seq<char>>>,
    custom: Seq<(Seq<char>, Seq<char>)>,
    cookies: Seq<Seq<char>>,
) -> Seq<(Seq<char>, Seq<char>)> {
    standard_entries(standard) + custom + cookies.map_values(|c: Seq<char>| ("Set-Cookie"@, c))
}

pub open spec fn string_pairs(v: Seq<(String, String)>) -> Seq<(Seq<char>, Seq<char>)> {
    v.map_values(|p: (String, String)| (p.0@, p.1@))
}

impl Headers {
    /// Every header, as `entries_of` lists them.
    pub fn entries(&self) -> (r: Vec<(String, String)>)
        requires
            self.wf(),
        ensures
            string_pairs(r@) == entries_of(self.standard_view(), self.custom_view(), self.cookies_view()),
    {
        let ghost sv = self.standard_view();
        let ghost cv = self.custom_view();
        let ghost kv = self.cookies_view();
        let mut out: Vec<(String, String)> = Vec::new();
        let mut i: usize = 0;
        while i < N_SERVER_HEADERS
            invariant
                i <= N_SERVER_HEADERS,
                self.wf(),
                sv == self.standard_view(),
                string_pairs(out@) == standard_entries(sv.subrange(0, i as int)),
            decreases N_SERVER_HEADERS - i,
        {
            let h = Header::from_index(i);
            proof {
                assert(sv[i as int] == self.standard@[i as int]@);
                assert(sv.subrange(0, i as int + 1).drop_last() =~= sv.subrange(0, i as int));
                lemma_header_at(h);
            }
            let ghost before = out@;
            if self.standard[i].inner.is_some() {
                let v = self.standard[i].as_str();
                let pair = (h.as_str().to_owned(), v.to_owned());
                proof {
                    assert(string_pairs(out@.push(pair)) =~= string_pairs(out@).push((pair.0@, pair.1@)));
                }
                out.push(pair);
            }
            proof {
                assert(string_pairs(out@) =~= standard_entries(sv.subrange(0, i as int + 1)));
            }
            i = i + 1;
        }
        assert(sv.subrange(0, N_SERVER_HEADERS as int) =~= sv);
        let ghost after_std = string_pairs(out@);
        let mut j: usize = 0;
        while j < self.custom.len()
            invariant
                j <= self.custom@.len(),
                cv == self.custom_view(),
                string_pairs(out@) == after_std + cv.subrange(0, j as int),
            decreases self.custom@.len() - j,
        {
            proof {
                assert(cv[j as int] == (self.custom@[j as int].0@, self.custom@[j as int].1@));
            }
            let pair = (self.custom[j].0.as_str().to_owned(), self.custom[j].1.as_str().to_owned());
            proof {
                assert(string_pairs(out@.push(pair)) =~= string_pairs(out@).push((pair.0@, pair.1@)));
            }
            out.push(pair);
            proof {
                assert(string_pairs(out@) =~= after_std + cv.subrange(0, j as int + 1));
            }
            j = j + 1;
        }
        assert(cv.subrange(0, cv.len() as int) =~= cv);
        let ghost after_custom = string_pairs(out@);
        let ghost cookie_entries = kv.map_values(|c: Seq<char>| ("Set-Cookie"@, c));
        let mut n: usize = 0;
        while n < self.setcookie.len()
            invariant
                n <= self.setcookie@.len(),
                kv == self.cookies_view(),
                cookie_entries == kv.map_values(|c: Seq<char>| ("Set-Cookie"@, c)),
                string_pairs(out@) == after_custom + cookie_entries.subrange(0, n as int),
            decreases self.setcookie@.len() - n,
        {
            proof {
                assert(kv[n as int] == self.setcookie@[n as int]@);
            }
            let pair = ("Set-Cookie".to_owned(), self.setcookie[n].as_str().to_owned());
            proof {
                assert(string_pairs(out@.push(pair)) =~= string_pairs(out@).push((pair.0@, pair.1@)));
            }
            out.push(pair);
            proof {
                assert(string_pairs(out@) =~= after_custom + cookie_entries.subrange(0, n as int + 1));
            }
            n = n + 1;
        }
        assert(cookie_entries.subrange(0, cookie_entries.len() as int) =~= cookie_entries);
        assert(string_pairs(out@) =~= entries_of(sv, cv, kv));
        out
    }
}

/// A well-formed table has a slot for every standard header.
pub proof fn lemma_wf_slots(h: Headers)
    requires
        h.wf(),
    ensures
        h.standard_view().len() == N_SERVER_HEADERS,
{
}

/// Header size exactness: in every table that the operations above build,
/// the tracked size is the length of the bytes that `write_to` emits.
pub proof fn law_size_is_wire_length(h: Headers)
    requires
        h.wf(),
    ensures
        h.tracked_size() == h.wire().len(),
{
}

/// Appending `a` and then `b` to a header that was absent leaves it holding
/// `a, b`: `h1` is `h0` after `append(f, a)` and `h2` is `h1` after
/// `append(f, b)`, as `append` states them.
pub proof fn law_append_joins(h0: Headers, h1: Headers, h2: Headers, f: Header, a: Seq<char>, b: Seq<char>)
    requires
        h0.wf(),
        h0.value_of(f) is None,
        h1.standard_view() == h0.standard_view().update(header_index(f), Some(appended(h0.value_of(f), a))),
        h2.standard_view() == h1.standard_view().update(header_index(f), Some(appended(h1.value_of(f), b))),
    ensures
        h2.value_of(f) == Some(a + list_sep() + b),
{
    lemma_wf_slots(h0);
    crate::header::lemma_header_index_range(f);
}

} // verus!
