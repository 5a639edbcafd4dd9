//! Byte-sequence helpers shared by the parser and the header table.
use vstd::prelude::*;
use vstd::string::StringSliceAdditionalSpecFns;
use vstd::utf8::*;

verus! {

/// Whether two byte slices hold the same bytes.
pub fn eq_bytes(a: &[u8], b: &[u8]) -> (r: bool)
    ensures
        r == (a@ == b@),
{
    if a.len() != b.len() {
        return false;
    }
    let mut i: usize = 0;
    while i < a.len()
        invariant
            a@.len() == b@.len(),
            i <= a@.len(),
            a@.subrange(0, i as int) == b@.subrange(0, i as int),
        decreases a@.len() - i,
    {
        if a[i] != b[i] {
            assert(a@[i as int] == a@.subrange(0, i as int + 1)[i as int]);
            return false;
        }
        assert(a@.subrange(0, i as int + 1) =~= a@.subrange(0, i as int).push(a@[i as int]));
        assert(b@.subrange(0, i as int + 1) =~= b@.subrange(0, i as int).push(b@[i as int]));
        i = i + 1;
    }
    assert(a@ =~= a@.subrange(0, i as int));
    assert(b@ =~= b@.subrange(0, i as int));
    true
}

pub const SP: u8 = 32;
pub const HT: u8 = 9;
pub const CR: u8 = 13;
pub const LF: u8 = 10;

/// The bytes of a text made of ASCII characters, one byte per character.
pub open spec fn ascii(s: Seq<char>) -> Seq<u8> {
    s.map_values(|c: char| c as u8)
}

/// A string of ASCII characters is encoded one byte per character.
pub proof fn lemma_ascii_bytes(s: &str)
    requires
        is_ascii_chars(s@),
    ensures
        s.spec_bytes() == ascii(s@),
{
    is_ascii_chars_encode_utf8(s@);
    assert(s.spec_bytes() =~= ascii(s@));
}

/// The first index at or after `i` that holds `a` or `b`, or the length.
pub open spec fn find2(s: Seq<u8>, i: int, a: u8, b: u8) -> int
    decreases s.len() - i,
{
    if i >= s.len() {
        s.len() as int
    } else if s[i] == a || s[i] == b {
        i
    } else {
        find2(s, i + 1, a, b)
    }
}

pub proof fn lemma_find2(s: Seq<u8>, i: int, a: u8, b: u8)
    requires
        0 <= i <= s.len(),
    ensures
        i <= find2(s, i, a, b) <= s.len(),
        find2(s, i, a, b) < s.len() ==> (s[find2(s, i, a, b)] == a || s[find2(s, i, a, b)] == b),
        forall|k: int| i <= k < find2(s, i, a, b) ==> s[k] != a && s[k] != b,
    decreases s.len() - i,
{
    if i < s.len() && s[i] != a && s[i] != b {
        lemma_find2(s, i + 1, a, b);
    }
}

/// `find2` lands on `j` when no byte before it (from `i`) is `a` or `b` and
/// `j` holds one of them or is the end.
pub proof fn lemma_find2_at(s: Seq<u8>, i: int, j: int, a: u8, b: u8)
    requires
        0 <= i <= j <= s.len(),
        forall|k: int| i <= k < j ==> s[k] != a && s[k] != b,
        j == s.len() || s[j] == a || s[j] == b,
    ensures
        find2(s, i, a, b) == j,
    decreases j - i,
{
    if i < j {
        lemma_find2_at(s, i + 1, j, a, b);
    }
}

/// Scans forward from `i` to the first `a` or `b`.
pub fn find2_from(s: &[u8], i: usize, a: u8, b: u8) -> (r: usize)
    requires
        i <= s@.len(),
    ensures
        r as int == find2(s@, i as int, a, b),
{
    let mut j: usize = i;
    while j < s.len() && s[j] != a && s[j] != b
        invariant
            i <= j <= s@.len(),
            find2(s@, i as int, a, b) == find2(s@, j as int, a, b),
        decreases s@.len() - j,
    {
        j = j + 1;
    }
    j
}

/// An ASCII byte in lower case.
pub open spec fn lower(b: u8) -> u8 {
    if 65 <= b <= 90 {
        (b + 32) as u8
    } else {
        b
    }
}

/// Equality of byte strings up to ASCII case.
pub open spec fn eq_ignore_case(a: Seq<u8>, b: Seq<u8>) -> bool {
    a.len() == b.len() && forall|i: int| 0 <= i < a.len() ==> lower(a[i]) == lower(b[i])
}

pub fn lower_byte(b: u8) -> (r: u8)
    ensures
        r == lower(b),
{
    if 65 <= b && b <= 90 {
        b + 32
    } else {
        b
    }
}

/// Compares `s[start..end]` with `t`, ignoring ASCII case.
pub fn range_eq_ignore_case(s: &[u8], start: usize, end: usize, t: &[u8]) -> (r: bool)
    requires
        start <= end <= s@.len(),
    ensures
        r == eq_ignore_case(s@.subrange(start as int, end as int), t@),
{
    if end - start != t.len() {
        return false;
    }
    let ghost a = s@.subrange(start as int, end as int);
    let mut i: usize = 0;
    while i < t.len()
        invariant
            a == s@.subrange(start as int, end as int),
            a.len() == t@.len(),
            start + t@.len() == end,
            end <= s@.len(),
            i <= t@.len(),
            forall|k: int| 0 <= k < i ==> lower(a[k]) == lower(t@[k]),
        decreases t@.len() - i,
    {
        if lower_byte(s[start + i]) != lower_byte(t[i]) {
            return false;
        }
        i = i + 1;
    }
    true
}

/// Whether `s[start..end]` equals `t` byte for byte.
pub fn range_eq(s: &[u8], start: usize, end: usize, t: &[u8]) -> (r: bool)
    requires
        start <= end <= s@.len(),
    ensures
        r == (s@.subrange(start as int, end as int) == t@),
{
    if end - start != t.len() {
        return false;
    }
    let ghost a = s@.subrange(start as int, end as int);
    let mut i: usize = 0;
    while i < t.len()
        invariant
            a == s@.subrange(start as int, end as int),
            a.len() == t@.len(),
            start + t@.len() == end,
            end <= s@.len(),
            i <= t@.len(),
            forall|k: int| 0 <= k < i ==> a[k] == t@[k],
        decreases t@.len() - i,
    {
        if s[start + i] != t[i] {
            return false;
        }
        i = i + 1;
    }
    assert(a =~= t@);
    true
}

/// Copies `s[start..end]` into a new vector.
pub fn copy_range(s: &[u8], start: usize, end: usize) -> (r: Vec<u8>)
    requires
        start <= end <= s@.len(),
    ensures
        r@ == s@.subrange(start as int, end as int),
{
    let mut v: Vec<u8> = Vec::with_capacity(end - start);
    let mut i: usize = start;
    while i < end
        invariant
            start <= i <= end <= s@.len(),
            v@ == s@.subrange(start as int, i as int),
        decreases end - i,
    {
        v.push(s[i]);
        assert(v@ =~= s@.subrange(start as int, i as int + 1));
        i = i + 1;
    }
    v
}

pub open spec fn is_ws(b: u8) -> bool {
    b == SP || b == HT
}

/// The first index at or after `i`, and before `end`, that is not a space or tab.
pub open spec fn skip_ws(s: Seq<u8>, i: int, end: int) -> int
    decreases end - i,
{
    if i < end && is_ws(s[i]) {
        skip_ws(s, i + 1, end)
    } else {
        i
    }
}

/// The end of `s[start..j]` once trailing spaces and tabs are dropped.
pub open spec fn trim_back(s: Seq<u8>, start: int, j: int) -> int
    decreases j - start,
{
    if j > start && is_ws(s[j - 1]) {
        trim_back(s, start, j - 1)
    } else {
        j
    }
}

pub fn skip_ws_from(s: &[u8], i: usize, end: usize) -> (r: usize)
    requires
        i <= end <= s@.len(),
    ensures
        r as int == skip_ws(s@, i as int, end as int),
        i <= r <= end,
{
    let mut j: usize = i;
    while j < end && (s[j] == SP || s[j] == HT)
        invariant
            i <= j <= end <= s@.len(),
            skip_ws(s@, i as int, end as int) == skip_ws(s@, j as int, end as int),
        decreases end - j,
    {
        j = j + 1;
    }
    j
}

pub fn trim_back_from(s: &[u8], start: usize, j0: usize) -> (r: usize)
    requires
        start <= j0 <= s@.len(),
    ensures
        r as int == trim_back(s@, start as int, j0 as int),
        start <= r <= j0,
{
    let mut j: usize = j0;
    while j > start && (s[j - 1] == SP || s[j - 1] == HT)
        invariant
            start <= j <= j0 <= s@.len(),
            trim_back(s@, start as int, j0 as int) == trim_back(s@, start as int, j as int),
        decreases j,
    {
        j = j - 1;
    }
    j
}

/// Appends `more` to `body`.
pub fn extend_bytes(body: &mut Vec<u8>, more: &[u8])
    ensures
        final(body)@ == old(body)@ + more@,
{
    let mut i: usize = 0;
    while i < more.len()
        invariant
            i <= more@.len(),
            body@ == old(body)@ + more@.subrange(0, i as int),
        decreases more@.len() - i,
    {
        body.push(more[i]);
        assert(old(body)@ + more@.subrange(0, i as int + 1) =~= old(body)@ + more@.subrange(0, i as int)
            .push(more@[i as int]));
        i = i + 1;
    }
    assert(more@.subrange(0, more@.len() as int) =~= more@);
}

/// UTF-8 encodes a concatenation piece by piece.
pub proof fn lemma_utf8_concat(a: Seq<char>, b: Seq<char>)
    ensures
        encode_utf8(a + b) == encode_utf8(a) + encode_utf8(b),
    decreases a.len(),
{
    if a.len() == 0 {
        assert(a + b =~= b);
        assert(encode_utf8(a) + encode_utf8(b) =~= encode_utf8(b));
    } else {
        assert((a + b).drop_first() =~= a.drop_first() + b);
        assert((a + b)[0] == a[0]);
        lemma_utf8_concat(a.drop_first(), b);
        assert(encode_utf8(a + b) =~= encode_utf8(a) + encode_utf8(b));
    }
}

} // verus!
