//! `Set-Cookie` values, built from a name, a value and directives.
use vstd::prelude::*;
use vstd::string::{StringExecFns, StringSliceAdditionalSpecFns};
use crate::bytes::{ascii, lemma_ascii_bytes, lemma_utf8_concat};
use crate::headers::utf8;
use crate::num::{decimal, itoa};

verus! {

#[derive(Clone, Copy, PartialEq, Eq, Structural, Debug)]
pub enum SameSitePolicy {
    Strict,
    Lax,
    /// `SameSite=None`: sent on cross-site requests too.
    Unrestricted,
}

/// A cookie and its directives.
pub struct SetCookieBuilder {
    pub name: String,
    pub value: String,
    pub expires: Option<String>,
    pub max_age: Option<usize>,
    pub domain: Option<String>,
    pub path: Option<String>,
    pub secure: bool,
    pub http_only: bool,
    pub same_site: Option<SameSitePolicy>,
}

pub open spec fn opt_directive(key: Seq<char>, v: Option<String>) -> Seq<u8> {
    match v {
        Some(s) => ascii(key) + utf8(s@),
        None => Seq::empty(),
    }
}

pub open spec fn flag_directive(key: Seq<char>, on: bool) -> Seq<u8> {
    if on {
        ascii(key)
    } else {
        Seq::empty()
    }
}

pub open spec fn same_site_directive(p: Option<SameSitePolicy>) -> Seq<u8> {
    match p {
        Some(SameSitePolicy::Strict) => ascii("; SameSite=Strict"@),
        Some(SameSitePolicy::Lax) => ascii("; SameSite=Lax"@),
        Some(SameSitePolicy::Unrestricted) => ascii("; SameSite=None"@),
        None => Seq::empty(),
    }
}

/// The `Set-Cookie` value: `name=value`, then each directive that is set,
/// in a fixed order.
pub open spec fn cookie_bytes(c: SetCookieBuilder) -> Seq<u8> {
    utf8(c.name@) + ascii("="@) + utf8(c.value@) + opt_directive("; Expires="@, c.expires)
        + match c.max_age {
        Some(n) => ascii("; Max-Age="@) + decimal(n as nat),
        None => Seq::empty(),
    } + opt_directive("; Domain="@, c.domain) + opt_directive("; Path="@, c.path) + flag_directive(
        "; Secure"@,
        c.secure,
    ) + flag_directive("; HttpOnly"@, c.http_only) + same_site_directive(c.same_site)
}

fn push_str(acc: &mut String, s: &str)
    ensures
        utf8(final(acc)@) == utf8(old(acc)@) + s.spec_bytes(),
{
    proof {
        lemma_utf8_concat(acc@, s@);
    }
    acc.append(s);
}

#[allow(non_snake_case)]
impl SetCookieBuilder {
    pub fn new(name: &str, value: &str) -> (r: SetCookieBuilder)
        ensures
            r.name@ == name@,
            r.value@ == value@,
            r.expires is None,
            r.max_age is None,
            r.domain is None,
            r.path is None,
            !r.secure,
            !r.http_only,
            r.same_site is None,
    {
        SetCookieBuilder {
            name: name.to_owned(),
            value: value.to_owned(),
            expires: None,
            max_age: None,
            domain: None,
            path: None,
            secure: false,
            http_only: false,
            same_site: None,
        }
    }

    pub fn Expires(self, date: &str) -> (r: SetCookieBuilder)
        ensures
            r == (SetCookieBuilder { expires: Some(r.expires->Some_0), ..self }),
            r.expires->Some_0@ == date@,
    {
        SetCookieBuilder { expires: Some(date.to_owned()), ..self }
    }

    pub fn MaxAge(self, seconds: usize) -> (r: SetCookieBuilder)
        ensures
            r == (SetCookieBuilder { max_age: Some(seconds), ..self }),
    {
        SetCookieBuilder { max_age: Some(seconds), ..self }
    }

    pub fn Domain(self, domain: &str) -> (r: SetCookieBuilder)
        ensures
            r == (SetCookieBuilder { domain: Some(r.domain->Some_0), ..self }),
            r.domain->Some_0@ == domain@,
    {
        SetCookieBuilder { domain: Some(domain.to_owned()), ..self }
    }

    pub fn Path(self, path: &str) -> (r: SetCookieBuilder)
        ensures
            r == (SetCookieBuilder { path: Some(r.path->Some_0), ..self }),
            r.path->Some_0@ == path@,
    {
        SetCookieBuilder { path: Some(path.to_owned()), ..self }
    }

    pub fn Secure(self) -> (r: SetCookieBuilder)
        ensures
            r == (SetCookieBuilder { secure: true, ..self }),
    {
        SetCookieBuilder { secure: true, ..self }
    }

    pub fn HttpOnly(self) -> (r: SetCookieBuilder)
        ensures
            r == (SetCookieBuilder { http_only: true, ..self }),
    {
        SetCookieBuilder { http_only: true, ..self }
    }

    pub fn SameSiteStrict(self) -> (r: SetCookieBuilder)
        ensures
            r == (SetCookieBuilder { same_site: Some(SameSitePolicy::Strict), ..self }),
    {
        SetCookieBuilder { same_site: Some(SameSitePolicy::Strict), ..self }
    }

    pub fn SameSiteLax(self) -> (r: SetCookieBuilder)
        ensures
            r == (SetCookieBuilder { same_site: Some(SameSitePolicy::Lax), ..self }),
    {
        SetCookieBuilder { same_site: Some(SameSitePolicy::Lax), ..self }
    }

    pub fn SameSiteNone(self) -> (r: SetCookieBuilder)
        ensures
            r == (SetCookieBuilder { same_site: Some(SameSitePolicy::Unrestricted), ..self }),
    {
        SetCookieBuilder { same_site: Some(SameSitePolicy::Unrestricted), ..self }
    }

    /// The `Set-Cookie` value.
    pub fn build(&self) -> (r: String)
        ensures
            utf8(r@) == cookie_bytes(*self),
    {
        let mut out = String::new();
        assert(utf8(out@) =~= Seq::<u8>::empty());
        push_str(&mut out, self.name.as_str());
        proof {
            reveal_strlit("=");
            lemma_ascii_bytes("=");
        }
        push_str(&mut out, "=");
        push_str(&mut out, self.value.as_str());
        proof {
            reveal_strlit("; Expires=");
            lemma_ascii_bytes("; Expires=");
        }
        push_opt(&mut out, "; Expires=", &self.expires);
        push_max_age(&mut out, self.max_age);
        proof {
            reveal_strlit("; Domain=");
            lemma_ascii_bytes("; Domain=");
            reveal_strlit("; Path=");
            lemma_ascii_bytes("; Path=");
        }
        push_opt(&mut out, "; Domain=", &self.domain);
        push_opt(&mut out, "; Path=", &self.path);
        proof {
            reveal_strlit("; Secure");
            lemma_ascii_bytes("; Secure");
            reveal_strlit("; HttpOnly");
            lemma_ascii_bytes("; HttpOnly");
        }
        push_flag(&mut out, "; Secure", self.secure);
        push_flag(&mut out, "; HttpOnly", self.http_only);
        push_same_site(&mut out, self.same_site);
        assert(utf8(out@) =~= cookie_bytes(*self));
        out
    }
}

fn push_opt(out: &mut String, key: &str, v: &Option<String>)
    requires
        key.spec_bytes() == ascii(key@),
    ensures
        utf8(final(out)@) == utf8(old(out)@) + opt_directive(key@, *v),
{
    match v {
        Some(s) => {
            push_str(out, key);
            push_str(out, s.as_str());
            assert(utf8(final(out)@) =~= utf8(old(out)@) + opt_directive(key@, *v));
        },
        None => {
            assert(utf8(final(out)@) =~= utf8(old(out)@) + opt_directive(key@, *v));
        },
    }
}

fn push_flag(out: &mut String, key: &str, on: bool)
    requires
        key.spec_bytes() == ascii(key@),
    ensures
        utf8(final(out)@) == utf8(old(out)@) + flag_directive(key@, on),
{
    if on {
        push_str(out, key);
    } else {
        assert(utf8(old(out)@) + flag_directive(key@, on) =~= utf8(old(out)@));
    }
}

fn push_max_age(out: &mut String, v: Option<usize>)
    ensures
        utf8(final(out)@) == utf8(old(out)@) + match v {
            Some(n) => ascii("; Max-Age="@) + decimal(n as nat),
            None => Seq::<u8>::empty(),
        },
{
    match v {
        Some(n) => {
            proof {
                reveal_strlit("; Max-Age=");
                lemma_ascii_bytes("; Max-Age=");
            }
            push_str(out, "; Max-Age=");
            let digits = itoa(n);
            push_str(out, digits.as_str());
            assert(utf8(final(out)@) =~= utf8(old(out)@) + (ascii("; Max-Age="@) + decimal(n as nat)));
        },
        None => {
            assert(utf8(old(out)@) + Seq::<u8>::empty() =~= utf8(old(out)@));
        },
    }
}

fn push_same_site(out: &mut String, p: Option<SameSitePolicy>)
    ensures
        utf8(final(out)@) == utf8(old(out)@) + same_site_directive(p),
{
    proof {
        reveal_strlit("; SameSite=Strict");
        lemma_ascii_bytes("; SameSite=Strict");
        reveal_strlit("; SameSite=Lax");
        lemma_ascii_bytes("; SameSite=Lax");
        reveal_strlit("; SameSite=None");
        lemma_ascii_bytes("; SameSite=None");
    }
    match p {
        Some(SameSitePolicy::Strict) => push_str(out, "; SameSite=Strict"),
        Some(SameSitePolicy::Lax) => push_str(out, "; SameSite=Lax"),
        Some(SameSitePolicy::Unrestricted) => push_str(out, "; SameSite=None"),
        None => {
            assert(utf8(old(out)@) + Seq::<u8>::empty() =~= utf8(old(out)@));
        },
    }
}

} // verus!
