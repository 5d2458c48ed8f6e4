//! Cookies: building `Set-Cookie` values and reading `Cookie` headers, with
//! every name, value, path and domain checked before it is used.
use vstd::prelude::*;
use vstd::utf8::*;
use vstd::string::StringSliceAdditionalSpecFns;
use crate::bytes::{
    decimal, find_byte, find_first, lemma_decimal_ascii, lemma_split_at_sep, lemma_split_last_extend,
    lemma_split_nonempty, lemma_split_prefix_stable, push_decimal, split_bytes, trim, trim_end,
    trim_range, trim_start,
};
use crate::text::{ascii_bytes, ascii_chars, ascii_string, lemma_ascii_utf8, str_from_utf8};
use crate::http::error::HttpError;

verus! {

/// The `SameSite` attribute of a cookie.
#[derive(Clone, Copy, Debug, PartialEq, Eq, Structural)]
pub enum SameSite {
    Lax,
    Strict,
    NoRestriction,
}

/// A cookie to send in a `Set-Cookie` header.
pub struct Cookie {
    name: String,
    value: String,
    path: String,
    domain: String,
    http_only: bool,
    secure: bool,
    max_age: Option<u64>,
    samesite: SameSite,
}

/// The contents of a cookie.
pub struct CookieView {
    pub name: Seq<char>,
    pub value: Seq<char>,
    pub path: Seq<char>,
    pub domain: Seq<char>,
    pub http_only: bool,
    pub secure: bool,
    pub max_age: Option<u64>,
    pub samesite: SameSite,
}

impl View for Cookie {
    type V = CookieView;

    closed spec fn view(&self) -> CookieView {
        CookieView {
            name: self.name@,
            value: self.value@,
            path: self.path@,
            domain: self.domain@,
            http_only: self.http_only,
            secure: self.secure,
            max_age: self.max_age,
            samesite: self.samesite,
        }
    }
}

// ---------------------------------------------------------------------------
// What a valid name, value, path and domain are
// ---------------------------------------------------------------------------

pub open spec fn is_alnum(x: u8) -> bool {
    (48 <= x <= 57) || (65 <= x <= 90) || (97 <= x <= 122)
}

/// A byte allowed in a cookie name (an RFC 7230 token character).
pub open spec fn cookie_name_byte(x: u8) -> bool {
    is_alnum(x) || x == 33 || x == 35 || x == 36 || x == 37 || x == 38 || x == 39 || x == 42 || x
        == 43 || x == 45 || x == 46 || x == 94 || x == 95 || x == 96 || x == 124 || x == 126
}

pub open spec fn valid_cookie_name(b: Seq<u8>) -> bool {
    b.len() > 0 && forall|i: int| 0 <= i < b.len() ==> cookie_name_byte(#[trigger] b[i])
}

/// A byte allowed in a cookie value: visible ASCII except `"`, `,`, `;`, `\`.
pub open spec fn cookie_value_byte(x: u8) -> bool {
    0x21 <= x <= 0x7e && x != 34 && x != 44 && x != 59 && x != 92
}

pub open spec fn valid_cookie_value(b: Seq<u8>) -> bool {
    forall|i: int| 0 <= i < b.len() ==> cookie_value_byte(#[trigger] b[i])
}

/// A path: starts with `/`, printable ASCII, no `;`.
pub open spec fn valid_cookie_path(b: Seq<u8>) -> bool {
    b.len() > 0 && b[0] == 47 && forall|i: int|
        0 <= i < b.len() ==> 0x20 <= #[trigger] b[i] <= 0x7e && b[i] != 59
}

/// A domain label: 1 to 63 letters, digits or hyphens, not starting or ending
/// with a hyphen.
pub open spec fn valid_label(l: Seq<u8>) -> bool {
    &&& 0 < l.len() <= 63
    &&& l[0] != 45
    &&& l.last() != 45
    &&& forall|i: int| 0 <= i < l.len() ==> is_alnum(#[trigger] l[i]) || l[i] == 45
}

/// The domain without one leading dot.
pub open spec fn strip_dot(b: Seq<u8>) -> Seq<u8> {
    if b.len() > 0 && b[0] == 46 {
        b.subrange(1, b.len() as int)
    } else {
        b
    }
}

/// Every dot-separated label is valid.
pub open spec fn labels_valid(d: Seq<u8>) -> bool {
    forall|k: int|
        0 <= k < split_bytes(d, 46).len() ==> valid_label(#[trigger] split_bytes(d, 46)[k])
}

/// A domain: empty (no `Domain` attribute), or an optional leading dot then at
/// most 253 bytes of valid labels.
pub open spec fn valid_cookie_domain(b: Seq<u8>) -> bool {
    b.len() == 0 || {
        let d = strip_dot(b);
        0 < d.len() <= 253 && labels_valid(d)
    }
}

// ---------------------------------------------------------------------------
// The checks
// ---------------------------------------------------------------------------

fn is_alnum_exec(x: u8) -> (r: bool)
    ensures
        r == is_alnum(x),
{
    (48 <= x && x <= 57) || (65 <= x && x <= 90) || (97 <= x && x <= 122)
}

fn cookie_name_byte_exec(x: u8) -> (r: bool)
    ensures
        r == cookie_name_byte(x),
{
    is_alnum_exec(x) || x == 33 || x == 35 || x == 36 || x == 37 || x == 38 || x == 39 || x == 42
        || x == 43 || x == 45 || x == 46 || x == 94 || x == 95 || x == 96 || x == 124 || x == 126
}

fn cookie_value_byte_exec(x: u8) -> (r: bool)
    ensures
        r == cookie_value_byte(x),
{
    0x21 <= x && x <= 0x7e && x != 34 && x != 44 && x != 59 && x != 92
}

fn valid_name_range(b: &[u8], lo: usize, hi: usize) -> (r: bool)
    requires
        lo <= hi <= b@.len(),
    ensures
        r == valid_cookie_name(b@.subrange(lo as int, hi as int)),
{
    if lo == hi {
        return false;
    }
    let mut i = lo;
    while i < hi
        invariant
            lo <= i <= hi <= b@.len(),
            forall|k: int| lo <= k < i ==> cookie_name_byte(#[trigger] b@[k]),
        decreases hi - i,
    {
        if !cookie_name_byte_exec(b[i]) {
            assert(!cookie_name_byte(b@.subrange(lo as int, hi as int)[i - lo]));
            return false;
        }
        i += 1;
    }
    assert forall|k: int| 0 <= k < hi - lo implies cookie_name_byte(
        #[trigger] b@.subrange(lo as int, hi as int)[k],
    ) by {
        assert(cookie_name_byte(b@[lo + k]));
    }
    true
}

fn valid_value_range(b: &[u8], lo: usize, hi: usize) -> (r: bool)
    requires
        lo <= hi <= b@.len(),
    ensures
        r == valid_cookie_value(b@.subrange(lo as int, hi as int)),
{
    let mut i = lo;
    while i < hi
        invariant
            lo <= i <= hi <= b@.len(),
            forall|k: int| lo <= k < i ==> cookie_value_byte(#[trigger] b@[k]),
        decreases hi - i,
    {
        if !cookie_value_byte_exec(b[i]) {
            assert(!cookie_value_byte(b@.subrange(lo as int, hi as int)[i - lo]));
            return false;
        }
        i += 1;
    }
    assert forall|k: int| 0 <= k < hi - lo implies cookie_value_byte(
        #[trigger] b@.subrange(lo as int, hi as int)[k],
    ) by {
        assert(cookie_value_byte(b@[lo + k]));
    }
    true
}

/// Whether `name` may be a cookie name.
pub fn is_valid_cookie_name(name: &str) -> (r: bool)
    ensures
        r == valid_cookie_name(name.spec_bytes()),
{
    let b = name.as_bytes();
    let r = valid_name_range(b, 0, b.len());
    assert(b@.subrange(0, b@.len() as int) =~= b@);
    r
}

/// Whether `value` may be a cookie value.
pub fn is_valid_cookie_value(value: &str) -> (r: bool)
    ensures
        r == valid_cookie_value(value.spec_bytes()),
{
    let b = value.as_bytes();
    let r = valid_value_range(b, 0, b.len());
    assert(b@.subrange(0, b@.len() as int) =~= b@);
    r
}

/// Whether `path` may be a cookie path.
pub fn is_valid_cookie_path(path: &str) -> (r: bool)
    ensures
        r == valid_cookie_path(path.spec_bytes()),
{
    let b = path.as_bytes();
    if b.len() == 0 || b[0] != 47 {
        return false;
    }
    let mut i: usize = 0;
    while i < b.len()
        invariant
            i <= b@.len(),
            b@ == path.spec_bytes(),
            b@.len() > 0 && b@[0] == 47,
            forall|k: int| 0 <= k < i ==> 0x20 <= #[trigger] b@[k] <= 0x7e && b@[k] != 59,
        decreases b@.len() - i,
    {
        let x = b[i];
        if x < 0x20 || x > 0x7e || x == 59 {
            assert(!(0x20 <= b@[i as int] <= 0x7e && b@[i as int] != 59));
            return false;
        }
        i += 1;
    }
    true
}

fn valid_label_range(b: &[u8], lo: usize, hi: usize) -> (r: bool)
    requires
        lo <= hi <= b@.len(),
    ensures
        r == valid_label(b@.subrange(lo as int, hi as int)),
{
    let ghost l = b@.subrange(lo as int, hi as int);
    if hi == lo || hi - lo > 63 || b[lo] == 45 || b[hi - 1] == 45 {
        return false;
    }
    let mut i = lo;
    while i < hi
        invariant
            lo <= i <= hi <= b@.len(),
            l == b@.subrange(lo as int, hi as int),
            forall|k: int| lo <= k < i ==> is_alnum(#[trigger] b@[k]) || b@[k] == 45,
        decreases hi - i,
    {
        if !(is_alnum_exec(b[i]) || b[i] == 45) {
            assert(!(is_alnum(l[i - lo]) || l[i - lo] == 45));
            return false;
        }
        i += 1;
    }
    assert forall|k: int| 0 <= k < l.len() implies is_alnum(#[trigger] l[k]) || l[k] == 45 by {
        assert(l[k] == b@[lo + k]);
    }
    true
}

fn labels_valid_range(b: &[u8], lo: usize, hi: usize) -> (r: bool)
    requires
        lo <= hi <= b@.len(),
    ensures
        r == labels_valid(b@.subrange(lo as int, hi as int)),
{
    let ghost d = b@.subrange(lo as int, hi as int);
    let n = hi - lo;
    let mut seg: usize = 0;
    let mut j: usize = 0;
    proof {
        assert(d.subrange(0, 0) =~= Seq::<u8>::empty());
        assert(split_bytes(d.subrange(0, 0), 46) == seq![Seq::<u8>::empty()]);
    }
    while j < n
        invariant
            lo <= hi <= b@.len(),
            n == hi - lo,
            d == b@.subrange(lo as int, hi as int),
            seg <= j <= n,
            split_bytes(d.subrange(0, j as int), 46).last() == d.subrange(seg as int, j as int),
            forall|k: int|
                0 <= k < split_bytes(d.subrange(0, j as int), 46).len() - 1 ==> valid_label(
                    #[trigger] split_bytes(d.subrange(0, j as int), 46)[k],
                ),
        decreases n - j,
    {
        proof {
            lemma_split_nonempty(d.subrange(0, j as int), 46);
        }
        if b[lo + j] == 46 {
            let ok = valid_label_range(b, lo + seg, lo + j);
            assert(b@.subrange(lo + seg, lo + j) =~= d.subrange(seg as int, j as int));
            proof {
                lemma_split_at_sep(d, 46, j as int);
            }
            if !ok {
                proof {
                    let p = split_bytes(d.subrange(0, j as int), 46);
                    lemma_split_prefix_stable(d, 46, j + 1, n as int);
                    assert(d.subrange(0, n as int) =~= d);
                    assert(split_bytes(d, 46)[p.len() - 1] == p.last());
                }
                return false;
            }
            seg = j + 1;
            j += 1;
            assert(d.subrange(seg as int, j as int) =~= Seq::<u8>::empty());
        } else {
            proof {
                lemma_split_last_extend(d, 46, seg as int, j as int);
            }
            j += 1;
        }
    }
    let ok = valid_label_range(b, lo + seg, hi);
    assert(b@.subrange(lo + seg, hi as int) =~= d.subrange(seg as int, n as int));
    assert(d.subrange(0, n as int) =~= d);
    proof {
        lemma_split_nonempty(d, 46);
    }
    ok
}

/// Whether `domain` may be a cookie domain.
pub fn is_valid_cookie_domain(domain: &str) -> (r: bool)
    ensures
        r == valid_cookie_domain(domain.spec_bytes()),
{
    let b = domain.as_bytes();
    if b.len() == 0 {
        return true;
    }
    let lo: usize = if b[0] == 46 {
        1
    } else {
        0
    };
    assert(b@.subrange(lo as int, b@.len() as int) =~= strip_dot(b@));
    if b.len() - lo == 0 || b.len() - lo > 253 {
        return false;
    }
    labels_valid_range(b, lo, b.len())
}

// ---------------------------------------------------------------------------
// Building a Set-Cookie value
// ---------------------------------------------------------------------------

pub open spec fn samesite_text(s: SameSite) -> Seq<char> {
    match s {
        SameSite::Lax => "SameSite=Lax"@,
        SameSite::Strict => "SameSite=Strict"@,
        SameSite::NoRestriction => "SameSite=None"@,
    }
}

/// The `Set-Cookie` value of a cookie: `name=value;Path=path;`, then
/// `Domain=domain;` when a domain is set, `HttpOnly;` and `Secure;` when set,
/// `Max-Age=seconds;` when set, and last the `SameSite` attribute.
pub open spec fn build_spec(c: CookieView) -> Seq<char> {
    c.name + "="@ + c.value + ";"@ + "Path="@ + c.path + ";"@ + (if c.domain.len() > 0 {
        "Domain="@ + c.domain + ";"@
    } else {
        Seq::<char>::empty()
    }) + (if c.http_only {
        "HttpOnly;"@
    } else {
        Seq::<char>::empty()
    }) + (if c.secure {
        "Secure;"@
    } else {
        Seq::<char>::empty()
    }) + (match c.max_age {
        Some(n) => "Max-Age="@ + ascii_chars(decimal(n as nat)) + ";"@,
        None => Seq::<char>::empty(),
    }) + samesite_text(c.samesite)
}

/// Whether `s` ends with `t`.
pub open spec fn ends_with(s: Seq<char>, t: Seq<char>) -> bool {
    s.len() >= t.len() && s.subrange(s.len() - t.len(), s.len() as int) == t
}

/// The `Set-Cookie` value ends with the `SameSite` attribute the cookie
/// holds: `SameSite=Strict`, `SameSite=Lax` or `SameSite=None`.
pub proof fn lemma_build_ends_with_samesite(c: CookieView)
    ensures
        c.samesite == SameSite::Strict ==> ends_with(build_spec(c), "SameSite=Strict"@),
        c.samesite == SameSite::Lax ==> ends_with(build_spec(c), "SameSite=Lax"@),
        c.samesite == SameSite::NoRestriction ==> ends_with(build_spec(c), "SameSite=None"@),
{
    let b = build_spec(c);
    let t = samesite_text(c.samesite);
    let pre = b.subrange(0, b.len() - t.len());
    assert(b =~= pre + t);
    assert(b.subrange(b.len() - t.len(), b.len() as int) =~= t);
}

impl Cookie {
    /// A cookie with no name or value, path `/`, no domain, `HttpOnly`, not
    /// `Secure`, no `Max-Age` and `SameSite=Lax`.
    pub fn new() -> (c: Self)
        ensures
            c@.name == Seq::<char>::empty(),
            c@.value == Seq::<char>::empty(),
            c@.path == "/"@,
            c@.domain == Seq::<char>::empty(),
            c@.http_only,
            !c@.secure,
            c@.max_age is None,
            c@.samesite == SameSite::Lax,
    {
        Cookie {
            name: String::new(),
            value: String::new(),
            path: "/".to_owned(),
            domain: String::new(),
            http_only: true,
            secure: false,
            max_age: None,
            samesite: SameSite::Lax,
        }
    }

    /// Sets name and value; refused, with the cookie unchanged, unless the
    /// name is a token and the value holds only cookie-value bytes.
    pub fn set_name_value(&mut self, name: &str, value: &str) -> (res: Result<(), HttpError>)
        ensures
            res is Ok <==> valid_cookie_name(name.spec_bytes()) && valid_cookie_value(
                value.spec_bytes(),
            ),
            res is Ok ==> final(self)@ == (CookieView { name: name@, value: value@, ..old(self)@ }),
            res matches Err(e) ==> e == HttpError::InvalidCookie && final(self)@ == old(self)@,
    {
        if is_valid_cookie_name(name) && is_valid_cookie_value(value) {
            self.name = name.to_owned();
            self.value = value.to_owned();
            Ok(())
        } else {
            Err(HttpError::InvalidCookie)
        }
    }

    /// Sets the path; refused, with the cookie unchanged, unless it is valid.
    pub fn set_path(&mut self, path: String) -> (res: Result<(), HttpError>)
        ensures
            res is Ok <==> valid_cookie_path(vstd::utf8::encode_utf8(path@)),
            res is Ok ==> final(self)@ == (CookieView { path: path@, ..old(self)@ }),
            res matches Err(e) ==> e == HttpError::InvalidCookie && final(self)@ == old(self)@,
    {
        let ok = is_valid_cookie_path(path.as_str());
        if ok {
            self.path = path;
            Ok(())
        } else {
            Err(HttpError::InvalidCookie)
        }
    }

    /// Sets the domain; refused, with the cookie unchanged, unless it is valid.
    pub fn set_domain(&mut self, domain: &str) -> (res: Result<(), HttpError>)
        ensures
            res is Ok <==> valid_cookie_domain(domain.spec_bytes()),
            res is Ok ==> final(self)@ == (CookieView { domain: domain@, ..old(self)@ }),
            res matches Err(e) ==> e == HttpError::InvalidCookie && final(self)@ == old(self)@,
    {
        if is_valid_cookie_domain(domain) {
            self.domain = domain.to_owned();
            Ok(())
        } else {
            Err(HttpError::InvalidCookie)
        }
    }

    pub fn set_http_only(&mut self, http_only: bool)
        ensures
            final(self)@ == (CookieView { http_only, ..old(self)@ }),
    {
        self.http_only = http_only
    }

    pub fn set_secure(&mut self, secure: bool)
        ensures
            final(self)@ == (CookieView { secure, ..old(self)@ }),
    {
        self.secure = secure;
    }

    /// Sets `Max-Age` to `seconds`, the whole seconds of the cookie's lifetime
    /// (a `Duration`'s `as_secs`).
    pub fn set_max_age(&mut self, seconds: u64)
        ensures
            final(self)@ == (CookieView { max_age: Some(seconds), ..old(self)@ }),
    {
        self.max_age = Some(seconds);
    }

    pub fn samesite(&mut self, samesite: SameSite)
        ensures
            final(self)@ == (CookieView { samesite, ..old(self)@ }),
    {
        self.samesite = samesite
    }

    /// The `Set-Cookie` header value (see `build_spec`).
    #[verifier::rlimit(40)]
    pub fn build(&self) -> (result: String)
        ensures
            result@ == build_spec(self@),
            self@.samesite == SameSite::Strict ==> ends_with(result@, "SameSite=Strict"@),
            self@.samesite == SameSite::Lax ==> ends_with(result@, "SameSite=Lax"@),
            self@.samesite == SameSite::NoRestriction ==> ends_with(result@, "SameSite=None"@),
    {
        let mut result = String::new();
        result.append(self.name.as_str());
        result.append("=");
        result.append(self.value.as_str());
        result.append(";");
        result.append("Path=");
        result.append(self.path.as_str());
        result.append(";");
        let ghost base = result@;
        assert(base =~= self@.name + "="@ + self@.value + ";"@ + "Path="@ + self@.path + ";"@);
        if !self.domain.as_str().is_empty() {
            result.append("Domain=");
            result.append(self.domain.as_str());
            result.append(";");
        }
        let ghost d = result@;
        assert(d =~= base + domain_part(self@));
        if self.http_only {
            result.append("HttpOnly;");
        }
        if self.secure {
            result.append("Secure;");
        }
        let ghost f = result@;
        assert(f =~= d + flags_part(self@));
        match self.max_age {
            Some(n) => {
                let mut digits: Vec<u8> = Vec::new();
                push_decimal(&mut digits, n);
                proof {
                    lemma_decimal_ascii(n as nat);
                    assert(digits@ =~= decimal(n as nat));
                }
                let text = ascii_string(digits);
                result.append("Max-Age=");
                result.append(text.as_str());
                result.append(";");
            },
            None => {},
        }
        let ghost a = result@;
        assert(a =~= f + age_part(self@));
        match self.samesite {
            SameSite::Lax => result.append("SameSite=Lax"),
            SameSite::Strict => result.append("SameSite=Strict"),
            SameSite::NoRestriction => result.append("SameSite=None"),
        }
        assert(result@ =~= a + samesite_text(self@.samesite));
        proof {
            lemma_build_parts(self@);
            lemma_build_ends_with_samesite(self@);
        }
        result
    }
}

pub open spec fn domain_part(c: CookieView) -> Seq<char> {
    if c.domain.len() > 0 {
        "Domain="@ + c.domain + ";"@
    } else {
        Seq::<char>::empty()
    }
}

pub open spec fn flags_part(c: CookieView) -> Seq<char> {
    (if c.http_only {
        "HttpOnly;"@
    } else {
        Seq::<char>::empty()
    }) + (if c.secure {
        "Secure;"@
    } else {
        Seq::<char>::empty()
    })
}

pub open spec fn age_part(c: CookieView) -> Seq<char> {
    match c.max_age {
        Some(n) => "Max-Age="@ + ascii_chars(decimal(n as nat)) + ";"@,
        None => Seq::<char>::empty(),
    }
}

proof fn lemma_build_parts(c: CookieView)
    ensures
        build_spec(c) == c.name + "="@ + c.value + ";"@ + "Path="@ + c.path + ";"@ + domain_part(c)
            + flags_part(c) + age_part(c) + samesite_text(c.samesite),
{
    assert(build_spec(c) =~= c.name + "="@ + c.value + ";"@ + "Path="@ + c.path + ";"@
        + domain_part(c) + flags_part(c) + age_part(c) + samesite_text(c.samesite));
}

// ---------------------------------------------------------------------------
// Reading a Cookie header
// ---------------------------------------------------------------------------

/// One `name=value` pair of a `Cookie` header: split at the first `=`, space
/// and tab trimmed from both parts, then both parts checked.
pub open spec fn cookie_pair(p: Seq<u8>) -> Option<(Seq<u8>, Seq<u8>)> {
    match find_first(p, 61) {
        Some(e) => {
            let name = trim(p.subrange(0, e), false);
            let value = trim(p.subrange(e + 1, p.len() as int), false);
            if valid_cookie_name(name) && valid_cookie_value(value) {
                Some((name, value))
            } else {
                None
            }
        },
        None => None,
    }
}

/// A `Cookie` header value read as `;`-separated pairs: `None` as soon as one
/// pair is malformed.
pub open spec fn cookie_pairs(b: Seq<u8>) -> Option<Seq<(Seq<u8>, Seq<u8>)>> {
    let pieces = split_bytes(b, 59);
    if forall|k: int| 0 <= k < pieces.len() ==> (#[trigger] cookie_pair(pieces[k])) is Some {
        Some(Seq::new(pieces.len(), |k: int| cookie_pair(pieces[k])->0))
    } else {
        None
    }
}

fn ascii_str<'a>(b: &'a [u8], lo: usize, hi: usize) -> (s: &'a str)
    requires
        lo <= hi <= b@.len(),
        ascii_bytes(b@.subrange(lo as int, hi as int)),
    ensures
        s.spec_bytes() == b@.subrange(lo as int, hi as int),
        s@ == ascii_chars(b@.subrange(lo as int, hi as int)),
{
    proof {
        lemma_ascii_utf8(b@.subrange(lo as int, hi as int));
    }
    match str_from_utf8(&b[lo..hi]) {
        Ok(s) => s,
        Err(_) => {
            proof {
                assert(false);
            }
            ""
        },
    }
}

fn parse_pair<'a>(b: &'a [u8], lo: usize, hi: usize) -> (r: Option<(&'a str, &'a str)>)
    requires
        lo <= hi <= b@.len(),
    ensures
        match r {
            Some(kv) => cookie_pair(b@.subrange(lo as int, hi as int)) == Some(
                (kv.0.spec_bytes(), kv.1.spec_bytes()),
            ),
            None => cookie_pair(b@.subrange(lo as int, hi as int)) is None,
        },
{
    let ghost p = b@.subrange(lo as int, hi as int);
    match find_byte(b, lo, hi, 61) {
        Some(e) => {
            let (ns, ne) = trim_range(b, lo, e, false);
            let (vs, ve) = trim_range(b, e + 1, hi, false);
            assert(p.subrange(0, e - lo) =~= b@.subrange(lo as int, e as int));
            assert(p.subrange(e - lo + 1, p.len() as int) =~= b@.subrange(e + 1, hi as int));
            let name_ok = valid_name_range(b, ns, ne);
            let value_ok = valid_value_range(b, vs, ve);
            if name_ok && value_ok {
                proof {
                    let nb = b@.subrange(ns as int, ne as int);
                    let vb = b@.subrange(vs as int, ve as int);
                    assert forall|i: int| 0 <= i < nb.len() implies #[trigger] nb[i] < 128 by {
                        assert(cookie_name_byte(nb[i]));
                    }
                    assert forall|i: int| 0 <= i < vb.len() implies #[trigger] vb[i] < 128 by {
                        assert(cookie_value_byte(vb[i]));
                    }
                }
                let name = ascii_str(b, ns, ne);
                let value = ascii_str(b, vs, ve);
                Some((name, value))
            } else {
                None
            }
        },
        None => None,
    }
}

/// Reads the pairs of a `Cookie` header in order, duplicates included;
/// refused when any `;`-separated piece lacks `=` or has an invalid name or
/// value (see `cookie_pairs`).
pub fn parse_cookie(value: &str) -> (res: Result<Vec<(&str, &str)>, HttpError>)
    ensures
        res is Ok <==> cookie_pairs(value.spec_bytes()) is Some,
        res matches Ok(v) ==> v@.len() == cookie_pairs(value.spec_bytes())->0.len() && forall|
            k: int,
        |
            0 <= k < v@.len() ==> (#[trigger] v@[k]).0.spec_bytes() == cookie_pairs(
                value.spec_bytes(),
            )->0[k].0 && v@[k].1.spec_bytes() == cookie_pairs(value.spec_bytes())->0[k].1,
        res matches Err(e) ==> e == HttpError::InvalidCookie,
{
    let b = value.as_bytes();
    let ghost d = b@;
    let n = b.len();
    let mut kv: Vec<(&str, &str)> = Vec::new();
    let mut seg: usize = 0;
    let mut j: usize = 0;
    proof {
        assert(d.subrange(0, 0) =~= Seq::<u8>::empty());
    }
    while j < n
        invariant
            d == b@,
            d == value.spec_bytes(),
            n == d.len(),
            seg <= j <= n,
            split_bytes(d.subrange(0, j as int), 59).last() == d.subrange(seg as int, j as int),
            kv@.len() == split_bytes(d.subrange(0, j as int), 59).len() - 1,
            forall|k: int|
                0 <= k < kv@.len() ==> cookie_pair(
                    #[trigger] split_bytes(d.subrange(0, j as int), 59)[k],
                ) == Some(((#[trigger] kv@[k]).0.spec_bytes(), kv@[k].1.spec_bytes())),
        decreases n - j,
    {
        proof {
            lemma_split_nonempty(d.subrange(0, j as int), 59);
        }
        if b[j] == 59 {
            let ghost prev = split_bytes(d.subrange(0, j as int), 59);
            let pair = parse_pair(b, seg, j);
            proof {
                lemma_split_at_sep(d, 59, j as int);
            }
            match pair {
                Some(p) => {
                    kv.push(p);
                },
                None => {
                    proof {
                        lemma_split_prefix_stable(d, 59, j + 1, n as int);
                        assert(d.subrange(0, n as int) =~= d);
                        assert(split_bytes(d, 59)[prev.len() - 1] == prev.last());
                        assert(cookie_pair(split_bytes(d, 59)[prev.len() - 1]) is None);
                    }
                    return Err(HttpError::InvalidCookie);
                },
            }
            seg = j + 1;
            j += 1;
            assert(d.subrange(seg as int, j as int) =~= Seq::<u8>::empty());
        } else {
            proof {
                lemma_split_last_extend(d, 59, seg as int, j as int);
            }
            j += 1;
        }
    }
    assert(d.subrange(0, n as int) =~= d);
    proof {
        lemma_split_nonempty(d, 59);
    }
    let pair = parse_pair(b, seg, n);
    match pair {
        Some(p) => {
            kv.push(p);
            proof {
                let pieces = split_bytes(d, 59);
                assert forall|k: int| 0 <= k < pieces.len() implies (#[trigger] cookie_pair(
                    pieces[k],
                )) is Some by {
                    if k < pieces.len() - 1 {
                        assert(cookie_pair(pieces[k]) == Some(
                            (kv@[k].0.spec_bytes(), kv@[k].1.spec_bytes()),
                        ));
                    }
                }
            }
            Ok(kv)
        },
        None => Err(HttpError::InvalidCookie),
    }
}

/// A cookie read back: a `Cookie` header that holds just `name=value`, for
/// a valid cookie name and value, reads as that one pair.
pub proof fn lemma_cookie_read_back(name: Seq<u8>, value: Seq<u8>)
    requires
        valid_cookie_name(name),
        valid_cookie_value(value),
    ensures
        cookie_pairs(name + seq![61u8] + value) == Some(seq![(name, value)]),
{
    let b = name + seq![61u8] + value;
    let k = name.len() as int;
    assert forall|i: int| 0 <= i < b.len() implies b[i] != 59 by {
        if i < k {
            assert(cookie_name_byte(name[i]));
        } else if i > k {
            assert(b[i] == value[i - k - 1]);
            assert(cookie_value_byte(value[i - k - 1]));
        }
    }
    crate::bytes::lemma_split_whole(b, 59);
    crate::bytes::lemma_find_first_bound(b, 61);
    assert forall|i: int| 0 <= i < k implies b[i] != 61 by {
        assert(cookie_name_byte(name[i]));
    }
    assert(b[k] == 61);
    assert(find_first(b, 61) == Some(k));
    assert(b.subrange(0, k) =~= name);
    assert(b.subrange(k + 1, b.len() as int) =~= value);
    assert(cookie_name_byte(name[0]));
    assert(cookie_name_byte(name[k - 1]));
    assert(trim_start(name, false) == name);
    assert(trim_end(name, false) == name);
    if value.len() > 0 {
        assert(cookie_value_byte(value[0]));
        assert(cookie_value_byte(value[value.len() - 1]));
    }
    assert(trim_start(value, false) == value);
    assert(trim_end(value, false) == value);
    assert(cookie_pair(b) == Some((name, value)));
    let pieces = split_bytes(b, 59);
    assert(pieces =~= seq![b]);
    assert(Seq::new(pieces.len(), |j: int| cookie_pair(pieces[j])->0) =~= seq![(name, value)]);
}

} // verus!
