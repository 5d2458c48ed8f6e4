//! The head of an HTTP/1.1 request: where the request line and the header
//! block end, the request line's three words, the header fields and the
//! declared body length.
use vstd::prelude::*;
use vstd::utf8::*;
use vstd::string::StringSliceAdditionalSpecFns;
use crate::bytes::{
    ascii_lower, eq_ignore_case, eq_ignore_case_exec, find_byte, find_first, lemma_valid_cut,
    lemma_valid_pop_ws, lemma_valid_subrange, lemma_ws_starts_char, parse_unsigned,
    parse_unsigned_exec, trim, trim_range, trim_start, uni_ws_len, ws_len, ws_len_exec,
    bytes_eq_exec,
};
use crate::text::str_from_utf8;

verus! {

/// Why the head of a request was refused.
#[derive(Debug, Clone, Copy, PartialEq, Eq, Structural)]
pub enum HeadError {
    InvalidUtf8,
    MethodParseError,
    ContentLengthParseIntError,
    RequestHeaderInvalid,
    RequestLineInvalid,
    RequestHttpVersionInvalid,
    ContentLengthSizeError,
}

// ---------------------------------------------------------------------------
// Framing: the request line and the header block
// ---------------------------------------------------------------------------

pub open spec fn crlf_at(d: Seq<u8>, i: int) -> bool {
    0 <= i && i + 2 <= d.len() && d[i] == 13 && d[i + 1] == 10
}

pub open spec fn crlf2_at(d: Seq<u8>, i: int) -> bool {
    0 <= i && i + 4 <= d.len() && d[i] == 13 && d[i + 1] == 10 && d[i + 2] == 13 && d[i + 3] == 10
}

/// The scan for the end of the request line and of the header block, from
/// byte `index` on, when the request line found so far is `rl` bytes long (0:
/// none yet, or an empty one). The request line ends at the first CRLF; the
/// header block at the first CRLF CRLF that starts at least two bytes after
/// the request line. `Some((request line length, header block end))`.
pub open spec fn scan(d: Seq<u8>, index: int, rl: int) -> Option<(int, int)>
    decreases d.len() + 3 - index,
{
    if index < 0 || index >= d.len() {
        None
    } else {
        let (i2, rl2) = if rl == 0 && crlf_at(d, index) {
            (index + 2, index)
        } else {
            (index, rl)
        };
        if rl2 + 2 <= i2 && crlf2_at(d, i2) {
            Some((rl2, i2))
        } else {
            scan(d, i2 + 1, rl2)
        }
    }
}

/// Where the request line and the header block of `d` end.
pub open spec fn frame(d: Seq<u8>) -> Option<(int, int)> {
    scan(d, 0, 0)
}

pub(crate) proof fn lemma_scan_bounds(d: Seq<u8>, index: int, rl: int)
    requires
        0 <= rl <= index,
    ensures
        scan(d, index, rl) matches Some((r, h)) ==> 0 <= r && r + 2 <= h && h + 4 <= d.len() && (
        rl > 0 ==> r == rl),
    decreases d.len() + 3 - index,
{
    if 0 <= index < d.len() {
        let (i2, rl2) = if rl == 0 && crlf_at(d, index) {
            (index + 2, index)
        } else {
            (index, rl)
        };
        if !(rl2 + 2 <= i2 && crlf2_at(d, i2)) {
            lemma_scan_bounds(d, i2 + 1, rl2);
        }
    }
}

/// Finds where the request line and the header block end (see `frame`).
fn frame_exec(d: &[u8]) -> (r: Option<(usize, usize)>)
    ensures
        match r {
            Some((rl, h)) => frame(d@) == Some((rl as int, h as int)),
            None => frame(d@) is None,
        },
{
    let n = d.len();
    let mut rl: usize = 0;
    let mut index: usize = 0;
    while index < n
        invariant
            n == d@.len(),
            rl <= index,
            index <= n,
            frame(d@) == scan(d@, index as int, rl as int),
        decreases n - index,
    {
        let ghost i0 = index as int;
        let ghost r0 = rl as int;
        if rl == 0 && n - index >= 2 && d[index] == 13 && d[index + 1] == 10 {
            rl = index;
            index += 2;
        }
        assert(crlf_at(d@, i0) == (n - i0 >= 2 && d@[i0] == 13 && d@[i0 + 1] == 10));
        if index >= 2 && rl <= index - 2 && index <= n && n - index >= 4 && d[index] == 13 && d[index
            + 1] == 10 && d[index + 2] == 13 && d[index + 3] == 10 {
            return Some((rl, index));
        }
        assert(scan(d@, i0, r0) == scan(d@, index + 1, rl as int));
        if index >= n {
            return None;
        }
        index += 1;
    }
    None
}

// ---------------------------------------------------------------------------
// The request line
// ---------------------------------------------------------------------------

/// Length of the word at the start of `b` (up to the first white space).
pub open spec fn token_len(b: Seq<u8>) -> int
    decreases b.len(),
{
    if b.len() == 0 || uni_ws_len(b, 0) > 0 {
        0
    } else {
        1 + token_len(b.subrange(1, b.len() as int))
    }
}

/// The words of `b` as `str::split_whitespace` gives them: the maximal runs
/// without Unicode white space.
pub open spec fn tokens(b: Seq<u8>) -> Seq<Seq<u8>>
    decreases b.len(),
{
    let s = trim_start(b, true);
    let t = token_len(s);
    if s.len() == 0 {
        seq![]
    } else if 0 < t <= s.len() && s.len() <= b.len() {
        seq![s.subrange(0, t)] + tokens(s.subrange(t, s.len() as int))
    } else {
        seq![]
    }
}

pub proof fn lemma_trim_start_len(b: Seq<u8>, wide: bool)
    ensures
        trim_start(b, wide).len() <= b.len(),
        trim_start(b, wide).len() > 0 ==> ws_len(trim_start(b, wide), 0, wide) == 0,
    decreases b.len(),
{
    let l = ws_len(b, 0, wide);
    if l > 0 {
        lemma_ws_starts_char(b, 0, wide);
        lemma_trim_start_len(b.subrange(l, b.len() as int), wide);
    }
}

proof fn lemma_token_len(b: Seq<u8>)
    ensures
        0 <= token_len(b) <= b.len(),
        b.len() > 0 && uni_ws_len(b, 0) == 0 ==> token_len(b) > 0,
    decreases b.len(),
{
    if !(b.len() == 0 || uni_ws_len(b, 0) > 0) {
        lemma_token_len(b.subrange(1, b.len() as int));
    }
}

/// The first word of `b[pos..hi]` and where it ends.
fn next_token(b: &[u8], pos: usize, hi: usize) -> (r: Option<(usize, usize)>)
    requires
        pos <= hi <= b@.len(),
    ensures
        match r {
            None => tokens(b@.subrange(pos as int, hi as int)) == Seq::<Seq<u8>>::empty(),
            Some((s, e)) => pos <= s < e <= hi && tokens(b@.subrange(pos as int, hi as int)) == seq![
                b@.subrange(s as int, e as int),
            ] + tokens(b@.subrange(e as int, hi as int)) && (valid_utf8(
                b@.subrange(pos as int, hi as int),
            ) ==> valid_utf8(b@.subrange(s as int, e as int)) && valid_utf8(
                b@.subrange(e as int, hi as int),
            )),
        },
{
    let ghost whole = b@.subrange(pos as int, hi as int);
    let mut s = pos;
    loop
        invariant
            pos <= s <= hi <= b@.len(),
            whole == b@.subrange(pos as int, hi as int),
            trim_start(whole, true) == trim_start(b@.subrange(s as int, hi as int), true),
            valid_utf8(whole) ==> valid_utf8(b@.subrange(s as int, hi as int)),
        ensures
            pos <= s <= hi,
            trim_start(whole, true) == b@.subrange(s as int, hi as int),
            valid_utf8(whole) ==> valid_utf8(b@.subrange(s as int, hi as int)),
        decreases hi - s,
    {
        let l = ws_len_exec(b, s, s, hi, true);
        let ghost t = b@.subrange(s as int, hi as int);
        if l == 0 {
            assert(trim_start(t, true) == t);
            break;
        }
        proof {
            assert(t.subrange(l as int, t.len() as int) =~= b@.subrange(s + l, hi as int));
            if valid_utf8(whole) {
                lemma_valid_pop_ws(t, true);
            }
        }
        s = s + l;
    }
    let ghost t = b@.subrange(s as int, hi as int);
    proof {
        lemma_trim_start_len(whole, true);
    }
    if s == hi {
        assert(t.len() == 0);
        return None;
    }
    let mut e = s;
    while e < hi && ws_len_exec(b, e, e, hi, true) == 0
        invariant
            pos <= s <= e <= hi <= b@.len(),
            t == b@.subrange(s as int, hi as int),
            token_len(t) == (e - s) + token_len(b@.subrange(e as int, hi as int)),
        decreases hi - e,
    {
        proof {
            let u = b@.subrange(e as int, hi as int);
            assert(uni_ws_len(u, 0) == 0);
            assert(u.subrange(1, u.len() as int) =~= b@.subrange(e + 1, hi as int));
        }
        e += 1;
    }
    proof {
        let u = b@.subrange(e as int, hi as int);
        assert(token_len(u) == 0);
        lemma_token_len(t);
        assert(t.subrange(0, e - s) =~= b@.subrange(s as int, e as int));
        assert(t.subrange(e - s, t.len() as int) =~= b@.subrange(e as int, hi as int));
        if valid_utf8(whole) {
            if e < hi {
                lemma_ws_starts_char(u, 0, true);
                assert(u[0] == t[e - s]);
                lemma_valid_cut(t, 0, e - s);
                lemma_valid_cut(t, e - s, t.len() as int);
            } else {
                assert(t.subrange(0, e - s) =~= t);
                assert(b@.subrange(e as int, hi as int) =~= Seq::<u8>::empty());
            }
        }
    }
    Some((s, e))
}

/// The method named by a word: 0 GET, 1 POST, and when `extended` also
/// 2 PUT, 3 PATCH, 4 DELETE.
pub open spec fn method_code(w: Seq<u8>, extended: bool) -> Option<u8> {
    if w == seq![71u8, 69u8, 84u8] {
        Some(0)
    } else if w == seq![80u8, 79u8, 83u8, 84u8] {
        Some(1)
    } else if extended && w == seq![80u8, 85u8, 84u8] {
        Some(2)
    } else if extended && w == seq![80u8, 65u8, 84u8, 67u8, 72u8] {
        Some(3)
    } else if extended && w == seq![68u8, 69u8, 76u8, 69u8, 84u8, 69u8] {
        Some(4)
    } else {
        None
    }
}

/// The request line read as method, target and version:
/// `Err(InvalidUtf8)` when not UTF-8, `Err(MethodParseError)` when the first
/// word is no known method, `Err(RequestLineInvalid)` unless there are
/// exactly three words.
pub open spec fn request_line_spec(rl: Seq<u8>, extended: bool) -> Result<
    (u8, Seq<u8>, Seq<u8>),
    HeadError,
> {
    if !valid_utf8(rl) {
        Err(HeadError::InvalidUtf8)
    } else {
        let ts = tokens(rl);
        let m = if ts.len() > 0 {
            ts[0]
        } else {
            Seq::<u8>::empty()
        };
        let target = if ts.len() > 1 {
            ts[1]
        } else {
            Seq::<u8>::empty()
        };
        let version = if ts.len() > 2 {
            ts[2]
        } else {
            Seq::<u8>::empty()
        };
        match method_code(m, extended) {
            None => Err(HeadError::MethodParseError),
            Some(code) => if ts.len() > 3 || target.len() == 0 || version.len() == 0 {
                Err(HeadError::RequestLineInvalid)
            } else {
                Ok((code, target, version))
            },
        }
    }
}

fn method_code_exec(b: &[u8], s: usize, e: usize, extended: bool) -> (r: Option<u8>)
    requires
        s <= e <= b@.len(),
    ensures
        r == method_code(b@.subrange(s as int, e as int), extended),
{
    let ghost w = b@.subrange(s as int, e as int);
    let n = e - s;
    let r = if n == 3 && b[s] == 71 && b[s + 1] == 69 && b[s + 2] == 84 {
        Some(0u8)
    } else if n == 4 && b[s] == 80 && b[s + 1] == 79 && b[s + 2] == 83 && b[s + 3] == 84 {
        Some(1u8)
    } else if extended && n == 3 && b[s] == 80 && b[s + 1] == 85 && b[s + 2] == 84 {
        Some(2u8)
    } else if extended && n == 5 && b[s] == 80 && b[s + 1] == 65 && b[s + 2] == 84 && b[s + 3]
        == 67 && b[s + 4] == 72 {
        Some(3u8)
    } else if extended && n == 6 && b[s] == 68 && b[s + 1] == 69 && b[s + 2] == 76 && b[s + 3]
        == 69 && b[s + 4] == 84 && b[s + 5] == 69 {
        Some(4u8)
    } else {
        None
    };
    proof {
        assert(w.len() == n as int);
        assert(forall|k: int| 0 <= k < n ==> #[trigger] w[k] == b@[s + k]);
        if r is Some {
            if r == Some(0u8) {
                assert(w =~= seq![71u8, 69u8, 84u8]);
            } else if r == Some(1u8) {
                assert(w =~= seq![80u8, 79u8, 83u8, 84u8]);
            } else if r == Some(2u8) {
                assert(w =~= seq![80u8, 85u8, 84u8]);
            } else if r == Some(3u8) {
                assert(w =~= seq![80u8, 65u8, 84u8, 67u8, 72u8]);
            } else {
                assert(w =~= seq![68u8, 69u8, 76u8, 69u8, 84u8, 69u8]);
            }
        } else {
            if w == seq![71u8, 69u8, 84u8] {
                assert(w[0] == 71 && w[1] == 69 && w[2] == 84);
            }
            if w == seq![80u8, 79u8, 83u8, 84u8] {
                assert(w[0] == 80 && w[1] == 79 && w[2] == 83 && w[3] == 84);
            }
            if w == seq![80u8, 85u8, 84u8] {
                assert(w[0] == 80 && w[1] == 85 && w[2] == 84);
            }
            if w == seq![80u8, 65u8, 84u8, 67u8, 72u8] {
                assert(w[0] == 80 && w[1] == 65 && w[2] == 84 && w[3] == 67 && w[4] == 72);
            }
            if w == seq![68u8, 69u8, 76u8, 69u8, 84u8, 69u8] {
                assert(w[0] == 68 && w[1] == 69 && w[2] == 76 && w[3] == 69 && w[4] == 84 && w[5]
                    == 69);
            }
        }
    }
    r
}

/// The request line `b[0..rl]` read as method, target and version.
fn request_line_exec<'a>(b: &'a [u8], rl: usize, extended: bool) -> (r: Result<
    (u8, &'a str, &'a str),
    HeadError,
>)
    requires
        rl <= b@.len(),
    ensures
        match r {
            Ok((m, t, v)) => request_line_spec(b@.subrange(0, rl as int), extended) == Ok::<
                (u8, Seq<u8>, Seq<u8>),
                HeadError,
            >((m, t.spec_bytes(), v.spec_bytes())),
            Err(e) => request_line_spec(b@.subrange(0, rl as int), extended) == Err::<
                (u8, Seq<u8>, Seq<u8>),
                HeadError,
            >(e),
        },
{
    let ghost line = b@.subrange(0, rl as int);
    if str_from_utf8(&b[0..rl]).is_err() {
        return Err(HeadError::InvalidUtf8);
    }
    let t1 = next_token(b, 0, rl);
    let (ms, me, p1) = match t1 {
        Some((s, e)) => (s, e, e),
        None => (0, 0, rl),
    };
    let method = method_code_exec(b, ms, me, extended);
    let t2 = next_token(b, p1, rl);
    let (ts, te, p2) = match t2 {
        Some((s, e)) => (s, e, e),
        None => (0, 0, rl),
    };
    let t3 = next_token(b, p2, rl);
    let (vs, ve, p3) = match t3 {
        Some((s, e)) => (s, e, e),
        None => (0, 0, rl),
    };
    let t4 = next_token(b, p3, rl);
    proof {
        assert(b@.subrange(0, rl as int) =~= line);
        assert(b@.subrange(rl as int, rl as int) =~= Seq::<u8>::empty());
        assert(b@.subrange(0, 0) =~= Seq::<u8>::empty());
        reveal_with_fuel(tokens, 1);
        assert(tokens(Seq::<u8>::empty()) =~= Seq::<Seq<u8>>::empty());
    }
    let ghost ts_all = tokens(line);
    proof {
        if t1 is Some {
            if t2 is Some {
                if t3 is Some {
                    assert(ts_all[0] == b@.subrange(ms as int, me as int));
                    assert(ts_all[1] == b@.subrange(ts as int, te as int));
                    assert(ts_all[2] == b@.subrange(vs as int, ve as int));
                    if t4 is Some {
                        assert(ts_all.len() > 3);
                    } else {
                        assert(ts_all.len() == 3);
                    }
                } else {
                    assert(ts_all =~= seq![
                        b@.subrange(ms as int, me as int),
                        b@.subrange(ts as int, te as int),
                    ]);
                }
            } else {
                assert(ts_all =~= seq![b@.subrange(ms as int, me as int)]);
            }
        } else {
            assert(ts_all.len() == 0);
        }
    }
    let code = match method {
        Some(c) => c,
        None => {
            return Err(HeadError::MethodParseError);
        },
    };
    if t4.is_some() || t2.is_none() || t3.is_none() {
        return Err(HeadError::RequestLineInvalid);
    }
    let target = match str_from_utf8(&b[ts..te]) {
        Ok(x) => x,
        Err(_) => {
            proof {
                assert(false);
            }
            return Err(HeadError::InvalidUtf8);
        },
    };
    let version = match str_from_utf8(&b[vs..ve]) {
        Ok(x) => x,
        Err(_) => {
            proof {
                assert(false);
            }
            return Err(HeadError::InvalidUtf8);
        },
    };
    Ok((code, target, version))
}

// ---------------------------------------------------------------------------
// The header block
// ---------------------------------------------------------------------------

/// The lines of `b` as `str::split("\r\n")` gives them.
pub open spec fn split_crlf(b: Seq<u8>) -> Seq<Seq<u8>>
    decreases b.len(),
{
    if b.len() == 0 {
        seq![Seq::<u8>::empty()]
    } else if b.len() >= 2 && b[b.len() - 2] == 13 && b[b.len() - 1] == 10 {
        split_crlf(b.subrange(0, b.len() - 2)).push(Seq::<u8>::empty())
    } else {
        let init = split_crlf(b.drop_last());
        init.update(init.len() - 1, init.last().push(b.last()))
    }
}

/// A header line read as name and value: split at the first `:`, the name
/// trimmed of Unicode white space (`str::trim`), the value of space and tab
/// only, so that other white space in a value (such as around a cookie) is
/// kept and judged by whoever reads it; `None` without a `:` or with an empty
/// name.
pub open spec fn header_line(l: Seq<u8>) -> Option<(Seq<u8>, Seq<u8>)> {
    match find_first(l, 58) {
        Some(c) => {
            let name = trim(l.subrange(0, c), true);
            let value = trim(l.subrange(c + 1, l.len() as int), false);
            if name.len() > 0 {
                Some((name, value))
            } else {
                None
            }
        },
        None => None,
    }
}

/// Index of the first entry whose name equals `name` up to ASCII case.
pub open spec fn find_ci(m: Seq<(Seq<u8>, Seq<u8>)>, name: Seq<u8>) -> Option<int>
    decreases m.len(),
{
    if m.len() == 0 {
        None
    } else if eq_ignore_case(m[0].0, name) {
        Some(0)
    } else {
        match find_ci(m.subrange(1, m.len() as int), name) {
            Some(k) => Some(k + 1),
            None => None,
        }
    }
}

/// A header map with `name` set to `value`: an entry with the same name up to
/// ASCII case gets the new value, otherwise the pair is added.
pub open spec fn map_insert(m: Seq<(Seq<u8>, Seq<u8>)>, name: Seq<u8>, value: Seq<u8>) -> Seq<
    (Seq<u8>, Seq<u8>),
> {
    match find_ci(m, name) {
        Some(k) => m.update(k, (m[k].0, value)),
        None => m.push((name, value)),
    }
}

/// The value stored under `name` (up to ASCII case).
pub open spec fn map_get(m: Seq<(Seq<u8>, Seq<u8>)>, name: Seq<u8>) -> Option<Seq<u8>> {
    match find_ci(m, name) {
        Some(k) => Some(m[k].1),
        None => None,
    }
}

/// `Content-Length` in ASCII.
pub open spec fn content_length_name() -> Seq<u8> {
    seq![67u8, 111u8, 110u8, 116u8, 101u8, 110u8, 116u8, 45u8, 76u8, 101u8, 110u8, 103u8, 116u8, 104u8]
}

/// The header lines read in order: each line must be a `name: value` pair;
/// a `Content-Length` line (any case) must hold, trimmed of Unicode white
/// space, a number that fits `usize`, and the last one gives the declared
/// body length.
pub open spec fn headers_fold(lines: Seq<Seq<u8>>) -> Result<
    (Option<nat>, Seq<(Seq<u8>, Seq<u8>)>),
    HeadError,
>
    decreases lines.len(),
{
    if lines.len() == 0 {
        Ok((None, seq![]))
    } else {
        match headers_fold(lines.drop_last()) {
            Err(e) => Err(e),
            Ok((cl, m)) => match header_line(lines.last()) {
                None => Err(HeadError::RequestHeaderInvalid),
                Some((name, value)) => {
                    let m2 = map_insert(m, name, value);
                    if eq_ignore_case(name, content_length_name()) {
                        match parse_unsigned(trim(value, true), usize::MAX as nat) {
                            Some(n) => Ok((Some(n), m2)),
                            None => Err(HeadError::ContentLengthParseIntError),
                        }
                    } else {
                        Ok((cl, m2))
                    }
                },
            },
        }
    }
}

/// The header block read as declared length and header map.
pub open spec fn headers_spec(h: Seq<u8>) -> Result<(Option<nat>, Seq<(Seq<u8>, Seq<u8>)>), HeadError> {
    if !valid_utf8(h) {
        Err(HeadError::InvalidUtf8)
    } else {
        headers_fold(split_crlf(h))
    }
}

pub open spec fn entries_view<'a>(v: Seq<(&'a str, &'a str)>) -> Seq<(Seq<u8>, Seq<u8>)> {
    Seq::new(v.len(), |i: int| (v[i].0.spec_bytes(), v[i].1.spec_bytes()))
}

pub proof fn lemma_split_crlf_nonempty(b: Seq<u8>)
    ensures
        split_crlf(b).len() >= 1,
    decreases b.len(),
{
    if b.len() >= 2 && b[b.len() - 2] == 13 && b[b.len() - 1] == 10 {
        lemma_split_crlf_nonempty(b.subrange(0, b.len() - 2));
    } else if b.len() > 0 {
        lemma_split_crlf_nonempty(b.drop_last());
    }
}

pub proof fn lemma_split_crlf_stable(h: Seq<u8>, i: int, m: int)
    requires
        0 <= i <= m <= h.len(),
        !(0 < i < m && h[i - 1] == 13 && h[i] == 10),
    ensures
        split_crlf(h.subrange(0, m)).len() >= split_crlf(h.subrange(0, i)).len(),
        forall|k: int|
            0 <= k < split_crlf(h.subrange(0, i)).len() - 1 ==> #[trigger] split_crlf(
                h.subrange(0, m),
            )[k] == split_crlf(h.subrange(0, i))[k],
    decreases m,
{
    lemma_split_crlf_nonempty(h.subrange(0, i));
    if m > i {
        let hm = h.subrange(0, m);
        if m >= 2 && h[m - 2] == 13 && h[m - 1] == 10 {
            assert(hm.subrange(0, m - 2) =~= h.subrange(0, m - 2));
            lemma_split_crlf_stable(h, i, m - 2);
        } else {
            assert(hm.drop_last() =~= h.subrange(0, m - 1));
            lemma_split_crlf_stable(h, i, m - 1);
            lemma_split_crlf_nonempty(h.subrange(0, m - 1));
        }
    }
}

proof fn lemma_fold_err(lines: Seq<Seq<u8>>, k: int)
    requires
        0 <= k < lines.len(),
        headers_fold(lines.subrange(0, k + 1)) is Err,
    ensures
        headers_fold(lines) == headers_fold(lines.subrange(0, k + 1)),
    decreases lines.len(),
{
    if k + 1 < lines.len() {
        assert(lines.drop_last().subrange(0, k + 1) =~= lines.subrange(0, k + 1));
        lemma_fold_err(lines.drop_last(), k);
    } else {
        assert(lines.subrange(0, k + 1) =~= lines);
    }
}

/// The index of the entry named `name` up to ASCII case.
fn find_ci_exec(entries: &Vec<(&str, &str)>, name: &str) -> (r: Option<usize>)
    ensures
        match r {
            Some(k) => find_ci(entries_view(entries@), name.spec_bytes()) == Some(k as int),
            None => find_ci(entries_view(entries@), name.spec_bytes()) is None,
        },
{
    let ghost m = entries_view(entries@);
    let nb = name.as_bytes();
    let mut k: usize = 0;
    assert(m.subrange(0, m.len() as int) =~= m);
    while k < entries.len()
        invariant
            k <= entries@.len(),
            m == entries_view(entries@),
            nb@ == name.spec_bytes(),
            find_ci(m, nb@) == match find_ci(m.subrange(k as int, m.len() as int), nb@) {
                Some(i) => Some(i + k),
                None => None,
            },
        decreases entries@.len() - k,
    {
        let eb = entries[k].0.as_bytes();
        let ghost rest = m.subrange(k as int, m.len() as int);
        assert(rest[0] == m[k as int]);
        if eq_ignore_case_exec(eb, nb) {
            return Some(k);
        }
        assert(rest.subrange(1, rest.len() as int) =~= m.subrange(k + 1, m.len() as int));
        k += 1;
    }
    assert(m.subrange(k as int, m.len() as int).len() == 0);
    None
}

/// The value stored under `name` (see `map_get`).
pub fn header_get<'a>(entries: &Vec<(&'a str, &'a str)>, name: &str) -> (r: Option<&'a str>)
    ensures
        match r {
            Some(v) => map_get(entries_view(entries@), name.spec_bytes()) == Some(v.spec_bytes()),
            None => map_get(entries_view(entries@), name.spec_bytes()) is None,
        },
{
    match find_ci_exec(entries, name) {
        Some(k) => {
            proof {
                lemma_find_ci_bound(entries_view(entries@), name.spec_bytes());
            }
            Some(entries[k].1)
        },
        None => None,
    }
}

/// Stores `value` under `name` (see `map_insert`).
fn insert_header<'a>(entries: &mut Vec<(&'a str, &'a str)>, name: &'a str, value: &'a str)
    ensures
        entries_view(final(entries)@) == map_insert(
            entries_view(old(entries)@),
            name.spec_bytes(),
            value.spec_bytes(),
        ),
{
    match find_ci_exec(entries, name) {
        Some(k) => {
            let ghost m = entries_view(entries@);
            proof {
                lemma_find_ci_bound(m, name.spec_bytes());
            }
            let existing = entries[k].0;
            entries.set(k, (existing, value));
            assert(entries_view(entries@) =~= m.update(k as int, (m[k as int].0, value.spec_bytes())));
        },
        None => {
            let ghost m = entries_view(entries@);
            entries.push((name, value));
            assert(entries_view(entries@) =~= m.push((name.spec_bytes(), value.spec_bytes())));
        },
    }
}

proof fn lemma_find_ci_bound(m: Seq<(Seq<u8>, Seq<u8>)>, name: Seq<u8>)
    ensures
        find_ci(m, name) matches Some(k) ==> 0 <= k < m.len() && eq_ignore_case(m[k].0, name),
    decreases m.len(),
{
    if m.len() > 0 && !eq_ignore_case(m[0].0, name) {
        lemma_find_ci_bound(m.subrange(1, m.len() as int), name);
    }
}

/// One header line `d[lo..hi]` read as name and value.
fn header_line_exec<'a>(d: &'a [u8], lo: usize, hi: usize) -> (r: Option<(&'a str, &'a str)>)
    requires
        lo <= hi <= d@.len(),
        valid_utf8(d@.subrange(lo as int, hi as int)),
    ensures
        match r {
            Some((n, v)) => header_line(d@.subrange(lo as int, hi as int)) == Some(
                (n.spec_bytes(), v.spec_bytes()),
            ),
            None => header_line(d@.subrange(lo as int, hi as int)) is None,
        },
{
    let ghost l = d@.subrange(lo as int, hi as int);
    match find_byte(d, lo, hi, 58) {
        Some(c) => {
            assert(l.subrange(0, c - lo) =~= d@.subrange(lo as int, c as int));
            assert(l.subrange(c - lo + 1, l.len() as int) =~= d@.subrange(c + 1, hi as int));
            proof {
                lemma_valid_subrange(l, 0, c - lo);
                lemma_valid_subrange(l, c - lo + 1, l.len() as int);
            }
            let (ns, ne) = trim_range(d, lo, c, true);
            let (vs, ve) = trim_range(d, c + 1, hi, false);
            if ns == ne {
                return None;
            }
            let name = match str_from_utf8(&d[ns..ne]) {
                Ok(x) => x,
                Err(_) => {
                    proof {
                        assert(false);
                    }
                    return None;
                },
            };
            let value = match str_from_utf8(&d[vs..ve]) {
                Ok(x) => x,
                Err(_) => {
                    proof {
                        assert(false);
                    }
                    return None;
                },
            };
            Some((name, value))
        },
        None => None,
    }
}

/// The header block `d[lo..hi]` read as declared length and header map.
#[verifier::rlimit(40)]
fn headers_exec<'a>(d: &'a [u8], lo: usize, hi: usize) -> (r: Result<
    (Option<usize>, Vec<(&'a str, &'a str)>),
    HeadError,
>)
    requires
        lo <= hi <= d@.len(),
    ensures
        match r {
            Ok((cl, v)) => headers_spec(d@.subrange(lo as int, hi as int)) == Ok::<
                (Option<nat>, Seq<(Seq<u8>, Seq<u8>)>),
                HeadError,
            >(
                (
                    match cl {
                        Some(n) => Some(n as nat),
                        None => None,
                    },
                    entries_view(v@),
                ),
            ),
            Err(e) => headers_spec(d@.subrange(lo as int, hi as int)) == Err::<
                (Option<nat>, Seq<(Seq<u8>, Seq<u8>)>),
                HeadError,
            >(e),
        },
{
    let ghost h = d@.subrange(lo as int, hi as int);
    if str_from_utf8(&d[lo..hi]).is_err() {
        return Err(HeadError::InvalidUtf8);
    }
    let n = hi - lo;
    let mut entries: Vec<(&'a str, &'a str)> = Vec::new();
    let mut cl: Option<usize> = None;
    let mut seg: usize = 0;
    let mut j: usize = 0;
    proof {
        assert(h.subrange(0, 0) =~= Seq::<u8>::empty());
        assert(split_crlf(Seq::<u8>::empty()).drop_last() =~= Seq::<Seq<u8>>::empty());
        assert(entries_view(entries@) =~= Seq::<(Seq<u8>, Seq<u8>)>::empty());
    }
    while j < n
        invariant
            lo <= hi <= d@.len(),
            n == hi - lo,
            h == d@.subrange(lo as int, hi as int),
            valid_utf8(h),
            seg <= j <= n,
            seg == 0 || h[seg - 1] == 10,
            !(0 < j < n && h[j - 1] == 13 && h[j as int] == 10),
            split_crlf(h.subrange(0, j as int)).last() == h.subrange(seg as int, j as int),
            headers_fold(split_crlf(h.subrange(0, j as int)).drop_last()) == Ok::<
                (Option<nat>, Seq<(Seq<u8>, Seq<u8>)>),
                HeadError,
            >(
                (
                    match cl {
                        Some(x) => Some(x as nat),
                        None => None,
                    },
                    entries_view(entries@),
                ),
            ),
        decreases n - j,
    {
        proof {
            lemma_split_crlf_nonempty(h.subrange(0, j as int));
        }
        if n - j >= 2 && d[lo + j] == 13 && d[lo + j + 1] == 10 {
            let ghost lines = split_crlf(h.subrange(0, j as int));
            proof {
                assert(h.subrange(0, j + 2).subrange(0, j as int) =~= h.subrange(0, j as int));
                assert(split_crlf(h.subrange(0, j + 2)) == lines.push(Seq::<u8>::empty()));
                assert(lines.push(Seq::<u8>::empty()).drop_last() =~= lines);
                assert(lines =~= lines.drop_last().push(lines.last()));
                lemma_valid_subrange(h, seg as int, j as int);
                assert(d@.subrange(lo + seg, lo + j) =~= h.subrange(seg as int, j as int));
            }
            let line = header_line_exec(d, lo + seg, lo + j);
            match line {
                None => {
                    proof {
                        lemma_fail_at(h, j as int, lines);
                    }
                    return Err(HeadError::RequestHeaderInvalid);
                },
                Some((name, value)) => {
                    insert_header(&mut entries, name, value);
                    let nb = name.as_bytes();
                    let is_cl = eq_ignore_case_exec(nb, "Content-Length".as_bytes());
                    proof {
                        reveal_strlit("Content-Length");
                        vstd::utf8::is_ascii_chars_encode_utf8("Content-Length"@);
                        assert("Content-Length".spec_bytes() =~= content_length_name());
                    }
                    if is_cl {
                        let vb = value.as_bytes();
                        assert(vb@.subrange(0, vb@.len() as int) =~= vb@);
                        let (ts, te) = trim_range(vb, 0, vb.len(), true);
                        match parse_unsigned_exec(vb, ts, te, usize::MAX as u64) {
                            Some(x) => {
                                cl = Some(x as usize);
                            },
                            None => {
                                proof {
                                    lemma_fail_at(h, j as int, lines);
                                }
                                return Err(HeadError::ContentLengthParseIntError);
                            },
                        }
                    }
                },
            }
            seg = j + 2;
            j = j + 2;
            assert(h.subrange(seg as int, j as int) =~= Seq::<u8>::empty());
        } else {
            proof {
                let hj = h.subrange(0, j + 1);
                assert(hj.drop_last() =~= h.subrange(0, j as int));
                if j >= 1 {
                    assert(!(hj[j - 1] == 13 && hj[j as int] == 10));
                }
                assert(h.subrange(seg as int, j as int).push(h[j as int]) =~= h.subrange(
                    seg as int,
                    j + 1,
                ));
                let prev = split_crlf(h.subrange(0, j as int));
                assert(split_crlf(hj).drop_last() =~= prev.drop_last());
            }
            j = j + 1;
        }
    }
    let ghost lines = split_crlf(h);
    proof {
        assert(h.subrange(0, n as int) =~= h);
        lemma_split_crlf_nonempty(h);
        assert(lines =~= lines.drop_last().push(lines.last()));
        lemma_valid_subrange(h, seg as int, n as int);
        assert(d@.subrange(lo + seg, hi as int) =~= h.subrange(seg as int, n as int));
    }
    let line = header_line_exec(d, lo + seg, hi);
    match line {
        None => Err(HeadError::RequestHeaderInvalid),
        Some((name, value)) => {
            insert_header(&mut entries, name, value);
            let nb = name.as_bytes();
            let is_cl = eq_ignore_case_exec(nb, "Content-Length".as_bytes());
            proof {
                reveal_strlit("Content-Length");
                vstd::utf8::is_ascii_chars_encode_utf8("Content-Length"@);
                assert("Content-Length".spec_bytes() =~= content_length_name());
            }
            if is_cl {
                let vb = value.as_bytes();
                assert(vb@.subrange(0, vb@.len() as int) =~= vb@);
                let (ts, te) = trim_range(vb, 0, vb.len(), true);
                match parse_unsigned_exec(vb, ts, te, usize::MAX as u64) {
                    Some(x) => {
                        cl = Some(x as usize);
                    },
                    None => {
                        return Err(HeadError::ContentLengthParseIntError);
                    },
                }
            }
            Ok((cl, entries))
        },
    }
}

/// When the line that ends at `j` fails, the whole block fails the same way.
proof fn lemma_fail_at(h: Seq<u8>, j: int, lines: Seq<Seq<u8>>)
    requires
        0 <= j,
        j + 2 <= h.len(),
        h[j] == 13,
        h[j + 1] == 10,
        lines == split_crlf(h.subrange(0, j)),
        lines.len() >= 1,
        headers_fold(lines) is Err,
    ensures
        headers_fold(split_crlf(h)) == headers_fold(lines),
{
    assert(h.subrange(0, j + 2).subrange(0, j) =~= h.subrange(0, j));
    let p = split_crlf(h.subrange(0, j + 2));
    assert(p == lines.push(Seq::<u8>::empty()));
    lemma_split_crlf_stable(h, j + 2, h.len() as int);
    assert(h.subrange(0, h.len() as int) =~= h);
    let all = split_crlf(h);
    assert(all.subrange(0, lines.len() as int) =~= lines);
    lemma_fold_err(all, lines.len() - 1);
}

// ---------------------------------------------------------------------------
// The whole head
// ---------------------------------------------------------------------------

/// `HTTP/1.1` in ASCII.
pub open spec fn http11() -> Seq<u8> {
    seq![72u8, 84u8, 84u8, 80u8, 47u8, 49u8, 46u8, 49u8]
}

/// What the head of a request says: the method code (see `method_code`), the
/// target and version words, the header map, the declared body length and
/// where the body starts.
pub struct HeadModel {
    pub method: u8,
    pub target: Seq<u8>,
    pub version: Seq<u8>,
    pub headers: Seq<(Seq<u8>, Seq<u8>)>,
    pub content_length: Option<nat>,
    pub body_start: int,
}

/// The head of `d` read in the order the server checks it: framing (no
/// CRLF CRLF after the request line, or no header line at all:
/// `RequestHeaderInvalid`), then the request line, then the header block,
/// then the version, which must be `HTTP/1.1`.
pub open spec fn head_spec(d: Seq<u8>, extended: bool) -> Result<HeadModel, HeadError> {
    match frame(d) {
        None => Err(HeadError::RequestHeaderInvalid),
        Some((rl, h)) => if h == rl + 2 {
            Err(HeadError::RequestHeaderInvalid)
        } else {
            match request_line_spec(d.subrange(0, rl), extended) {
                Err(e) => Err(e),
                Ok((m, t, v)) => match headers_spec(d.subrange(rl + 2, h)) {
                    Err(e) => Err(e),
                    Ok((cl, hs)) => if v != http11() {
                        Err(HeadError::RequestHttpVersionInvalid)
                    } else {
                        Ok(
                            HeadModel {
                                method: m,
                                target: t,
                                version: v,
                                headers: hs,
                                content_length: cl,
                                body_start: h + 4,
                            },
                        )
                    },
                },
            }
        },
    }
}

/// The body of a request of `len` bytes whose head ends at `start` must be
/// exactly as long as declared; without a declared length there is no body.
pub open spec fn body_check(len: int, cl: Option<nat>, start: int) -> Result<(), HeadError> {
    match cl {
        Some(n) => if n == len - start {
            Ok(())
        } else {
            Err(HeadError::ContentLengthSizeError)
        },
        None => if start == len {
            Ok(())
        } else {
            Err(HeadError::RequestHeaderInvalid)
        },
    }
}

pub open spec fn opt_nat(o: Option<usize>) -> Option<nat> {
    match o {
        Some(n) => Some(n as nat),
        None => None,
    }
}

/// The head of a request, borrowed from its bytes.
pub struct Head<'a> {
    pub method: u8,
    pub target: &'a str,
    pub version: &'a str,
    pub headers: Vec<(&'a str, &'a str)>,
    pub content_length: Option<usize>,
    pub body_start: usize,
}

impl<'a> Head<'a> {
    pub open spec fn model(&self) -> HeadModel {
        HeadModel {
            method: self.method,
            target: self.target.spec_bytes(),
            version: self.version.spec_bytes(),
            headers: entries_view(self.headers@),
            content_length: opt_nat(self.content_length),
            body_start: self.body_start as int,
        }
    }
}

/// Reads the head of `d` (see `head_spec`).
pub fn parse_head<'a>(d: &'a [u8], extended: bool) -> (r: Result<Head<'a>, HeadError>)
    ensures
        match r {
            Ok(h) => head_spec(d@, extended) == Ok::<HeadModel, HeadError>(h.model()) && h.body_start
                <= d@.len(),
            Err(e) => head_spec(d@, extended) == Err::<HeadModel, HeadError>(e),
        },
{
    let (rl, h) = match frame_exec(d) {
        Some(x) => x,
        None => {
            return Err(HeadError::RequestHeaderInvalid);
        },
    };
    proof {
        lemma_scan_bounds(d@, 0, 0);
        assert(frame(d@) == scan(d@, 0, 0));
    }
    let n = d.len();
    assert(rl + 2 <= h && h + 4 <= n);
    let body_start = h + 4;
    if h == rl + 2 {
        return Err(HeadError::RequestHeaderInvalid);
    }
    let (method, target, version) = match request_line_exec(d, rl, extended) {
        Ok(x) => x,
        Err(e) => {
            return Err(e);
        },
    };
    let (content_length, headers) = match headers_exec(d, rl + 2, h) {
        Ok(x) => x,
        Err(e) => {
            return Err(e);
        },
    };
    proof {
        reveal_strlit("HTTP/1.1");
        vstd::utf8::is_ascii_chars_encode_utf8("HTTP/1.1"@);
        assert("HTTP/1.1".spec_bytes() =~= http11());
    }
    if !bytes_eq_exec(version.as_bytes(), "HTTP/1.1".as_bytes()) {
        return Err(HeadError::RequestHttpVersionInvalid);
    }
    let head = Head { method, target, version, headers, content_length, body_start };
    assert(head.model().content_length == opt_nat(content_length));
    Ok(head)
}

/// Checks the body length against the declared one (see `body_check`).
pub fn check_body(len: usize, cl: Option<usize>, start: usize) -> (r: Result<(), HeadError>)
    requires
        start <= len,
    ensures
        r == body_check(len as int, opt_nat(cl), start as int),
{
    match cl {
        Some(n) => if n == len - start {
            Ok(())
        } else {
            Err(HeadError::ContentLengthSizeError)
        },
        None => if start == len {
            Ok(())
        } else {
            Err(HeadError::RequestHeaderInvalid)
        },
    }
}

// ---------------------------------------------------------------------------
// Laws of the header map
// ---------------------------------------------------------------------------

proof fn lemma_eq_ci_props(a: Seq<u8>, b: Seq<u8>, c: Seq<u8>)
    ensures
        eq_ignore_case(a, a),
        eq_ignore_case(a, b) ==> eq_ignore_case(b, a),
        eq_ignore_case(a, b) && eq_ignore_case(b, c) ==> eq_ignore_case(a, c),
        eq_ignore_case(a, b) && !eq_ignore_case(b, c) ==> !eq_ignore_case(a, c),
{
    if eq_ignore_case(a, b) && eq_ignore_case(b, c) {
        assert forall|i: int| 0 <= i < a.len() implies ascii_lower(#[trigger] a[i]) == ascii_lower(
            c[i],
        ) by {
            assert(ascii_lower(a[i]) == ascii_lower(b[i]));
            assert(ascii_lower(b[i]) == ascii_lower(c[i]));
        }
    }
    if eq_ignore_case(a, b) && eq_ignore_case(a, c) {
        assert forall|i: int| 0 <= i < b.len() implies ascii_lower(#[trigger] b[i]) == ascii_lower(
            c[i],
        ) by {
            assert(ascii_lower(a[i]) == ascii_lower(b[i]));
            assert(ascii_lower(a[i]) == ascii_lower(c[i]));
        }
    }
    if eq_ignore_case(a, b) {
        assert forall|i: int| 0 <= i < b.len() implies ascii_lower(#[trigger] b[i]) == ascii_lower(
            a[i],
        ) by {
            assert(ascii_lower(a[i]) == ascii_lower(b[i]));
        }
    }
}

/// `find_ci` gives the first entry named like `key`.
proof fn lemma_find_ci_first(m: Seq<(Seq<u8>, Seq<u8>)>, key: Seq<u8>)
    ensures
        find_ci(m, key) matches Some(i) ==> 0 <= i < m.len() && eq_ignore_case(m[i].0, key)
            && forall|j: int| 0 <= j < i ==> !eq_ignore_case(#[trigger] m[j].0, key),
        find_ci(m, key) is None ==> forall|j: int|
            0 <= j < m.len() ==> !eq_ignore_case(#[trigger] m[j].0, key),
        forall|i: int|
            0 <= i < m.len() && eq_ignore_case(#[trigger] m[i].0, key) && (forall|j: int|
                0 <= j < i ==> !eq_ignore_case(#[trigger] m[j].0, key)) ==> find_ci(m, key) == Some(
                i,
            ),
    decreases m.len(),
{
    if m.len() > 0 && !eq_ignore_case(m[0].0, key) {
        let t = m.subrange(1, m.len() as int);
        lemma_find_ci_first(t, key);
        assert forall|j: int| 0 < j < m.len() implies m[j] == t[j - 1] by {}
        assert forall|i: int|
            0 <= i < m.len() && eq_ignore_case(#[trigger] m[i].0, key) && (forall|j: int|
                0 <= j < i ==> !eq_ignore_case(#[trigger] m[j].0, key)) implies find_ci(m, key)
            == Some(i) by {
            assert(i > 0);
            assert forall|j: int| 0 <= j < i - 1 implies !eq_ignore_case(#[trigger] t[j].0, key) by {
                assert(t[j] == m[j + 1]);
            }
        }
    }
}

/// Setting a header (in any case) makes it read back as the value set, and
/// changes no header of another name.
pub proof fn lemma_header_set_then_get(
    m: Seq<(Seq<u8>, Seq<u8>)>,
    name: Seq<u8>,
    value: Seq<u8>,
    key: Seq<u8>,
)
    ensures
        eq_ignore_case(name, key) ==> map_get(map_insert(m, name, value), key) == Some(value),
        !eq_ignore_case(name, key) ==> map_get(map_insert(m, name, value), key) == map_get(m, key),
{
    let m2 = map_insert(m, name, value);
    lemma_find_ci_first(m, name);
    lemma_find_ci_first(m, key);
    lemma_find_ci_first(m2, key);
    assert forall|i: int| 0 <= i < m.len() implies (eq_ignore_case(#[trigger] m[i].0, name)
        && eq_ignore_case(name, key) ==> eq_ignore_case(m[i].0, key)) && (eq_ignore_case(m[i].0, key)
        && eq_ignore_case(name, key) ==> eq_ignore_case(m[i].0, name)) && (eq_ignore_case(
        m[i].0,
        name,
    ) && !eq_ignore_case(name, key) ==> !eq_ignore_case(m[i].0, key)) by {
        lemma_eq_ci_props(m[i].0, name, key);
        lemma_eq_ci_props(m[i].0, key, name);
        lemma_eq_ci_props(name, key, m[i].0);
        lemma_eq_ci_props(key, name, m[i].0);
    }
    match find_ci(m, name) {
        Some(k) => {
            assert(m2 == m.update(k, (m[k].0, value)));
            assert forall|i: int| 0 <= i < m2.len() implies (#[trigger] m2[i]).0 == m[i].0 by {}
            if eq_ignore_case(name, key) {
                assert(eq_ignore_case(m2[k].0, key));
                assert forall|j: int| 0 <= j < k implies !eq_ignore_case(#[trigger] m2[j].0, key) by {
                    assert(m2[j].0 == m[j].0);
                    if eq_ignore_case(m[j].0, key) {
                        lemma_eq_ci_props(m[j].0, key, name);
                        lemma_eq_ci_props(key, name, name);
                        lemma_eq_ci_props(name, key, key);
                    }
                }
            } else {
                match find_ci(m, key) {
                    Some(j) => {
                        assert(j != k);
                        assert forall|l: int| 0 <= l < j implies !eq_ignore_case(
                            #[trigger] m2[l].0,
                            key,
                        ) by {
                            assert(m2[l].0 == m[l].0);
                        }
                        assert(m2[j] == m[j]);
                    },
                    None => {
                        if find_ci(m2, key) is Some {
                            let j = find_ci(m2, key)->0;
                            assert(m2[j].0 == m[j].0);
                        }
                    },
                }
            }
        },
        None => {
            assert(m2 == m.push((name, value)));
            if eq_ignore_case(name, key) {
                assert(m2[m.len() as int].0 == name);
                assert forall|j: int| 0 <= j < m.len() implies !eq_ignore_case(#[trigger] m2[j].0, key) by {
                    assert(m2[j] == m[j]);
                }
            } else {
                match find_ci(m, key) {
                    Some(j) => {
                        assert(m2[j] == m[j]);
                        assert forall|l: int| 0 <= l < j implies !eq_ignore_case(
                            #[trigger] m2[l].0,
                            key,
                        ) by {
                            assert(m2[l] == m[l]);
                        }
                    },
                    None => {
                        if find_ci(m2, key) is Some {
                            let j = find_ci(m2, key)->0;
                            if j < m.len() {
                                assert(m2[j] == m[j]);
                            } else {
                                assert(m2[j].0 == name);
                            }
                        }
                    },
                }
            }
        },
    }
}

/// The declared length read from a header block is the value of its
/// `Content-Length` header as the map holds it (the last one given), read
/// as a number once trimmed of white space.
pub proof fn lemma_declared_length(lines: Seq<Seq<u8>>)
    ensures
        headers_fold(lines) matches Ok((cl, m)) ==> match map_get(m, content_length_name()) {
            Some(v) => cl is Some && parse_unsigned(trim(v, true), usize::MAX as nat) == cl,
            None => cl is None,
        },
    decreases lines.len(),
{
    if lines.len() > 0 {
        lemma_declared_length(lines.drop_last());
        if let Ok((cl0, m0)) = headers_fold(lines.drop_last()) {
            if let Some((name, value)) = header_line(lines.last()) {
                lemma_header_set_then_get(m0, name, value, content_length_name());
            }
        }
    }
}

} // verus!
