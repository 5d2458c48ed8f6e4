//! The template compiler: HTML with `{name}` and `{name:escape}` placeholders
//! turned into the source of a Rust render function and its view struct.
use vstd::prelude::*;
use vstd::utf8::*;
use vstd::string::StringSliceAdditionalSpecFns;
use crate::bytes::{
    ascii_lower, bytes_eq_exec, find_byte, find_first, lemma_valid_subrange, trim, trim_range,
};
use crate::htmlc::error::TemplateError;
use crate::text::{ascii_string, lemma_encode_concat, lemma_split_ascii, sub_str};

verus! {

/// A piece of a template: literal HTML, or a variable with whether it is to
/// be HTML-escaped.
#[derive(Debug)]
pub enum Token {
    Literal(String),
    Variable(String, bool),
}

/// A token with its text as UTF-8 bytes.
pub enum TokenModel {
    Literal(Seq<u8>),
    Variable(Seq<u8>, bool),
}

pub open spec fn token_view(t: Token) -> TokenModel {
    match t {
        Token::Literal(s) => TokenModel::Literal(encode_utf8(s@)),
        Token::Variable(s, e) => TokenModel::Variable(encode_utf8(s@), e),
    }
}

pub open spec fn tokens_view(ts: Seq<Token>) -> Seq<TokenModel> {
    Seq::new(ts.len(), |i: int| token_view(ts[i]))
}

// ---------------------------------------------------------------------------
// Variables
// ---------------------------------------------------------------------------

/// A byte that may start an identifier: an ASCII letter or `_`.
pub open spec fn ident_start(x: u8) -> bool {
    (65 <= x <= 90) || (97 <= x <= 122) || x == 95
}

/// A byte that may continue an identifier: also an ASCII digit.
pub open spec fn ident_byte(x: u8) -> bool {
    ident_start(x) || (48 <= x <= 57)
}

/// A Rust identifier that can name a field: ASCII letters, digits and `_`,
/// not starting with a digit, and not `_` alone.
pub open spec fn valid_ident(b: Seq<u8>) -> bool {
    &&& b.len() > 0
    &&& ident_start(b[0])
    &&& forall|i: int| 0 <= i < b.len() ==> ident_byte(#[trigger] b[i])
    &&& !(b.len() == 1 && b[0] == 95)
}

/// `escape` in ASCII.
pub open spec fn escape_op() -> Seq<u8> {
    seq![101u8, 115u8, 99u8, 97u8, 112u8, 101u8]
}

/// One or more `escape` operations joined by `:`.
pub open spec fn escapes_only(r: Seq<u8>) -> bool
    decreases r.len(),
{
    r == escape_op() || (r.len() > 7 && r.subrange(0, 7) == escape_op().push(58) && escapes_only(
        r.subrange(7, r.len() as int),
    ))
}

/// What the text between `{` and `}` makes: trimmed of white space, it must
/// not be empty; the part before the first `:` is the variable's name and
/// must be an identifier; what follows the `:`, if any, must be `escape`
/// operations, which make the variable escaped.
pub open spec fn variable_token(content: Seq<u8>) -> Result<TokenModel, TemplateError> {
    let v = trim(content, true);
    if v.len() == 0 {
        Err(TemplateError::EmptyVariable)
    } else {
        match find_first(v, 58) {
            None => if valid_ident(v) {
                Ok(TokenModel::Variable(v, false))
            } else {
                Err(TemplateError::InvalidVariable)
            },
            Some(c) => if !valid_ident(v.subrange(0, c)) {
                Err(TemplateError::InvalidVariable)
            } else if !escapes_only(v.subrange(c + 1, v.len() as int)) {
                Err(TemplateError::InvalidOperation)
            } else {
                Ok(TokenModel::Variable(v.subrange(0, c), true))
            },
        }
    }
}

fn valid_ident_exec(b: &[u8], lo: usize, hi: usize) -> (r: bool)
    requires
        lo <= hi <= b@.len(),
    ensures
        r == valid_ident(b@.subrange(lo as int, hi as int)),
{
    let ghost w = b@.subrange(lo as int, hi as int);
    if lo == hi {
        return false;
    }
    let f = b[lo];
    if !((65 <= f && f <= 90) || (97 <= f && f <= 122) || f == 95) {
        return false;
    }
    if hi - lo == 1 && f == 95 {
        return false;
    }
    let mut i = lo;
    while i < hi
        invariant
            lo <= i <= hi <= b@.len(),
            w == b@.subrange(lo as int, hi as int),
            forall|k: int| 0 <= k < i - lo ==> ident_byte(#[trigger] w[k]),
        decreases hi - i,
    {
        let x = b[i];
        if !((65 <= x && x <= 90) || (97 <= x && x <= 122) || x == 95 || (48 <= x && x <= 57)) {
            assert(!ident_byte(w[i - lo]));
            return false;
        }
        i += 1;
    }
    true
}

fn escapes_only_exec(b: &[u8], lo: usize, hi: usize) -> (r: bool)
    requires
        lo <= hi <= b@.len(),
    ensures
        r == escapes_only(b@.subrange(lo as int, hi as int)),
{
    proof {
        reveal_strlit("escape");
        reveal_strlit("escape:");
        vstd::utf8::is_ascii_chars_encode_utf8("escape"@);
        vstd::utf8::is_ascii_chars_encode_utf8("escape:"@);
        assert("escape".spec_bytes() =~= escape_op());
        assert("escape:".spec_bytes() =~= escape_op().push(58));
    }
    let mut p = lo;
    loop
        invariant
            lo <= p <= hi <= b@.len(),
            escapes_only(b@.subrange(lo as int, hi as int)) == escapes_only(
                b@.subrange(p as int, hi as int),
            ),
            "escape".spec_bytes() == escape_op(),
            "escape:".spec_bytes() == escape_op().push(58),
        decreases hi - p,
    {
        let ghost r = b@.subrange(p as int, hi as int);
        let rem = hi - p;
        if rem == 6 {
            let eq = bytes_eq_exec(&b[p..hi], "escape".as_bytes());
            return eq;
        }
        if rem > 7 && bytes_eq_exec(&b[p..p + 7], "escape:".as_bytes()) {
            assert(r.subrange(0, 7) =~= b@.subrange(p as int, p + 7));
            assert(r.subrange(7, r.len() as int) =~= b@.subrange(p + 7, hi as int));
            p = p + 7;
        } else {
            proof {
                if rem > 7 {
                    assert(r.subrange(0, 7) =~= b@.subrange(p as int, p + 7));
                }
            }
            return false;
        }
    }
}

/// The token made from the text `b[lo..hi]` between braces (see
/// `variable_token`).
fn variable_exec(b: &[u8], lo: usize, hi: usize) -> (r: Result<Token, TemplateError>)
    requires
        lo <= hi <= b@.len(),
        valid_utf8(b@.subrange(lo as int, hi as int)),
    ensures
        match r {
            Ok(t) => variable_token(b@.subrange(lo as int, hi as int)) == Ok::<
                TokenModel,
                TemplateError,
            >(token_view(t)),
            Err(e) => variable_token(b@.subrange(lo as int, hi as int)) == Err::<
                TokenModel,
                TemplateError,
            >(e),
        },
{
    let (s, e) = trim_range(b, lo, hi, true);
    let ghost v = b@.subrange(s as int, e as int);
    if s == e {
        return Err(TemplateError::EmptyVariable);
    }
    match find_byte(b, s, e, 58) {
        None => {
            if !valid_ident_exec(b, s, e) {
                return Err(TemplateError::InvalidVariable);
            }
            let name = sub_str(b, s, e).to_owned();
            Ok(Token::Variable(name, false))
        },
        Some(c) => {
            assert(v.subrange(0, c - s) =~= b@.subrange(s as int, c as int));
            assert(v.subrange(c - s + 1, v.len() as int) =~= b@.subrange(c + 1, e as int));
            if !valid_ident_exec(b, s, c) {
                return Err(TemplateError::InvalidVariable);
            }
            if !escapes_only_exec(b, c + 1, e) {
                return Err(TemplateError::InvalidOperation);
            }
            proof {
                lemma_valid_subrange(v, 0, c - s);
            }
            let name = sub_str(b, s, c).to_owned();
            Ok(Token::Variable(name, true))
        },
    }
}

// ---------------------------------------------------------------------------
// Templates
// ---------------------------------------------------------------------------

/// Reads a template from byte `i` on, where the literal text so far starts at
/// `lit`, the open variable (if `open`) at `var`, and `acc` holds the tokens
/// read. `{` ends the literal text (kept when not empty) and opens a
/// variable; `}` closes it (see `variable_token`); at the end the remaining
/// literal text is always kept. A `{` inside a variable, a `}` outside one, or
/// an unclosed variable refuses the template.
pub open spec fn scan_template(
    h: Seq<u8>,
    i: int,
    lit: int,
    var: int,
    open: bool,
    acc: Seq<TokenModel>,
) -> Result<Seq<TokenModel>, TemplateError>
    decreases h.len() - i,
{
    if i < 0 || i >= h.len() {
        if open {
            Err(TemplateError::UnCloseVariable)
        } else {
            Ok(acc.push(TokenModel::Literal(h.subrange(lit, h.len() as int))))
        }
    } else if h[i] == 123 {
        if open {
            Err(TemplateError::UnCloseVariable)
        } else {
            let l = h.subrange(lit, i);
            scan_template(
                h,
                i + 1,
                lit,
                i + 1,
                true,
                if l.len() > 0 {
                    acc.push(TokenModel::Literal(l))
                } else {
                    acc
                },
            )
        }
    } else if h[i] == 125 {
        if !open {
            Err(TemplateError::UnCloseVariable)
        } else {
            match variable_token(h.subrange(var, i)) {
                Err(e) => Err(e),
                Ok(t) => scan_template(h, i + 1, i + 1, var, false, acc.push(t)),
            }
        }
    } else {
        scan_template(h, i + 1, lit, var, open, acc)
    }
}

/// The tokens of a template (see `scan_template`).
pub open spec fn parse_template(h: Seq<u8>) -> Result<Seq<TokenModel>, TemplateError> {
    scan_template(h, 0, 0, 0, false, seq![])
}

/// Splits a template into literal and variable tokens (see `scan_template`).
pub fn parse_html(html: &str) -> (r: Result<Vec<Token>, TemplateError>)
    ensures
        match r {
            Ok(ts) => parse_template(html.spec_bytes()) == Ok::<Seq<TokenModel>, TemplateError>(
                tokens_view(ts@),
            ),
            Err(e) => parse_template(html.spec_bytes()) == Err::<Seq<TokenModel>, TemplateError>(
                e,
            ),
        },
{
    let h = html.as_bytes();
    let n = h.len();
    proof {
        encode_utf8_valid_utf8(html@);
    }
    let mut tokens: Vec<Token> = Vec::new();
    let mut index: usize = 0;
    let mut lit: usize = 0;
    let mut var: usize = 0;
    let mut open = false;
    assert(tokens_view(tokens@) =~= Seq::<TokenModel>::empty());
    while index < n
        invariant
            h@ == html.spec_bytes(),
            valid_utf8(h@),
            n == h@.len(),
            lit <= index <= n,
            var <= index,
            lit == 0 || h@[lit - 1] == 125,
            open ==> var >= 1 && h@[var - 1] == 123,
            parse_template(h@) == scan_template(
                h@,
                index as int,
                lit as int,
                var as int,
                open,
                tokens_view(tokens@),
            ),
        decreases n - index,
    {
        let c = h[index];
        let ghost before = tokens_view(tokens@);
        if c == 123 {
            if open {
                return Err(TemplateError::UnCloseVariable);
            }
            if index > lit {
                proof {
                    lemma_valid_subrange(h@, lit as int, index as int);
                }
                let s = sub_str(h, lit, index);
                tokens.push(Token::Literal(s.to_owned()));
                assert(tokens_view(tokens@) =~= before.push(
                    TokenModel::Literal(h@.subrange(lit as int, index as int)),
                ));
            }
            open = true;
            var = index + 1;
        } else if c == 125 {
            if !open {
                return Err(TemplateError::UnCloseVariable);
            }
            proof {
                lemma_valid_subrange(h@, var as int, index as int);
            }
            match variable_exec(h, var, index) {
                Err(e) => {
                    return Err(e);
                },
                Ok(t) => {
                    tokens.push(t);
                    assert(tokens_view(tokens@) =~= before.push(token_view(t)));
                },
            }
            lit = index + 1;
            open = false;
        }
        index += 1;
    }
    if open {
        return Err(TemplateError::UnCloseVariable);
    }
    proof {
        lemma_valid_subrange(h@, lit as int, n as int);
    }
    let ghost before = tokens_view(tokens@);
    let s = sub_str(h, lit, n);
    tokens.push(Token::Literal(s.to_owned()));
    assert(tokens_view(tokens@) =~= before.push(
        TokenModel::Literal(h@.subrange(lit as int, n as int)),
    ));
    Ok(tokens)
}

// ---------------------------------------------------------------------------
// Code generation
// ---------------------------------------------------------------------------

/// What `format!("{:?}", s)` gives for a string: a double-quoted Rust string
/// literal that denotes `s`, with quotes, backslashes and control characters
/// escaped as the standard library's `Debug` for `str` escapes them.
pub uninterp spec fn debug_repr(s: Seq<char>) -> Seq<char>;

/// The Rust string literal for `s` (`format!("{:?}", s)`).
#[verifier::external_body]
fn debug_literal(s: &str) -> (r: String)
    ensures
        r@ == debug_repr(s@),
{
    format!("{:?}", s)
}

/// A token ready for code generation: literal HTML already written as a
/// Rust string literal, or a variable with whether it is to be escaped.
#[derive(Debug)]
pub enum Segment {
    Code(String),
    Variable(String, bool),
}

pub enum SegmentModel {
    Code(Seq<u8>),
    Variable(Seq<u8>, bool),
}

pub open spec fn segment_view(s: Segment) -> SegmentModel {
    match s {
        Segment::Code(c) => SegmentModel::Code(encode_utf8(c@)),
        Segment::Variable(n, e) => SegmentModel::Variable(encode_utf8(n@), e),
    }
}

pub open spec fn segments_view(ss: Seq<Segment>) -> Seq<SegmentModel> {
    Seq::new(ss.len(), |i: int| segment_view(ss[i]))
}

/// A token with its literal text written as a Rust string literal.
pub open spec fn render_token(t: TokenModel) -> SegmentModel {
    match t {
        TokenModel::Literal(l) => SegmentModel::Code(encode_utf8(debug_repr(decode_utf8(l)))),
        TokenModel::Variable(n, e) => SegmentModel::Variable(n, e),
    }
}

pub open spec fn render_tokens(ts: Seq<TokenModel>) -> Seq<SegmentModel> {
    Seq::new(ts.len(), |i: int| render_token(ts[i]))
}

/// The statement one segment becomes: a literal is pushed as it is, an
/// escaped variable goes through `crate::util::escape_html`, any other
/// variable is pushed raw.
pub open spec fn segment_code(s: SegmentModel) -> Seq<u8> {
    match s {
        SegmentModel::Code(c) => "out.push_str(".spec_bytes() + c + ");".spec_bytes(),
        SegmentModel::Variable(n, e) => if e {
            "crate::util::escape_html(view.".spec_bytes() + n + ", out);".spec_bytes()
        } else {
            "out.push_str(view.".spec_bytes() + n + ");".spec_bytes()
        },
    }
}

/// The statements of all segments, in order.
pub open spec fn body_code(ss: Seq<SegmentModel>) -> Seq<u8>
    decreases ss.len(),
{
    if ss.len() == 0 {
        seq![]
    } else {
        body_code(ss.drop_last()) + segment_code(ss.last())
    }
}

/// The variable names of the segments, each once, in order of first use.
pub open spec fn var_names(ss: Seq<SegmentModel>) -> Seq<Seq<u8>>
    decreases ss.len(),
{
    if ss.len() == 0 {
        seq![]
    } else {
        let vs = var_names(ss.drop_last());
        match ss.last() {
            SegmentModel::Variable(n, _) => if vs.contains(n) {
                vs
            } else {
                vs.push(n)
            },
            SegmentModel::Code(_) => vs,
        }
    }
}

/// One `pub name: &'a str,` field per variable.
pub open spec fn fields_code(vs: Seq<Seq<u8>>) -> Seq<u8>
    decreases vs.len(),
{
    if vs.len() == 0 {
        seq![]
    } else {
        fields_code(vs.drop_last()) + "pub ".spec_bytes() + vs.last() + ": &'a str,".spec_bytes()
    }
}

/// `b` with ASCII capital letters made small.
pub open spec fn lower_bytes(b: Seq<u8>) -> Seq<u8> {
    Seq::new(b.len(), |i: int| ascii_lower(b[i]))
}

/// The generated source: with variables, a `<Struct>View<'a>` struct with one
/// `&'a str` field per variable, then `render_<name>(out, view)`; without, only
/// `render_<name>(out)`. The function's name is `fn_name` in small letters;
/// its body is the segments' statements.
pub open spec fn code_spec(ss: Seq<SegmentModel>, fn_name: Seq<u8>, struct_name: Seq<u8>) -> Seq<
    u8,
> {
    let vs = var_names(ss);
    if vs.len() > 0 {
        "pub struct ".spec_bytes() + struct_name + "View<'a> {".spec_bytes() + fields_code(vs)
            + "}".spec_bytes() + "pub fn render_".spec_bytes() + lower_bytes(fn_name)
            + "(out: &mut String, view: ".spec_bytes() + struct_name + "View) {".spec_bytes()
            + body_code(ss) + "}".spec_bytes()
    } else {
        "pub fn render_".spec_bytes() + lower_bytes(fn_name) + "(out: &mut String) {".spec_bytes()
            + body_code(ss) + "}".spec_bytes()
    }
}

/// Appends `s` to `out`.
pub(crate) fn push_text(out: &mut String, s: &str)
    ensures
        encode_utf8(final(out)@) == encode_utf8(old(out)@) + s.spec_bytes(),
{
    let ghost before = out@;
    out.append(s);
    proof {
        lemma_encode_concat(before, s@);
    }
}

proof fn lemma_lower_plain(b: Seq<u8>, s: int, e: int)
    requires
        0 <= s <= e <= b.len(),
        forall|k: int| s <= k < e ==> !(65 <= #[trigger] b[k] <= 90),
    ensures
        lower_bytes(b.subrange(0, e)) == lower_bytes(b.subrange(0, s)) + b.subrange(s, e),
{
    assert(lower_bytes(b.subrange(0, e)) =~= lower_bytes(b.subrange(0, s)) + b.subrange(s, e));
}

/// Appends `s` to `out` with ASCII capital letters made small.
pub(crate) fn push_lower(out: &mut String, s: &str)
    ensures
        encode_utf8(final(out)@) == encode_utf8(old(out)@) + lower_bytes(s.spec_bytes()),
{
    let bytes = s.as_bytes();
    let ghost b = bytes@;
    let ghost start = encode_utf8(out@);
    proof {
        encode_utf8_valid_utf8(s@);
        assert(b.subrange(0, b.len() as int) =~= b);
        assert(lower_bytes(b.subrange(0, 0)) =~= Seq::<u8>::empty());
    }
    let mut seg: usize = 0;
    let mut i: usize = 0;
    while i < bytes.len()
        invariant
            b == bytes@,
            seg <= i <= bytes@.len(),
            valid_utf8(b.subrange(seg as int, b.len() as int)),
            encode_utf8(out@) == start + lower_bytes(b.subrange(0, seg as int)),
            forall|k: int| seg <= k < i ==> !(65 <= #[trigger] b[k] <= 90),
        decreases bytes@.len() - i,
    {
        let c = bytes[i];
        if 65 <= c && c <= 90 {
            let ghost r = b.subrange(seg as int, b.len() as int);
            proof {
                lemma_split_ascii(r, i - seg);
                assert(r.subrange(0, i - seg) =~= b.subrange(seg as int, i as int));
                assert(r.subrange(i - seg + 1, r.len() as int) =~= b.subrange(
                    i + 1,
                    b.len() as int,
                ));
                lemma_lower_plain(b, seg as int, i as int);
            }
            let piece = sub_str(bytes, seg, i);
            push_text(out, piece);
            let small = ascii_string(vec![c + 32]);
            push_text(out, small.as_str());
            proof {
                assert(lower_bytes(b.subrange(0, i + 1)) =~= lower_bytes(b.subrange(0, i as int))
                    + seq![(c + 32) as u8]);
            }
            seg = i + 1;
        }
        i += 1;
    }
    proof {
        lemma_lower_plain(b, seg as int, b.len() as int);
        assert(b.subrange(seg as int, b.len() as int).subrange(0, b.len() - seg) =~= b.subrange(
            seg as int,
            b.len() as int,
        ));
    }
    let last = sub_str(bytes, seg, bytes.len());
    push_text(out, last);
}

pub open spec fn names_view(v: Seq<&str>) -> Seq<Seq<u8>> {
    Seq::new(v.len(), |i: int| v[i].spec_bytes())
}

fn contains_name(vs: &Vec<&str>, name: &str) -> (r: bool)
    ensures
        r == names_view(vs@).contains(name.spec_bytes()),
{
    let ghost nv = names_view(vs@);
    let mut k: usize = 0;
    while k < vs.len()
        invariant
            k <= vs@.len(),
            nv == names_view(vs@),
            forall|j: int| 0 <= j < k ==> nv[j] != name.spec_bytes(),
        decreases vs@.len() - k,
    {
        if bytes_eq_exec(vs[k].as_bytes(), name.as_bytes()) {
            assert(nv[k as int] == name.spec_bytes());
            return true;
        }
        k += 1;
    }
    false
}

/// The source of the render function for segments already rendered (see
/// `code_spec`).
pub fn generate_from_segments(segments: &[Segment], fn_name: &str, struct_name: &str) -> (r:
    String)
    ensures
        encode_utf8(r@) == code_spec(
            segments_view(segments@),
            fn_name.spec_bytes(),
            struct_name.spec_bytes(),
        ),
{
    let ghost ss = segments_view(segments@);
    let mut body = String::new();
    let mut variables: Vec<&str> = Vec::new();
    let mut i: usize = 0;
    assert(ss.subrange(0, 0) =~= Seq::<SegmentModel>::empty());
    assert(names_view(variables@) =~= Seq::<Seq<u8>>::empty());
    while i < segments.len()
        invariant
            i <= segments@.len(),
            ss == segments_view(segments@),
            encode_utf8(body@) == body_code(ss.subrange(0, i as int)),
            names_view(variables@) == var_names(ss.subrange(0, i as int)),
        decreases segments@.len() - i,
    {
        let ghost pre = ss.subrange(0, i as int);
        assert(ss.subrange(0, i + 1).drop_last() =~= pre);
        let ghost vs0 = names_view(variables@);
        match &segments[i] {
            Segment::Code(c) => {
                push_text(&mut body, "out.push_str(");
                push_text(&mut body, c.as_str());
                push_text(&mut body, ");");
            },
            Segment::Variable(name, escape) => {
                if *escape {
                    push_text(&mut body, "crate::util::escape_html(view.");
                    push_text(&mut body, name.as_str());
                    push_text(&mut body, ", out);");
                } else {
                    push_text(&mut body, "out.push_str(view.");
                    push_text(&mut body, name.as_str());
                    push_text(&mut body, ");");
                }
                if !contains_name(&variables, name.as_str()) {
                    variables.push(name.as_str());
                    assert(names_view(variables@) =~= vs0.push(encode_utf8(name@)));
                }
            },
        }
        i += 1;
    }
    assert(ss.subrange(0, i as int) =~= ss);
    let mut generated = String::new();
    let ghost e0 = encode_utf8(generated@);
    assert(e0 =~= Seq::<u8>::empty());
    if variables.len() > 0 {
        push_text(&mut generated, "pub struct ");
        push_text(&mut generated, struct_name);
        push_text(&mut generated, "View<'a> {");
        let ghost head = encode_utf8(generated@);
        let ghost vs = names_view(variables@);
        let mut k: usize = 0;
        assert(vs.subrange(0, 0) =~= Seq::<Seq<u8>>::empty());
        assert(head + fields_code(vs.subrange(0, 0)) =~= head);
        while k < variables.len()
            invariant
                k <= variables@.len(),
                vs == names_view(variables@),
                encode_utf8(generated@) == head + fields_code(vs.subrange(0, k as int)),
            decreases variables@.len() - k,
        {
            assert(vs.subrange(0, k + 1).drop_last() =~= vs.subrange(0, k as int));
            push_text(&mut generated, "pub ");
            push_text(&mut generated, variables[k]);
            push_text(&mut generated, ": &'a str,");
            k += 1;
        }
        assert(vs.subrange(0, k as int) =~= vs);
        push_text(&mut generated, "}");
        push_text(&mut generated, "pub fn render_");
        push_lower(&mut generated, fn_name);
        push_text(&mut generated, "(out: &mut String, view: ");
        push_text(&mut generated, struct_name);
        push_text(&mut generated, "View) {");
    } else {
        push_text(&mut generated, "pub fn render_");
        push_lower(&mut generated, fn_name);
        push_text(&mut generated, "(out: &mut String) {");
    }
    push_text(&mut generated, body.as_str());
    push_text(&mut generated, "}");
    generated
}

/// The source of the render function for template tokens (see `code_spec`
/// and `render_token`).
pub fn generate_r(tokens: &[Token], fn_name: &str, struct_name: &str) -> (r: String)
    ensures
        encode_utf8(r@) == code_spec(
            render_tokens(tokens_view(tokens@)),
            fn_name.spec_bytes(),
            struct_name.spec_bytes(),
        ),
{
    let mut segments: Vec<Segment> = Vec::new();
    let mut i: usize = 0;
    while i < tokens.len()
        invariant
            i <= tokens@.len(),
            segments@.len() == i,
            forall|k: int| 0 <= k < i ==> segment_view(#[trigger] segments@[k]) == render_token(
                token_view(tokens@[k]),
            ),
        decreases tokens@.len() - i,
    {
        let seg = match &tokens[i] {
            Token::Literal(l) => {
                let c = debug_literal(l.as_str());
                proof {
                    encode_utf8_decode_utf8(l@);
                }
                Segment::Code(c)
            },
            Token::Variable(n, e) => Segment::Variable(n.as_str().to_owned(), *e),
        };
        segments.push(seg);
        i += 1;
    }
    assert(segments_view(segments@) =~= render_tokens(tokens_view(tokens@)));
    generate_from_segments(&segments, fn_name, struct_name)
}

/// Compiles a template into the source of its render function: `Err` with
/// the template's fault (see `parse_template`), otherwise the code for its
/// tokens (see `code_spec`).
pub fn generate_code(html: &str, fn_name: &str, struct_name: &str) -> (r: Result<
    String,
    TemplateError,
>)
    ensures
        match r {
            Ok(s) => parse_template(html.spec_bytes()) matches Ok(ts) && encode_utf8(s@)
                == code_spec(render_tokens(ts), fn_name.spec_bytes(), struct_name.spec_bytes()),
            Err(e) => parse_template(html.spec_bytes()) == Err::<Seq<TokenModel>, TemplateError>(
                e,
            ),
        },
{
    let tokens = match parse_html(html) {
        Ok(t) => t,
        Err(e) => {
            return Err(e);
        },
    };
    Ok(generate_r(tokens.as_slice(), fn_name, struct_name))
}

// ---------------------------------------------------------------------------
// Laws
// ---------------------------------------------------------------------------

/// The view struct gets one field per variable: the names are distinct, and
/// every variable used has its field, however often and with whatever
/// operations it is used.
pub proof fn lemma_one_field_per_variable(ss: Seq<SegmentModel>)
    ensures
        forall|i: int, j: int|
            0 <= i < j < var_names(ss).len() ==> var_names(ss)[i] != var_names(ss)[j],
        forall|k: int|
            0 <= k < ss.len() ==> (#[trigger] ss[k] matches SegmentModel::Variable(n, _)
                ==> var_names(ss).contains(n)),
    decreases ss.len(),
{
    if ss.len() > 0 {
        let init = ss.drop_last();
        lemma_one_field_per_variable(init);
        let vs = var_names(init);
        assert forall|k: int| 0 <= k < ss.len() implies (#[trigger] ss[k] matches SegmentModel::Variable(
            n,
            _,
        ) ==> var_names(ss).contains(n)) by {
            if k < ss.len() - 1 {
                assert(ss[k] == init[k]);
                if let SegmentModel::Variable(n, _) = ss[k] {
                    let w = choose|w: int| 0 <= w < vs.len() && vs[w] == n;
                    if let SegmentModel::Variable(m, _) = ss.last() {
                        if !vs.contains(m) {
                            assert(vs.push(m)[w] == n);
                        }
                    }
                }
            } else {
                if let SegmentModel::Variable(n, _) = ss[k] {
                    if !vs.contains(n) {
                        assert(vs.push(n)[vs.len() as int] == n);
                    }
                }
            }
        }
    }
}

/// A token of an accepted template: literal text without braces, or a
/// variable whose name is an identifier.
pub open spec fn token_ok(t: TokenModel) -> bool {
    match t {
        TokenModel::Literal(l) => forall|i: int| 0 <= i < l.len() ==> #[trigger] l[i] != 123 && l[i]
            != 125,
        TokenModel::Variable(n, _) => valid_ident(n),
    }
}

proof fn lemma_scan_tokens(
    h: Seq<u8>,
    i: int,
    lit: int,
    var: int,
    open: bool,
    acc: Seq<TokenModel>,
)
    requires
        0 <= lit <= i <= h.len(),
        0 <= var <= i,
        !open ==> forall|p: int| lit <= p < i ==> h[p] != 123 && h[p] != 125,
        forall|k: int| 0 <= k < acc.len() ==> token_ok(#[trigger] acc[k]),
    ensures
        scan_template(h, i, lit, var, open, acc) matches Ok(ts) ==> forall|k: int|
            0 <= k < ts.len() ==> token_ok(#[trigger] ts[k]),
    decreases h.len() - i,
{
    if i >= h.len() {
        if !open {
            let l = h.subrange(lit, h.len() as int);
            assert(token_ok(TokenModel::Literal(l)));
            let ts = acc.push(TokenModel::Literal(l));
            assert forall|k: int| 0 <= k < ts.len() implies token_ok(#[trigger] ts[k]) by {
                if k < acc.len() {
                    assert(ts[k] == acc[k]);
                }
            }
        }
    } else if h[i] == 123 {
        if !open {
            let l = h.subrange(lit, i);
            let acc2 = if l.len() > 0 {
                acc.push(TokenModel::Literal(l))
            } else {
                acc
            };
            assert(token_ok(TokenModel::Literal(l)));
            assert forall|k: int| 0 <= k < acc2.len() implies token_ok(#[trigger] acc2[k]) by {
                if k < acc.len() {
                    assert(acc2[k] == acc[k]);
                }
            }
            lemma_scan_tokens(h, i + 1, lit, i + 1, true, acc2);
        }
    } else if h[i] == 125 {
        if open {
            match variable_token(h.subrange(var, i)) {
                Err(_) => {},
                Ok(t) => {
                    assert(token_ok(t));
                    let acc2 = acc.push(t);
                    assert forall|k: int| 0 <= k < acc2.len() implies token_ok(#[trigger] acc2[k]) by {
                        if k < acc.len() {
                            assert(acc2[k] == acc[k]);
                        }
                    }
                    lemma_scan_tokens(h, i + 1, i + 1, var, false, acc2);
                },
            }
        }
    } else {
        lemma_scan_tokens(h, i + 1, lit, var, open, acc);
    }
}

/// The tokens of an accepted template are well formed: literal text holds
/// no brace, and every variable is named by an identifier.
pub proof fn lemma_accepted_template(h: Seq<u8>)
    ensures
        parse_template(h) matches Ok(ts) ==> forall|k: int|
            0 <= k < ts.len() ==> token_ok(#[trigger] ts[k]),
{
    lemma_scan_tokens(h, 0, 0, 0, false, seq![]);
}

} // verus!
