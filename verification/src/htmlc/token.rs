//! The first template format: `{name}` placeholders whose values are known
//! when the code is generated, so the generated function only pushes text.
use vstd::prelude::*;
use vstd::utf8::*;
use vstd::string::StringSliceAdditionalSpecFns;
use crate::bytes::lemma_valid_subrange;
use crate::htmlc::compiler::{lower_bytes, push_lower, push_text};
use crate::http::head::entries_view;
use crate::http::request::{lemma_qmap_find_bound, qmap_find, qmap_get};
use crate::bytes::bytes_eq_exec;
use crate::text::sub_str;

verus! {

/// A piece of a template: literal text or the name of a placeholder.
#[derive(Debug)]
pub enum Token {
    Literal(String),
    Variable(String),
}

/// A token with its text as UTF-8 bytes.
pub enum PieceModel {
    Literal(Seq<u8>),
    Variable(Seq<u8>),
}

pub open spec fn piece_view(t: Token) -> PieceModel {
    match t {
        Token::Literal(s) => PieceModel::Literal(encode_utf8(s@)),
        Token::Variable(s) => PieceModel::Variable(encode_utf8(s@)),
    }
}

pub open spec fn pieces_view(ts: Seq<Token>) -> Seq<PieceModel> {
    Seq::new(ts.len(), |i: int| piece_view(ts[i]))
}

/// Reads a template from byte `i` on, where the current literal text starts
/// at `lit` and the current placeholder at `var`: each `{` ends a literal and
/// starts a placeholder, each `}` ends a placeholder and starts a literal,
/// and the text after the last `}` is the final literal.
pub open spec fn scan_pieces(h: Seq<u8>, i: int, lit: int, var: int, acc: Seq<PieceModel>) -> Seq<
    PieceModel,
>
    decreases h.len() - i,
{
    if i < 0 || i >= h.len() {
        acc.push(PieceModel::Literal(h.subrange(lit, h.len() as int)))
    } else if h[i] == 123 {
        scan_pieces(h, i + 1, lit, i + 1, acc.push(PieceModel::Literal(h.subrange(lit, i))))
    } else if h[i] == 125 {
        scan_pieces(h, i + 1, i + 1, var, acc.push(PieceModel::Variable(h.subrange(var, i))))
    } else {
        scan_pieces(h, i + 1, lit, var, acc)
    }
}

/// Splits a template at its braces (see `scan_pieces`).
pub fn parse_html(html: &str) -> (r: Vec<Token>)
    ensures
        pieces_view(r@) == scan_pieces(html.spec_bytes(), 0, 0, 0, seq![]),
{
    let h = html.as_bytes();
    let n = h.len();
    proof {
        encode_utf8_valid_utf8(html@);
    }
    let mut tokens: Vec<Token> = Vec::new();
    let mut lit: usize = 0;
    let mut var: usize = 0;
    let mut index: usize = 0;
    assert(pieces_view(tokens@) =~= Seq::<PieceModel>::empty());
    while index < n
        invariant
            h@ == html.spec_bytes(),
            valid_utf8(h@),
            n == h@.len(),
            lit <= index <= n,
            var <= index,
            lit == 0 || h@[lit - 1] == 125,
            var == 0 || h@[var - 1] == 123,
            scan_pieces(h@, 0, 0, 0, seq![]) == scan_pieces(
                h@,
                index as int,
                lit as int,
                var as int,
                pieces_view(tokens@),
            ),
        decreases n - index,
    {
        let c = h[index];
        let ghost before = pieces_view(tokens@);
        if c == 123 {
            proof {
                lemma_valid_subrange(h@, lit as int, index as int);
            }
            let s = sub_str(h, lit, index);
            tokens.push(Token::Literal(s.to_owned()));
            assert(pieces_view(tokens@) =~= before.push(
                PieceModel::Literal(h@.subrange(lit as int, index as int)),
            ));
            var = index + 1;
        } else if c == 125 {
            proof {
                lemma_valid_subrange(h@, var as int, index as int);
            }
            let s = sub_str(h, var, index);
            tokens.push(Token::Variable(s.to_owned()));
            assert(pieces_view(tokens@) =~= before.push(
                PieceModel::Variable(h@.subrange(var as int, index as int)),
            ));
            lit = index + 1;
        }
        index += 1;
    }
    proof {
        lemma_valid_subrange(h@, lit as int, n as int);
    }
    let ghost before = pieces_view(tokens@);
    let s = sub_str(h, lit, n);
    tokens.push(Token::Literal(s.to_owned()));
    assert(pieces_view(tokens@) =~= before.push(
        PieceModel::Literal(h@.subrange(lit as int, n as int)),
    ));
    tokens
}

/// Every placeholder of `ts` has a value in `vars`.
pub open spec fn all_bound(ts: Seq<PieceModel>, vars: Seq<(Seq<u8>, Seq<u8>)>) -> bool {
    forall|k: int|
        0 <= k < ts.len() ==> (#[trigger] ts[k] matches PieceModel::Variable(n) ==> qmap_get(
            vars,
            n,
        ) is Some)
}

/// The statement one piece becomes: its text, or its placeholder's value,
/// pushed as it is between double quotes.
pub open spec fn piece_code(t: PieceModel, vars: Seq<(Seq<u8>, Seq<u8>)>) -> Seq<u8> {
    match t {
        PieceModel::Literal(l) => "out.push_str(\"".spec_bytes() + l + "\");".spec_bytes(),
        PieceModel::Variable(n) => "out.push_str(\"".spec_bytes() + qmap_get(vars, n)->0
            + "\");".spec_bytes(),
    }
}

pub open spec fn pieces_code(ts: Seq<PieceModel>, vars: Seq<(Seq<u8>, Seq<u8>)>) -> Seq<u8>
    decreases ts.len(),
{
    if ts.len() == 0 {
        seq![]
    } else {
        pieces_code(ts.drop_last(), vars) + piece_code(ts.last(), vars)
    }
}

/// `template_<name>(out)`, `name` in small letters, pushing every piece.
pub open spec fn template_code(
    ts: Seq<PieceModel>,
    file_name: Seq<u8>,
    vars: Seq<(Seq<u8>, Seq<u8>)>,
) -> Seq<u8> {
    "pub fn template_".spec_bytes() + lower_bytes(file_name) + "(out: &mut String) {".spec_bytes()
        + pieces_code(ts, vars) + "}".spec_bytes()
}

/// The source of a function that pushes the template's text with each
/// placeholder replaced by its value in `variables` (the first pair with
/// that name).
pub fn generate_r(tokens: Vec<Token>, file_name: &str, variables: &[(&str, &str)]) -> (r: String)
    requires
        all_bound(pieces_view(tokens@), entries_view(variables@)),
    ensures
        encode_utf8(r@) == template_code(
            pieces_view(tokens@),
            file_name.spec_bytes(),
            entries_view(variables@),
        ),
{
    let ghost ts = pieces_view(tokens@);
    let ghost vars = entries_view(variables@);
    let mut code = String::new();
    assert(encode_utf8(code@) =~= Seq::<u8>::empty());
    push_text(&mut code, "pub fn template_");
    push_lower(&mut code, file_name);
    push_text(&mut code, "(out: &mut String) {");
    let ghost head = encode_utf8(code@);
    let mut i: usize = 0;
    assert(ts.subrange(0, 0) =~= Seq::<PieceModel>::empty());
    assert(head + pieces_code(ts.subrange(0, 0), vars) =~= head);
    while i < tokens.len()
        invariant
            i <= tokens@.len(),
            ts == pieces_view(tokens@),
            vars == entries_view(variables@),
            all_bound(ts, vars),
            encode_utf8(code@) == head + pieces_code(ts.subrange(0, i as int), vars),
        decreases tokens@.len() - i,
    {
        assert(ts.subrange(0, i + 1).drop_last() =~= ts.subrange(0, i as int));
        assert(ts[i as int] == piece_view(tokens@[i as int]));
        match &tokens[i] {
            Token::Literal(l) => {
                push_text(&mut code, "out.push_str(\"");
                push_text(&mut code, l.as_str());
                push_text(&mut code, "\");");
            },
            Token::Variable(name) => {
                let value = lookup(variables, name.as_str());
                push_text(&mut code, "out.push_str(\"");
                push_text(&mut code, value);
                push_text(&mut code, "\");");
            },
        }
        i += 1;
    }
    assert(ts.subrange(0, i as int) =~= ts);
    push_text(&mut code, "}");
    code
}

/// The value of the first pair named `name`.
fn lookup<'a>(variables: &[(&'a str, &'a str)], name: &str) -> (r: &'a str)
    requires
        qmap_get(entries_view(variables@), name.spec_bytes()) is Some,
    ensures
        qmap_get(entries_view(variables@), name.spec_bytes()) == Some(r.spec_bytes()),
{
    let ghost m = entries_view(variables@);
    let mut k: usize = 0;
    assert(m.subrange(0, m.len() as int) =~= m);
    while k < variables.len()
        invariant
            k <= variables@.len(),
            m == entries_view(variables@),
            qmap_find(m, name.spec_bytes()) == match qmap_find(
                m.subrange(k as int, m.len() as int),
                name.spec_bytes(),
            ) {
                Some(i) => Some(i + k),
                None => None,
            },
        decreases variables@.len() - k,
    {
        let ghost rest = m.subrange(k as int, m.len() as int);
        assert(rest[0] == m[k as int]);
        if bytes_eq_exec(variables[k].0.as_bytes(), name.as_bytes()) {
            return variables[k].1;
        }
        assert(rest.subrange(1, rest.len() as int) =~= m.subrange(k + 1, m.len() as int));
        k += 1;
    }
    assert(m.subrange(k as int, m.len() as int).len() == 0);
    proof {
        lemma_qmap_find_bound(m, name.spec_bytes());
    }
    ""
}

} // verus!
