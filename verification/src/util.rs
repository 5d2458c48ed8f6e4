//! Small text helpers: HTML escaping, form decoding, sessions and passwords.
use vstd::prelude::*;
use vstd::utf8::*;
use vstd::string::StringSliceAdditionalSpecFns;
use crate::text::{str_from_utf8, string_from_utf8, lemma_split_ascii, lemma_encode_concat};
use crate::sha256::{sha256, digest_to_hex, sha256_spec, hex_lower, hashable, hex_digit, hex_digit_exec};
use crate::text::{ascii_string, ascii_chars, ascii_bytes};
use std::collections::hash_map::RandomState;
use crate::http::error::HttpError;

verus! {

/// What one byte becomes in escaped HTML text.
pub open spec fn escape_byte(b: u8) -> Seq<u8> {
    if b == 38 {
        seq![38u8, 97u8, 109u8, 112u8, 59u8]  // &amp;
    } else if b == 60 {
        seq![38u8, 108u8, 116u8, 59u8]  // &lt;
    } else if b == 62 {
        seq![38u8, 103u8, 116u8, 59u8]  // &gt;
    } else if b == 39 {
        seq![38u8, 35u8, 120u8, 50u8, 55u8, 59u8]  // &#x27;
    } else if b == 34 {
        seq![38u8, 113u8, 117u8, 111u8, 116u8, 59u8]  // &quot;
    } else {
        seq![b]
    }
}

/// A byte that HTML escaping replaces.
pub open spec fn is_html_special(b: u8) -> bool {
    b == 38 || b == 60 || b == 62 || b == 39 || b == 34
}

/// The escaped form of a byte string: each byte replaced by `escape_byte`.
pub open spec fn escape_bytes(b: Seq<u8>) -> Seq<u8>
    decreases b.len(),
{
    if b.len() == 0 {
        seq![]
    } else {
        escape_bytes(b.drop_last()) + escape_byte(b.last())
    }
}

proof fn lemma_escape_plain(b: Seq<u8>, s: int, e: int)
    requires
        0 <= s <= e <= b.len(),
        forall|i: int| s <= i < e ==> !is_html_special(#[trigger] b[i]),
    ensures
        escape_bytes(b.subrange(0, e)) == escape_bytes(b.subrange(0, s)) + b.subrange(s, e),
    decreases e - s,
{
    if e > s {
        lemma_escape_plain(b, s, e - 1);
        assert(b.subrange(0, e).drop_last() =~= b.subrange(0, e - 1));
        assert(b.subrange(s, e) =~= b.subrange(s, e - 1) + seq![b[e - 1]]);
    } else {
        assert(b.subrange(s, e) =~= Seq::<u8>::empty());
    }
}

fn replacement(b: u8) -> (r: &'static str)
    requires
        is_html_special(b),
    ensures
        r.spec_bytes() == escape_byte(b),
{
    proof {
        reveal_strlit("&amp;");
        reveal_strlit("&lt;");
        reveal_strlit("&gt;");
        reveal_strlit("&#x27;");
        reveal_strlit("&quot;");
    }
    let r = if b == 38 {
        "&amp;"
    } else if b == 60 {
        "&lt;"
    } else if b == 62 {
        "&gt;"
    } else if b == 39 {
        "&#x27;"
    } else {
        "&quot;"
    };
    proof {
        vstd::utf8::is_ascii_chars_encode_utf8(r@);
        assert(r.spec_bytes() =~= escape_byte(b));
    }
    r
}

/// Appends `text` to `out` with `&`, `<`, `>`, `'` and `"` replaced by their
/// HTML character references.
#[verifier::rlimit(40)]
pub fn escape_html(text: &str, out: &mut String)
    ensures
        encode_utf8(final(out)@) == encode_utf8(old(out)@) + escape_bytes(text.spec_bytes()),
{
    let bytes = text.as_bytes();
    let ghost b = bytes@;
    let ghost start = encode_utf8(out@);
    proof {
        encode_utf8_valid_utf8(text@);
        assert(b.subrange(0, b.len() as int) =~= b);
        assert(b.subrange(0, 0) =~= Seq::<u8>::empty());
    }
    let mut seg: usize = 0;
    let mut i: usize = 0;
    while i < bytes.len()
        invariant
            b == bytes@,
            seg <= i <= bytes@.len(),
            valid_utf8(b.subrange(seg as int, b.len() as int)),
            encode_utf8(out@) == start + escape_bytes(b.subrange(0, seg as int)),
            forall|k: int| seg <= k < i ==> !is_html_special(#[trigger] b[k]),
        decreases bytes@.len() - i,
    {
        let c = bytes[i];
        if c == 38 || c == 60 || c == 62 || c == 39 || c == 34 {
            let ghost r = b.subrange(seg as int, b.len() as int);
            proof {
                lemma_split_ascii(r, i - seg);
                assert(r.subrange(0, i - seg) =~= b.subrange(seg as int, i as int));
                assert(r.subrange(i - seg + 1, r.len() as int) =~= b.subrange(
                    i + 1,
                    b.len() as int,
                ));
                lemma_escape_plain(b, seg as int, i as int);
            }
            let piece = str_from_utf8(&bytes[seg..i]);
            match piece {
                Ok(p) => {
                    let ghost before = out@;
                    out.append(p);
                    proof {
                        lemma_encode_concat(before, p@);
                        decode_utf8_encode_utf8(b.subrange(seg as int, i as int));
                    }
                },
                Err(_) => {
                    proof {
                        assert(false);
                    }
                },
            }
            let rep = replacement(c);
            let ghost before2 = out@;
            out.append(rep);
            proof {
                lemma_encode_concat(before2, rep@);
                encode_utf8_decode_utf8(rep@);
                assert(rep.spec_bytes() == encode_utf8(rep@));
                assert(b.subrange(0, i + 1).drop_last() =~= b.subrange(0, i as int));
                assert(b.subrange(0, i + 1).last() == c);
            }
            seg = i + 1;
        }
        i += 1;
    }
    proof {
        lemma_escape_plain(b, seg as int, b.len() as int);
        assert(b.subrange(seg as int, b.len() as int).subrange(0, b.len() - seg) =~= b.subrange(
            seg as int,
            b.len() as int,
        ));
    }
    let last = str_from_utf8(&bytes[seg..bytes.len()]);
    match last {
        Ok(p) => {
            let ghost before = out@;
            out.append(p);
            proof {
                lemma_encode_concat(before, p@);
                decode_utf8_encode_utf8(b.subrange(seg as int, b.len() as int));
            }
        },
        Err(_) => {
            proof {
                assert(false);
            }
        },
    }
}

/// The value of an ASCII hexadecimal digit.
pub open spec fn hex_value(b: u8) -> Option<u8> {
    if 48 <= b <= 57 {
        Some((b - 48) as u8)
    } else if 97 <= b <= 102 {
        Some((b - 87) as u8)
    } else if 65 <= b <= 70 {
        Some((b - 55) as u8)
    } else {
        None
    }
}

fn decode_hex(byte: u8) -> (r: Option<u8>)
    ensures
        r == hex_value(byte),
{
    if 48 <= byte && byte <= 57 {
        Some(byte - 48)
    } else if 97 <= byte && byte <= 102 {
        Some(byte - 87)
    } else if 65 <= byte && byte <= 70 {
        Some(byte - 55)
    } else {
        None
    }
}

/// Percent- and plus-decoding of `application/x-www-form-urlencoded` bytes:
/// `+` is a space, `%XY` is the byte with hexadecimal value XY, any other byte
/// stands for itself. `None` where a `%` is not followed by two hex digits.
pub open spec fn form_decode_bytes(input: Seq<u8>) -> Option<Seq<u8>>
    decreases input.len(),
{
    if input.len() == 0 {
        Some(seq![])
    } else if input[0] == 43 {
        match form_decode_bytes(input.subrange(1, input.len() as int)) {
            Some(rest) => Some(seq![32u8] + rest),
            None => None,
        }
    } else if input[0] == 37 {
        if input.len() >= 3 && hex_value(input[1]) is Some && hex_value(input[2]) is Some {
            match form_decode_bytes(input.subrange(3, input.len() as int)) {
                Some(rest) => Some(
                    seq![(hex_value(input[1])->0 * 16 + hex_value(input[2])->0) as u8] + rest,
                ),
                None => None,
            }
        } else {
            None
        }
    } else {
        match form_decode_bytes(input.subrange(1, input.len() as int)) {
            Some(rest) => Some(seq![input[0]] + rest),
            None => None,
        }
    }
}

/// Decodes a form field: `Ok` exactly when the percent escapes are well formed
/// and the decoded bytes are valid UTF-8; the text is those bytes decoded.
pub fn decode_form(input: &[u8]) -> (res: Result<String, HttpError>)
    ensures
        match res {
            Ok(s) => form_decode_bytes(input@) is Some && valid_utf8(form_decode_bytes(input@)->0)
                && s@ == decode_utf8(form_decode_bytes(input@)->0),
            Err(e) => e == HttpError::FormParseError && (form_decode_bytes(input@) is None
                || !valid_utf8(form_decode_bytes(input@)->0)),
        },
{
    let mut decoded: Vec<u8> = Vec::with_capacity(input.len());
    let mut index: usize = 0;
    proof {
        assert(input@.subrange(0, input@.len() as int) =~= input@);
        match form_decode_bytes(input@) {
            Some(r) => {
                assert(decoded@ + r =~= r);
            },
            None => {},
        }
    }
    while index < input.len()
        invariant
            index <= input@.len(),
            form_decode_bytes(input@) == match form_decode_bytes(
                input@.subrange(index as int, input@.len() as int),
            ) {
                Some(rest) => Some(decoded@ + rest),
                None => None::<Seq<u8>>,
            },
        decreases input@.len() - index,
    {
        let ghost rest = input@.subrange(index as int, input@.len() as int);
        let c = input[index];
        if c == 43 {
            assert(rest.subrange(1, rest.len() as int) =~= input@.subrange(
                index + 1,
                input@.len() as int,
            ));
            decoded.push(32);
            index += 1;
            proof {
                match form_decode_bytes(input@.subrange(index as int, input@.len() as int)) {
                    Some(r) => {
                        assert(decoded@ + r =~= decoded@.drop_last() + (seq![32u8] + r));
                    },
                    None => {},
                }
            }
        } else if c == 37 {
            if input.len() - index < 3 {
                return Err(HttpError::FormParseError);
            }
            let high = decode_hex(input[index + 1]);
            let low = decode_hex(input[index + 2]);
            match (high, low) {
                (Some(h), Some(l)) => {
                    assert(rest.subrange(3, rest.len() as int) =~= input@.subrange(
                        index + 3,
                        input@.len() as int,
                    ));
                    decoded.push(h * 16 + l);
                    index += 3;
                    proof {
                        match form_decode_bytes(
                            input@.subrange(index as int, input@.len() as int),
                        ) {
                            Some(r) => {
                                assert(decoded@ + r =~= decoded@.drop_last() + (seq![
                                    (h * 16 + l) as u8,
                                ] + r));
                            },
                            None => {},
                        }
                    }
                },
                _ => {
                    return Err(HttpError::FormParseError);
                },
            }
        } else {
            assert(rest.subrange(1, rest.len() as int) =~= input@.subrange(
                index + 1,
                input@.len() as int,
            ));
            decoded.push(c);
            index += 1;
            proof {
                match form_decode_bytes(input@.subrange(index as int, input@.len() as int)) {
                    Some(r) => {
                        assert(decoded@ + r =~= decoded@.drop_last() + (seq![c] + r));
                    },
                    None => {},
                }
            }
        }
    }
    assert(form_decode_bytes(input@.subrange(index as int, input@.len() as int)) == Some(
        Seq::<u8>::empty(),
    ));
    assert(decoded@ + Seq::<u8>::empty() =~= decoded@);
    match string_from_utf8(decoded) {
        Some(s) => Ok(s),
        None => Err(HttpError::FormParseError),
    }
}

/// The lowercase hexadecimal SHA-256 digest of a password's UTF-8 bytes.
pub fn hash_password(password: &str) -> (hash: String)
    requires
        hashable(password.spec_bytes()),
    ensures
        encode_utf8(hash@) == hex_lower(sha256_spec(password.spec_bytes())),
{
    let digest = sha256(password.as_bytes());
    digest_to_hex(&digest)
}

/// `width` lowercase hexadecimal digits of `v`, most significant first.
pub open spec fn hex_fixed(v: u64, width: nat) -> Seq<u8> {
    Seq::new(width, |k: int| hex_digit(((v >> ((4 * (width - 1 - k)) as u64)) & 15u64) as u8))
}

/// The session identifier spelled by 128 random bits, in the layout of a
/// version-4 UUID: `xxxxxxxx-xxxx-4xxx-yxxx-xxxxxxxxxxxx` with the version
/// nibble forced to 4 and the variant bits forced to `10`.
pub open spec fn session_text(bits: u128) -> Seq<u8> {
    hex_fixed(((bits >> 96u128) as u32) as u64, 8) + seq![45u8] + hex_fixed(
        ((bits >> 80u128) as u16) as u64,
        4,
    ) + seq![45u8] + hex_fixed(((0x4000u128 | ((bits >> 64u128) & 0x0fffu128)) as u16) as u64, 4)
        + seq![45u8] + hex_fixed(((0x8000u128 | ((bits >> 48u128) & 0x3fffu128)) as u16) as u64, 4)
        + seq![45u8] + hex_fixed((bits & 0xffff_ffff_ffffu128) as u64, 12)
}

fn push_hex(out: &mut Vec<u8>, v: u64, width: usize)
    requires
        width <= 16,
    ensures
        final(out)@ == old(out)@ + hex_fixed(v, width as nat),
{
    let ghost start = out@;
    let mut k: usize = 0;
    while k < width
        invariant
            k <= width <= 16,
            out@ == start + hex_fixed(v, width as nat).subrange(0, k as int),
        decreases width - k,
    {
        let shift: u64 = (4 * (width - 1 - k)) as u64;
        let nibble: u64 = (v >> shift) & 15;
        assert(nibble < 16) by (bit_vector)
            requires
                nibble == (v >> shift) & 15u64,
        ;
        out.push(hex_digit_exec(nibble as u8));
        k += 1;
        assert(out@ =~= start + hex_fixed(v, width as nat).subrange(0, k as int));
    }
    assert(hex_fixed(v, width as nat).subrange(0, width as int) =~= hex_fixed(v, width as nat));
}

proof fn lemma_hex_fixed_ascii(v: u64, width: nat)
    ensures
        ascii_bytes(hex_fixed(v, width)),
{
    assert forall|k: int| 0 <= k < width implies #[trigger] hex_fixed(v, width)[k] < 128 by {
        let sh = (4 * (width - 1 - k)) as u64;
        let m = (v >> sh) & 15u64;
        assert(m < 16) by (bit_vector)
            requires
                m == (v >> sh) & 15u64,
        ;
    }
}

/// Formats 128 bits as a session identifier (see `session_text`).
pub fn format_session(bits: u128) -> (s: String)
    ensures
        s@ == ascii_chars(session_text(bits)),
        s@.len() == 36,
{
    let mut out: Vec<u8> = Vec::new();
    push_hex(&mut out, ((bits >> 96) as u32) as u64, 8);
    out.push(45);
    push_hex(&mut out, ((bits >> 80) as u16) as u64, 4);
    out.push(45);
    push_hex(&mut out, ((0x4000u128 | ((bits >> 64) & 0x0fff)) as u16) as u64, 4);
    out.push(45);
    push_hex(&mut out, ((0x8000u128 | ((bits >> 48) & 0x3fff)) as u16) as u64, 4);
    out.push(45);
    push_hex(&mut out, (bits & 0xffff_ffff_ffff) as u64, 12);
    proof {
        lemma_hex_fixed_ascii(((bits >> 96u128) as u32) as u64, 8);
        lemma_hex_fixed_ascii(((bits >> 80u128) as u16) as u64, 4);
        lemma_hex_fixed_ascii(((0x4000u128 | ((bits >> 64u128) & 0x0fffu128)) as u16) as u64, 4);
        lemma_hex_fixed_ascii(((0x8000u128 | ((bits >> 48u128) & 0x3fffu128)) as u16) as u64, 4);
        lemma_hex_fixed_ascii((bits & 0xffff_ffff_ffffu128) as u64, 12);
        assert(out@ =~= session_text(bits));
    }
    ascii_string(out)
}

/// A fresh hash-map seed (`RandomState::new`); its keys are chosen at random.
#[verifier::external_body]
fn new_random_state() -> RandomState {
    RandomState::new()
}

/// The hash of `x` under a seed (`BuildHasher::hash_one`). The value depends
/// on the seed's random keys, so nothing is stated of it.
#[verifier::external_body]
fn hash_one_u64(state: &RandomState, x: u64) -> u64 {
    std::hash::BuildHasher::hash_one(state, x)
}

/// A new random session identifier. Whatever bits the random source gave,
/// the text is `session_text` of them.
pub fn create_session() -> (s: String)
    ensures
        exists|bits: u128| s@ == ascii_chars(#[trigger] session_text(bits)),
        s@.len() == 36,
{
    let state = new_random_state();
    let high = hash_one_u64(&state, 0);
    let low = hash_one_u64(&state, 1);
    let bits: u128 = ((high as u128) << 64) | (low as u128);
    format_session(bits)
}

/// Escaped text holds no `<`, `>`, `"` or `'`: it cannot open a tag or
/// close an attribute value.
pub proof fn lemma_escaped_is_inert(b: Seq<u8>)
    ensures
        forall|i: int|
            0 <= i < escape_bytes(b).len() ==> #[trigger] escape_bytes(b)[i] != 60
                && escape_bytes(b)[i] != 62 && escape_bytes(b)[i] != 34 && escape_bytes(b)[i] != 39,
    decreases b.len(),
{
    if b.len() > 0 {
        lemma_escaped_is_inert(b.drop_last());
        let a = escape_bytes(b.drop_last());
        let e = escape_byte(b.last());
        assert forall|i: int| 0 <= i < e.len() implies #[trigger] e[i] != 60 && e[i] != 62 && e[i]
            != 34 && e[i] != 39 by {}
        assert forall|i: int| 0 <= i < escape_bytes(b).len() implies #[trigger] escape_bytes(b)[i]
            != 60 && escape_bytes(b)[i] != 62 && escape_bytes(b)[i] != 34 && escape_bytes(b)[i]
            != 39 by {
            if i < a.len() {
                assert(escape_bytes(b)[i] == a[i]);
            } else {
                assert(escape_bytes(b)[i] == e[i - a.len()]);
            }
        }
    }
}

/// A decimal `u32` as `str::parse` reads it: an optional `+`, then digits
/// whose value fits.
pub fn parse_u32(text: &str) -> (r: Option<u32>)
    ensures
        match r {
            Some(n) => crate::bytes::parse_unsigned(text.spec_bytes(), u32::MAX as nat) == Some(
                n as nat,
            ),
            None => crate::bytes::parse_unsigned(text.spec_bytes(), u32::MAX as nat) is None,
        },
{
    let b = text.as_bytes();
    assert(b@.subrange(0, b@.len() as int) =~= b@);
    match crate::bytes::parse_unsigned_exec(b, 0, b.len(), u32::MAX as u64) {
        Some(n) => Some(n as u32),
        None => None,
    }
}

} // verus!
