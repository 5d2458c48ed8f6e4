//! Conversions between bytes and text, and facts about ASCII bytes.
use vstd::prelude::*;
use vstd::utf8::*;
use vstd::string::StringSliceAdditionalSpecFns;

verus! {

/// Every byte is an ASCII code (below 128).
pub open spec fn ascii_bytes(b: Seq<u8>) -> bool {
    forall|i: int| 0 <= i < b.len() ==> #[trigger] b[i] < 128
}

/// The text that a sequence of ASCII bytes spells, one character per byte.
pub open spec fn ascii_chars(b: Seq<u8>) -> Seq<char> {
    Seq::new(b.len(), |i: int| (b[i] as u32) as char)
}

/// ASCII bytes are valid UTF-8 and decode one character per byte.
pub proof fn lemma_ascii_utf8(b: Seq<u8>)
    requires
        ascii_bytes(b),
    ensures
        valid_utf8(b),
        decode_utf8(b) == ascii_chars(b),
        encode_utf8(ascii_chars(b)) == b,
    decreases b.len(),
{
    reveal_with_fuel(valid_utf8, 2);
    if b.len() == 0 {
        assert(decode_utf8(b) =~= ascii_chars(b));
    } else {
        let rest = b.subrange(1, b.len() as int);
        assert(ascii_bytes(rest));
        lemma_ascii_utf8(rest);
        assert(is_leading_byte_width_1(b[0]));
        assert(pop_first_scalar(b) =~= rest);
        let c0 = b[0];
        assert(codepoint_width_1(c0) == c0 as u32) by (bit_vector)
            requires
                c0 < 128,
        ;
        assert(decode_utf8(b) =~= ascii_chars(b));
    }
    encode_utf8_decode_utf8_helper(b);
}

proof fn encode_utf8_decode_utf8_helper(b: Seq<u8>)
    requires
        valid_utf8(b),
    ensures
        encode_utf8(decode_utf8(b)) == b,
{
    decode_utf8_encode_utf8(b);
}

/// UTF-8 encoding distributes over concatenation.
pub proof fn lemma_encode_concat(x: Seq<char>, y: Seq<char>)
    ensures
        encode_utf8(x + y) == encode_utf8(x) + encode_utf8(y),
    decreases x.len(),
{
    if x.len() == 0 {
        assert(x + y =~= y);
    } else {
        lemma_encode_concat(x.drop_first(), y);
        assert((x + y).drop_first() =~= x.drop_first() + y);
        assert((x + y)[0] == x[0]);
    }
}

/// Cutting valid UTF-8 at an ASCII byte leaves valid UTF-8 on both sides, and
/// the text is the text before, the ASCII character, and the text after.
pub proof fn lemma_split_ascii(b: Seq<u8>, d: int)
    requires
        valid_utf8(b),
        0 <= d < b.len(),
        b[d] < 128,
    ensures
        valid_utf8(b.subrange(0, d)),
        valid_utf8(b.subrange(d + 1, b.len() as int)),
        decode_utf8(b) == decode_utf8(b.subrange(0, d)) + seq![(b[d] as u32) as char]
            + decode_utf8(b.subrange(d + 1, b.len() as int)),
{
    let x = b[d];
    assert(!is_continuation_byte(x));
    is_char_boundary_iff_not_is_continuation_byte(b, d);
    valid_utf8_split(b, d);
    decode_utf8_split(b, d);
    let s = b.subrange(d, b.len() as int);
    assert(s[0] == x);
    assert(is_leading_byte_width_1(s[0]));
    assert(pop_first_scalar(s) =~= b.subrange(d + 1, b.len() as int));
    assert(codepoint_width_1(x) == x as u32) by (bit_vector)
        requires
            x < 128,
    ;
    assert(decode_utf8(s) =~= seq![(x as u32) as char] + decode_utf8(
        b.subrange(d + 1, b.len() as int),
    ));
}

/// Valid UTF-8 whose first byte is ASCII, without that byte, is still valid.
pub proof fn lemma_valid_drop_ascii_prefix(b: Seq<u8>, n: int)
    requires
        valid_utf8(b),
        0 <= n <= b.len(),
        forall|i: int| 0 <= i < n ==> #[trigger] b[i] < 128,
    ensures
        valid_utf8(b.subrange(n, b.len() as int)),
    decreases n,
{
    if n > 0 {
        lemma_valid_drop_ascii_prefix(b, n - 1);
        let r = b.subrange(n - 1, b.len() as int);
        lemma_split_ascii(r, 0);
        assert(r.subrange(1, r.len() as int) =~= b.subrange(n, b.len() as int));
    } else {
        assert(b.subrange(0, b.len() as int) =~= b);
    }
}

/// Valid UTF-8 whose last bytes are ASCII, without those bytes, is still valid.
pub proof fn lemma_valid_drop_ascii_suffix(b: Seq<u8>, n: int)
    requires
        valid_utf8(b),
        0 <= n <= b.len(),
        forall|i: int| n <= i < b.len() ==> #[trigger] b[i] < 128,
    ensures
        valid_utf8(b.subrange(0, n)),
    decreases b.len() - n,
{
    if n < b.len() {
        lemma_valid_drop_ascii_suffix(b, n + 1);
        let r = b.subrange(0, n + 1);
        lemma_split_ascii(r, n);
        assert(r.subrange(0, n) =~= b.subrange(0, n));
    } else {
        assert(b.subrange(0, n) =~= b);
    }
}

/// The length of the longest prefix of `b` that is valid UTF-8.
#[verifier::opaque]
pub open spec fn utf8_valid_up_to(b: Seq<u8>) -> nat
    decreases b.len(),
{
    if b.len() == 0 || valid_utf8(b) {
        b.len()
    } else {
        utf8_valid_up_to(b.drop_last())
    }
}

/// The length of the bad sequence that stops UTF-8 validation of `b`
/// (`Utf8Error::error_len`), `None` when `b` ends inside a character.
pub uninterp spec fn utf8_error_len(b: Seq<u8>) -> Option<usize>;

/// `r` is the start of one character's encoding that ends too early: some
/// bytes after it would complete a valid encoding longer than `r`.
pub open spec fn incomplete_char(r: Seq<u8>) -> bool {
    exists|t: Seq<u8>|
        #[trigger] valid_first_scalar(r + t) && r.len() < length_of_first_scalar(r + t)
}

/// Where UTF-8 validation stopped: how many leading bytes are valid, and the
/// length of the bad sequence after them, `None` when the bytes end inside a
/// character.
#[derive(Debug, Clone, Copy)]
pub struct Utf8Fault {
    pub valid_up_to: usize,
    pub error_len: Option<usize>,
}

/// The bytes as text when they are valid UTF-8, else where validation stopped
/// (`std::str::from_utf8`, then `Utf8Error::valid_up_to` and `error_len`).
/// As std documents them: `valid_up_to` is the longest valid prefix;
/// `error_len` is `None` when the input ends inside a character, 1 to 3 bytes
/// after the valid prefix, and otherwise the length (at most 3) of the
/// invalid sequence that starts there. Which length that is, beyond these
/// bounds, is named (`utf8_error_len`) and not spelled out.
#[verifier::external_body]
pub(crate) fn str_from_utf8(bytes: &[u8]) -> (res: Result<&str, Utf8Fault>)
    ensures
        res is Ok <==> valid_utf8(bytes@),
        res matches Ok(s) ==> s@ == decode_utf8(bytes@) && s.spec_bytes() == bytes@,
        res matches Err(f) ==> f.valid_up_to == utf8_valid_up_to(bytes@) && f.error_len
            == utf8_error_len(bytes@),
        res matches Err(f) ==> match f.error_len {
            None => 1 <= bytes@.len() - f.valid_up_to <= 3 && incomplete_char(
                bytes@.subrange(f.valid_up_to as int, bytes@.len() as int),
            ),
            Some(n) => 1 <= n <= 3 && f.valid_up_to + n <= bytes@.len() && !incomplete_char(
                bytes@.subrange(f.valid_up_to as int, bytes@.len() as int),
            ),
        },
{
    match std::str::from_utf8(bytes) {
        Ok(s) => Ok(s),
        Err(e) => Err(Utf8Fault { valid_up_to: e.valid_up_to(), error_len: e.error_len() }),
    }
}

/// The bytes as an owned string, when they are valid UTF-8 (`String::from_utf8`).
#[verifier::external_body]
pub(crate) fn string_from_utf8(bytes: Vec<u8>) -> (res: Option<String>)
    ensures
        res is Some <==> valid_utf8(bytes@),
        res matches Some(s) ==> s@ == decode_utf8(bytes@),
{
    String::from_utf8(bytes).ok()
}

/// An owned string spelled by ASCII bytes.
pub fn ascii_string(bytes: Vec<u8>) -> (s: String)
    requires
        ascii_bytes(bytes@),
    ensures
        s@ == ascii_chars(bytes@),
        encode_utf8(s@) == bytes@,
{
    proof {
        lemma_ascii_utf8(bytes@);
    }
    let ghost b = bytes@;
    match string_from_utf8(bytes) {
        Some(s) => s,
        None => {
            proof {
                assert(false);
            }
            String::new()
        },
    }
}

/// The text of valid UTF-8 bytes.
pub fn utf8_string(bytes: Vec<u8>) -> (s: String)
    requires
        valid_utf8(bytes@),
    ensures
        s@ == decode_utf8(bytes@),
        encode_utf8(s@) == bytes@,
{
    proof {
        decode_utf8_encode_utf8(bytes@);
    }
    match string_from_utf8(bytes) {
        Some(s) => s,
        None => {
            proof {
                assert(false);
            }
            String::new()
        },
    }
}

/// Text of `b[lo..hi]` where that range is valid UTF-8.
pub fn sub_str<'a>(b: &'a [u8], lo: usize, hi: usize) -> (s: &'a str)
    requires
        lo <= hi <= b@.len(),
        valid_utf8(b@.subrange(lo as int, hi as int)),
    ensures
        s.spec_bytes() == b@.subrange(lo as int, hi as int),
{
    match str_from_utf8(&b[lo..hi]) {
        Ok(s) => s,
        Err(_) => {
            proof {
                assert(false);
            }
            ""
        },
    }
}

/// What follows a valid UTF-8 prefix of valid UTF-8 is valid UTF-8.
pub proof fn lemma_valid_suffix(p: Seq<u8>, r: Seq<u8>)
    requires
        valid_utf8(p),
        valid_utf8(p + r),
    ensures
        valid_utf8(r),
    decreases p.len(),
{
    if p.len() == 0 {
        assert(p + r =~= r);
    } else {
        let q = p + r;
        assert(q[0] == p[0]);
        let l = length_of_first_scalar(p);
        assert(length_of_first_scalar(q) == l);
        assert(l <= p.len());
        assert(pop_first_scalar(q) =~= pop_first_scalar(p) + r);
        lemma_valid_suffix(pop_first_scalar(p), r);
    }
}

} // verus!
