//! Byte-string vocabulary shared by the parsers: finding, splitting, trimming,
//! case-insensitive comparison and decimal numbers, each with its executable
//! counterpart.
use vstd::prelude::*;
use vstd::utf8::*;
use crate::text::lemma_split_ascii;

verus! {

/// Space or horizontal tab (the optional whitespace of HTTP).
pub open spec fn is_ows(x: u8) -> bool {
    x == 32 || x == 9
}

/// Length of the Unicode white-space character (`char::is_whitespace`) whose
/// UTF-8 encoding starts at byte `i`, or 0 when none starts there.
pub open spec fn uni_ws_len(b: Seq<u8>, i: int) -> int {
    if i < 0 || i >= b.len() {
        0
    } else if (9 <= b[i] <= 13) || b[i] == 32 {
        1
    } else if i + 1 < b.len() && b[i] == 0xc2 && (b[i + 1] == 0x85 || b[i + 1] == 0xa0) {
        2
    } else if i + 2 < b.len() && ((b[i] == 0xe1 && b[i + 1] == 0x9a && b[i + 2] == 0x80) || (b[i]
        == 0xe2 && b[i + 1] == 0x80 && ((0x80 <= b[i + 2] <= 0x8a) || b[i + 2] == 0xa8 || b[i + 2]
        == 0xa9 || b[i + 2] == 0xaf)) || (b[i] == 0xe2 && b[i + 1] == 0x81 && b[i + 2] == 0x9f) || (
    b[i] == 0xe3 && b[i + 1] == 0x80 && b[i + 2] == 0x80)) {
        3
    } else {
        0
    }
}

/// Length of the Unicode white-space character whose encoding ends just
/// before byte `e`, or 0.
pub open spec fn uni_ws_len_back(b: Seq<u8>, e: int) -> int {
    if e < 1 || e > b.len() {
        0
    } else if (9 <= b[e - 1] <= 13) || b[e - 1] == 32 {
        1
    } else if e >= 2 && b[e - 2] == 0xc2 && (b[e - 1] == 0x85 || b[e - 1] == 0xa0) {
        2
    } else if e >= 3 && ((b[e - 3] == 0xe1 && b[e - 2] == 0x9a && b[e - 1] == 0x80) || (b[e - 3]
        == 0xe2 && b[e - 2] == 0x80 && ((0x80 <= b[e - 1] <= 0x8a) || b[e - 1] == 0xa8 || b[e - 1]
        == 0xa9 || b[e - 1] == 0xaf)) || (b[e - 3] == 0xe2 && b[e - 2] == 0x81 && b[e - 1] == 0x9f)
        || (b[e - 3] == 0xe3 && b[e - 2] == 0x80 && b[e - 1] == 0x80)) {
        3
    } else {
        0
    }
}

/// White space starting at `i`: Unicode white space when `wide`, otherwise
/// space and tab only.
pub open spec fn ws_len(b: Seq<u8>, i: int, wide: bool) -> int {
    if wide {
        uni_ws_len(b, i)
    } else if 0 <= i < b.len() && is_ows(b[i]) {
        1
    } else {
        0
    }
}

/// White space ending just before `e`, of the same class.
pub open spec fn ws_len_back(b: Seq<u8>, e: int, wide: bool) -> int {
    if wide {
        uni_ws_len_back(b, e)
    } else if 1 <= e <= b.len() && is_ows(b[e - 1]) {
        1
    } else {
        0
    }
}

/// `b` without its leading white space.
pub open spec fn trim_start(b: Seq<u8>, wide: bool) -> Seq<u8>
    decreases b.len(),
{
    let l = ws_len(b, 0, wide);
    if 0 < l <= b.len() {
        trim_start(b.subrange(l, b.len() as int), wide)
    } else {
        b
    }
}

/// `b` without its trailing white space.
pub open spec fn trim_end(b: Seq<u8>, wide: bool) -> Seq<u8>
    decreases b.len(),
{
    let l = ws_len_back(b, b.len() as int, wide);
    if 0 < l <= b.len() {
        trim_end(b.subrange(0, b.len() - l), wide)
    } else {
        b
    }
}

/// `b` without leading and trailing white space.
pub open spec fn trim(b: Seq<u8>, wide: bool) -> Seq<u8> {
    trim_end(trim_start(b, wide), wide)
}

/// Index of the first occurrence of `x` in `b`.
pub open spec fn find_first(b: Seq<u8>, x: u8) -> Option<int>
    decreases b.len(),
{
    if b.len() == 0 {
        None
    } else if b[0] == x {
        Some(0)
    } else {
        match find_first(b.subrange(1, b.len() as int), x) {
            Some(i) => Some(i + 1),
            None => None,
        }
    }
}

/// The pieces of `b` between occurrences of `sep`, as `str::split` gives them
/// (always at least one piece; adjacent separators give empty pieces).
pub open spec fn split_bytes(b: Seq<u8>, sep: u8) -> Seq<Seq<u8>>
    decreases b.len(),
{
    if b.len() == 0 {
        seq![Seq::<u8>::empty()]
    } else {
        let init = split_bytes(b.drop_last(), sep);
        if b.last() == sep {
            init.push(Seq::<u8>::empty())
        } else {
            init.update(init.len() - 1, init.last().push(b.last()))
        }
    }
}

/// ASCII lowercase of a byte.
pub open spec fn ascii_lower(x: u8) -> u8 {
    if 65 <= x <= 90 {
        (x + 32) as u8
    } else {
        x
    }
}

/// Equality up to ASCII case, as `eq_ignore_ascii_case` defines it.
pub open spec fn eq_ignore_case(a: Seq<u8>, b: Seq<u8>) -> bool {
    a.len() == b.len() && forall|i: int| 0 <= i < a.len() ==> ascii_lower(#[trigger] a[i])
        == ascii_lower(b[i])
}

/// ASCII decimal digit.
pub open spec fn is_digit(x: u8) -> bool {
    48 <= x <= 57
}

/// The value of a string of decimal digits.
pub open spec fn digits_value(b: Seq<u8>) -> nat
    decreases b.len(),
{
    if b.len() == 0 {
        0
    } else {
        digits_value(b.drop_last()) * 10 + (b.last() - 48) as nat
    }
}

/// What `str::parse` gives for an unsigned integer type whose largest value is
/// `max`: an optional `+`, then one or more decimal digits whose value is at
/// most `max`.
pub open spec fn parse_unsigned(b: Seq<u8>, max: nat) -> Option<nat> {
    let d = strip_plus(b);
    if d.len() > 0 && (forall|i: int| 0 <= i < d.len() ==> is_digit(#[trigger] d[i]))
        && digits_value(d) <= max {
        Some(digits_value(d))
    } else {
        None
    }
}

/// `b` without one leading `+`.
pub open spec fn strip_plus(b: Seq<u8>) -> Seq<u8> {
    if b.len() > 0 && b[0] == 43 {
        b.subrange(1, b.len() as int)
    } else {
        b
    }
}

/// The decimal digits of `n`, without leading zeros.
pub open spec fn decimal(n: nat) -> Seq<u8>
    decreases n,
{
    if n < 10 {
        seq![(n + 48) as u8]
    } else {
        decimal(n / 10) + seq![(n % 10 + 48) as u8]
    }
}

// ---------------------------------------------------------------------------
// Lemmas
// ---------------------------------------------------------------------------

/// One more byte extends the last piece, or starts a new one at a separator.
pub proof fn lemma_split_step(b: Seq<u8>, sep: u8, i: int)
    requires
        0 <= i < b.len(),
    ensures
        split_bytes(b.subrange(0, i + 1), sep) == (if b[i] == sep {
            split_bytes(b.subrange(0, i), sep).push(Seq::<u8>::empty())
        } else {
            split_bytes(b.subrange(0, i), sep).update(
                split_bytes(b.subrange(0, i), sep).len() - 1,
                split_bytes(b.subrange(0, i), sep).last().push(b[i]),
            )
        }),
{
    assert(b.subrange(0, i + 1).drop_last() =~= b.subrange(0, i));
}

/// There is always at least one piece.
pub proof fn lemma_split_nonempty(b: Seq<u8>, sep: u8)
    ensures
        split_bytes(b, sep).len() >= 1,
    decreases b.len(),
{
    if b.len() > 0 {
        lemma_split_nonempty(b.drop_last(), sep);
    }
}

/// Pieces completed in a prefix stay the same in every longer prefix.
pub proof fn lemma_split_prefix_stable(d: Seq<u8>, sep: u8, i: int, m: int)
    requires
        0 <= i <= m <= d.len(),
    ensures
        split_bytes(d.subrange(0, m), sep).len() >= split_bytes(d.subrange(0, i), sep).len(),
        forall|k: int|
            0 <= k < split_bytes(d.subrange(0, i), sep).len() - 1 ==> #[trigger] split_bytes(
                d.subrange(0, m),
                sep,
            )[k] == split_bytes(d.subrange(0, i), sep)[k],
    decreases m - i,
{
    lemma_split_nonempty(d.subrange(0, i), sep);
    if m > i {
        lemma_split_prefix_stable(d, sep, i, m - 1);
        lemma_split_step(d, sep, m - 1);
        lemma_split_nonempty(d.subrange(0, m - 1), sep);
    }
}

/// The last piece of a prefix that ends in no separator since `seg`.
pub proof fn lemma_split_last_extend(d: Seq<u8>, sep: u8, seg: int, j: int)
    requires
        0 <= seg <= j < d.len(),
        d[j] != sep,
        split_bytes(d.subrange(0, j), sep).last() == d.subrange(seg, j),
    ensures
        split_bytes(d.subrange(0, j + 1), sep).last() == d.subrange(seg, j + 1),
        split_bytes(d.subrange(0, j + 1), sep).len() == split_bytes(d.subrange(0, j), sep).len(),
        forall|k: int|
            0 <= k < split_bytes(d.subrange(0, j), sep).len() - 1 ==> #[trigger] split_bytes(
                d.subrange(0, j + 1),
                sep,
            )[k] == split_bytes(d.subrange(0, j), sep)[k],
{
    lemma_split_step(d, sep, j);
    lemma_split_nonempty(d.subrange(0, j), sep);
    assert(d.subrange(seg, j).push(d[j]) =~= d.subrange(seg, j + 1));
}

/// A separator closes the last piece and opens an empty one.
pub proof fn lemma_split_at_sep(d: Seq<u8>, sep: u8, j: int)
    requires
        0 <= j < d.len(),
        d[j] == sep,
    ensures
        split_bytes(d.subrange(0, j + 1), sep) == split_bytes(d.subrange(0, j), sep).push(
            Seq::<u8>::empty(),
        ),
{
    lemma_split_step(d, sep, j);
}

/// Valid UTF-8 cut where the cuts meet ASCII bytes (or the ends) is still valid.
pub proof fn lemma_valid_subrange(b: Seq<u8>, a: int, c: int)
    requires
        valid_utf8(b),
        0 <= a <= c <= b.len(),
        a == 0 || b[a - 1] < 128,
        c == b.len() || b[c] < 128,
    ensures
        valid_utf8(b.subrange(a, c)),
{
    let r = if a == 0 {
        assert(b.subrange(0, b.len() as int) =~= b);
        b
    } else {
        lemma_split_ascii(b, a - 1);
        b.subrange(a, b.len() as int)
    };
    assert(r =~= b.subrange(a, b.len() as int));
    if c == b.len() {
        assert(r =~= b.subrange(a, c));
    } else {
        lemma_split_ascii(r, c - a);
        assert(r.subrange(0, c - a) =~= b.subrange(a, c));
    }
}

// ---------------------------------------------------------------------------
// Executable helpers
// ---------------------------------------------------------------------------

/// Whether a byte is a UTF-8 continuation byte.
pub open spec fn is_cont(x: u8) -> bool {
    0x80 <= x <= 0xbf
}

/// A cut at `i` falls between characters: the end, or a byte that starts one.
pub open spec fn at_char_start(b: Seq<u8>, i: int) -> bool {
    i == b.len() || (0 <= i < b.len() && !is_cont(b[i]))
}

/// Valid UTF-8 cut at two character starts is valid UTF-8.
pub proof fn lemma_valid_cut(b: Seq<u8>, a: int, c: int)
    requires
        valid_utf8(b),
        0 <= a <= c <= b.len(),
        at_char_start(b, a),
        at_char_start(b, c),
    ensures
        valid_utf8(b.subrange(a, c)),
{
    is_char_boundary_start_end_of_seq(b);
    if a < b.len() {
        is_char_boundary_iff_not_is_continuation_byte(b, a);
    }
    valid_utf8_split(b, a);
    let r = b.subrange(a, b.len() as int);
    is_char_boundary_start_end_of_seq(r);
    if c < b.len() {
        is_char_boundary_iff_not_is_continuation_byte(r, c - a);
    }
    valid_utf8_split(r, c - a);
    assert(r.subrange(0, c - a) =~= b.subrange(a, c));
}

/// Dropping one leading white-space character keeps valid UTF-8 valid.
pub proof fn lemma_valid_pop_ws(r: Seq<u8>, wide: bool)
    requires
        valid_utf8(r),
        ws_len(r, 0, wide) > 0,
    ensures
        valid_utf8(r.subrange(ws_len(r, 0, wide), r.len() as int)),
        ws_len(r, 0, wide) <= r.len(),
{
    reveal_with_fuel(valid_utf8, 2);
    let l = ws_len(r, 0, wide);
    assert(length_of_first_scalar(r) == l);
    assert(pop_first_scalar(r) =~= r.subrange(l, r.len() as int));
}

/// White space starts with a byte that starts a character.
pub proof fn lemma_ws_starts_char(b: Seq<u8>, i: int, wide: bool)
    requires
        ws_len(b, i, wide) > 0,
    ensures
        at_char_start(b, i),
        i + ws_len(b, i, wide) <= b.len(),
{
}

/// White space that ends at `e` starts at a character start.
pub proof fn lemma_ws_back_starts_char(b: Seq<u8>, e: int, wide: bool)
    requires
        ws_len_back(b, e, wide) > 0,
    ensures
        at_char_start(b, e - ws_len_back(b, e, wide)),
        ws_len_back(b, e, wide) <= e <= b.len(),
{
}

fn is_ows_exec(x: u8) -> (r: bool)
    ensures
        r == is_ows(x),
{
    x == 32 || x == 9
}

/// Length of the white space that starts at `i` within `b[lo..hi]`.
pub fn ws_len_exec(b: &[u8], lo: usize, i: usize, hi: usize, wide: bool) -> (r: usize)
    requires
        lo <= i <= hi <= b@.len(),
    ensures
        r as int == ws_len(b@.subrange(lo as int, hi as int), i - lo, wide),
        r <= hi - i,
{
    if i >= hi {
        return 0;
    }
    let x = b[i];
    if !wide {
        return if is_ows_exec(x) {
            1
        } else {
            0
        };
    }
    if (9 <= x && x <= 13) || x == 32 {
        return 1;
    }
    if hi - i >= 2 && x == 0xc2 && (b[i + 1] == 0x85 || b[i + 1] == 0xa0) {
        return 2;
    }
    if hi - i >= 3 {
        let y = b[i + 1];
        let z = b[i + 2];
        if (x == 0xe1 && y == 0x9a && z == 0x80) || (x == 0xe2 && y == 0x80 && ((0x80 <= z && z
            <= 0x8a) || z == 0xa8 || z == 0xa9 || z == 0xaf)) || (x == 0xe2 && y == 0x81 && z
            == 0x9f) || (x == 0xe3 && y == 0x80 && z == 0x80) {
            return 3;
        }
    }
    0
}

/// Length of the white space that ends just before `e` within `b[lo..hi]`.
pub fn ws_len_back_exec(b: &[u8], lo: usize, e: usize, hi: usize, wide: bool) -> (r: usize)
    requires
        lo <= e <= hi <= b@.len(),
    ensures
        r as int == ws_len_back(b@.subrange(lo as int, hi as int), e - lo, wide),
        r <= e - lo,
{
    if e == lo {
        return 0;
    }
    let x = b[e - 1];
    if !wide {
        return if is_ows_exec(x) {
            1
        } else {
            0
        };
    }
    if (9 <= x && x <= 13) || x == 32 {
        return 1;
    }
    if e - lo >= 2 && b[e - 2] == 0xc2 && (x == 0x85 || x == 0xa0) {
        return 2;
    }
    if e - lo >= 3 {
        let w = b[e - 3];
        let y = b[e - 2];
        if (w == 0xe1 && y == 0x9a && x == 0x80) || (w == 0xe2 && y == 0x80 && ((0x80 <= x && x
            <= 0x8a) || x == 0xa8 || x == 0xa9 || x == 0xaf)) || (w == 0xe2 && y == 0x81 && x
            == 0x9f) || (w == 0xe3 && y == 0x80 && x == 0x80) {
            return 3;
        }
    }
    0
}

/// The range of `b[lo..hi]` left after trimming white space from both ends.
pub fn trim_range(b: &[u8], lo: usize, hi: usize, wide: bool) -> (r: (usize, usize))
    requires
        lo <= hi <= b@.len(),
    ensures
        lo <= r.0 <= r.1 <= hi,
        b@.subrange(r.0 as int, r.1 as int) == trim(b@.subrange(lo as int, hi as int), wide),
        valid_utf8(b@.subrange(lo as int, hi as int)) ==> valid_utf8(
            b@.subrange(r.0 as int, r.1 as int),
        ),
        !wide ==> forall|i: int| lo <= i < r.0 ==> is_ows(#[trigger] b@[i]),
        !wide ==> forall|i: int| r.1 <= i < hi ==> is_ows(#[trigger] b@[i]),
{
    let ghost whole = b@.subrange(lo as int, hi as int);
    let mut s = lo;
    loop
        invariant
            lo <= s <= hi <= b@.len(),
            whole == b@.subrange(lo as int, hi as int),
            trim_start(whole, wide) == trim_start(b@.subrange(s as int, hi as int), wide),
            valid_utf8(whole) ==> valid_utf8(b@.subrange(s as int, hi as int)),
            !wide ==> forall|i: int| lo <= i < s ==> is_ows(#[trigger] b@[i]),
        ensures
            lo <= s <= hi,
            trim_start(whole, wide) == b@.subrange(s as int, hi as int),
            valid_utf8(whole) ==> valid_utf8(b@.subrange(s as int, hi as int)),
            !wide ==> forall|i: int| lo <= i < s ==> is_ows(#[trigger] b@[i]),
        decreases hi - s,
    {
        let l = ws_len_exec(b, s, s, hi, wide);
        let ghost t = b@.subrange(s as int, hi as int);
        assert(b@.subrange(s as int, hi as int) =~= t.subrange(0, t.len() as int));
        if l == 0 {
            assert(ws_len(t, 0, wide) == 0);
            assert(trim_start(t, wide) == t);
            break;
        }
        proof {
            assert(t.subrange(l as int, t.len() as int) =~= b@.subrange(s + l, hi as int));
            if valid_utf8(whole) {
                lemma_valid_pop_ws(t, wide);
            }
        }
        s = s + l;
    }
    let ghost t = b@.subrange(s as int, hi as int);
    let mut e = hi;
    loop
        invariant
            lo <= s <= e <= hi <= b@.len(),
            t == b@.subrange(s as int, hi as int),
            trim_start(whole, wide) == t,
            whole == b@.subrange(lo as int, hi as int),
            trim_end(t, wide) == trim_end(b@.subrange(s as int, e as int), wide),
            e == hi || at_char_start(t, e - s),
            !wide ==> forall|i: int| lo <= i < s ==> is_ows(#[trigger] b@[i]),
            !wide ==> forall|i: int| e <= i < hi ==> is_ows(#[trigger] b@[i]),
        ensures
            s <= e <= hi,
            trim_end(t, wide) == b@.subrange(s as int, e as int),
            e == hi || at_char_start(t, e - s),
            !wide ==> forall|i: int| e <= i < hi ==> is_ows(#[trigger] b@[i]),
        decreases e - s,
    {
        let l = ws_len_back_exec(b, s, e, e, wide);
        let ghost u = b@.subrange(s as int, e as int);
        assert(b@.subrange(s as int, e as int) =~= u.subrange(0, u.len() as int));
        if l == 0 {
            assert(trim_end(u, wide) == u);
            break;
        }
        proof {
            assert(u.subrange(0, u.len() - l) =~= b@.subrange(s as int, e - l));
            lemma_ws_back_starts_char(u, u.len() as int, wide);
            assert(u[u.len() - l] == t[e - l - s]);
        }
        e = e - l;
    }
    proof {
        if valid_utf8(whole) {
            if e < hi {
                lemma_valid_cut(t, 0, e - s);
            } else {
                assert(t.subrange(0, e - s) =~= t);
            }
            assert(t.subrange(0, e - s) =~= b@.subrange(s as int, e as int));
        }
    }
    (s, e)
}

/// The first index in `b[lo..hi]` that holds `x`.
pub fn find_byte(b: &[u8], lo: usize, hi: usize, x: u8) -> (r: Option<usize>)
    requires
        lo <= hi <= b@.len(),
    ensures
        match r {
            Some(i) => find_first(b@.subrange(lo as int, hi as int), x) == Some(i - lo) && lo <= i
                < hi && b@[i as int] == x,
            None => find_first(b@.subrange(lo as int, hi as int), x) is None,
        },
        r is None ==> forall|i: int| lo <= i < hi ==> b@[i] != x,
        r matches Some(k) ==> forall|i: int| lo <= i < k ==> b@[i] != x,
{
    let mut i = lo;
    while i < hi
        invariant
            lo <= i <= hi <= b@.len(),
            forall|k: int| lo <= k < i ==> b@[k] != x,
            find_first(b@.subrange(lo as int, hi as int), x) == match find_first(
                b@.subrange(i as int, hi as int),
                x,
            ) {
                Some(k) => Some(k + (i - lo)),
                None => None,
            },
        decreases hi - i,
    {
        if b[i] == x {
            assert(find_first(b@.subrange(i as int, hi as int), x) == Some(0int));
            return Some(i);
        }
        assert(b@.subrange(i as int, hi as int).subrange(1, hi - i) =~= b@.subrange(
            i + 1,
            hi as int,
        ));
        i += 1;
    }
    assert(b@.subrange(i as int, hi as int).len() == 0);
    None
}

/// Compares two byte strings up to ASCII case.
pub fn eq_ignore_case_exec(a: &[u8], b: &[u8]) -> (r: bool)
    ensures
        r == eq_ignore_case(a@, b@),
{
    if a.len() != b.len() {
        return false;
    }
    let mut i: usize = 0;
    while i < a.len()
        invariant
            a@.len() == b@.len(),
            i <= a@.len(),
            forall|k: int| 0 <= k < i ==> ascii_lower(#[trigger] a@[k]) == ascii_lower(b@[k]),
        decreases a@.len() - i,
    {
        let x = a[i];
        let y = b[i];
        let lx = if 65 <= x && x <= 90 {
            x + 32
        } else {
            x
        };
        let ly = if 65 <= y && y <= 90 {
            y + 32
        } else {
            y
        };
        if lx != ly {
            return false;
        }
        i += 1;
    }
    true
}

/// Parses `b[lo..hi]` as `str::parse` parses an unsigned integer no larger
/// than `max`.
pub fn parse_unsigned_exec(b: &[u8], lo: usize, hi: usize, max: u64) -> (r: Option<u64>)
    requires
        lo <= hi <= b@.len(),
    ensures
        match r {
            Some(n) => parse_unsigned(b@.subrange(lo as int, hi as int), max as nat) == Some(
                n as nat,
            ),
            None => parse_unsigned(b@.subrange(lo as int, hi as int), max as nat) is None,
        },
{
    let ghost whole = b@.subrange(lo as int, hi as int);
    let start = if lo < hi && b[lo] == 43 {
        lo + 1
    } else {
        lo
    };
    let ghost d = b@.subrange(start as int, hi as int);
    assert(d =~= strip_plus(whole));
    if start == hi {
        return None;
    }
    let mut value: u64 = 0;
    let mut i = start;
    while i < hi
        invariant
            lo <= start <= i <= hi <= b@.len(),
            d == b@.subrange(start as int, hi as int),
            whole == b@.subrange(lo as int, hi as int),
            d == strip_plus(whole),
            forall|k: int| start <= k < i ==> is_digit(#[trigger] b@[k]),
            value as nat == digits_value(b@.subrange(start as int, i as int)),
            value <= max,
        decreases hi - i,
    {
        let c = b[i];
        if c < 48 || c > 57 {
            assert(!is_digit(d[i - start]));
            assert(!(forall|k: int| 0 <= k < d.len() ==> is_digit(#[trigger] d[k])));
            assert(parse_unsigned(whole, max as nat) is None);
            return None;
        }
        let digit = (c - 48) as u64;
        assert(b@.subrange(start as int, i + 1).drop_last() =~= b@.subrange(
            start as int,
            i as int,
        ));
        let overflow = if value > max / 10 {
            true
        } else {
            assert(value * 10 <= max) by (nonlinear_arith)
                requires
                    value <= max / 10,
            ;
            digit > max - value * 10
        };
        if overflow {
            proof {
                lemma_digits_prefix_le(d, i + 1 - start);
                assert(b@.subrange(start as int, i + 1) =~= d.subrange(0, i + 1 - start));
                assert(digits_value(b@.subrange(start as int, i + 1)) == value * 10 + digit);
                assert(value * 10 + digit > max) by (nonlinear_arith)
                    requires
                        value > max / 10 || digit > max - value * 10,
                ;
                if forall|k: int| 0 <= k < d.len() ==> is_digit(#[trigger] d[k]) {
                    assert(!(exists|k: int| i + 1 - start <= k < d.len() && !is_digit(#[trigger] d[k])));
                }
            }
            return None;
        }
        value = value * 10 + digit;
        i += 1;
    }
    assert(b@.subrange(start as int, hi as int) =~= d);
    Some(value)
}

proof fn lemma_digits_prefix_le(d: Seq<u8>, n: int)
    requires
        0 <= n <= d.len(),
    ensures
        digits_value(d.subrange(0, n)) <= digits_value(d) || exists|k: int|
            n <= k < d.len() && !is_digit(#[trigger] d[k]),
    decreases d.len() - n,
{
    if n < d.len() {
        lemma_digits_prefix_le(d, n + 1);
        assert(d.subrange(0, n + 1).drop_last() =~= d.subrange(0, n));
        if is_digit(d[n]) {
            assert(digits_value(d.subrange(0, n + 1)) >= digits_value(d.subrange(0, n)))
                by (nonlinear_arith)
                requires
                    digits_value(d.subrange(0, n + 1)) == digits_value(d.subrange(0, n)) * 10
                        + (d[n] - 48) as nat,
            ;
        }
    } else {
        assert(d.subrange(0, n) =~= d);
    }
}

/// Appends the decimal digits of `n`.
pub fn push_decimal(out: &mut Vec<u8>, n: u64)
    ensures
        final(out)@ == old(out)@ + decimal(n as nat),
    decreases n,
{
    if n >= 10 {
        push_decimal(out, n / 10);
    }
    out.push((n % 10) as u8 + 48);
    proof {
        if n >= 10 {
            assert(final(out)@ =~= old(out)@ + decimal(n as nat));
        } else {
            assert(final(out)@ =~= old(out)@ + decimal(n as nat));
        }
    }
}

pub proof fn lemma_decimal_ascii(n: nat)
    ensures
        forall|i: int| 0 <= i < decimal(n).len() ==> #[trigger] decimal(n)[i] < 128,
        decimal(n).len() >= 1,
    decreases n,
{
    if n >= 10 {
        lemma_decimal_ascii(n / 10);
    }
}


/// Compares two byte strings.
pub fn bytes_eq_exec(a: &[u8], b: &[u8]) -> (r: bool)
    ensures
        r == (a@ == b@),
{
    if a.len() != b.len() {
        return false;
    }
    let mut i: usize = 0;
    while i < a.len()
        invariant
            a@.len() == b@.len(),
            i <= a@.len(),
            forall|k: int| 0 <= k < i ==> a@[k] == b@[k],
        decreases a@.len() - i,
    {
        if a[i] != b[i] {
            return false;
        }
        i += 1;
    }
    assert(a@ =~= b@);
    true
}

/// The first occurrence found is in range, holds `x`, and none comes before.
pub proof fn lemma_find_first_bound(b: Seq<u8>, x: u8)
    ensures
        find_first(b, x) matches Some(i) ==> 0 <= i < b.len() && b[i] == x && forall|j: int|
            0 <= j < i ==> b[j] != x,
        find_first(b, x) is None ==> forall|j: int| 0 <= j < b.len() ==> b[j] != x,
    decreases b.len(),
{
    if b.len() > 0 && b[0] != x {
        let t = b.subrange(1, b.len() as int);
        lemma_find_first_bound(t, x);
        assert forall|j: int| 0 < j < b.len() implies b[j] == t[j - 1] by {}
    }
}

/// Bytes without the separator split into one piece, themselves.
pub proof fn lemma_split_whole(b: Seq<u8>, sep: u8)
    requires
        forall|i: int| 0 <= i < b.len() ==> b[i] != sep,
    ensures
        split_bytes(b, sep) == seq![b],
    decreases b.len(),
{
    if b.len() == 0 {
        assert(b =~= Seq::<u8>::empty());
    } else {
        let init = b.drop_last();
        lemma_split_whole(init, sep);
        assert(init.push(b.last()) =~= b);
        assert(seq![init].update(0, init.push(b.last())) =~= seq![b]);
    }
}

} // verus!
