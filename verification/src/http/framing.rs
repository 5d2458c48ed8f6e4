//! Deciding where one request ends while its bytes arrive in chunks: the
//! head ends at the first CRLF CRLF, and the body is as long as the last
//! `Content-Length` header says. The caller reads; `Framer` decides.
use vstd::prelude::*;
use vstd::utf8::*;
use vstd::string::StringSliceAdditionalSpecFns;
use crate::bytes::{
    eq_ignore_case, eq_ignore_case_exec, find_byte, find_first, parse_unsigned,
    parse_unsigned_exec, trim, trim_range,
};
use crate::constant::{MAX_BUFFER_SIZE, MAX_REQUEST_BYTES};
use crate::http::head::{
    content_length_name, crlf2_at, lemma_split_crlf_nonempty, lemma_split_crlf_stable, split_crlf,
};
use crate::text::str_from_utf8;

verus! {

/// Why a request could not be framed.
#[derive(Debug, Clone, Copy, PartialEq, Eq, Structural)]
pub enum FrameError {
    /// The peer stopped before the declared body was complete.
    BodyIncomplete,
    /// The peer stopped before the head was complete.
    PartialHeader,
    /// The request is larger than the limit, or its length overflows.
    SizeOverflow,
    /// A header name is empty or holds a space.
    HeaderInvalid,
    /// The head is not UTF-8.
    InvalidUtf8,
    /// A `Content-Length` value is not a number.
    ContentLengthInvalid,
}

/// First index from `index` on where CRLF CRLF starts.
pub open spec fn crlf2_from(d: Seq<u8>, index: int) -> Option<int>
    decreases d.len() - index,
{
    if index < 0 || index + 4 > d.len() {
        None
    } else if crlf2_at(d, index) {
        Some(index)
    } else {
        crlf2_from(d, index + 1)
    }
}

/// One header line of a head that ends at `end`: a line without `:` is
/// ignored; a name (before the first `:`) that is empty or holds a space is
/// refused; a `Content-Length` line (any case) sets the expected total to
/// `end` plus its trimmed value, which must be a number.
pub open spec fn frame_line(l: Seq<u8>, end: int, cl: Option<nat>) -> Result<
    Option<nat>,
    FrameError,
> {
    match find_first(l, 58) {
        None => Ok(cl),
        Some(c) => {
            let name = l.subrange(0, c);
            if name.len() == 0 || name.contains(32) {
                Err(FrameError::HeaderInvalid)
            } else if eq_ignore_case(name, content_length_name()) {
                match parse_unsigned(trim(l.subrange(c + 1, l.len() as int), true), usize::MAX as nat) {
                    None => Err(FrameError::ContentLengthInvalid),
                    Some(n) => if n + end > usize::MAX {
                        Err(FrameError::SizeOverflow)
                    } else {
                        Ok(Some((n + end) as nat))
                    },
                }
            } else {
                Ok(cl)
            }
        },
    }
}

/// The header lines (every line but the first) read in order.
pub open spec fn frame_lines(lines: Seq<Seq<u8>>, end: int) -> Result<Option<nat>, FrameError>
    decreases lines.len(),
{
    if lines.len() <= 1 {
        Ok(None)
    } else {
        match frame_lines(lines.drop_last(), end) {
            Err(e) => Err(e),
            Ok(cl) => frame_line(lines.last(), end, cl),
        }
    }
}

/// How long the request whose head (without its CRLF CRLF) is `head` and
/// ends at `end` is: the head must be UTF-8; without `Content-Length` the
/// request is the head alone; it must not exceed the limit.
pub open spec fn expected_length(head: Seq<u8>, end: int) -> Result<nat, FrameError> {
    if !valid_utf8(head) {
        Err(FrameError::InvalidUtf8)
    } else {
        match frame_lines(split_crlf(head), end) {
            Err(e) => Err(e),
            Ok(cl) => {
                let e = match cl {
                    Some(x) => x,
                    None => end as nat,
                };
                if e > MAX_REQUEST_BYTES {
                    Err(FrameError::SizeOverflow)
                } else {
                    Ok(e)
                }
            },
        }
    }
}

/// What has been received: the bytes kept, the total length once the head
/// is known, and where the search for the head's end resumes.
pub struct FramerModel {
    pub data: Seq<u8>,
    pub expected: Option<nat>,
    pub index: nat,
}

/// The outcome of one chunk.
#[derive(Debug, Clone, Copy, PartialEq, Eq, Structural)]
pub enum Step {
    /// More bytes are needed.
    Continue,
    /// The request is complete.
    Done,
    /// The request is refused.
    Fail(FrameError),
}

/// The bytes kept after a chunk arrives: once the total is known and the
/// chunk reaches it, only what completes the request; otherwise the chunk,
/// cut at the size limit.
pub open spec fn append_chunk(m: FramerModel, chunk: Seq<u8>) -> Seq<u8> {
    let len = m.data.len();
    if m.expected is Some && m.expected->0 - len <= MAX_BUFFER_SIZE && m.expected->0 - len
        <= chunk.len() {
        m.data + chunk.subrange(0, m.expected->0 - len)
    } else if len + chunk.len() > MAX_REQUEST_BYTES {
        m.data + chunk.subrange(0, MAX_REQUEST_BYTES - len)
    } else {
        m.data + chunk
    }
}

/// Done once the kept bytes reach the total (cut to it), otherwise waiting.
pub open spec fn settle(d: Seq<u8>, e: nat, index: nat) -> (FramerModel, Step) {
    if d.len() >= e {
        (FramerModel { data: d.subrange(0, e as int), expected: Some(e), index }, Step::Done)
    } else {
        (FramerModel { data: d, expected: Some(e), index }, Step::Continue)
    }
}

/// One chunk received: the bytes are kept (see `append_chunk`); while the
/// total is unknown the head's end is searched for, and when found the total
/// is read from the head (see `expected_length`); a head not found within the
/// size limit is refused.
pub open spec fn chunk_step(m: FramerModel, chunk: Seq<u8>) -> (FramerModel, Step) {
    let d = append_chunk(m, chunk);
    match m.expected {
        Some(e) => settle(d, e, m.index),
        None => match crlf2_from(d, m.index as int) {
            Some(i) => match expected_length(d.subrange(0, i), i + 4) {
                Err(err) => (FramerModel { data: d, expected: None, index: i as nat }, Step::Fail(err)),
                Ok(e) => settle(d, e, (i + 1) as nat),
            },
            None => {
                let idx: nat = if m.index + 4 <= d.len() {
                    (d.len() - 3) as nat
                } else {
                    m.index
                };
                if d.len() == MAX_REQUEST_BYTES {
                    (FramerModel { data: d, expected: None, index: idx }, Step::Fail(FrameError::SizeOverflow))
                } else {
                    (FramerModel { data: d, expected: None, index: idx }, Step::Continue)
                }
            },
        },
    }
}

/// The peer closed the connection: refused unless the request was complete.
pub open spec fn eof_step(m: FramerModel) -> Result<(), FrameError> {
    match m.expected {
        Some(e) => if m.data.len() < e {
            Err(FrameError::BodyIncomplete)
        } else {
            Ok(())
        },
        None => Err(FrameError::PartialHeader),
    }
}

/// The framing state of one connection.
pub struct Framer {
    data: Vec<u8>,
    expected: Option<usize>,
    index: usize,
}

impl View for Framer {
    type V = FramerModel;

    closed spec fn view(&self) -> FramerModel {
        FramerModel {
            data: self.data@,
            expected: match self.expected {
                Some(e) => Some(e as nat),
                None => None,
            },
            index: self.index as nat,
        }
    }
}

/// Scans `d[0..end]`, a head, for its header lines (see `frame_lines`).
fn frame_line_exec(d: &[u8], lo: usize, hi: usize, end: usize, cl: Option<usize>) -> (r: Result<
    Option<usize>,
    FrameError,
>)
    requires
        lo <= hi <= d@.len(),
    ensures
        frame_line(
            d@.subrange(lo as int, hi as int),
            end as int,
            match cl {
                Some(x) => Some(x as nat),
                None => None,
            },
        ) == match r {
            Ok(Some(x)) => Ok::<Option<nat>, FrameError>(Some(x as nat)),
            Ok(None) => Ok::<Option<nat>, FrameError>(None),
            Err(e) => Err::<Option<nat>, FrameError>(e),
        },
{
    let ghost l = d@.subrange(lo as int, hi as int);
    match find_byte(d, lo, hi, 58) {
        None => Ok(cl),
        Some(c) => {
            let ghost name = d@.subrange(lo as int, c as int);
            assert(l.subrange(0, c - lo) =~= name);
            assert(l.subrange(c - lo + 1, l.len() as int) =~= d@.subrange(c + 1, hi as int));
            if c == lo {
                return Err(FrameError::HeaderInvalid);
            }
            match find_byte(d, lo, c, 32) {
                Some(sp) => {
                    assert(name[sp - lo] == 32);
                    return Err(FrameError::HeaderInvalid);
                },
                None => {
                    assert(!name.contains(32));
                },
            }
            proof {
                reveal_strlit("Content-Length");
                vstd::utf8::is_ascii_chars_encode_utf8("Content-Length"@);
                assert("Content-Length".spec_bytes() =~= content_length_name());
            }
            if !eq_ignore_case_exec(&d[lo..c], "Content-Length".as_bytes()) {
                return Ok(cl);
            }
            let (vs, ve) = trim_range(d, c + 1, hi, true);
            match parse_unsigned_exec(d, vs, ve, usize::MAX as u64) {
                None => Err(FrameError::ContentLengthInvalid),
                Some(n) => {
                    let n = n as usize;
                    if n > usize::MAX - end {
                        Err(FrameError::SizeOverflow)
                    } else {
                        Ok(Some(n + end))
                    }
                },
            }
        },
    }
}

proof fn lemma_frame_lines_err(lines: Seq<Seq<u8>>, k: int, end: int)
    requires
        0 <= k < lines.len(),
        frame_lines(lines.subrange(0, k + 1), end) is Err,
    ensures
        frame_lines(lines, end) == frame_lines(lines.subrange(0, k + 1), end),
    decreases lines.len(),
{
    if k + 1 < lines.len() {
        assert(lines.drop_last().subrange(0, k + 1) =~= lines.subrange(0, k + 1));
        lemma_frame_lines_err(lines.drop_last(), k, end);
    } else {
        assert(lines.subrange(0, k + 1) =~= lines);
    }
}

proof fn lemma_frame_lines_at_least(lines: Seq<Seq<u8>>, end: int)
    requires
        end >= 0,
    ensures
        frame_lines(lines, end) matches Ok(Some(x)) ==> x >= end,
    decreases lines.len(),
{
    if lines.len() > 1 {
        lemma_frame_lines_at_least(lines.drop_last(), end);
    }
}

/// A request is never shorter than its head.
proof fn lemma_expected_at_least(head: Seq<u8>, end: int)
    requires
        end >= 0,
    ensures
        expected_length(head, end) matches Ok(e) ==> e >= end,
{
    lemma_frame_lines_at_least(split_crlf(head), end);
}

pub open spec fn opt_nat(o: Option<usize>) -> Option<nat> {
    match o {
        Some(x) => Some(x as nat),
        None => None,
    }
}

/// The total length of a request whose head is `d[0..i]` (see
/// `expected_length`).
fn expected_length_exec(d: &[u8], i: usize) -> (r: Result<usize, FrameError>)
    requires
        i + 4 <= d@.len(),
        d@.len() <= usize::MAX,
    ensures
        match r {
            Ok(e) => expected_length(d@.subrange(0, i as int), i + 4) == Ok::<nat, FrameError>(
                e as nat,
            ),
            Err(err) => expected_length(d@.subrange(0, i as int), i + 4) == Err::<nat, FrameError>(
                err,
            ),
        },
{
    let ghost h = d@.subrange(0, i as int);
    let end = i + 4;
    if str_from_utf8(&d[0..i]).is_err() {
        return Err(FrameError::InvalidUtf8);
    }
    let n = i;
    let mut cl: Option<usize> = None;
    let mut count: usize = 0;
    let mut seg: usize = 0;
    let mut j: usize = 0;
    proof {
        assert(h.subrange(0, 0) =~= Seq::<u8>::empty());
        assert(split_crlf(Seq::<u8>::empty()).drop_last() =~= Seq::<Seq<u8>>::empty());
    }
    while j < n
        invariant
            n == i,
            end == i + 4,
            i + 4 <= d@.len(),
            h == d@.subrange(0, i as int),
            valid_utf8(h),
            count <= j,
            seg <= j <= n,
            !(0 < j < n && h[j - 1] == 13 && h[j as int] == 10),
            split_crlf(h.subrange(0, j as int)).last() == h.subrange(seg as int, j as int),
            split_crlf(h.subrange(0, j as int)).len() == count + 1,
            frame_lines(split_crlf(h.subrange(0, j as int)).drop_last(), end as int) == Ok::<
                Option<nat>,
                FrameError,
            >(opt_nat(cl)),
        decreases n - j,
    {
        proof {
            lemma_split_crlf_nonempty(h.subrange(0, j as int));
        }
        if n - j >= 2 && d[j] == 13 && d[j + 1] == 10 {
            let ghost lines = split_crlf(h.subrange(0, j as int));
            proof {
                assert(h.subrange(0, j + 2).subrange(0, j as int) =~= h.subrange(0, j as int));
                assert(split_crlf(h.subrange(0, j + 2)) == lines.push(Seq::<u8>::empty()));
                assert(lines.push(Seq::<u8>::empty()).drop_last() =~= lines);
                assert(lines =~= lines.drop_last().push(lines.last()));
                assert(d@.subrange(seg as int, j as int) =~= h.subrange(seg as int, j as int));
            }
            if count > 0 {
                match frame_line_exec(d, seg, j, end, cl) {
                    Ok(c) => {
                        cl = c;
                    },
                    Err(e) => {
                        proof {
                            assert(h.subrange(0, j + 2).subrange(0, j as int) =~= h.subrange(
                                0,
                                j as int,
                            ));
                            lemma_split_crlf_stable(h, j + 2, h.len() as int);
                            assert(h.subrange(0, h.len() as int) =~= h);
                            let all = split_crlf(h);
                            assert(all.subrange(0, lines.len() as int) =~= lines);
                            lemma_frame_lines_err(all, lines.len() - 1, end as int);
                        }
                        return Err(e);
                    },
                }
            }
            count = count + 1;
            seg = j + 2;
            j = j + 2;
            assert(h.subrange(seg as int, j as int) =~= Seq::<u8>::empty());
        } else {
            proof {
                let hj = h.subrange(0, j + 1);
                assert(hj.drop_last() =~= h.subrange(0, j as int));
                if j >= 1 {
                    assert(!(hj[j - 1] == 13 && hj[j as int] == 10));
                }
                assert(h.subrange(seg as int, j as int).push(h[j as int]) =~= h.subrange(
                    seg as int,
                    j + 1,
                ));
                let prev = split_crlf(h.subrange(0, j as int));
                assert(split_crlf(hj).drop_last() =~= prev.drop_last());
            }
            j = j + 1;
        }
    }
    let ghost lines = split_crlf(h);
    proof {
        assert(h.subrange(0, n as int) =~= h);
        lemma_split_crlf_nonempty(h);
        assert(lines =~= lines.drop_last().push(lines.last()));
        assert(d@.subrange(seg as int, n as int) =~= h.subrange(seg as int, n as int));
    }
    if count > 0 {
        match frame_line_exec(d, seg, n, end, cl) {
            Ok(c) => {
                cl = c;
            },
            Err(e) => {
                return Err(e);
            },
        }
    }
    let e = match cl {
        Some(x) => x,
        None => end,
    };
    if e > MAX_REQUEST_BYTES {
        return Err(FrameError::SizeOverflow);
    }
    Ok(e)
}

impl Framer {
    /// Consistency of the state: the kept bytes and the total stay within
    /// the size limit, and the search position within the kept bytes.
    pub closed spec fn wf(&self) -> bool {
        &&& self.data@.len() <= MAX_REQUEST_BYTES
        &&& self.index <= self.data@.len()
        &&& (self.expected matches Some(e) ==> e <= MAX_REQUEST_BYTES && self.data@.len() <= e)
    }

    /// Nothing received yet.
    pub fn new() -> (r: Self)
        ensures
            r.wf(),
            r@ == (FramerModel { data: seq![], expected: None, index: 0 }),
    {
        let r = Framer { data: Vec::new(), expected: None, index: 0 };
        assert(r@.data =~= Seq::<u8>::empty());
        r
    }

    /// The bytes kept.
    pub fn data(&self) -> (r: &[u8])
        ensures
            r@ == self@.data,
    {
        self.data.as_slice()
    }

    /// The bytes kept, taken out.
    pub fn into_data(self) -> (r: Vec<u8>)
        ensures
            r@ == self@.data,
    {
        self.data
    }

    /// Takes one chunk of at most `MAX_BUFFER_SIZE` bytes (see `chunk_step`);
    /// after `Fail` the state is not to be used again.
    pub fn on_chunk(&mut self, chunk: &[u8]) -> (r: Step)
        requires
            old(self).wf(),
            old(self)@.expected matches Some(e) ==> old(self)@.data.len() < e,
            chunk@.len() <= MAX_BUFFER_SIZE,
        ensures
            r == chunk_step(old(self)@, chunk@).1,
            r !is Fail ==> final(self)@ == chunk_step(old(self)@, chunk@).0 && final(self).wf(),
            r is Continue ==> (final(self)@.expected matches Some(e) ==> final(self)@.data.len()
                < e),
    {
        let ghost m = self@;
        let len = self.data.len();
        let n = chunk.len();
        let mut take = n;
        match self.expected {
            Some(e) => {
                if e - len <= MAX_BUFFER_SIZE && e - len <= n {
                    take = e - len;
                } else if len + n > MAX_REQUEST_BYTES {
                    take = MAX_REQUEST_BYTES - len;
                }
            },
            None => {
                if len + n > MAX_REQUEST_BYTES {
                    take = MAX_REQUEST_BYTES - len;
                }
            },
        }
        let mut k: usize = 0;
        while k < take
            invariant
                k <= take <= n,
                n == chunk@.len(),
                len == m.data.len(),
                self.data@ == m.data + chunk@.subrange(0, k as int),
                self.expected == old(self).expected,
                self.index == old(self).index,
            decreases take - k,
        {
            self.data.push(chunk[k]);
            assert(chunk@.subrange(0, k + 1) =~= chunk@.subrange(0, k as int).push(chunk@[k as int]));
            k += 1;
        }
        assert(self.data@ == append_chunk(m, chunk@)) by {
            assert(chunk@.subrange(0, n as int) =~= chunk@);
        }
        let dn = self.data.len();
        assert(m.index <= dn);
        assert(dn <= MAX_REQUEST_BYTES);
        match self.expected {
            Some(e) => {
                if dn >= e {
                    self.data.truncate(e);
                    assert(self.data@ =~= append_chunk(m, chunk@).subrange(0, e as int));
                    return Step::Done;
                }
                Step::Continue
            },
            None => {
                let mut idx = self.index;
                let mut found: Option<usize> = None;
                while idx + 4 <= dn
                    invariant_except_break
                        found is None,
                    invariant
                        dn == self.data@.len(),
                        dn <= MAX_REQUEST_BYTES,
                        self.data@ == append_chunk(m, chunk@),
                        m.index <= idx <= dn,
                        idx == m.index || idx + 3 <= dn,
                        crlf2_from(self.data@, m.index as int) == crlf2_from(self.data@, idx as int),
                    ensures
                        match found {
                            Some(i) => crlf2_from(self.data@, m.index as int) == Some(i as int) && i
                                + 4 <= dn,
                            None => crlf2_from(self.data@, m.index as int) is None && idx == (if m.index
                                + 4 <= dn {
                                (dn - 3) as int
                            } else {
                                m.index as int
                            }),
                        },
                    decreases dn - idx,
                {
                    if self.data[idx] == 13 && self.data[idx + 1] == 10 && self.data[idx + 2] == 13
                        && self.data[idx + 3] == 10 {
                        assert(crlf2_at(self.data@, idx as int));
                        assert(crlf2_from(self.data@, idx as int) == Some(idx as int));
                        found = Some(idx);
                        break;
                    }
                    idx += 1;
                }
                match found {
                    Some(i) => {
                        match expected_length_exec(self.data.as_slice(), i) {
                            Err(err) => Step::Fail(err),
                            Ok(e) => {
                                proof {
                                    lemma_expected_at_least(self.data@.subrange(0, i as int), i + 4);
                                }
                                self.expected = Some(e);
                                self.index = i + 1;
                                if dn >= e {
                                    let ghost before = self.data@;
                                    self.data.truncate(e);
                                    assert(self.data@ =~= before.subrange(0, e as int));
                                    return Step::Done;
                                }
                                Step::Continue
                            },
                        }
                    },
                    None => {
                        self.index = idx;
                        if dn == MAX_REQUEST_BYTES {
                            return Step::Fail(FrameError::SizeOverflow);
                        }
                        Step::Continue
                    },
                }
            },
        }
    }

    /// The peer closed the connection (see `eof_step`).
    pub fn on_eof(&self) -> (r: Result<(), FrameError>)
        ensures
            r == eof_step(self@),
    {
        match self.expected {
            Some(e) => if self.data.len() < e {
                Err(FrameError::BodyIncomplete)
            } else {
                Ok(())
            },
            None => Err(FrameError::PartialHeader),
        }
    }
}

/// The bytes kept after a chunk are a prefix of everything received, and
/// once the request is complete they are exactly as long as it: bytes that
/// follow a request are never counted in it.
pub proof fn lemma_kept_prefix(m: FramerModel, chunk: Seq<u8>)
    requires
        m.data.len() <= MAX_REQUEST_BYTES,
        m.expected matches Some(e) ==> m.data.len() <= e,
    ensures
        ({
            let (m2, step) = chunk_step(m, chunk);
            &&& m2.data.len() <= m.data.len() + chunk.len()
            &&& m2.data == (m.data + chunk).subrange(0, m2.data.len() as int)
            &&& step is Done ==> m2.expected == Some(m2.data.len())
        }),
{
    let all = m.data + chunk;
    let d = append_chunk(m, chunk);
    let len = m.data.len();
    if m.expected is Some && m.expected->0 - len <= MAX_BUFFER_SIZE && m.expected->0 - len
        <= chunk.len() {
        assert(d =~= all.subrange(0, m.expected->0 as int));
    } else if len + chunk.len() > MAX_REQUEST_BYTES {
        assert(d =~= all.subrange(0, MAX_REQUEST_BYTES as int));
    } else {
        assert(d =~= all.subrange(0, all.len() as int));
    }
    let (m2, step) = chunk_step(m, chunk);
    assert(m2.data == d || m2.data == d.subrange(0, m2.data.len() as int));
    assert(d.subrange(0, m2.data.len() as int) =~= all.subrange(0, m2.data.len() as int));
}

} // verus!
