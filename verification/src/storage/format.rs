//! The layout of collection and index files.
//!
//! A collection file starts with a header (magic text, version, next id,
//! record count, dead bytes) followed by frames: a flag byte (1 live, 0
//! deleted), the payload length as a big-endian `u32`, and the payload. An
//! index file starts with its own header (magic text, version, entry count)
//! followed by one entry per issued id: the id and the offset of its live
//! frame (0 once deleted).
use vstd::prelude::*;
use vstd::utf8::*;
use vstd::string::StringSliceAdditionalSpecFns;
use crate::bytes::bytes_eq_exec;
use crate::constant::{
    INDEX_HEADER_TOTAL_BYTES, INDEX_MAGIC_END, INDEX_RECORD_COUNT_OFFSET, INDEX_RECORD_LEN,
    INDEX_VERSION, INDEX_VERSION_OFFSET,
    STORAGE_DEAD_BYTES_OFFSET, STORAGE_HEADER_TOTAL_BYTES, STORAGE_MAGIC_END, STORAGE_NEXT_ID,
    STORAGE_NEXT_ID_OFFSET, STORAGE_RECORD_COUNT_OFFSET, STORAGE_VERSION, STORAGE_VERSION_OFFSET,
};
use crate::sha256::be_word;
use crate::storage::error::StoreError;
use crate::storage::decode::utf8_fault;
use crate::text::str_from_utf8;

verus! {

/// The 64-bit value whose big-endian bytes start at `i`.
pub open spec fn be_u64_at(b: Seq<u8>, i: int) -> u64 {
    (((be_word(b, i) as u64) << 32u64) | (be_word(b, i + 4) as u64)) as u64
}

/// `read_exact` past the end of a file.
pub open spec fn eof_message() -> Seq<char> {
    "failed to fill whole buffer"@
}

/// The fields of a collection header.
pub struct StoreHeader {
    pub next_id: u32,
    pub record_count: u32,
    pub dead_bytes: u64,
}

/// A collection file's header: it must be complete, its magic text UTF-8
/// and `toikhongdien`, and its version 1.
pub open spec fn store_header(b: Seq<u8>) -> Result<StoreHeader, StoreError> {
    if b.len() < STORAGE_HEADER_TOTAL_BYTES {
        Err(StoreError::IoError(arbitrary()))
    } else if !valid_utf8(b.subrange(0, STORAGE_MAGIC_END as int)) {
        Err(StoreError::InvalidUtf8(utf8_fault(b.subrange(0, STORAGE_MAGIC_END as int))))
    } else if b.subrange(0, STORAGE_MAGIC_END as int) != "toikhongdien".spec_bytes() {
        Err(StoreError::InvalidStorageFormat)
    } else if b[STORAGE_VERSION_OFFSET as int] != STORAGE_VERSION {
        Err(StoreError::UnsupportStorageVersion)
    } else {
        Ok(
            StoreHeader {
                next_id: be_word(b, STORAGE_NEXT_ID_OFFSET as int),
                record_count: be_word(b, STORAGE_RECORD_COUNT_OFFSET as int),
                dead_bytes: be_u64_at(b, STORAGE_DEAD_BYTES_OFFSET as int),
            },
        )
    }
}

/// Whether `e` is the error of a read past the end of a file.
pub open spec fn is_eof_error(e: StoreError) -> bool {
    e matches StoreError::IoError(s) && s@ == eof_message()
}

fn eof_error() -> (e: StoreError)
    ensures
        is_eof_error(e),
{
    StoreError::IoError("failed to fill whole buffer".to_owned())
}

fn read_u32_at(b: &[u8], i: usize) -> (r: u32)
    requires
        i + 4 <= b@.len(),
    ensures
        r == be_word(b@, i as int),
{
    ((b[i] as u32) << 24u32) | ((b[i + 1] as u32) << 16u32) | ((b[i + 2] as u32) << 8u32) | (b[i
        + 3] as u32)
}

fn read_u64_at(b: &[u8], i: usize) -> (r: u64)
    requires
        i + 8 <= b@.len(),
    ensures
        r == be_u64_at(b@, i as int),
{
    let n = b.len();
    let hi = read_u32_at(b, i);
    let lo = read_u32_at(b, i + 4);
    ((hi as u64) << 32u64) | (lo as u64)
}

/// Reads a collection header (see `store_header`); a short file gives the
/// error of a read past its end.
pub fn parse_store_header(b: &[u8]) -> (r: Result<StoreHeader, StoreError>)
    ensures
        match r {
            Ok(h) => store_header(b@) == Ok::<StoreHeader, StoreError>(h),
            Err(e) => store_header(b@) is Err && (is_eof_error(e) || store_header(b@) == Err::<
                StoreHeader,
                StoreError,
            >(e)) && (b@.len() < STORAGE_HEADER_TOTAL_BYTES <==> is_eof_error(e)),
        },
{
    if b.len() < STORAGE_HEADER_TOTAL_BYTES {
        return Err(eof_error());
    }
    proof {
        reveal_strlit("toikhongdien");
    }
    match str_from_utf8(&b[0..STORAGE_MAGIC_END]) {
        Err(f) => {
            proof {
                reveal(utf8_fault);
            }
            return Err(StoreError::InvalidUtf8(f));
        },
        Ok(_) => {},
    }
    if !bytes_eq_exec(&b[0..STORAGE_MAGIC_END], "toikhongdien".as_bytes()) {
        return Err(StoreError::InvalidStorageFormat);
    }
    if b[STORAGE_VERSION_OFFSET] != STORAGE_VERSION {
        return Err(StoreError::UnsupportStorageVersion);
    }
    Ok(
        StoreHeader {
            next_id: read_u32_at(b, STORAGE_NEXT_ID_OFFSET),
            record_count: read_u32_at(b, STORAGE_RECORD_COUNT_OFFSET),
            dead_bytes: read_u64_at(b, STORAGE_DEAD_BYTES_OFFSET),
        },
    )
}

// ---------------------------------------------------------------------------
// Frames
// ---------------------------------------------------------------------------

/// A frame: whether it is live, where its payload starts, and its length.
#[derive(Debug, Clone, Copy, PartialEq, Eq, Structural)]
pub struct Frame {
    pub live: bool,
    pub start: usize,
    pub len: usize,
}

/// The frame at `pos` of a collection file: its length must be complete and
/// its payload within the file (`TruncatedFrame`), and its flag 0 or 1
/// (`InvalidFrameFlag`).
pub open spec fn frame_at(b: Seq<u8>, pos: int) -> Result<Frame, StoreError> {
    if pos + 5 > b.len() {
        Err(StoreError::TruncatedFrame)
    } else {
        let n = be_word(b, pos + 1);
        if n > b.len() - (pos + 5) {
            Err(StoreError::TruncatedFrame)
        } else if b[pos] == 0 {
            Ok(Frame { live: false, start: (pos + 5) as usize, len: n as usize })
        } else if b[pos] == 1 {
            Ok(Frame { live: true, start: (pos + 5) as usize, len: n as usize })
        } else {
            Err(StoreError::InvalidFrameFlag(b[pos]))
        }
    }
}

/// Reads the frame at `pos`, which is before the end of the file (see
/// `frame_at`).
pub fn read_frame(b: &[u8], pos: usize) -> (r: Result<Frame, StoreError>)
    requires
        pos < b@.len(),
    ensures
        r == frame_at(b@, pos as int),
        r matches Ok(f) ==> f.start + f.len <= b@.len(),
{
    let n = b.len();
    if n - pos < 5 {
        return Err(StoreError::TruncatedFrame);
    }
    let len = read_u32_at(b, pos + 1);
    if len as usize > n - (pos + 5) {
        return Err(StoreError::TruncatedFrame);
    }
    let flag = b[pos];
    if flag == 0 {
        Ok(Frame { live: false, start: pos + 5, len: len as usize })
    } else if flag == 1 {
        Ok(Frame { live: true, start: pos + 5, len: len as usize })
    } else {
        Err(StoreError::InvalidFrameFlag(flag))
    }
}

// ---------------------------------------------------------------------------
// The index
// ---------------------------------------------------------------------------

/// Where the entry of `id` starts in an index file.
pub open spec fn entry_pos(id: u32) -> int {
    INDEX_HEADER_TOTAL_BYTES + (id - 1) * INDEX_RECORD_LEN
}

/// The length of an index file holding `count` entries.
pub open spec fn index_len(count: nat) -> int {
    INDEX_HEADER_TOTAL_BYTES + count * INDEX_RECORD_LEN
}

/// An index file's entry count: the magic text must be UTF-8 and
/// `toikhongdienindex`, and the version 1; a file that ends too early gives
/// the error of a read past its end.
pub open spec fn index_count(b: Seq<u8>) -> Result<u32, StoreError> {
    if b.len() < INDEX_MAGIC_END {
        Err(StoreError::IoError(arbitrary()))
    } else if !valid_utf8(b.subrange(0, INDEX_MAGIC_END as int)) {
        Err(StoreError::InvalidUtf8(utf8_fault(b.subrange(0, INDEX_MAGIC_END as int))))
    } else if b.subrange(0, INDEX_MAGIC_END as int) != "toikhongdienindex".spec_bytes() {
        Err(StoreError::InvalidStorageIndexFormat)
    } else if b.len() < INDEX_HEADER_TOTAL_BYTES {
        Err(StoreError::IoError(arbitrary()))
    } else if b[INDEX_VERSION_OFFSET as int] != INDEX_VERSION {
        Err(StoreError::UnsupportIndexVersion)
    } else {
        Ok(be_word(b, INDEX_RECORD_COUNT_OFFSET as int))
    }
}

/// The frame offset the index gives for `id`: the header must be valid (see
/// `index_count`); `id` must be issued (1 to the entry count), its entry
/// must name it, and its offset must not be 0 (deleted); a file that ends
/// too early gives the error of a read past its end.
pub open spec fn index_offset(b: Seq<u8>, id: u32) -> Result<u64, StoreError> {
    match index_count(b) {
        Err(e) => Err(e),
        Ok(count) => if id > count || id < STORAGE_NEXT_ID {
            Err(StoreError::StorageIndexIdNotFound)
        } else if entry_pos(id) + 4 > b.len() {
            Err(StoreError::IoError(arbitrary()))
        } else if be_word(b, entry_pos(id)) != id {
            Err(StoreError::StorageIndexIdNotFound)
        } else if entry_pos(id) + 12 > b.len() {
            Err(StoreError::IoError(arbitrary()))
        } else if be_u64_at(b, entry_pos(id) + 4) == 0 {
            Err(StoreError::StorageIndexIdNotFound)
        } else {
            Ok(be_u64_at(b, entry_pos(id) + 4))
        },
    }
}

/// Whether `r` is what a specified read gives: the same value or error, an
/// error of a read past the end standing for itself.
pub open spec fn read_matches<A>(r: Result<A, StoreError>, s: Result<A, StoreError>) -> bool {
    match r {
        Ok(v) => s == Ok::<A, StoreError>(v),
        Err(e) => s is Err && if is_eof_error(e) {
            s matches Err(StoreError::IoError(_))
        } else {
            s == Err::<A, StoreError>(e) && !(s matches Err(StoreError::IoError(_)))
        },
    }
}

/// Reads an index file's entry count (see `index_count`).
pub fn parse_index_count(index: &[u8]) -> (r: Result<u32, StoreError>)
    ensures
        read_matches(r, index_count(index@)),
{
    let n = index.len();
    if n < INDEX_MAGIC_END {
        return Err(eof_error());
    }
    proof {
        reveal_strlit("toikhongdienindex");
    }
    match str_from_utf8(&index[0..INDEX_MAGIC_END]) {
        Err(f) => {
            proof {
                reveal(utf8_fault);
            }
            return Err(StoreError::InvalidUtf8(f));
        },
        Ok(_) => {},
    }
    if !bytes_eq_exec(&index[0..INDEX_MAGIC_END], "toikhongdienindex".as_bytes()) {
        return Err(StoreError::InvalidStorageIndexFormat);
    }
    if n < INDEX_HEADER_TOTAL_BYTES {
        return Err(eof_error());
    }
    if index[INDEX_VERSION_OFFSET] != INDEX_VERSION {
        return Err(StoreError::UnsupportIndexVersion);
    }
    Ok(read_u32_at(index, INDEX_RECORD_COUNT_OFFSET))
}

/// Whether `r` is what `index_offset` gives: the same offset or error, an
/// error of a read past the end standing for itself.
pub open spec fn index_result_matches(r: Result<u64, StoreError>, s: Result<u64, StoreError>) -> bool {
    match r {
        Ok(o) => s == Ok::<u64, StoreError>(o),
        Err(e) => s is Err && if is_eof_error(e) {
            s matches Err(StoreError::IoError(_))
        } else {
            s == Err::<u64, StoreError>(e) && !(s matches Err(StoreError::IoError(_)))
        },
    }
}

/// Looks up the frame offset of `id` in an index file (see `index_offset`).
pub fn find_id_offset(index: &[u8], id: u32) -> (r: Result<u64, StoreError>)
    ensures
        index_result_matches(r, index_offset(index@, id)),
{
    let n = index.len();
    let count = match parse_index_count(index) {
        Ok(c) => c,
        Err(e) => {
            return Err(e);
        },
    };
    if id > count || id < STORAGE_NEXT_ID {
        return Err(StoreError::StorageIndexIdNotFound);
    }
    let pos64: u64 = INDEX_HEADER_TOTAL_BYTES as u64 + (id as u64 - 1) * INDEX_RECORD_LEN as u64;
    if pos64 + 4 > n as u64 {
        return Err(eof_error());
    }
    let pos = pos64 as usize;
    if read_u32_at(index, pos) != id {
        return Err(StoreError::StorageIndexIdNotFound);
    }
    if n - pos < 12 {
        return Err(eof_error());
    }
    let offset = read_u64_at(index, pos + 4);
    if offset == 0 {
        return Err(StoreError::StorageIndexIdNotFound);
    }
    Ok(offset)
}

} // verus!
