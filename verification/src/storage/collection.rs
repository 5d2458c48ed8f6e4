//! The operations of a collection on the contents of its two files: the
//! collection file (header and frames) and the index file (header and one
//! entry per issued id). Reading and writing the files is left to the
//! caller.
use vstd::prelude::*;
use crate::constant::{
    INDEX_HEADER_TOTAL_BYTES, INDEX_MAGIC_END, INDEX_RECORD_COUNT_OFFSET, INDEX_RECORD_LEN,
    INDEX_VERSION_OFFSET, STORAGE_DEAD_BYTES_OFFSET, STORAGE_HEADER_TOTAL_BYTES,
    STORAGE_NEXT_ID_OFFSET, STORAGE_RECORD_COUNT_OFFSET,
};
use crate::sha256::{be_word, u64_be_bytes};
use crate::storage::decode::{Decode, Decoder};
use crate::storage::encode::{Encode, u32_be};
use crate::storage::error::StoreError;
use crate::storage::format::{
    Frame, StoreHeader, be_u64_at, entry_pos, find_id_offset, frame_at, index_count, index_len,
    index_offset, is_eof_error, parse_index_count, parse_store_header,
    read_frame, read_matches, store_header,
};
use crate::storage::util::HasId;

verus! {

/// Listing the frames of a collection file from `pos` on, when `n` live
/// records were read before and the deleted frames before took `dead`
/// bytes: the payloads of the live frames, in file order. Each frame must be
/// well formed (see `frame_at`); each live payload must decode (see
/// `Decode::decode_spec`) with no byte left over, to a record that the index
/// points at this very frame (see `index_offset`; `IndexRecordOffsetMismatch`
/// otherwise) and whose id is below the header's next id, and no more
/// records may be read than the header counts. At the end the live records
/// must be exactly as many as the header counts (`RecordCountMismatch`) and
/// the deleted frames take exactly its dead bytes (`DeadBytesMismatch`).
pub open spec fn list_from<T: Decode>(
    b: Seq<u8>,
    index: Seq<u8>,
    h: StoreHeader,
    pos: int,
    n: nat,
    dead: nat,
) -> Result<Seq<Seq<u8>>, StoreError>
    decreases b.len() - pos,
{
    if pos < 0 || pos >= b.len() {
        if h.record_count != n {
            Err(StoreError::RecordCountMismatch)
        } else if h.dead_bytes != dead {
            Err(StoreError::DeadBytesMismatch)
        } else {
            Ok(seq![])
        }
    } else {
        match frame_at(b, pos) {
            Err(e) => Err(e),
            Ok(f) => if f.start + f.len <= pos {
                Ok(seq![])
            } else if !f.live {
                list_from::<T>(b, index, h, f.start + f.len, n, (dead + 5 + f.len) as nat)
            } else {
                let p = b.subrange(f.start as int, f.start + f.len);
                match T::decode_spec(p) {
                    Err(e) => Err(e),
                    Ok((id, rest)) => if rest.len() != 0 {
                        Err(StoreError::TrailingBytesInPayload)
                    } else {
                        match index_offset(index, id) {
                            Err(e) => Err(e),
                            Ok(o) => if o != pos {
                                Err(
                                    StoreError::IndexRecordOffsetMismatch {
                                        expected_offset: pos as u64,
                                        actual_offset: o,
                                    },
                                )
                            } else if id >= h.next_id {
                                Err(StoreError::InvalidNextId(h.next_id))
                            } else if n + 1 > h.record_count {
                                Err(StoreError::RecordCountMismatch)
                            } else {
                                match list_from::<T>(b, index, h, f.start + f.len, n + 1, dead) {
                                    Err(e) => Err(e),
                                    Ok(ps) => Ok(seq![p] + ps),
                                }
                            },
                        }
                    },
                }
            },
        }
    }
}

/// The payloads of the records of a collection, in file order: the header
/// must be valid (see `store_header`), the index header too (see
/// `index_count`), the index must hold exactly the entries it counts
/// (`InvalidStorageIndexFormat`), and the next id must follow the last id it
/// counts (`InvalidNextId`); then the frames are read from the end of the
/// header (see `list_from`).
pub open spec fn list_spec<T: Decode>(b: Seq<u8>, index: Seq<u8>) -> Result<
    Seq<Seq<u8>>,
    StoreError,
> {
    match store_header(b) {
        Err(e) => Err(e),
        Ok(h) => match index_count(index) {
            Err(e) => Err(e),
            Ok(count) => if index.len() != index_len(count as nat) {
                Err(StoreError::InvalidStorageIndexFormat)
            } else if h.next_id != count + 1 {
                Err(StoreError::InvalidNextId(h.next_id))
            } else {
                list_from::<T>(b, index, h, STORAGE_HEADER_TOTAL_BYTES as int, 0, 0)
            },
        },
    }
}

/// Whether an error is the one specified, an error of a read past a file's
/// end standing for itself.
pub open spec fn error_matches<A>(e: StoreError, s: Result<A, StoreError>) -> bool {
    s is Err && if is_eof_error(e) {
        s matches Err(StoreError::IoError(_))
    } else {
        s == Err::<A, StoreError>(e)
    }
}

/// The first of `items` whose id is `id`; `StorageIndexIdNotFound` when none
/// of them has it.
pub fn find_by_id<T: HasId>(items: Vec<T>, id: u32) -> (r: Result<T, StoreError>)
    ensures
        match r {
            Ok(t) => exists|i: int|
                0 <= i < items@.len() && items@[i] == t && t.id_spec() == id && forall|j: int|
                    0 <= j < i ==> (#[trigger] items@[j]).id_spec() != id,
            Err(e) => e == StoreError::StorageIndexIdNotFound && forall|j: int|
                0 <= j < items@.len() ==> (#[trigger] items@[j]).id_spec() != id,
        },
{
    let mut v = items;
    let ghost all = v@;
    let mut i: usize = 0;
    while i < v.len()
        invariant
            v@ == all,
            all == items@,
            i <= all.len(),
            forall|j: int| 0 <= j < i ==> (#[trigger] all[j]).id_spec() != id,
        decreases all.len() - i,
    {
        if v[i].id() == id {
            let t = v.remove(i);
            return Ok(t);
        }
        i += 1;
    }
    Err(StoreError::StorageIndexIdNotFound)
}

/// The records of a collection, in file order (see `list_spec`): one
/// record decoded from each payload listed.
pub fn list_records<T: Decode>(store: &[u8], index: &[u8]) -> (r: Result<Vec<T>, StoreError>)
    ensures
        match r {
            Ok(items) => list_spec::<T>(store@, index@) matches Ok(ps) && items@.len() == ps.len()
                && forall|i: int| 0 <= i < ps.len() ==> T::decodes_to(ps[i], #[trigger] items@[i]),
            Err(e) => error_matches(e, list_spec::<T>(store@, index@)),
        },
{
    let h = match parse_store_header(store) {
        Ok(h) => h,
        Err(e) => {
            return Err(e);
        },
    };
    let count = match parse_index_count(index) {
        Ok(c) => c,
        Err(e) => {
            return Err(e);
        },
    };
    if index.len() as u64 != INDEX_HEADER_TOTAL_BYTES as u64 + count as u64 * INDEX_RECORD_LEN as u64 {
        return Err(StoreError::InvalidStorageIndexFormat);
    }
    if h.next_id as u64 != count as u64 + 1 {
        return Err(StoreError::InvalidNextId(h.next_id));
    }
    let n = store.len();
    let mut pos: usize = STORAGE_HEADER_TOTAL_BYTES;
    let mut items: Vec<T> = Vec::new();
    let mut dead: u64 = 0;
    let ghost mut done: Seq<Seq<u8>> = seq![];
    while pos < n
        invariant
            n == store@.len(),
            STORAGE_HEADER_TOTAL_BYTES <= pos <= n,
            store_header(store@) == Ok::<StoreHeader, StoreError>(h),
            list_spec::<T>(store@, index@) == match list_from::<T>(
                store@,
                index@,
                h,
                pos as int,
                items@.len(),
                dead as nat,
            ) {
                Ok(ps) => Ok(done + ps),
                Err(e) => Err::<Seq<Seq<u8>>, StoreError>(e),
            },
            done.len() == items@.len(),
            forall|i: int| 0 <= i < done.len() ==> T::decodes_to(done[i], #[trigger] items@[i]),
            items@.len() <= h.record_count,
            dead <= pos,
        decreases n - pos,
    {
        let f = match read_frame(store, pos) {
            Ok(f) => f,
            Err(e) => {
                return Err(e);
            },
        };
        let next = f.start + f.len;
        if !f.live {
            dead = dead + 5 + f.len as u64;
        } else {
            let payload = &store[f.start..next];
            let mut decoder = Decoder::new(payload);
            let item = match T::decode(&mut decoder) {
                Ok(item) => item,
                Err(e) => {
                    return Err(e);
                },
            };
            if decoder.bytes.len() != 0 {
                return Err(StoreError::TrailingBytesInPayload);
            }
            let id = item.id();
            match find_id_offset(index, id) {
                Ok(o) => {
                    if o != pos as u64 {
                        return Err(
                            StoreError::IndexRecordOffsetMismatch {
                                expected_offset: pos as u64,
                                actual_offset: o,
                            },
                        );
                    }
                },
                Err(e) => {
                    return Err(e);
                },
            }
            if id >= h.next_id {
                return Err(StoreError::InvalidNextId(h.next_id));
            }
            if items.len() as u64 + 1 > h.record_count as u64 {
                return Err(StoreError::RecordCountMismatch);
            }
            let ghost before = items@;
            items.push(item);
            proof {
                let p = store@.subrange(f.start as int, next as int);
                assert(payload@ == p);
                assert forall|ps: Seq<Seq<u8>>| #[trigger] (done + (seq![p] + ps)) =~= done.push(p)
                    + ps by {}
                assert forall|i: int| 0 <= i < done.push(p).len() implies T::decodes_to(
                    done.push(p)[i],
                    #[trigger] items@[i],
                ) by {
                    if i < done.len() {
                        assert(items@[i] == before[i]);
                    }
                }
                done = done.push(p);
            }
        }
        pos = next;
    }
    if h.record_count as u64 != items.len() as u64 {
        return Err(StoreError::RecordCountMismatch);
    }
    if dead != h.dead_bytes {
        return Err(StoreError::DeadBytesMismatch);
    }
    assert(done + Seq::<Seq<u8>>::empty() =~= done);
    Ok(items)
}

/// The record count a collection file's header holds (not checked against
/// its frames); a file shorter than a header gives the error of a read past
/// its end.
pub fn record_count(store: &[u8]) -> (r: Result<u32, StoreError>)
    ensures
        match r {
            Ok(c) => store@.len() >= STORAGE_HEADER_TOTAL_BYTES && c == be_word(
                store@,
                STORAGE_RECORD_COUNT_OFFSET as int,
            ),
            Err(e) => store@.len() < STORAGE_HEADER_TOTAL_BYTES && e matches StoreError::IoError(_),
        },
{
    if store.len() < STORAGE_HEADER_TOTAL_BYTES {
        return Err(StoreError::IoError("failed to fill whole buffer".to_owned()));
    }
    let i = STORAGE_RECORD_COUNT_OFFSET;
    Ok(((store[i] as u32) << 24u32) | ((store[i + 1] as u32) << 16u32) | ((store[i + 2] as u32)
        << 8u32) | (store[i + 3] as u32))
}

// ---------------------------------------------------------------------------
// Changing the files
// ---------------------------------------------------------------------------

/// `b` with the bytes from `i` on replaced by `x`.
pub open spec fn write_at(b: Seq<u8>, i: int, x: Seq<u8>) -> Seq<u8> {
    b.subrange(0, i) + x + b.subrange(i + x.len(), b.len() as int)
}

fn put_u32(v: &mut Vec<u8>, i: usize, x: u32)
    requires
        i + 4 <= old(v)@.len(),
    ensures
        final(v)@ == write_at(old(v)@, i as int, u32_be(x)),
{
    let n = v.len();
    v.set(i, (x >> 24u32) as u8);
    v.set(i + 1, (x >> 16u32) as u8);
    v.set(i + 2, (x >> 8u32) as u8);
    v.set(i + 3, x as u8);
    assert(v@ =~= write_at(old(v)@, i as int, u32_be(x)));
}

fn put_u64(v: &mut Vec<u8>, i: usize, x: u64)
    requires
        i + 8 <= old(v)@.len(),
    ensures
        final(v)@ == write_at(old(v)@, i as int, u64_be_bytes(x)),
{
    let n = v.len();
    v.set(i, (x >> 56u64) as u8);
    v.set(i + 1, (x >> 48u64) as u8);
    v.set(i + 2, (x >> 40u64) as u8);
    v.set(i + 3, (x >> 32u64) as u8);
    v.set(i + 4, (x >> 24u64) as u8);
    v.set(i + 5, (x >> 16u64) as u8);
    v.set(i + 6, (x >> 8u64) as u8);
    v.set(i + 7, x as u8);
    assert(v@ =~= write_at(old(v)@, i as int, u64_be_bytes(x)));
}

fn push_all(v: &mut Vec<u8>, x: &[u8])
    ensures
        final(v)@ == old(v)@ + x@,
{
    let ghost start = v@;
    let mut k: usize = 0;
    while k < x.len()
        invariant
            k <= x@.len(),
            v@ == start + x@.subrange(0, k as int),
        decreases x@.len() - k,
    {
        v.push(x[k]);
        assert(x@.subrange(0, k + 1) =~= x@.subrange(0, k as int).push(x@[k as int]));
        k += 1;
    }
    assert(x@.subrange(0, k as int) =~= x@);
}

fn get_u32(b: &[u8], i: usize) -> (r: u32)
    requires
        i + 4 <= b@.len(),
    ensures
        r == be_word(b@, i as int),
{
    ((b[i] as u32) << 24u32) | ((b[i + 1] as u32) << 16u32) | ((b[i + 2] as u32) << 8u32) | (b[i
        + 3] as u32)
}

/// A live frame holding `payload`.
pub open spec fn frame_bytes(payload: Seq<u8>) -> Seq<u8> {
    seq![1u8] + u32_be(payload.len() as u32) + payload
}

/// The id the next record gets: the collection's next id. Both headers must
/// be valid (see `store_header`, `index_count`); the id must not be issued
/// already (`InvalidNextId`) nor be the last one (`OverflowId`), and the
/// index must hold exactly the entries it counts, the next id following the
/// last of them (`InvalidStorageIndexFormat`).
pub open spec fn issued_id(store: Seq<u8>, index: Seq<u8>) -> Result<u32, StoreError> {
    match store_header(store) {
        Err(e) => Err(e),
        Ok(h) => match index_count(index) {
            Err(e) => Err(e),
            Ok(count) => if h.next_id <= count {
                Err(StoreError::InvalidNextId(h.next_id))
            } else if h.next_id == u32::MAX {
                Err(StoreError::OverflowId)
            } else if h.next_id != count + 1 || index.len() != index_len(count as nat) {
                Err(StoreError::InvalidStorageIndexFormat)
            } else {
                Ok(h.next_id)
            },
        },
    }
}

/// Storing `payload` as the record issued next (see `issued_id`): the
/// collection's next id and record count go up by one and its frame is
/// appended; the index counts one more entry and the entry (id, offset of
/// the frame) is appended. Refused when the payload is too long for a frame
/// (`TryFromIntError`) or the record count would overflow
/// (`OverflowStoreRecordCount`).
pub open spec fn append_images(store: Seq<u8>, index: Seq<u8>, payload: Seq<u8>) -> Result<
    (Seq<u8>, Seq<u8>),
    StoreError,
> {
    match issued_id(store, index) {
        Err(e) => Err(e),
        Ok(id) => {
            let rc = be_word(store, STORAGE_RECORD_COUNT_OFFSET as int);
            if payload.len() > u32::MAX {
                Err(StoreError::TryFromIntError)
            } else if rc == u32::MAX {
                Err(StoreError::OverflowStoreRecordCount)
            } else {
                let s1 = write_at(
                    write_at(store, STORAGE_RECORD_COUNT_OFFSET as int, u32_be((rc + 1) as u32)),
                    STORAGE_NEXT_ID_OFFSET as int,
                    u32_be((id + 1) as u32),
                );
                let i1 = write_at(index, INDEX_RECORD_COUNT_OFFSET as int, u32_be(id)) + u32_be(id)
                    + u64_be_bytes(store.len() as u64);
                Ok((s1 + frame_bytes(payload), i1))
            }
        },
    }
}

/// Whether an outcome agrees with a specified one: the same images, or the
/// same error (an error of a read past a file's end standing for itself).
pub open spec fn outcome_matches(
    r: Result<(), StoreError>,
    s: Result<(Seq<u8>, Seq<u8>), StoreError>,
    store: Seq<u8>,
    index: Seq<u8>,
) -> bool {
    match r {
        Ok(()) => s == Ok::<(Seq<u8>, Seq<u8>), StoreError>((store, index)),
        Err(e) => s is Err && if is_eof_error(e) {
            s matches Err(StoreError::IoError(_))
        } else {
            s == Err::<(Seq<u8>, Seq<u8>), StoreError>(e)
        },
    }
}

/// The id the next record will get (see `issued_id`).
pub fn next_record_id(store: &[u8], index: &[u8]) -> (r: Result<u32, StoreError>)
    ensures
        read_matches(r, issued_id(store@, index@)),
{
    let h = match parse_store_header(store) {
        Ok(h) => h,
        Err(e) => {
            return Err(e);
        },
    };
    let count = match parse_index_count(index) {
        Ok(c) => c,
        Err(e) => {
            return Err(e);
        },
    };
    if h.next_id <= count {
        return Err(StoreError::InvalidNextId(h.next_id));
    }
    if h.next_id == u32::MAX {
        return Err(StoreError::OverflowId);
    }
    if h.next_id as u64 != count as u64 + 1 || index.len() as u64 != INDEX_HEADER_TOTAL_BYTES as u64
        + count as u64 * INDEX_RECORD_LEN as u64 {
        return Err(StoreError::InvalidStorageIndexFormat);
    }
    Ok(h.next_id)
}

/// Stores `payload` as the next record (see `append_images`); a refused
/// request leaves both files as they were.
pub fn append_record(store: &mut Vec<u8>, index: &mut Vec<u8>, payload: &[u8]) -> (r: Result<
    (),
    StoreError,
>)
    ensures
        outcome_matches(
            r,
            append_images(old(store)@, old(index)@, payload@),
            final(store)@,
            final(index)@,
        ),
        r is Err ==> final(store)@ == old(store)@ && final(index)@ == old(index)@,
{
    let ghost s0 = store@;
    let ghost x0 = index@;
    let id = match next_record_id(store.as_slice(), index.as_slice()) {
        Ok(id) => id,
        Err(e) => {
            return Err(e);
        },
    };
    if payload.len() > 0xffff_ffffusize {
        return Err(StoreError::TryFromIntError);
    }
    let rc = get_u32(store.as_slice(), STORAGE_RECORD_COUNT_OFFSET);
    if rc == u32::MAX {
        return Err(StoreError::OverflowStoreRecordCount);
    }
    let frame_offset = store.len() as u64;
    put_u32(store, STORAGE_RECORD_COUNT_OFFSET, rc + 1);
    put_u32(store, STORAGE_NEXT_ID_OFFSET, id + 1);
    put_u32(index, INDEX_RECORD_COUNT_OFFSET, id);
    let mut entry: Vec<u8> = Vec::new();
    push_all(&mut entry, &[(id >> 24u32) as u8, (id >> 16u32) as u8, (id >> 8u32) as u8, id as u8]);
    push_all(
        &mut entry,
        &[
            (frame_offset >> 56u64) as u8,
            (frame_offset >> 48u64) as u8,
            (frame_offset >> 40u64) as u8,
            (frame_offset >> 32u64) as u8,
            (frame_offset >> 24u64) as u8,
            (frame_offset >> 16u64) as u8,
            (frame_offset >> 8u64) as u8,
            frame_offset as u8,
        ],
    );
    assert(entry@ =~= u32_be(id) + u64_be_bytes(frame_offset));
    push_all(index, entry.as_slice());
    let plen = payload.len() as u32;
    let mut frame: Vec<u8> = Vec::new();
    frame.push(1u8);
    push_all(&mut frame, &[(plen >> 24u32) as u8, (plen >> 16u32) as u8, (plen >> 8u32) as u8, plen as u8]);
    push_all(&mut frame, payload);
    assert(frame@ =~= frame_bytes(payload@));
    push_all(store, frame.as_slice());
    proof {
        let ghost s1 = write_at(
            write_at(s0, STORAGE_RECORD_COUNT_OFFSET as int, u32_be((rc + 1) as u32)),
            STORAGE_NEXT_ID_OFFSET as int,
            u32_be((id + 1) as u32),
        );
        assert(store@ =~= s1 + frame_bytes(payload@));
        assert(index@ =~= write_at(x0, INDEX_RECORD_COUNT_OFFSET as int, u32_be(id)) + u32_be(id)
            + u64_be_bytes(s0.len() as u64));
    }
    Ok(())
}

/// Encodes `item` under the id issued next (see `issued_id`) and stores it
/// (see `append_images`); an item that cannot be encoded is refused. A
/// refused request leaves both files as they were.
pub fn insert_one<T: Encode>(store: &mut Vec<u8>, index: &mut Vec<u8>, item: &T) -> (r: Result<
    (),
    StoreError,
>)
    ensures
        match issued_id(old(store)@, old(index)@) {
            Err(_) => r matches Err(e) && error_matches(e, issued_id(old(store)@, old(index)@)),
            Ok(id) => match item.encode_spec(id) {
                None => r is Err,
                Some(p) => outcome_matches(
                    r,
                    append_images(old(store)@, old(index)@, p),
                    final(store)@,
                    final(index)@,
                ),
            },
        },
        r is Err ==> final(store)@ == old(store)@ && final(index)@ == old(index)@,
{
    let id = match next_record_id(store.as_slice(), index.as_slice()) {
        Ok(id) => id,
        Err(e) => {
            return Err(e);
        },
    };
    let payload = match item.encode(id) {
        Ok(p) => p,
        Err(e) => {
            return Err(e);
        },
    };
    append_record(store, index, payload.as_slice())
}

/// What stays to be checked of a record's frame before it is deleted or
/// replaced: the payload the index points to.
pub open spec fn indexed_payload(store: Seq<u8>, off: int) -> Result<Seq<u8>, StoreError> {
    if off + 5 > store.len() {
        Err(StoreError::IoError(arbitrary()))
    } else {
        let plen = be_word(store, off + 1);
        if plen > store.len() - (off + 5) {
            Err(StoreError::TruncatedFrame)
        } else {
            Ok(store.subrange(off + 5, off + 5 + plen))
        }
    }
}

/// What the frame the index points to must be: live (a deleted one gives
/// `StorageIndexDeleted`, any other flag `InvalidFrameFlag`).
pub open spec fn live_flag(store: Seq<u8>, off: int) -> Result<(), StoreError> {
    if store[off] == 0 {
        Err(StoreError::StorageIndexDeleted)
    } else if store[off] != 1 {
        Err(StoreError::InvalidFrameFlag(store[off]))
    } else {
        Ok(())
    }
}

/// Deleting record `id`: the collection header must be valid (see
/// `store_header`), the index must give the record's frame (see
/// `index_offset`), the record count must be positive
/// (`RecordCountMismatch`), the frame complete (see `indexed_payload`) and
/// live (see `live_flag`), and the dead bytes must not overflow. The frame's
/// flag becomes 0, the record count goes down by one, the dead bytes grow by
/// the frame's size, and the index entry's offset becomes 0. Besides the new
/// files, the payload found, which must hold record `id`.
pub open spec fn delete_images(store: Seq<u8>, index: Seq<u8>, id: u32) -> Result<
    (Seq<u8>, Seq<u8>, Seq<u8>),
    StoreError,
> {
    match store_header(store) {
        Err(e) => Err(e),
        Ok(h) => match index_offset(index, id) {
            Err(e) => Err(e),
            Ok(off) => if h.record_count == 0 {
                Err(StoreError::RecordCountMismatch)
            } else {
                match indexed_payload(store, off as int) {
                    Err(e) => Err(e),
                    Ok(p) => match live_flag(store, off as int) {
                        Err(e) => Err(e),
                        Ok(()) => if h.dead_bytes + 5 + p.len() > u64::MAX {
                            Err(StoreError::OverflowDeadbytesSize)
                        } else {
                            let s1 = write_at(
                                write_at(
                                    write_at(store, off as int, seq![0u8]),
                                    STORAGE_RECORD_COUNT_OFFSET as int,
                                    u32_be((h.record_count - 1) as u32),
                                ),
                                STORAGE_DEAD_BYTES_OFFSET as int,
                                u64_be_bytes((h.dead_bytes + 5 + p.len()) as u64),
                            );
                            let i1 = write_at(index, entry_pos(id) + 4, u64_be_bytes(0));
                            Ok((s1, i1, p))
                        },
                    },
                }
            },
        },
    }
}

/// Whether a stored payload holds record `id`: it must decode (see
/// `Decode::decode_spec`) with no byte left over, to a record whose id is
/// `id` (`IndexRecordIdMismatch`).
pub open spec fn record_check<T: Decode>(p: Seq<u8>, id: u32) -> Result<(), StoreError> {
    match T::decode_spec(p) {
        Err(e) => Err(e),
        Ok((rid, rest)) => if rest.len() != 0 {
            Err(StoreError::TrailingBytesInPayload)
        } else if rid != id {
            Err(StoreError::IndexRecordIdMismatch { expected_id: id, actual_id: rid })
        } else {
            Ok(())
        },
    }
}

/// Deleting record `id` (see `delete_images`), once the payload found is
/// checked to hold it (see `record_check`).
pub open spec fn delete_spec<T: Decode>(store: Seq<u8>, index: Seq<u8>, id: u32) -> Result<
    (Seq<u8>, Seq<u8>),
    StoreError,
> {
    match delete_images(store, index, id) {
        Err(e) => Err(e),
        Ok((s1, i1, p)) => match record_check::<T>(p, id) {
            Err(e) => Err(e),
            Ok(()) => Ok((s1, i1)),
        },
    }
}

/// The offset the index gives for `id`, as a position in a file of `n`
/// bytes, and its frame's payload range.
fn locate_payload(store: &[u8], off: u64) -> (r: Result<(usize, usize), StoreError>)
    ensures
        match r {
            Ok((a, b)) => indexed_payload(store@, off as int) == Ok::<Seq<u8>, StoreError>(
                store@.subrange(a as int, b as int),
            ) && a == off + 5 && a <= b <= store@.len(),
            Err(e) => indexed_payload(store@, off as int) is Err && if is_eof_error(e) {
                indexed_payload(store@, off as int) matches Err(StoreError::IoError(_))
            } else {
                indexed_payload(store@, off as int) == Err::<Seq<u8>, StoreError>(e)
            },
        },
{
    let n = store.len();
    if off > n as u64 || (n as u64) - off < 5 {
        return Err(StoreError::IoError("failed to fill whole buffer".to_owned()));
    }
    let o = off as usize;
    let plen = get_u32(store, o + 1);
    if plen as usize > n - (o + 5) {
        return Err(StoreError::TruncatedFrame);
    }
    Ok((o + 5, o + 5 + plen as usize))
}

/// Decodes a stored payload as the record `id`: it must decode with no byte
/// left over, to a record whose id is `id`.
fn check_record<T: Decode>(payload: &[u8], id: u32) -> (r: Result<(), StoreError>)
    ensures
        r == record_check::<T>(payload@, id),
{
    let mut decoder = Decoder::new(payload);
    let item = match T::decode(&mut decoder) {
        Ok(item) => item,
        Err(e) => {
            return Err(e);
        },
    };
    if decoder.bytes.len() != 0 {
        return Err(StoreError::TrailingBytesInPayload);
    }
    let actual = item.id();
    if actual != id {
        return Err(StoreError::IndexRecordIdMismatch { expected_id: id, actual_id: actual });
    }
    Ok(())
}

/// Deletes record `id` (see `delete_spec`); a refused request leaves both
/// files as they were.
pub fn delete_one<T: Decode>(store: &mut Vec<u8>, index: &mut Vec<u8>, id: u32) -> (r: Result<
    (),
    StoreError,
>)
    ensures
        outcome_matches(r, delete_spec::<T>(old(store)@, old(index)@, id), final(store)@, final(index)@),
        r is Err ==> final(store)@ == old(store)@ && final(index)@ == old(index)@,
{
    let ghost s0 = store@;
    let ghost x0 = index@;
    let h = match parse_store_header(store.as_slice()) {
        Ok(h) => h,
        Err(e) => {
            return Err(e);
        },
    };
    let off = match find_id_offset(index.as_slice(), id) {
        Ok(o) => o,
        Err(e) => {
            return Err(e);
        },
    };
    let rc = h.record_count;
    if rc == 0 {
        return Err(StoreError::RecordCountMismatch);
    }
    let (a, b) = match locate_payload(store.as_slice(), off) {
        Ok(x) => x,
        Err(e) => {
            return Err(e);
        },
    };
    let o = off as usize;
    let flag = store[o];
    if flag == 0 {
        return Err(StoreError::StorageIndexDeleted);
    }
    if flag != 1 {
        return Err(StoreError::InvalidFrameFlag(flag));
    }
    let dead = h.dead_bytes;
    let size = (b - a) as u64;
    if dead > u64::MAX - 5 || size > u64::MAX - 5 - dead {
        return Err(StoreError::OverflowDeadbytesSize);
    }
    let ghost p = s0.subrange(a as int, b as int);
    let ghost s1 = write_at(
        write_at(
            write_at(s0, off as int, seq![0u8]),
            STORAGE_RECORD_COUNT_OFFSET as int,
            u32_be((rc - 1) as u32),
        ),
        STORAGE_DEAD_BYTES_OFFSET as int,
        u64_be_bytes((dead + 5 + p.len()) as u64),
    );
    proof {
        assert(index_offset(x0, id) == Ok::<u64, StoreError>(off));
        assert(p.len() == size);
        assert(delete_images(s0, x0, id) == Ok::<(Seq<u8>, Seq<u8>, Seq<u8>), StoreError>(
            (s1, write_at(x0, entry_pos(id) + 4, u64_be_bytes(0)), p),
        ));
    }
    match check_record::<T>(&store[a..b], id) {
        Ok(()) => {},
        Err(e) => {
            return Err(e);
        },
    }
    store.set(o, 0u8);
    assert(store@ =~= write_at(s0, o as int, seq![0u8]));
    put_u32(store, STORAGE_RECORD_COUNT_OFFSET, rc - 1);
    put_u64(store, STORAGE_DEAD_BYTES_OFFSET, dead + 5 + size);
    let xn = index.len();
    let e64: u64 = 22 + (id as u64 - 1) * 12;
    assert(e64 == entry_pos(id) && e64 + 12 <= x0.len());
    let e = e64 as usize;
    put_u64(index, e + 4, 0);
    assert(store@ =~= s1);
    Ok(())
}

/// Replacing record `id` with `payload`: the payload must fit a frame
/// (`TryFromIntError`), the collection header must be valid (see
/// `store_header`), the index must give the record's frame (see
/// `index_offset`), the frame be complete (see `indexed_payload`) and live
/// (see `live_flag`), and the dead bytes must not overflow. The old frame's
/// flag becomes 0, the dead bytes grow by its size, a frame holding
/// `payload` is appended, and the index entry points to it. Besides the new
/// files, the old payload, which must hold record `id`.
pub open spec fn update_images(store: Seq<u8>, index: Seq<u8>, id: u32, payload: Seq<u8>) -> Result<
    (Seq<u8>, Seq<u8>, Seq<u8>),
    StoreError,
> {
    if payload.len() > u32::MAX {
        Err(StoreError::TryFromIntError)
    } else {
        match store_header(store) {
            Err(e) => Err(e),
            Ok(h) => match index_offset(index, id) {
                Err(e) => Err(e),
                Ok(off) => match indexed_payload(store, off as int) {
                    Err(e) => Err(e),
                    Ok(p) => match live_flag(store, off as int) {
                        Err(e) => Err(e),
                        Ok(()) => if h.dead_bytes + 5 + p.len() > u64::MAX {
                            Err(StoreError::OverflowDeadbytesSize)
                        } else {
                            let s1 = write_at(
                                write_at(store, off as int, seq![0u8]),
                                STORAGE_DEAD_BYTES_OFFSET as int,
                                u64_be_bytes((h.dead_bytes + 5 + p.len()) as u64),
                            ) + frame_bytes(payload);
                            let i1 = write_at(
                                index,
                                entry_pos(id) + 4,
                                u64_be_bytes(store.len() as u64),
                            );
                            Ok((s1, i1, p))
                        },
                    },
                },
            },
        }
    }
}

/// Replacing record `id` with `payload` (see `update_images`), once the old
/// payload is checked to hold it (see `record_check`).
pub open spec fn update_spec<T: Decode>(
    store: Seq<u8>,
    index: Seq<u8>,
    id: u32,
    payload: Seq<u8>,
) -> Result<(Seq<u8>, Seq<u8>), StoreError> {
    match update_images(store, index, id, payload) {
        Err(e) => Err(e),
        Ok((s1, i1, p)) => match record_check::<T>(p, id) {
            Err(e) => Err(e),
            Ok(()) => Ok((s1, i1)),
        },
    }
}

/// Replaces record `id` with `payload` (see `update_spec`); a refused
/// request leaves both files as they were.
pub fn replace_record<T: Decode>(
    store: &mut Vec<u8>,
    index: &mut Vec<u8>,
    id: u32,
    payload: &[u8],
) -> (r: Result<(), StoreError>)
    ensures
        outcome_matches(
            r,
            update_spec::<T>(old(store)@, old(index)@, id, payload@),
            final(store)@,
            final(index)@,
        ),
        r is Err ==> final(store)@ == old(store)@ && final(index)@ == old(index)@,
{
    let ghost s0 = store@;
    let ghost x0 = index@;
    if payload.len() > 0xffff_ffffusize {
        return Err(StoreError::TryFromIntError);
    }
    let h = match parse_store_header(store.as_slice()) {
        Ok(h) => h,
        Err(e) => {
            return Err(e);
        },
    };
    let off = match find_id_offset(index.as_slice(), id) {
        Ok(o) => o,
        Err(e) => {
            return Err(e);
        },
    };
    let (a, b) = match locate_payload(store.as_slice(), off) {
        Ok(x) => x,
        Err(e) => {
            return Err(e);
        },
    };
    let o = off as usize;
    let flag = store[o];
    if flag == 0 {
        return Err(StoreError::StorageIndexDeleted);
    }
    if flag != 1 {
        return Err(StoreError::InvalidFrameFlag(flag));
    }
    let dead = h.dead_bytes;
    let size = (b - a) as u64;
    if dead > u64::MAX - 5 || size > u64::MAX - 5 - dead {
        return Err(StoreError::OverflowDeadbytesSize);
    }
    let ghost p = s0.subrange(a as int, b as int);
    let ghost s1 = write_at(
        write_at(s0, off as int, seq![0u8]),
        STORAGE_DEAD_BYTES_OFFSET as int,
        u64_be_bytes((dead + 5 + p.len()) as u64),
    ) + frame_bytes(payload@);
    proof {
        assert(index_offset(x0, id) == Ok::<u64, StoreError>(off));
        assert(p.len() == size);
        assert(update_images(s0, x0, id, payload@) == Ok::<
            (Seq<u8>, Seq<u8>, Seq<u8>),
            StoreError,
        >((s1, write_at(x0, entry_pos(id) + 4, u64_be_bytes(s0.len() as u64)), p)));
    }
    match check_record::<T>(&store[a..b], id) {
        Ok(()) => {},
        Err(e) => {
            return Err(e);
        },
    }
    let frame_offset = store.len() as u64;
    store.set(o, 0u8);
    assert(store@ =~= write_at(s0, o as int, seq![0u8]));
    put_u64(store, STORAGE_DEAD_BYTES_OFFSET, dead + 5 + size);
    let plen = payload.len() as u32;
    let mut frame: Vec<u8> = Vec::new();
    frame.push(1u8);
    push_all(&mut frame, &[(plen >> 24u32) as u8, (plen >> 16u32) as u8, (plen >> 8u32) as u8, plen as u8]);
    push_all(&mut frame, payload);
    assert(frame@ =~= frame_bytes(payload@));
    push_all(store, frame.as_slice());
    let xn = index.len();
    let e64: u64 = 22 + (id as u64 - 1) * 12;
    assert(e64 == entry_pos(id) && e64 + 12 <= x0.len());
    let e = e64 as usize;
    put_u64(index, e + 4, frame_offset);
    assert(store@ =~= s1);
    Ok(())
}

/// Encodes `item` as record `id` and replaces the stored record with it
/// (see `update_spec`); an item that cannot be encoded is refused first. A
/// refused request leaves both files as they were.
pub fn update_one<T: Encode + Decode>(
    store: &mut Vec<u8>,
    index: &mut Vec<u8>,
    id: u32,
    item: &T,
) -> (r: Result<(), StoreError>)
    ensures
        match item.encode_spec(id) {
            None => r is Err,
            Some(p) => outcome_matches(
                r,
                update_spec::<T>(old(store)@, old(index)@, id, p),
                final(store)@,
                final(index)@,
            ),
        },
        r is Err ==> final(store)@ == old(store)@ && final(index)@ == old(index)@,
{
    let payload = match item.encode(id) {
        Ok(p) => p,
        Err(e) => {
            return Err(e);
        },
    };
    replace_record::<T>(store, index, id, payload.as_slice())
}

// ---------------------------------------------------------------------------
// Laws
// ---------------------------------------------------------------------------

proof fn lemma_read_back_u32(b: Seq<u8>, i: int, x: u32)
    requires
        0 <= i,
        i + 4 <= b.len(),
    ensures
        be_word(write_at(b, i, u32_be(x)), i) == x,
        write_at(b, i, u32_be(x)).len() == b.len(),
{
    crate::storage::decode::lemma_u32_round_trip(x);
    let w = write_at(b, i, u32_be(x));
    assert(w[i] == u32_be(x)[0] && w[i + 1] == u32_be(x)[1] && w[i + 2] == u32_be(x)[2] && w[i
        + 3] == u32_be(x)[3]);
}

proof fn lemma_untouched_u32(b: Seq<u8>, i: int, x: Seq<u8>, j: int)
    requires
        0 <= i,
        i + x.len() <= b.len(),
        0 <= j,
        j + 4 <= b.len(),
        j + 4 <= i || i + x.len() <= j,
    ensures
        be_word(write_at(b, i, x), j) == be_word(b, j),
{
    let w = write_at(b, i, x);
    assert(w[j] == b[j] && w[j + 1] == b[j + 1] && w[j + 2] == b[j + 2] && w[j + 3] == b[j + 3]);
}

/// Storing a record issues the next id: the collection's next id and record
/// count each go up by one.
pub proof fn lemma_append_issues_next_id(store: Seq<u8>, index: Seq<u8>, payload: Seq<u8>)
    ensures
        append_images(store, index, payload) matches Ok((s1, _)) ==> be_word(
            s1,
            STORAGE_NEXT_ID_OFFSET as int,
        ) == be_word(store, STORAGE_NEXT_ID_OFFSET as int) + 1 && be_word(
            s1,
            STORAGE_RECORD_COUNT_OFFSET as int,
        ) == be_word(store, STORAGE_RECORD_COUNT_OFFSET as int) + 1,
{
    if let Ok((s1, _)) = append_images(store, index, payload) {
        let id = be_word(store, STORAGE_NEXT_ID_OFFSET as int);
        let rc = be_word(store, STORAGE_RECORD_COUNT_OFFSET as int);
        let a = write_at(store, STORAGE_RECORD_COUNT_OFFSET as int, u32_be((rc + 1) as u32));
        lemma_read_back_u32(store, STORAGE_RECORD_COUNT_OFFSET as int, (rc + 1) as u32);
        lemma_untouched_u32(store, STORAGE_RECORD_COUNT_OFFSET as int, u32_be((rc + 1) as u32), STORAGE_NEXT_ID_OFFSET as int);
        let b = write_at(a, STORAGE_NEXT_ID_OFFSET as int, u32_be((id + 1) as u32));
        lemma_read_back_u32(a, STORAGE_NEXT_ID_OFFSET as int, (id + 1) as u32);
        lemma_untouched_u32(a, STORAGE_NEXT_ID_OFFSET as int, u32_be((id + 1) as u32), STORAGE_RECORD_COUNT_OFFSET as int);
        let f = frame_bytes(payload);
        assert(s1 == b + f);
        assert((b + f)[13] == b[13] && (b + f)[14] == b[14] && (b + f)[15] == b[15] && (b + f)[16] == b[16]);
        assert((b + f)[17] == b[17] && (b + f)[18] == b[18] && (b + f)[19] == b[19] && (b + f)[20] == b[20]);
    }
}

/// Deleting a record whose index entry points past the header leaves the
/// next id as it was (ids are never reused) and lowers the record count by
/// one.
pub proof fn lemma_delete_keeps_next_id(store: Seq<u8>, index: Seq<u8>, id: u32)
    requires
        index_offset(index, id) matches Ok(off) ==> off >= STORAGE_HEADER_TOTAL_BYTES,
    ensures
        delete_images(store, index, id) matches Ok((s1, _, _)) ==> be_word(
            s1,
            STORAGE_NEXT_ID_OFFSET as int,
        ) == be_word(store, STORAGE_NEXT_ID_OFFSET as int) && be_word(
            s1,
            STORAGE_RECORD_COUNT_OFFSET as int,
        ) == be_word(store, STORAGE_RECORD_COUNT_OFFSET as int) - 1,
{
    if let Ok((s1, _, p)) = delete_images(store, index, id) {
        let off = index_offset(index, id)->Ok_0;
        let rc = be_word(store, STORAGE_RECORD_COUNT_OFFSET as int);
        let dead = be_u64_at(store, STORAGE_DEAD_BYTES_OFFSET as int);
        assert(indexed_payload(store, off as int) is Ok);
        let a = write_at(store, off as int, seq![0u8]);
        let b = write_at(a, STORAGE_RECORD_COUNT_OFFSET as int, u32_be((rc - 1) as u32));
        let c = write_at(b, STORAGE_DEAD_BYTES_OFFSET as int, u64_be_bytes((dead + 5 + p.len()) as u64));
        lemma_untouched_u32(b, STORAGE_DEAD_BYTES_OFFSET as int, u64_be_bytes((dead + 5 + p.len()) as u64), STORAGE_NEXT_ID_OFFSET as int);
        lemma_untouched_u32(b, STORAGE_DEAD_BYTES_OFFSET as int, u64_be_bytes((dead + 5 + p.len()) as u64), STORAGE_RECORD_COUNT_OFFSET as int);
        lemma_read_back_u32(a, STORAGE_RECORD_COUNT_OFFSET as int, (rc - 1) as u32);
        lemma_untouched_u32(a, STORAGE_RECORD_COUNT_OFFSET as int, u32_be((rc - 1) as u32), STORAGE_NEXT_ID_OFFSET as int);
        assert(s1 == c);
        if off + 1 <= 13 || off >= 17 {
            lemma_untouched_u32(store, off as int, seq![0u8], STORAGE_NEXT_ID_OFFSET as int);
        }
        if off + 1 <= 17 || off >= 21 {
            lemma_untouched_u32(store, off as int, seq![0u8], STORAGE_RECORD_COUNT_OFFSET as int);
        }
    }
}


proof fn lemma_u64_round_trip(x: u64)
    ensures
        be_u64_at(u64_be_bytes(x), 0) == x,
{
    let b = u64_be_bytes(x);
    assert(((((x >> 56u64) as u8) as u32) << 24u32) | ((((x >> 48u64) as u8) as u32) << 16u32) | (
    (((x >> 40u64) as u8) as u32) << 8u32) | (((x >> 32u64) as u8) as u32) == (x >> 32u64) as u32)
        by (bit_vector);
    assert(((((x >> 24u64) as u8) as u32) << 24u32) | ((((x >> 16u64) as u8) as u32) << 16u32) | (
    (((x >> 8u64) as u8) as u32) << 8u32) | ((x as u8) as u32) == x as u32) by (bit_vector);
    assert(((((x >> 32u64) as u32) as u64) << 32u64) | ((x as u32) as u64) == x) by (bit_vector);
}

/// Bytes that agree for eight bytes read the same 64-bit value there.
proof fn lemma_same_u64(a: Seq<u8>, b: Seq<u8>, i: int, j: int)
    requires
        0 <= i,
        i + 8 <= a.len(),
        0 <= j,
        j + 8 <= b.len(),
        a.subrange(i, i + 8) == b.subrange(j, j + 8),
    ensures
        be_u64_at(a, i) == be_u64_at(b, j),
        be_word(a, i) == be_word(b, j),
{
    let x = a.subrange(i, i + 8);
    assert(a[i] == x[0] && a[i + 1] == x[1] && a[i + 2] == x[2] && a[i + 3] == x[3]);
    assert(a[i + 4] == x[4] && a[i + 5] == x[5] && a[i + 6] == x[6] && a[i + 7] == x[7]);
    assert(b[j] == x[0] && b[j + 1] == x[1] && b[j + 2] == x[2] && b[j + 3] == x[3]);
    assert(b[j + 4] == x[4] && b[j + 5] == x[5] && b[j + 6] == x[6] && b[j + 7] == x[7]);
}

/// Bytes that agree for four bytes read the same 32-bit value there.
proof fn lemma_same_u32(a: Seq<u8>, b: Seq<u8>, i: int, j: int)
    requires
        0 <= i,
        i + 4 <= a.len(),
        0 <= j,
        j + 4 <= b.len(),
        a.subrange(i, i + 4) == b.subrange(j, j + 4),
    ensures
        be_word(a, i) == be_word(b, j),
{
    let x = a.subrange(i, i + 4);
    assert(a[i] == x[0] && a[i + 1] == x[1] && a[i + 2] == x[2] && a[i + 3] == x[3]);
    assert(b[j] == x[0] && b[j + 1] == x[1] && b[j + 2] == x[2] && b[j + 3] == x[3]);
}

/// Raising an index's entry count and appending bytes keeps its magic text
/// and every entry it had.
proof fn lemma_index_bytes_kept(index: Seq<u8>, c: u32, tail: Seq<u8>, k: int)
    requires
        index.len() >= INDEX_HEADER_TOTAL_BYTES,
        0 <= k < index.len(),
        k < INDEX_RECORD_COUNT_OFFSET || k >= INDEX_HEADER_TOTAL_BYTES,
    ensures
        (write_at(index, INDEX_RECORD_COUNT_OFFSET as int, u32_be(c)) + tail)[k] == index[k],
{
    let w = write_at(index, INDEX_RECORD_COUNT_OFFSET as int, u32_be(c));
    assert((w + tail)[k] == w[k]);
}

/// An index whose entry count is rewritten and which gets more bytes keeps
/// its header valid, with the new count.
proof fn lemma_index_header_kept(index: Seq<u8>, c: u32, tail: Seq<u8>)
    requires
        index_count(index) is Ok,
    ensures
        index_count(write_at(index, INDEX_RECORD_COUNT_OFFSET as int, u32_be(c)) + tail)
            == Ok::<u32, StoreError>(c),
{
    let w = write_at(index, INDEX_RECORD_COUNT_OFFSET as int, u32_be(c));
    let i1 = w + tail;
    assert forall|k: int| 0 <= k < INDEX_MAGIC_END implies #[trigger] i1[k] == index[k] by {
        lemma_index_bytes_kept(index, c, tail, k);
    }
    assert(i1.subrange(0, INDEX_MAGIC_END as int) =~= index.subrange(0, INDEX_MAGIC_END as int));
    lemma_index_bytes_kept(index, c, tail, INDEX_VERSION_OFFSET as int);
    lemma_read_back_u32(index, INDEX_RECORD_COUNT_OFFSET as int, c);
    assert(i1.subrange(18, 22) =~= w.subrange(18, 22));
    lemma_same_u32(i1, w, 18, 18);
}

/// An index whose entry count is raised and which gets more bytes gives
/// every id it gave before the same offset.
proof fn lemma_index_grown(index: Seq<u8>, c: u32, tail: Seq<u8>, rid: u32)
    requires
        index_count(index) is Ok,
        index_count(index)->Ok_0 <= c,
        index_offset(index, rid) is Ok,
    ensures
        index_offset(write_at(index, INDEX_RECORD_COUNT_OFFSET as int, u32_be(c)) + tail, rid)
            == index_offset(index, rid),
{
    let i1 = write_at(index, INDEX_RECORD_COUNT_OFFSET as int, u32_be(c)) + tail;
    lemma_index_header_kept(index, c, tail);
    let ep = entry_pos(rid);
    assert forall|k: int| ep <= k < ep + 12 implies #[trigger] i1[k] == index[k] by {
        lemma_index_bytes_kept(index, c, tail, k);
    }
    assert(i1.subrange(ep, ep + 8) =~= index.subrange(ep, ep + 8));
    lemma_same_u64(i1, index, ep, ep);
    assert(i1.subrange(ep + 4, ep + 12) =~= index.subrange(ep + 4, ep + 12));
    lemma_same_u64(i1, index, ep + 4, ep + 4);
}

/// When the index holds exactly the entries it counts and `id` follows the
/// last of them, counting `id` and appending the entry (`id`, `off`) makes it
/// give `off` for `id`, and it again holds exactly the entries it counts.
proof fn lemma_index_new_entry(index: Seq<u8>, id: u32, off: u64)
    requires
        index_count(index) is Ok,
        index_count(index)->Ok_0 + 1 == id,
        index.len() == index_len(index_count(index)->Ok_0 as nat),
        off != 0,
    ensures
        index_offset(
            write_at(index, INDEX_RECORD_COUNT_OFFSET as int, u32_be(id)) + u32_be(id)
                + u64_be_bytes(off),
            id,
        ) == Ok::<u64, StoreError>(off),
        index_count(
            write_at(index, INDEX_RECORD_COUNT_OFFSET as int, u32_be(id)) + u32_be(id)
                + u64_be_bytes(off),
        ) == Ok::<u32, StoreError>(id),
        (write_at(index, INDEX_RECORD_COUNT_OFFSET as int, u32_be(id)) + u32_be(id)
            + u64_be_bytes(off)).len() == index_len(id as nat),
{
    let w = write_at(index, INDEX_RECORD_COUNT_OFFSET as int, u32_be(id));
    let tail = u32_be(id) + u64_be_bytes(off);
    let i1 = w + u32_be(id) + u64_be_bytes(off);
    assert(i1 =~= w + tail);
    lemma_index_header_kept(index, id, tail);
    let ep = entry_pos(id);
    assert(w.len() == ep);
    assert(i1.subrange(ep, ep + 4) =~= u32_be(id).subrange(0, 4));
    lemma_same_u32(i1, u32_be(id), ep, 0);
    crate::storage::decode::lemma_u32_round_trip(id);
    assert(i1.subrange(ep + 4, ep + 12) =~= u64_be_bytes(off).subrange(0, 8));
    lemma_same_u64(i1, u64_be_bytes(off), ep + 4, 0);
    lemma_u64_round_trip(off);
}

/// The header after one more record is issued: next id and record count up
/// by one.
pub open spec fn grown_header(h: StoreHeader) -> StoreHeader {
    StoreHeader {
        next_id: (h.next_id + 1) as u32,
        record_count: (h.record_count + 1) as u32,
        dead_bytes: h.dead_bytes,
    }
}

/// Listing a collection file that is extended by a live frame holding `p`,
/// whose record is the one issued next, gives what it gave before and then
/// `p`.
proof fn lemma_list_extend<T: Decode>(
    b: Seq<u8>,
    c: Seq<u8>,
    index: Seq<u8>,
    i1: Seq<u8>,
    h: StoreHeader,
    pos: int,
    n: nat,
    dead: nat,
    p: Seq<u8>,
)
    requires
        STORAGE_HEADER_TOTAL_BYTES <= pos <= b.len(),
        c.len() == b.len() + 5 + p.len(),
        c.len() <= usize::MAX,
        forall|k: int| STORAGE_HEADER_TOTAL_BYTES <= k < b.len() ==> #[trigger] c[k] == b[k],
        c.subrange(b.len() as int, c.len() as int) == frame_bytes(p),
        p.len() <= u32::MAX,
        h.next_id < u32::MAX,
        h.record_count < u32::MAX,
        list_from::<T>(b, index, h, pos, n, dead) is Ok,
        forall|rid: u32|
            index_offset(index, rid) is Ok ==> #[trigger] index_offset(i1, rid) == index_offset(
                index,
                rid,
            ),
        index_offset(i1, h.next_id) == Ok::<u64, StoreError>(b.len() as u64),
        T::decode_spec(p) == Ok::<(u32, Seq<u8>), StoreError>((h.next_id, Seq::<u8>::empty())),
    ensures
        list_from::<T>(c, i1, grown_header(h), pos, n, dead) == Ok::<Seq<Seq<u8>>, StoreError>(
            list_from::<T>(b, index, h, pos, n, dead)->Ok_0.push(p),
        ),
    decreases b.len() - pos,
{
    let h1 = grown_header(h);
    let bl = b.len() as int;
    if pos == bl {
        let plen = p.len() as u32;
        let fb = frame_bytes(p);
        assert forall|k: int| 0 <= k < fb.len() implies #[trigger] c[bl + k] == fb[k] by {
            assert(c.subrange(bl, c.len() as int)[k] == c[bl + k]);
        }
        assert(c[pos] == fb[0]);
        assert forall|k: int| 0 <= k < 4 implies #[trigger] c.subrange(pos + 1, pos + 5)[k]
            == u32_be(plen).subrange(0, 4)[k] by {
            assert(c[bl + 1 + k] == fb[1 + k]);
        }
        assert(c.subrange(pos + 1, pos + 5) =~= u32_be(plen).subrange(0, 4));
        lemma_same_u32(c, u32_be(plen), pos + 1, 0);
        crate::storage::decode::lemma_u32_round_trip(plen);
        let f = Frame { live: true, start: (pos + 5) as usize, len: plen as usize };
        assert(frame_at(c, pos) == Ok::<Frame, StoreError>(f));
        assert forall|k: int| 0 <= k < p.len() implies #[trigger] c.subrange(
            pos + 5,
            pos + 5 + p.len(),
        )[k] == p[k] by {
            assert(c[bl + 5 + k] == fb[5 + k]);
        }
        assert(c.subrange(pos + 5, pos + 5 + p.len()) =~= p);
        assert(list_from::<T>(c, i1, h1, c.len() as int, n + 1, dead) == Ok::<
            Seq<Seq<u8>>,
            StoreError,
        >(seq![]));
        assert(seq![p] + Seq::<Seq<u8>>::empty() =~= Seq::<Seq<u8>>::empty().push(p));
    } else {
        let f = frame_at(b, pos)->Ok_0;
        assert(c[pos] == b[pos]);
        assert(c.subrange(pos + 1, pos + 5) =~= b.subrange(pos + 1, pos + 5));
        lemma_same_u32(c, b, pos + 1, pos + 1);
        assert(frame_at(c, pos) == frame_at(b, pos));
        let next = f.start + f.len;
        if !f.live {
            lemma_list_extend::<T>(b, c, index, i1, h, next, n, (dead + 5 + f.len) as nat, p);
        } else {
            let q = b.subrange(f.start as int, next);
            assert(c.subrange(f.start as int, next) =~= q);
            let (rid, rest) = T::decode_spec(q)->Ok_0;
            assert(index_offset(i1, rid) == index_offset(index, rid));
            lemma_list_extend::<T>(b, c, index, i1, h, next, n + 1, dead, p);
            let ps = list_from::<T>(b, index, h, next, n + 1, dead)->Ok_0;
            assert(seq![q] + ps.push(p) =~= (seq![q] + ps).push(p));
        }
    }
}

/// What a listing gives back of a write: when a collection lists cleanly
/// and the payload stored reads back as a record carrying the id issued to
/// it, then once the payload is stored the collection lists what it listed
/// before, followed by that payload.
pub proof fn lemma_list_after_append<T: Decode>(store: Seq<u8>, index: Seq<u8>, payload: Seq<u8>)
    requires
        list_spec::<T>(store, index) is Ok,
        T::decode_spec(payload) == Ok::<(u32, Seq<u8>), StoreError>(
            (be_word(store, STORAGE_NEXT_ID_OFFSET as int), Seq::<u8>::empty()),
        ),
        store.len() + 5 + payload.len() <= usize::MAX,
    ensures
        append_images(store, index, payload) matches Ok((s1, i1)) ==> list_spec::<T>(s1, i1)
            == Ok::<Seq<Seq<u8>>, StoreError>(list_spec::<T>(store, index)->Ok_0.push(payload)),
{
    if let Ok((s1, i1)) = append_images(store, index, payload) {
        let h = store_header(store)->Ok_0;
        let count = index_count(index)->Ok_0;
        let id = be_word(store, STORAGE_NEXT_ID_OFFSET as int);
        let rc = be_word(store, STORAGE_RECORD_COUNT_OFFSET as int);
        let a1 = write_at(store, STORAGE_RECORD_COUNT_OFFSET as int, u32_be((rc + 1) as u32));
        let a2 = write_at(a1, STORAGE_NEXT_ID_OFFSET as int, u32_be((id + 1) as u32));
        assert(s1 == a2 + frame_bytes(payload));
        let sl = store.len() as int;
        assert forall|k: int| 0 <= k < sl && (k < 13 || k >= 21) implies #[trigger] s1[k]
            == store[k] by {
            assert(s1[k] == a2[k]);
            assert(a2[k] == a1[k]);
        }
        // The header after the write.
        lemma_append_issues_next_id(store, index, payload);
        assert(s1.subrange(0, 12) =~= store.subrange(0, 12));
        assert(s1[12] == store[12]);
        assert(s1.subrange(21, 29) =~= store.subrange(21, 29));
        lemma_same_u64(s1, store, 21, 21);
        assert(store_header(s1) == Ok::<StoreHeader, StoreError>(grown_header(h)));
        // The frames after the header.
        assert(s1.subrange(sl, s1.len() as int) =~= frame_bytes(payload));
        // The index after the write.
        let tail = u32_be(id) + u64_be_bytes(store.len() as u64);
        assert(i1 =~= write_at(index, INDEX_RECORD_COUNT_OFFSET as int, u32_be(id)) + tail);
        assert forall|rid: u32| index_offset(index, rid) is Ok implies #[trigger] index_offset(
            i1,
            rid,
        ) == index_offset(index, rid) by {
            lemma_index_grown(index, id, tail, rid);
        }
        lemma_index_new_entry(index, id, store.len() as u64);
        lemma_list_extend::<T>(
            store,
            s1,
            index,
            i1,
            h,
            STORAGE_HEADER_TOTAL_BYTES as int,
            0,
            0,
            payload,
        );
    }
}

/// Whether reading the frames of a collection file from `pos` on reaches a
/// frame that starts at `off`.
pub open spec fn on_walk(b: Seq<u8>, pos: int, off: int) -> bool
    decreases b.len() - pos,
{
    if pos < 0 || pos >= b.len() || pos > off {
        false
    } else if pos == off {
        true
    } else {
        match frame_at(b, pos) {
            Err(_) => false,
            Ok(f) => if f.start + f.len <= pos {
                false
            } else {
                on_walk(b, f.start + f.len, off)
            },
        }
    }
}

/// The id of the record a listed payload holds.
pub open spec fn payload_id<T: Decode>(p: Seq<u8>) -> u32 {
    T::decode_spec(p)->Ok_0.0
}

/// A listing that goes on to read a live frame at `off` has room in the
/// header's record count for it.
proof fn lemma_count_bound<T: Decode>(
    b: Seq<u8>,
    index: Seq<u8>,
    h: StoreHeader,
    pos: int,
    n: nat,
    dead: nat,
    off: int,
)
    requires
        list_from::<T>(b, index, h, pos, n, dead) is Ok,
        on_walk(b, pos, off),
        frame_at(b, off) matches Ok(f) && f.live,
        b.len() <= usize::MAX,
    ensures
        n + 1 <= h.record_count,
    decreases b.len() - pos,
{
    if pos != off {
        let f = frame_at(b, pos)->Ok_0;
        let next = f.start + f.len;
        if f.live {
            lemma_count_bound::<T>(b, index, h, next, n + 1, dead, off);
        } else {
            lemma_count_bound::<T>(b, index, h, next, n, (dead + 5 + f.len) as nat, off);
        }
    }
}

/// The header once a record of `plen` payload bytes is deleted.
pub open spec fn shrunk_header(h: StoreHeader, plen: nat) -> StoreHeader {
    StoreHeader {
        next_id: h.next_id,
        record_count: (h.record_count - 1) as u32,
        dead_bytes: (h.dead_bytes + 5 + plen) as u64,
    }
}

/// Past the deleted frame, a listing reads the same payloads, one record
/// fewer counted and the deleted frame's bytes counted dead.
proof fn lemma_list_past_delete<T: Decode>(
    b: Seq<u8>,
    b1: Seq<u8>,
    index: Seq<u8>,
    i1: Seq<u8>,
    h: StoreHeader,
    pos: int,
    n: nat,
    dead: nat,
    off: int,
    plen: nat,
    id: u32,
)
    requires
        STORAGE_HEADER_TOTAL_BYTES <= off < pos,
        b1.len() == b.len(),
        b.len() <= usize::MAX,
        forall|k: int|
            STORAGE_HEADER_TOTAL_BYTES <= k < b.len() && k != off ==> #[trigger] b1[k] == b[k],
        h.record_count >= 1,
        h.dead_bytes + 5 + plen <= u64::MAX,
        list_from::<T>(b, index, h, pos, n + 1, dead) is Ok,
        index_offset(index, id) == Ok::<u64, StoreError>(off as u64),
        forall|rid: u32|
            rid != id && index_offset(index, rid) is Ok ==> #[trigger] index_offset(i1, rid)
                == index_offset(index, rid),
    ensures
        list_from::<T>(b1, i1, shrunk_header(h, plen), pos, n, (dead + 5 + plen) as nat)
            == list_from::<T>(b, index, h, pos, n + 1, dead),
    decreases b.len() - pos,
{
    let h1 = shrunk_header(h, plen);
    if 0 <= pos < b.len() {
        assert(b1[pos] == b[pos]);
        if pos + 5 <= b.len() {
            assert(b1.subrange(pos + 1, pos + 5) =~= b.subrange(pos + 1, pos + 5));
            lemma_same_u32(b1, b, pos + 1, pos + 1);
        }
        assert(frame_at(b1, pos) == frame_at(b, pos));
        let f = frame_at(b, pos)->Ok_0;
        let next = f.start + f.len;
        if !f.live {
            lemma_list_past_delete::<T>(
                b,
                b1,
                index,
                i1,
                h,
                next,
                n,
                (dead + 5 + f.len) as nat,
                off,
                plen,
                id,
            );
            assert((((dead + 5 + plen) as nat) + 5 + f.len) as nat == (((dead + 5 + f.len) as nat)
                + 5 + plen) as nat);
        } else {
            let q = b.subrange(f.start as int, next);
            assert(b1.subrange(f.start as int, next) =~= q);
            assert(payload_id::<T>(q) != id);
            lemma_list_past_delete::<T>(b, b1, index, i1, h, next, n + 1, dead, off, plen, id);
        }
    }
}

/// Up to the deleted frame, a listing reads the same payloads; the deleted
/// one, at `j` in the listing, is skipped.
proof fn lemma_list_up_to_delete<T: Decode>(
    b: Seq<u8>,
    b1: Seq<u8>,
    index: Seq<u8>,
    i1: Seq<u8>,
    h: StoreHeader,
    pos: int,
    n: nat,
    dead: nat,
    off: int,
    id: u32,
) -> (j: int)
    requires
        STORAGE_HEADER_TOTAL_BYTES <= pos <= off,
        b1.len() == b.len(),
        b.len() <= usize::MAX,
        forall|k: int|
            STORAGE_HEADER_TOTAL_BYTES <= k < b.len() && k != off ==> #[trigger] b1[k] == b[k],
        on_walk(b, pos, off),
        frame_at(b, off) is Ok,
        frame_at(b, off)->Ok_0.live,
        frame_at(b1, off) == Ok::<Frame, StoreError>(
            Frame { live: false, ..frame_at(b, off)->Ok_0 },
        ),
        T::decode_spec(
            b.subrange(
                frame_at(b, off)->Ok_0.start as int,
                frame_at(b, off)->Ok_0.start + frame_at(b, off)->Ok_0.len,
            ),
        ) is Ok,
        payload_id::<T>(
            b.subrange(
                frame_at(b, off)->Ok_0.start as int,
                frame_at(b, off)->Ok_0.start + frame_at(b, off)->Ok_0.len,
            ),
        ) == id,
        h.record_count >= 1,
        h.dead_bytes + 5 + frame_at(b, off)->Ok_0.len <= u64::MAX,
        list_from::<T>(b, index, h, pos, n, dead) is Ok,
        index_offset(index, id) == Ok::<u64, StoreError>(off as u64),
        forall|rid: u32|
            rid != id && index_offset(index, rid) is Ok ==> #[trigger] index_offset(i1, rid)
                == index_offset(index, rid),
    ensures
        list_from::<T>(b, index, h, pos, n, dead) matches Ok(ps) && 0 <= j < ps.len() && ps[j]
            == b.subrange(frame_at(b, off)->Ok_0.start as int, frame_at(b, off)->Ok_0.start
            + frame_at(b, off)->Ok_0.len) && list_from::<T>(
            b1,
            i1,
            shrunk_header(h, frame_at(b, off)->Ok_0.len as nat),
            pos,
            n,
            dead,
        ) == Ok::<Seq<Seq<u8>>, StoreError>(ps.remove(j)),
    decreases b.len() - pos,
{
    let fo = frame_at(b, off)->Ok_0;
    let plen = fo.len as nat;
    let h1 = shrunk_header(h, plen);
    let ps = list_from::<T>(b, index, h, pos, n, dead)->Ok_0;
    if pos == off {
        let next = fo.start + fo.len;
        let p = b.subrange(fo.start as int, next);
        let rest = list_from::<T>(b, index, h, next, n + 1, dead)->Ok_0;
        assert(ps == seq![p] + rest);
        lemma_list_past_delete::<T>(b, b1, index, i1, h, next, n, dead, off, plen, id);
        assert(ps.remove(0) =~= rest);
        0
    } else {
        let f = frame_at(b, pos)->Ok_0;
        let next = f.start + f.len;
        assert(on_walk(b, next, off));
        assert(next <= off);
        assert(b1[pos] == b[pos]);
        assert(b1.subrange(pos + 1, pos + 5) =~= b.subrange(pos + 1, pos + 5));
        lemma_same_u32(b1, b, pos + 1, pos + 1);
        assert(frame_at(b1, pos) == frame_at(b, pos));
        if !f.live {
            let j = lemma_list_up_to_delete::<T>(
                b,
                b1,
                index,
                i1,
                h,
                next,
                n,
                (dead + 5 + f.len) as nat,
                off,
                id,
            );
            j
        } else {
            let q = b.subrange(f.start as int, next);
            assert(b1.subrange(f.start as int, next) =~= q);
            let rest = list_from::<T>(b, index, h, next, n + 1, dead)->Ok_0;
            assert(ps == seq![q] + rest);
            assert(payload_id::<T>(q) != id);
            let j0 = lemma_list_up_to_delete::<T>(b, b1, index, i1, h, next, n + 1, dead, off, id);
            assert(ps[j0 + 1] == rest[j0]);
            lemma_count_bound::<T>(b, index, h, next, n + 1, dead, off);
            assert(seq![q] + rest.remove(j0) =~= ps.remove(j0 + 1));
            j0 + 1
        }
    }
}

/// Rewriting the offset of one index entry leaves every other id's lookup as
/// it was.
proof fn lemma_index_entry_rewritten(index: Seq<u8>, id: u32, rid: u32, v: u64)
    requires
        index_offset(index, id) is Ok,
        index_offset(index, rid) is Ok,
        rid != id,
    ensures
        index_offset(write_at(index, entry_pos(id) + 4, u64_be_bytes(v)), rid) == index_offset(
            index,
            rid,
        ),
{
    let ei = entry_pos(id);
    let er = entry_pos(rid);
    let w = write_at(index, ei + 4, u64_be_bytes(v));
    assert(w.len() == index.len());
    assert forall|k: int| 0 <= k < index.len() && (k < ei + 4 || k >= ei + 12) implies #[trigger] w[k]
        == index[k] by {
        if k < ei + 4 {
            assert(w[k] == index.subrange(0, ei + 4)[k]);
        } else {
            assert(w[k] == index.subrange(ei + 12, index.len() as int)[k - (ei + 12)]);
        }
    }
    assert(w.subrange(0, INDEX_MAGIC_END as int) =~= index.subrange(0, INDEX_MAGIC_END as int));
    assert(w.subrange(18, 22) =~= index.subrange(18, 22));
    lemma_same_u32(w, index, 18, 18);
    assert(w.subrange(er, er + 8) =~= index.subrange(er, er + 8));
    lemma_same_u64(w, index, er, er);
    assert(w.subrange(er + 4, er + 12) =~= index.subrange(er + 4, er + 12));
    lemma_same_u64(w, index, er + 4, er + 4);
}

/// Rewriting the offset of an id's index entry to `v`, not 0, makes the
/// index give `v` for it.
proof fn lemma_index_entry_own(index: Seq<u8>, id: u32, v: u64)
    requires
        index_offset(index, id) is Ok,
        v != 0,
    ensures
        index_offset(write_at(index, entry_pos(id) + 4, u64_be_bytes(v)), id) == Ok::<
            u64,
            StoreError,
        >(v),
{
    let ei = entry_pos(id);
    let w = write_at(index, ei + 4, u64_be_bytes(v));
    assert(w.len() == index.len());
    assert forall|k: int| 0 <= k < ei + 4 implies #[trigger] w[k] == index[k] by {
        assert(w[k] == index.subrange(0, ei + 4)[k]);
    }
    assert(w.subrange(0, INDEX_MAGIC_END as int) =~= index.subrange(0, INDEX_MAGIC_END as int));
    assert(w.subrange(18, 22) =~= index.subrange(18, 22));
    lemma_same_u32(w, index, 18, 18);
    assert(w.subrange(ei, ei + 4) =~= index.subrange(ei, ei + 4));
    lemma_same_u32(w, index, ei, ei);
    assert(w.subrange(ei + 4, ei + 12) =~= u64_be_bytes(v).subrange(0, 8));
    lemma_same_u64(w, u64_be_bytes(v), ei + 4, 0);
    lemma_u64_round_trip(v);
}

/// Rewriting the offset of an issued id's index entry keeps the index header
/// and length.
proof fn lemma_index_entry_header(index: Seq<u8>, id: u32, v: u64)
    requires
        index_offset(index, id) is Ok,
    ensures
        index_count(write_at(index, entry_pos(id) + 4, u64_be_bytes(v))) == index_count(index),
        write_at(index, entry_pos(id) + 4, u64_be_bytes(v)).len() == index.len(),
{
    let ei = entry_pos(id);
    let w = write_at(index, ei + 4, u64_be_bytes(v));
    assert(w.len() == index.len());
    assert forall|k: int| 0 <= k < ei + 4 implies #[trigger] w[k] == index[k] by {
        assert(w[k] == index.subrange(0, ei + 4)[k]);
    }
    assert(w.subrange(0, INDEX_MAGIC_END as int) =~= index.subrange(0, INDEX_MAGIC_END as int));
    assert(w[INDEX_VERSION_OFFSET as int] == index[INDEX_VERSION_OFFSET as int]);
    assert(w.subrange(18, 22) =~= index.subrange(18, 22));
    lemma_same_u32(w, index, 18, 18);
}

/// The listing after a delete, for an index entry that points at a frame the
/// listing reads (see `lemma_list_after_delete`).
proof fn lemma_list_after_delete_at<T: Decode>(store: Seq<u8>, index: Seq<u8>, id: u32)
    requires
        list_spec::<T>(store, index) is Ok,
        index_offset(index, id) is Ok,
        on_walk(store, STORAGE_HEADER_TOTAL_BYTES as int, index_offset(index, id)->Ok_0 as int),
        store.len() <= usize::MAX,
    ensures
        delete_spec::<T>(store, index, id) matches Ok((s1, i1)) ==> exists|j: int|
            0 <= j < list_spec::<T>(store, index)->Ok_0.len() && payload_id::<T>(
                #[trigger] list_spec::<T>(store, index)->Ok_0[j],
            ) == id && list_spec::<T>(s1, i1) == Ok::<Seq<Seq<u8>>, StoreError>(
                list_spec::<T>(store, index)->Ok_0.remove(j),
            ),
{
    if let Ok((s1, i1)) = delete_spec::<T>(store, index, id) {
        let ps = list_spec::<T>(store, index)->Ok_0;
        let h = store_header(store)->Ok_0;
        let off = index_offset(index, id)->Ok_0 as int;
        let (_, _, p) = delete_images(store, index, id)->Ok_0;
        let plen = p.len();
        let fo = Frame { live: true, start: (off + 5) as usize, len: plen as usize };
        assert(frame_at(store, off) == Ok::<Frame, StoreError>(fo));
        assert(p == store.subrange(fo.start as int, fo.start + fo.len));
        let rc = be_word(store, STORAGE_RECORD_COUNT_OFFSET as int);
        let dead = be_u64_at(store, STORAGE_DEAD_BYTES_OFFSET as int);
        let a = write_at(store, off, seq![0u8]);
        let c = write_at(a, STORAGE_RECORD_COUNT_OFFSET as int, u32_be((rc - 1) as u32));
        let v = (dead + 5 + plen) as u64;
        assert(s1 == write_at(c, STORAGE_DEAD_BYTES_OFFSET as int, u64_be_bytes(v)));
        assert(off >= STORAGE_HEADER_TOTAL_BYTES);
        // Bytes of the collection file after the delete.
        assert forall|k: int| 0 <= k < store.len() && k != off && (k < 17 || k >= 29) implies #[trigger] s1[k]
            == store[k] by {
            assert(a[k] == store[k]);
            assert(c[k] == a[k]);
        }
        assert(s1[off] == 0);
        assert(s1.subrange(off + 1, off + 5) =~= store.subrange(off + 1, off + 5));
        lemma_same_u32(s1, store, off + 1, off + 1);
        assert(frame_at(s1, off) == Ok::<Frame, StoreError>(Frame { live: false, ..fo }));
        // Its header.
        lemma_read_back_u32(a, STORAGE_RECORD_COUNT_OFFSET as int, (rc - 1) as u32);
        lemma_untouched_u32(c, STORAGE_DEAD_BYTES_OFFSET as int, u64_be_bytes(v), STORAGE_RECORD_COUNT_OFFSET as int);
        assert(s1.subrange(21, 29) =~= u64_be_bytes(v).subrange(0, 8));
        lemma_same_u64(s1, u64_be_bytes(v), 21, 0);
        lemma_u64_round_trip(v);
        assert(s1.subrange(13, 17) =~= store.subrange(13, 17));
        lemma_same_u32(s1, store, 13, 13);
        assert(s1.subrange(0, 12) =~= store.subrange(0, 12));
        assert(store_header(s1) == Ok::<StoreHeader, StoreError>(shrunk_header(h, plen)));
        // The index after the delete.
        assert forall|rid: u32| rid != id && index_offset(index, rid) is Ok implies #[trigger] index_offset(
            i1,
            rid,
        ) == index_offset(index, rid) by {
            lemma_index_entry_rewritten(index, id, rid, 0);
        }
        lemma_index_entry_header(index, id, 0);
        let j = lemma_list_up_to_delete::<T>(
            store,
            s1,
            index,
            i1,
            h,
            STORAGE_HEADER_TOTAL_BYTES as int,
            0,
            0,
            off,
            id,
        );
        assert(payload_id::<T>(ps[j]) == id);
    }
}

/// A listing that goes on to read a live frame at `off` checks that the id
/// of its record is below the header's next id.
proof fn lemma_listed_id_below<T: Decode>(
    b: Seq<u8>,
    index: Seq<u8>,
    h: StoreHeader,
    pos: int,
    n: nat,
    dead: nat,
    off: int,
)
    requires
        list_from::<T>(b, index, h, pos, n, dead) is Ok,
        on_walk(b, pos, off),
        frame_at(b, off) is Ok,
        frame_at(b, off)->Ok_0.live,
        b.len() <= usize::MAX,
    ensures
        T::decode_spec(
            b.subrange(
                frame_at(b, off)->Ok_0.start as int,
                frame_at(b, off)->Ok_0.start + frame_at(b, off)->Ok_0.len,
            ),
        ) is Ok,
        payload_id::<T>(
            b.subrange(
                frame_at(b, off)->Ok_0.start as int,
                frame_at(b, off)->Ok_0.start + frame_at(b, off)->Ok_0.len,
            ),
        ) < h.next_id,
    decreases b.len() - pos,
{
    if pos != off {
        let f = frame_at(b, pos)->Ok_0;
        let next = f.start + f.len;
        if f.live {
            lemma_listed_id_below::<T>(b, index, h, next, n + 1, dead, off);
        } else {
            lemma_listed_id_below::<T>(b, index, h, next, n, (dead + 5 + f.len) as nat, off);
        }
    }
}

/// The header once a record of `plen` payload bytes is replaced: its frame's
/// bytes count dead.
pub open spec fn replaced_header(h: StoreHeader, plen: nat) -> StoreHeader {
    StoreHeader { dead_bytes: (h.dead_bytes + 5 + plen) as u64, ..h }
}

/// Past the replaced frame, a listing reads the same payloads and then the
/// new one, the old frame's bytes counted dead.
proof fn lemma_list_past_update<T: Decode>(
    b: Seq<u8>,
    b1: Seq<u8>,
    index: Seq<u8>,
    i1: Seq<u8>,
    h: StoreHeader,
    pos: int,
    n: nat,
    dead: nat,
    off: int,
    plen: nat,
    id: u32,
    q: Seq<u8>,
)
    requires
        STORAGE_HEADER_TOTAL_BYTES <= off < pos <= b.len(),
        b1.len() == b.len() + 5 + q.len(),
        b1.len() <= usize::MAX,
        q.len() <= u32::MAX,
        forall|k: int|
            STORAGE_HEADER_TOTAL_BYTES <= k < b.len() && k != off ==> #[trigger] b1[k] == b[k],
        b1.subrange(b.len() as int, b1.len() as int) == frame_bytes(q),
        h.dead_bytes + 5 + plen <= u64::MAX,
        id < h.next_id,
        T::decode_spec(q) == Ok::<(u32, Seq<u8>), StoreError>((id, Seq::<u8>::empty())),
        index_offset(i1, id) == Ok::<u64, StoreError>(b.len() as u64),
        list_from::<T>(b, index, h, pos, n + 1, dead) is Ok,
        index_offset(index, id) == Ok::<u64, StoreError>(off as u64),
        forall|rid: u32|
            rid != id && index_offset(index, rid) is Ok ==> #[trigger] index_offset(i1, rid)
                == index_offset(index, rid),
    ensures
        list_from::<T>(b1, i1, replaced_header(h, plen), pos, n, (dead + 5 + plen) as nat)
            == Ok::<Seq<Seq<u8>>, StoreError>(
            list_from::<T>(b, index, h, pos, n + 1, dead)->Ok_0.push(q),
        ),
    decreases b.len() - pos,
{
    let h1 = replaced_header(h, plen);
    let bl = b.len() as int;
    if pos == bl {
        let qlen = q.len() as u32;
        let fb = frame_bytes(q);
        assert forall|k: int| 0 <= k < fb.len() implies #[trigger] b1[bl + k] == fb[k] by {
            assert(b1.subrange(bl, b1.len() as int)[k] == b1[bl + k]);
        }
        assert(b1[pos] == fb[0]);
        assert forall|k: int| 0 <= k < 4 implies #[trigger] b1.subrange(pos + 1, pos + 5)[k]
            == u32_be(qlen).subrange(0, 4)[k] by {
            assert(b1[bl + 1 + k] == fb[1 + k]);
        }
        assert(b1.subrange(pos + 1, pos + 5) =~= u32_be(qlen).subrange(0, 4));
        lemma_same_u32(b1, u32_be(qlen), pos + 1, 0);
        crate::storage::decode::lemma_u32_round_trip(qlen);
        let f = Frame { live: true, start: (pos + 5) as usize, len: qlen as usize };
        assert(frame_at(b1, pos) == Ok::<Frame, StoreError>(f));
        assert forall|k: int| 0 <= k < q.len() implies #[trigger] b1.subrange(
            pos + 5,
            pos + 5 + q.len(),
        )[k] == q[k] by {
            assert(b1[bl + 5 + k] == fb[5 + k]);
        }
        assert(b1.subrange(pos + 5, pos + 5 + q.len()) =~= q);
        assert(list_from::<T>(b1, i1, h1, b1.len() as int, n + 1, (dead + 5 + plen) as nat)
            == Ok::<Seq<Seq<u8>>, StoreError>(seq![]));
        assert(seq![q] + Seq::<Seq<u8>>::empty() =~= Seq::<Seq<u8>>::empty().push(q));
    } else {
        assert(b1[pos] == b[pos]);
        assert(b1.subrange(pos + 1, pos + 5) =~= b.subrange(pos + 1, pos + 5));
        lemma_same_u32(b1, b, pos + 1, pos + 1);
        assert(frame_at(b1, pos) == frame_at(b, pos));
        let f = frame_at(b, pos)->Ok_0;
        let next = f.start + f.len;
        if !f.live {
            lemma_list_past_update::<T>(
                b,
                b1,
                index,
                i1,
                h,
                next,
                n,
                (dead + 5 + f.len) as nat,
                off,
                plen,
                id,
                q,
            );
            assert((((dead + 5 + plen) as nat) + 5 + f.len) as nat == (((dead + 5 + f.len) as nat)
                + 5 + plen) as nat);
        } else {
            let r = b.subrange(f.start as int, next);
            assert(b1.subrange(f.start as int, next) =~= r);
            let rest = list_from::<T>(b, index, h, next, n + 2, dead)->Ok_0;
            assert(payload_id::<T>(r) != id);
            lemma_list_past_update::<T>(b, b1, index, i1, h, next, n + 1, dead, off, plen, id, q);
            assert(seq![r] + rest.push(q) =~= (seq![r] + rest).push(q));
        }
    }
}

/// Up to the replaced frame, a listing reads the same payloads; the
/// replaced one, at `j` in the listing, is skipped and the new one read at
/// the end.
proof fn lemma_list_up_to_update<T: Decode>(
    b: Seq<u8>,
    b1: Seq<u8>,
    index: Seq<u8>,
    i1: Seq<u8>,
    h: StoreHeader,
    pos: int,
    n: nat,
    dead: nat,
    off: int,
    id: u32,
    q: Seq<u8>,
) -> (j: int)
    requires
        STORAGE_HEADER_TOTAL_BYTES <= pos <= off,
        b1.len() == b.len() + 5 + q.len(),
        b1.len() <= usize::MAX,
        q.len() <= u32::MAX,
        forall|k: int|
            STORAGE_HEADER_TOTAL_BYTES <= k < b.len() && k != off ==> #[trigger] b1[k] == b[k],
        b1.subrange(b.len() as int, b1.len() as int) == frame_bytes(q),
        on_walk(b, pos, off),
        frame_at(b, off) is Ok,
        frame_at(b, off)->Ok_0.live,
        frame_at(b1, off) == Ok::<Frame, StoreError>(
            Frame { live: false, ..frame_at(b, off)->Ok_0 },
        ),
        T::decode_spec(
            b.subrange(
                frame_at(b, off)->Ok_0.start as int,
                frame_at(b, off)->Ok_0.start + frame_at(b, off)->Ok_0.len,
            ),
        ) is Ok,
        payload_id::<T>(
            b.subrange(
                frame_at(b, off)->Ok_0.start as int,
                frame_at(b, off)->Ok_0.start + frame_at(b, off)->Ok_0.len,
            ),
        ) == id,
        h.dead_bytes + 5 + frame_at(b, off)->Ok_0.len <= u64::MAX,
        T::decode_spec(q) == Ok::<(u32, Seq<u8>), StoreError>((id, Seq::<u8>::empty())),
        index_offset(i1, id) == Ok::<u64, StoreError>(b.len() as u64),
        list_from::<T>(b, index, h, pos, n, dead) is Ok,
        index_offset(index, id) == Ok::<u64, StoreError>(off as u64),
        id < h.next_id,
        forall|rid: u32|
            rid != id && index_offset(index, rid) is Ok ==> #[trigger] index_offset(i1, rid)
                == index_offset(index, rid),
    ensures
        list_from::<T>(b, index, h, pos, n, dead) matches Ok(ps) && 0 <= j < ps.len() && ps[j]
            == b.subrange(frame_at(b, off)->Ok_0.start as int, frame_at(b, off)->Ok_0.start
            + frame_at(b, off)->Ok_0.len) && list_from::<T>(
            b1,
            i1,
            replaced_header(h, frame_at(b, off)->Ok_0.len as nat),
            pos,
            n,
            dead,
        ) == Ok::<Seq<Seq<u8>>, StoreError>(ps.remove(j).push(q)),
    decreases b.len() - pos,
{
    let fo = frame_at(b, off)->Ok_0;
    let plen = fo.len as nat;
    let ps = list_from::<T>(b, index, h, pos, n, dead)->Ok_0;
    if pos == off {
        let next = fo.start + fo.len;
        let p = b.subrange(fo.start as int, next);
        let rest = list_from::<T>(b, index, h, next, n + 1, dead)->Ok_0;
        assert(ps == seq![p] + rest);
        lemma_list_past_update::<T>(b, b1, index, i1, h, next, n, dead, off, plen, id, q);
        assert(ps.remove(0) =~= rest);
        0
    } else {
        let f = frame_at(b, pos)->Ok_0;
        let next = f.start + f.len;
        assert(on_walk(b, next, off));
        assert(next <= off);
        assert(b1[pos] == b[pos]);
        assert(b1.subrange(pos + 1, pos + 5) =~= b.subrange(pos + 1, pos + 5));
        lemma_same_u32(b1, b, pos + 1, pos + 1);
        assert(frame_at(b1, pos) == frame_at(b, pos));
        if !f.live {
            lemma_list_up_to_update::<T>(
                b,
                b1,
                index,
                i1,
                h,
                next,
                n,
                (dead + 5 + f.len) as nat,
                off,
                id,
                q,
            )
        } else {
            let r = b.subrange(f.start as int, next);
            assert(b1.subrange(f.start as int, next) =~= r);
            let rest = list_from::<T>(b, index, h, next, n + 1, dead)->Ok_0;
            assert(ps == seq![r] + rest);
            assert(payload_id::<T>(r) != id);
            let j0 = lemma_list_up_to_update::<T>(b, b1, index, i1, h, next, n + 1, dead, off, id, q);
            assert(ps[j0 + 1] == rest[j0]);
            assert(seq![r] + rest.remove(j0).push(q) =~= ps.remove(j0 + 1).push(q));
            j0 + 1
        }
    }
}

/// The listing after an update, for an index entry that points at a frame
/// the listing reads (see `lemma_list_after_update`).
proof fn lemma_list_after_update_at<T: Decode>(
    store: Seq<u8>,
    index: Seq<u8>,
    id: u32,
    payload: Seq<u8>,
)
    requires
        list_spec::<T>(store, index) is Ok,
        index_offset(index, id) is Ok,
        on_walk(store, STORAGE_HEADER_TOTAL_BYTES as int, index_offset(index, id)->Ok_0 as int),
        T::decode_spec(payload) == Ok::<(u32, Seq<u8>), StoreError>((id, Seq::<u8>::empty())),
        store.len() + 5 + payload.len() <= usize::MAX,
    ensures
        update_spec::<T>(store, index, id, payload) matches Ok((s1, i1)) ==> exists|j: int|
            0 <= j < list_spec::<T>(store, index)->Ok_0.len() && payload_id::<T>(
                #[trigger] list_spec::<T>(store, index)->Ok_0[j],
            ) == id && list_spec::<T>(s1, i1) == Ok::<Seq<Seq<u8>>, StoreError>(
                list_spec::<T>(store, index)->Ok_0.remove(j).push(payload),
            ),
{
    if let Ok((s1, i1)) = update_spec::<T>(store, index, id, payload) {
        let ps = list_spec::<T>(store, index)->Ok_0;
        let h = store_header(store)->Ok_0;
        let off = index_offset(index, id)->Ok_0 as int;
        let (_, _, p) = update_images(store, index, id, payload)->Ok_0;
        let plen = p.len();
        let fo = Frame { live: true, start: (off + 5) as usize, len: plen as usize };
        assert(frame_at(store, off) == Ok::<Frame, StoreError>(fo));
        assert(p == store.subrange(fo.start as int, fo.start + fo.len));
        let dead = be_u64_at(store, STORAGE_DEAD_BYTES_OFFSET as int);
        let a = write_at(store, off, seq![0u8]);
        let v = (dead + 5 + plen) as u64;
        let c = write_at(a, STORAGE_DEAD_BYTES_OFFSET as int, u64_be_bytes(v));
        assert(s1 == c + frame_bytes(payload));
        assert(off >= STORAGE_HEADER_TOTAL_BYTES);
        // Bytes of the collection file after the update.
        let sl = store.len() as int;
        assert forall|k: int| 0 <= k < sl && k != off && (k < 21 || k >= 29) implies #[trigger] s1[k]
            == store[k] by {
            assert(s1[k] == c[k]);
            assert(c[k] == a[k]);
            assert(a[k] == store[k]);
        }
        assert(s1[off] == c[off]);
        assert(s1[off] == 0);
        assert(s1.subrange(off + 1, off + 5) =~= store.subrange(off + 1, off + 5));
        lemma_same_u32(s1, store, off + 1, off + 1);
        assert(frame_at(s1, off) == Ok::<Frame, StoreError>(Frame { live: false, ..fo }));
        assert(s1.subrange(sl, s1.len() as int) =~= frame_bytes(payload));
        // Its header.
        assert(s1.subrange(21, 29) =~= u64_be_bytes(v).subrange(0, 8));
        lemma_same_u64(s1, u64_be_bytes(v), 21, 0);
        lemma_u64_round_trip(v);
        assert(s1.subrange(13, 17) =~= store.subrange(13, 17));
        lemma_same_u32(s1, store, 13, 13);
        assert(s1.subrange(17, 21) =~= store.subrange(17, 21));
        lemma_same_u32(s1, store, 17, 17);
        assert(s1.subrange(0, 12) =~= store.subrange(0, 12));
        assert(store_header(s1) == Ok::<StoreHeader, StoreError>(replaced_header(h, plen)));
        // The index after the update.
        assert forall|rid: u32| rid != id && index_offset(index, rid) is Ok implies #[trigger] index_offset(
            i1,
            rid,
        ) == index_offset(index, rid) by {
            lemma_index_entry_rewritten(index, id, rid, store.len() as u64);
        }
        lemma_index_entry_own(index, id, store.len() as u64);
        lemma_index_entry_header(index, id, store.len() as u64);
        // The record replaced was listed, so its id is below the next id.
        lemma_listed_id_below::<T>(store, index, h, STORAGE_HEADER_TOTAL_BYTES as int, 0, 0, off);
        let j2 = lemma_list_up_to_update::<T>(
            store,
            s1,
            index,
            i1,
            h,
            STORAGE_HEADER_TOTAL_BYTES as int,
            0,
            0,
            off,
            id,
            payload,
        );
        assert(payload_id::<T>(ps[j2]) == id);
    }
}


/// Whether the collection lists cleanly and one of its listed records
/// carries `id`.
pub open spec fn lists_id<T: Decode>(store: Seq<u8>, index: Seq<u8>, id: u32) -> bool {
    list_spec::<T>(store, index) matches Ok(ps) && exists|j: int|
        0 <= j < ps.len() && payload_id::<T>(#[trigger] ps[j]) == id
}

/// A record read by the walk from `pos` is found through the index at a frame
/// that the same walk reaches.
proof fn lemma_listed_from_on_walk<T: Decode>(
    b: Seq<u8>,
    index: Seq<u8>,
    h: StoreHeader,
    pos: int,
    n: nat,
    dead: nat,
    j: int,
)
    requires
        list_from::<T>(b, index, h, pos, n, dead) matches Ok(ps) && 0 <= j < ps.len(),
    ensures
        index_offset(index, payload_id::<T>(list_from::<T>(b, index, h, pos, n, dead)->Ok_0[j]))
            matches Ok(o) && on_walk(b, pos, o as int),
    decreases b.len() - pos,
{
    let ps = list_from::<T>(b, index, h, pos, n, dead)->Ok_0;
    let f = frame_at(b, pos)->Ok_0;
    let next = f.start + f.len;
    if !f.live {
        lemma_listed_from_on_walk::<T>(b, index, h, next, n, (dead + 5 + f.len) as nat, j);
    } else {
        let p = b.subrange(f.start as int, f.start + f.len);
        let id = T::decode_spec(p)->Ok_0.0;
        let rest = list_from::<T>(b, index, h, next, n + 1, dead)->Ok_0;
        assert(ps == seq![p] + rest);
        if j > 0 {
            assert(ps[j] == rest[j - 1]);
            lemma_listed_from_on_walk::<T>(b, index, h, next, n + 1, dead, j - 1);
        } else {
            assert(ps[0] == p);
        }
    }
}

/// Every listed record is found through the index at a frame that the walk
/// over the collection file reaches: when a collection lists cleanly and one
/// of its records carries `id`, the index entry of `id` points at a frame
/// read by the listing.
pub proof fn lemma_listed_record_on_walk<T: Decode>(store: Seq<u8>, index: Seq<u8>, id: u32)
    requires
        lists_id::<T>(store, index, id),
    ensures
        index_offset(index, id) matches Ok(o) && on_walk(
            store,
            STORAGE_HEADER_TOTAL_BYTES as int,
            o as int,
        ),
{
    let ps = list_spec::<T>(store, index)->Ok_0;
    let j = choose|j: int| 0 <= j < ps.len() && payload_id::<T>(#[trigger] ps[j]) == id;
    let h = store_header(store)->Ok_0;
    lemma_listed_from_on_walk::<T>(store, index, h, STORAGE_HEADER_TOTAL_BYTES as int, 0, 0, j);
}

/// What a listing gives after a delete: when a collection lists cleanly and
/// one of its records carries `id`, then once record `id` is deleted the
/// collection lists what it listed before without that record, the others
/// kept in order.
pub proof fn lemma_list_after_delete<T: Decode>(store: Seq<u8>, index: Seq<u8>, id: u32)
    requires
        lists_id::<T>(store, index, id),
        store.len() <= usize::MAX,
    ensures
        delete_spec::<T>(store, index, id) matches Ok((s1, i1)) ==> exists|j: int|
            0 <= j < list_spec::<T>(store, index)->Ok_0.len() && payload_id::<T>(
                #[trigger] list_spec::<T>(store, index)->Ok_0[j],
            ) == id && list_spec::<T>(s1, i1) == Ok::<Seq<Seq<u8>>, StoreError>(
                list_spec::<T>(store, index)->Ok_0.remove(j),
            ),
{
    lemma_listed_record_on_walk::<T>(store, index, id);
    lemma_list_after_delete_at::<T>(store, index, id);
}

/// What a listing gives after an update: when a collection lists cleanly,
/// one of its records carries `id`, and the new payload reads back as a
/// record carrying `id`, then once record `id` is replaced the collection
/// lists what it listed before without the old record, the others kept in
/// order, and the new payload last.
pub proof fn lemma_list_after_update<T: Decode>(
    store: Seq<u8>,
    index: Seq<u8>,
    id: u32,
    payload: Seq<u8>,
)
    requires
        lists_id::<T>(store, index, id),
        T::decode_spec(payload) == Ok::<(u32, Seq<u8>), StoreError>((id, Seq::<u8>::empty())),
        store.len() + 5 + payload.len() <= usize::MAX,
    ensures
        update_spec::<T>(store, index, id, payload) matches Ok((s1, i1)) ==> exists|j: int|
            0 <= j < list_spec::<T>(store, index)->Ok_0.len() && payload_id::<T>(
                #[trigger] list_spec::<T>(store, index)->Ok_0[j],
            ) == id && list_spec::<T>(s1, i1) == Ok::<Seq<Seq<u8>>, StoreError>(
                list_spec::<T>(store, index)->Ok_0.remove(j).push(payload),
            ),
{
    lemma_listed_record_on_walk::<T>(store, index, id);
    lemma_list_after_update_at::<T>(store, index, id, payload);
}

} // verus!
