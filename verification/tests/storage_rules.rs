//! The collection rules, exercised on the bytes of the collection and index
//! files: every refusal leaves both files as they were.

use life::constant::{
    INDEX_HEADER_TOTAL_BYTES, INDEX_MAGIC, INDEX_RECORD_COUNT_OFFSET, INDEX_RECORD_LEN,
    INDEX_VERSION, INDEX_VERSION_OFFSET, STORAGE_DEAD_BYTES_OFFSET, STORAGE_HEADER_TOTAL_BYTES,
    STORAGE_MAGIC, STORAGE_NEXT_ID_OFFSET, STORAGE_PAYLOAD_FLAG_SIZE, STORAGE_PAYLOAD_FRAME_LIVE,
    STORAGE_PAYLOAD_FRAME_OFF, STORAGE_PAYLOAD_LEN_SIZE, STORAGE_RECORD_COUNT_OFFSET,
    STORAGE_VERSION, STORAGE_VERSION_OFFSET,
};
use std::sync::atomic::{AtomicUsize, Ordering};

use life::storage::{
    collection::{delete_one, insert_one, list_records, record_count, update_one},
    decode::{Decode, Decoder},
    encode::{Encode, Encoder},
    error::StoreError,
    store::is_valid_collection_name,
    util::HasId,
};

static DECODE_CALLS: AtomicUsize = AtomicUsize::new(0);
static DECODED_PAYLOAD_BYTES: AtomicUsize = AtomicUsize::new(0);

#[derive(Clone, Debug, PartialEq, Eq)]
struct TestRecord {
    id: u32,
    name: String,
    number: u32,
}

impl TestRecord {
    fn new(name: impl Into<String>, number: u32) -> Self {
        Self {
            id: 0,
            name: name.into(),
            number,
        }
    }
}

impl Encode for TestRecord {
    fn encode(&self, id: u32) -> Result<Vec<u8>, StoreError> {
        let mut encoder = Encoder::new();
        encoder.write_u32(id);
        encoder.write_string(&self.name)?;
        encoder.write_u32(self.number);
        Ok(encoder.bytes)
    }
}

impl Decode for TestRecord {
    fn decode(decoder: &mut Decoder<'_>) -> Result<Self, StoreError> {
        Ok(Self {
            id: decoder.read_u32()?,
            name: decoder.read_str()?.to_owned(),
            number: decoder.read_u32()?,
        })
    }
}

impl HasId for TestRecord {
    fn id(&self) -> u32 {
        self.id
    }
}

/// The two files of a collection.
struct Files {
    store: Vec<u8>,
    index: Vec<u8>,
}

impl Files {
    fn new() -> Self {
        let mut index = INDEX_MAGIC.as_bytes().to_vec();
        index.push(INDEX_VERSION);
        index.extend_from_slice(&0u32.to_be_bytes());
        Files {
            store: storage_header(1, 0, 0),
            index,
        }
    }

    fn insert(&mut self, record: TestRecord) -> Result<(), StoreError> {
        insert_one(&mut self.store, &mut self.index, &record)
    }

    fn delete(&mut self, id: u32) -> Result<(), StoreError> {
        delete_one::<TestRecord>(&mut self.store, &mut self.index, id)
    }

    fn update(&mut self, id: u32, record: TestRecord) -> Result<(), StoreError> {
        update_one(&mut self.store, &mut self.index, id, &record)
    }

    fn list(&self) -> Result<Vec<TestRecord>, StoreError> {
        list_records::<TestRecord>(&self.store, &self.index)
    }
}

fn record(id: u32, name: &str, number: u32) -> TestRecord {
    TestRecord {
        id,
        name: name.into(),
        number,
    }
}

fn encoded_payload(id: u32, name: &str, number: u32) -> Vec<u8> {
    TestRecord::new(name, number)
        .encode(id)
        .expect("encode test record")
}

fn storage_header(next_id: u32, record_count: u32, dead_bytes: u64) -> Vec<u8> {
    let mut bytes = Vec::with_capacity(STORAGE_HEADER_TOTAL_BYTES);
    bytes.extend_from_slice(STORAGE_MAGIC.as_bytes());
    bytes.push(STORAGE_VERSION);
    bytes.extend_from_slice(&next_id.to_be_bytes());
    bytes.extend_from_slice(&record_count.to_be_bytes());
    bytes.extend_from_slice(&dead_bytes.to_be_bytes());
    assert_eq!(bytes.len(), STORAGE_HEADER_TOTAL_BYTES);
    bytes
}

fn append_frame(bytes: &mut Vec<u8>, payload: &[u8]) {
    let payload_len = u32::try_from(payload.len()).expect("test payload length fits u32");
    bytes.push(STORAGE_PAYLOAD_FRAME_LIVE);
    bytes.extend_from_slice(&payload_len.to_be_bytes());
    bytes.extend_from_slice(payload);
}

fn dead_bytes(store: &[u8]) -> u64 {
    u64::from_be_bytes(
        store[STORAGE_DEAD_BYTES_OFFSET..STORAGE_HEADER_TOTAL_BYTES]
            .try_into()
            .unwrap(),
    )
}

/// Runs an operation that must be refused and checks that neither file changed.
fn assert_rejects_without_changes<R>(
    files: &mut Files,
    operation: impl FnOnce(&mut Files) -> Result<R, StoreError>,
) {
    let store = files.store.clone();
    let index = files.index.clone();
    assert!(operation(files).is_err(), "the operation must be refused");
    assert_eq!(files.store, store, ".store changed");
    assert_eq!(files.index, index, ".idx changed");
}

fn assert_single_record_mutation_rejects_corruption(
    corrupt: impl FnOnce(&mut Vec<u8>, &mut Vec<u8>),
    operation: impl FnOnce(&mut Files) -> Result<(), StoreError>,
) {
    let mut files = Files::new();
    files.insert(TestRecord::new("original", 1)).unwrap();
    assert_eq!(files.list().unwrap().len(), 1);
    corrupt(&mut files.store, &mut files.index);
    assert_rejects_without_changes(&mut files, operation);
}

fn assert_empty_collection_rejects_corrupt_index(corrupt: impl FnOnce(&mut Vec<u8>)) {
    let mut files = Files::new();
    assert!(files.list().unwrap().is_empty());
    corrupt(&mut files.index);
    assert_rejects_without_changes(&mut files, |files| files.list());
}

fn assert_index_only_insertion_is_rejected(existing_records: u32) {
    let mut files = Files::new();
    for number in 0..existing_records {
        files.insert(TestRecord::new("existing", number)).unwrap();
    }
    assert_eq!(files.list().unwrap().len(), existing_records as usize);
    let id = existing_records + 1;
    let frame_offset = files.store.len() as u64;
    // Stop right after the index is written: the index counts and holds the
    // new entry, but the collection header and the frame were not written.
    files.index[INDEX_RECORD_COUNT_OFFSET..INDEX_HEADER_TOTAL_BYTES]
        .copy_from_slice(&id.to_be_bytes());
    files.index.extend_from_slice(&id.to_be_bytes());
    files.index.extend_from_slice(&frame_offset.to_be_bytes());
    assert_rejects_without_changes(&mut files, |files| files.list());
}

fn files_with_regressed_next_id() -> Files {
    let mut files = Files::new();
    files.insert(TestRecord::new("original", 1)).unwrap();
    assert_eq!(files.list().unwrap()[0].id, 1);
    // Only next_id is corrupted; the frame, live count, and index still agree.
    files.store[STORAGE_NEXT_ID_OFFSET..STORAGE_RECORD_COUNT_OFFSET]
        .copy_from_slice(&1u32.to_be_bytes());
    files
}

fn files_with_regressed_next_id_after_deletion() -> Files {
    let mut files = Files::new();
    files.insert(TestRecord::new("original", 1)).unwrap();
    files.delete(1).unwrap();
    assert!(files.list().unwrap().is_empty());
    assert_eq!(
        u32::from_be_bytes(
            files.store[STORAGE_NEXT_ID_OFFSET..STORAGE_RECORD_COUNT_OFFSET]
                .try_into()
                .unwrap()
        ),
        2
    );
    // ID 1 remains issued even though its frame is now a tombstone.
    files.store[STORAGE_NEXT_ID_OFFSET..STORAGE_RECORD_COUNT_OFFSET]
        .copy_from_slice(&1u32.to_be_bytes());
    files
}

fn files_with_index_pointing_to_tombstone() -> Files {
    let mut files = Files::new();
    files.insert(TestRecord::new("old", 1)).unwrap();
    files.update(1, TestRecord::new("current", 2)).unwrap();
    assert_eq!(files.list().unwrap(), vec![record(1, "current", 2)]);
    // Both old and current payloads contain ID 1. Only the frame state reveals
    // that this offset points to the obsolete version.
    files.index[INDEX_HEADER_TOTAL_BYTES + 4..INDEX_HEADER_TOTAL_BYTES + INDEX_RECORD_LEN]
        .copy_from_slice(&(STORAGE_HEADER_TOTAL_BYTES as u64).to_be_bytes());
    files
}

fn files_with_index_offset_for_another_record() -> Files {
    let mut files = Files::new();
    files.insert(TestRecord::new("one", 1)).unwrap();
    files.insert(TestRecord::new("two", 2)).unwrap();
    assert_eq!(files.list().unwrap().len(), 2);
    let second_entry = INDEX_HEADER_TOTAL_BYTES + INDEX_RECORD_LEN;
    let second_offset: [u8; 8] = files.index[second_entry + 4..second_entry + INDEX_RECORD_LEN]
        .try_into()
        .unwrap();
    // Keep the entry's ID as 1, but redirect it to ID 2's valid live frame.
    files.index[INDEX_HEADER_TOTAL_BYTES + 4..INDEX_HEADER_TOTAL_BYTES + INDEX_RECORD_LEN]
        .copy_from_slice(&second_offset);
    files
}

#[test]
fn multiple_records_survive_reopening_the_store() {
    let mut files = Files::new();
    files.insert(TestRecord::new("one", 1)).unwrap();
    files.insert(TestRecord::new("two 🦀", 2)).unwrap();

    assert_eq!(
        files.list().unwrap(),
        vec![record(1, "one", 1), record(2, "two 🦀", 2)]
    );
    assert_eq!(record_count(&files.store).unwrap(), 2);
}

#[test]
fn uncached_record_count_reads_only_the_record_count_header_field() {
    let mut files = Files::new();
    files.insert(TestRecord::new("one", 1)).unwrap();
    files.insert(TestRecord::new("two", 2)).unwrap();

    assert_eq!(record_count(&files.store).unwrap(), 2);
}

#[test]
fn invalid_utf8_inside_a_record_is_rejected() {
    let mut files = Files::new();
    files.insert(TestRecord::new("a", 7)).unwrap();
    let payload_start =
        STORAGE_HEADER_TOTAL_BYTES + STORAGE_PAYLOAD_FLAG_SIZE + STORAGE_PAYLOAD_LEN_SIZE;
    let name_offset = payload_start + 4 + 4; // Skip the ID and name length.
    assert_eq!(files.store[name_offset], b'a');
    files.store[name_offset] = 0xff;

    assert!(matches!(files.list(), Err(StoreError::InvalidUtf8(_))));
}

#[test]
fn truncated_record_payload_is_rejected() {
    let mut files = Files::new();
    let mut bytes = storage_header(2, 1, 0);
    bytes.push(STORAGE_PAYLOAD_FRAME_LIVE);
    bytes.extend_from_slice(&12u32.to_be_bytes());
    bytes.extend_from_slice(&[0, 0, 0]);
    files.store = bytes;

    assert!(files.list().is_err());
}

#[test]
fn field_length_larger_than_its_payload_returns_error_instead_of_panicking() {
    let mut files = Files::new();
    let mut payload = Vec::new();
    payload.extend_from_slice(&1u32.to_be_bytes());
    payload.extend_from_slice(&100u32.to_be_bytes());
    payload.extend_from_slice(b"short");
    let mut bytes = storage_header(2, 1, 0);
    append_frame(&mut bytes, &payload);
    files.store = bytes;

    assert!(files.list().is_err());
}

#[test]
fn partial_frame_length_prefix_is_rejected() {
    let mut files = Files::new();
    let mut bytes = storage_header(2, 1, 0);
    bytes.push(STORAGE_PAYLOAD_FRAME_LIVE);
    bytes.extend_from_slice(&[0, 0, 0]);
    files.store = bytes;

    assert!(files.list().is_err());
}

#[test]
fn partial_frame_length_after_declared_records_is_rejected() {
    for flag in [STORAGE_PAYLOAD_FRAME_LIVE, STORAGE_PAYLOAD_FRAME_OFF] {
        for prefix_len in 0..STORAGE_PAYLOAD_LEN_SIZE {
            let mut files = Files::new();
            files
                .insert(TestRecord::new("complete", 1))
                .expect("insert complete record with a matching index entry");

            // EOF between frames is valid, and the live count already matches.
            assert_eq!(files.list().expect("read complete frame").len(), 1);

            files.store.push(flag);
            files
                .store
                .extend_from_slice(&8u32.to_be_bytes()[..prefix_len]);

            // A flag starts another frame, which requires all four length bytes.
            assert!(matches!(files.list(), Err(StoreError::TruncatedFrame)));
        }
    }
}

#[test]
fn frames_beyond_the_declared_record_count_are_rejected() {
    let mut files = Files::new();
    files.insert(TestRecord::new("declared", 1)).unwrap();
    files.insert(TestRecord::new("trailing", 2)).unwrap();
    assert_eq!(files.list().unwrap().len(), 2);

    // Both frames have valid index entries, so an index error cannot mask this check.
    files.store[STORAGE_RECORD_COUNT_OFFSET..STORAGE_DEAD_BYTES_OFFSET]
        .copy_from_slice(&1u32.to_be_bytes());

    assert!(matches!(files.list(), Err(StoreError::RecordCountMismatch)));
}

#[test]
fn trailing_bytes_inside_a_framed_record_are_rejected() {
    let mut files = Files::new();
    let mut payload = encoded_payload(1, "valid fields", 1);
    payload.push(0xff);
    let mut bytes = storage_header(2, 1, 0);
    append_frame(&mut bytes, &payload);
    files.store = bytes;

    assert!(files.list().is_err());
}

#[test]
fn invalid_frame_flag_is_rejected() {
    let mut files = Files::new();
    let mut bytes = storage_header(1, 0, 0);
    bytes.push(0b0000_0010);
    bytes.extend_from_slice(&0u32.to_be_bytes());
    files.store = bytes;

    assert!(files.list().is_err());
}

#[test]
fn truncated_tombstoned_frame_is_rejected() {
    let mut files = Files::new();
    let declared_payload_len = 8u32;
    let dead_bytes = STORAGE_PAYLOAD_FLAG_SIZE as u64
        + STORAGE_PAYLOAD_LEN_SIZE as u64
        + u64::from(declared_payload_len);
    let mut bytes = storage_header(1, 0, dead_bytes);
    bytes.push(STORAGE_PAYLOAD_FRAME_OFF);
    bytes.extend_from_slice(&declared_payload_len.to_be_bytes());
    bytes.extend_from_slice(&[0, 0, 0]);
    files.store = bytes;

    assert!(files.list().is_err());
}

#[test]
fn traversal_collection_identifier_is_rejected() {
    assert!(!is_valid_collection_name("../escaped"));
}

#[test]
fn absolute_collection_identifier_is_rejected() {
    assert!(!is_valid_collection_name("/tmp/absolute-escape"));
}

#[test]
fn traversal_collection_lookup_cannot_read_or_mutate_outside_storage_root() {
    assert!(!is_valid_collection_name("../escaped"));
    assert!(!is_valid_collection_name(".."));
    assert!(is_valid_collection_name("escaped"));
}

#[test]
fn absolute_collection_lookup_cannot_read_or_mutate_outside_storage_root() {
    assert!(!is_valid_collection_name("/tmp/escaped"));
    assert!(!is_valid_collection_name(""));
}

#[test]
fn middle_deletion_tombstones_bytes_and_preserves_other_records() {
    let mut files = Files::new();
    files.insert(TestRecord::new("record-one", 1)).unwrap();
    files
        .insert(TestRecord::new("unique-deleted-record", 2))
        .unwrap();
    files.insert(TestRecord::new("record-three", 3)).unwrap();
    let deleted_payload = encoded_payload(2, "unique-deleted-record", 2);
    let deleted_frame_len =
        (STORAGE_PAYLOAD_FLAG_SIZE + STORAGE_PAYLOAD_LEN_SIZE + deleted_payload.len()) as u64;
    let original_len = files.store.len();

    files.delete(2).unwrap();

    assert_eq!(
        files.list().unwrap(),
        vec![record(1, "record-one", 1), record(3, "record-three", 3)]
    );
    assert_eq!(files.store.len(), original_len);
    assert!(files
        .store
        .windows(b"unique-deleted-record".len())
        .any(|window| window == b"unique-deleted-record"));
    assert_eq!(dead_bytes(&files.store), deleted_frame_len);
    let deleted_payload_offset = files
        .store
        .windows(deleted_payload.len())
        .position(|window| window == deleted_payload.as_slice())
        .unwrap();
    let deleted_flag_offset =
        deleted_payload_offset - STORAGE_PAYLOAD_LEN_SIZE - STORAGE_PAYLOAD_FLAG_SIZE;
    assert_eq!(files.store[deleted_flag_offset], STORAGE_PAYLOAD_FRAME_OFF);
}

#[test]
fn deleting_records_around_an_existing_index_hole_preserves_later_ids() {
    let mut files = Files::new();
    for number in 1..=4 {
        files
            .insert(TestRecord::new(format!("record-{number}"), number))
            .unwrap();
    }

    files.delete(2).unwrap();
    files.delete(1).unwrap();

    assert!(
        files.delete(3).is_ok(),
        "deleting earlier records must not turn surviving ID 3 into an empty index slot"
    );
    assert_eq!(files.list().unwrap(), vec![record(4, "record-4", 4)]);
}

#[test]
fn deleting_id_zero_returns_error_instead_of_panicking() {
    let mut files = Files::new();
    files.insert(TestRecord::new("record", 1)).unwrap();

    assert!(files.delete(0).is_err());
}

#[test]
fn next_id_remains_monotonic_after_delete_and_reopen() {
    let mut files = Files::new();
    files.insert(TestRecord::new("one", 1)).unwrap();
    files.insert(TestRecord::new("two", 2)).unwrap();
    files.delete(2).unwrap();
    files.insert(TestRecord::new("three", 3)).unwrap();

    assert_eq!(
        files
            .list()
            .unwrap()
            .into_iter()
            .map(|record| record.id)
            .collect::<Vec<_>>(),
        vec![1, 3]
    );
}

#[test]
fn exhausted_next_id_returns_error_instead_of_panicking_or_reusing_zero() {
    let mut files = Files::new();
    files.store[STORAGE_NEXT_ID_OFFSET..STORAGE_RECORD_COUNT_OFFSET]
        .copy_from_slice(&u32::MAX.to_be_bytes());

    assert!(files.insert(TestRecord::new("must fail", 1)).is_err());
}

#[test]
fn cached_record_count_tracks_completed_deletion() {
    let mut files = Files::new();
    files.insert(TestRecord::new("only record", 1)).unwrap();
    assert_eq!(files.list().unwrap().len(), 1);
    assert_eq!(record_count(&files.store).unwrap(), 1);

    files.delete(1).unwrap();

    assert_eq!(record_count(&files.store).unwrap(), 0);
}

#[test]
fn corrupt_index_header_is_rejected_before_mutation() {
    let mut files = Files::new();
    files.insert(TestRecord::new("must remain", 1)).unwrap();
    files.index[0] ^= 0x01;

    assert_rejects_without_changes(&mut files, |files| files.delete(1));
}

#[test]
fn interrupted_insert_header_without_frame_is_rejected_on_reopen() {
    let mut files = Files::new();
    files.store = storage_header(2, 1, 0);

    assert!(files.list().is_err());
}

#[test]
fn storage_header_fields_use_the_documented_offsets() {
    let bytes = storage_header(9, 7, 123);

    assert_eq!(
        u32::from_be_bytes(
            bytes[STORAGE_RECORD_COUNT_OFFSET..STORAGE_DEAD_BYTES_OFFSET]
                .try_into()
                .unwrap()
        ),
        7
    );
    assert_eq!(dead_bytes(&bytes), 123);
}

#[test]
fn update_preserves_id_and_every_unaffected_record() {
    let mut files = Files::new();
    for number in 1..=3 {
        files
            .insert(TestRecord::new(format!("record-{number}"), number))
            .unwrap();
    }

    files
        .update(2, TestRecord::new("updated-record-2", 22))
        .unwrap();

    let mut records = files.list().unwrap();
    records.sort_by_key(|record| record.id);
    assert_eq!(
        records,
        vec![
            record(1, "record-1", 1),
            record(2, "updated-record-2", 22),
            record(3, "record-3", 3),
        ]
    );
    let mut reopened_records = files.list().unwrap();
    reopened_records.sort_by_key(|record| record.id);
    assert_eq!(reopened_records, records);
}

#[test]
fn update_adds_the_replaced_frame_to_dead_bytes() {
    let mut files = Files::new();
    files.insert(TestRecord::new("original-record", 1)).unwrap();
    let replaced_payload = encoded_payload(1, "original-record", 1);
    let replaced_frame_len =
        (STORAGE_PAYLOAD_FLAG_SIZE + STORAGE_PAYLOAD_LEN_SIZE + replaced_payload.len()) as u64;

    files
        .update(1, TestRecord::new("replacement-record", 2))
        .unwrap();

    assert_eq!(dead_bytes(&files.store), replaced_frame_len);
}

#[test]
fn cached_record_count_tracks_mutations_through_another_handle() {
    let mut files = Files::new();
    assert!(files.list().unwrap().is_empty());

    files.insert(TestRecord::new("one", 1)).unwrap();
    assert_eq!(record_count(&files.store).unwrap(), 1);

    files.delete(1).unwrap();
    assert_eq!(record_count(&files.store).unwrap(), 0);
}

#[test]
fn deletion_after_insertion_through_another_handle_does_not_panic() {
    let mut files = Files::new();
    assert!(files.list().unwrap().is_empty());
    files.insert(TestRecord::new("one", 1)).unwrap();
    let original_len = files.store.len();

    files.delete(1).expect("delete the existing record");
    assert_eq!(record_count(&files.store).unwrap(), 0);
    assert_eq!(
        dead_bytes(&files.store),
        (original_len - STORAGE_HEADER_TOTAL_BYTES) as u64,
        "the successful deletion must finish updating dead_bytes"
    );
    assert!(files.list().unwrap().is_empty());
}

#[test]
fn interrupted_delete_after_clearing_index_is_rejected_on_reopen() {
    let mut files = Files::new();
    files.insert(TestRecord::new("still live", 1)).unwrap();
    assert_eq!(files.list().unwrap().len(), 1);
    // Clear ID 1's index offset, as if deletion stopped before changing the
    // live frame or the collection header.
    files.index[INDEX_HEADER_TOTAL_BYTES + 4..INDEX_HEADER_TOTAL_BYTES + INDEX_RECORD_LEN]
        .copy_from_slice(&0u64.to_be_bytes());

    assert!(files.list().is_err());
}

#[test]
fn index_offset_for_another_record_is_rejected_before_deletion() {
    let mut files = files_with_index_offset_for_another_record();

    assert_rejects_without_changes(&mut files, |files| files.delete(1));
}

#[test]
fn regressed_next_id_is_rejected_on_reopen() {
    let files = files_with_regressed_next_id();

    assert!(files.list().is_err());
}

#[test]
fn insertion_rejects_regressed_next_id_before_reusing_an_id() {
    let mut files = files_with_regressed_next_id();

    assert_rejects_without_changes(&mut files, |files| {
        files.insert(TestRecord::new("must not reuse ID 1", 2))
    });
}

#[test]
fn inconsistent_dead_bytes_is_rejected_on_reopen() {
    let mut files = Files::new();
    files.insert(TestRecord::new("one", 1)).unwrap();
    files.delete(1).unwrap();
    assert!(files.list().unwrap().is_empty());
    // The state left if deletion stopped before writing dead_bytes.
    files.store[STORAGE_DEAD_BYTES_OFFSET..STORAGE_HEADER_TOTAL_BYTES]
        .copy_from_slice(&0u64.to_be_bytes());

    assert!(files.list().is_err());
}

#[test]
fn index_offset_for_another_record_is_rejected_before_update() {
    let mut files = files_with_index_offset_for_another_record();

    assert_rejects_without_changes(&mut files, |files| {
        files.update(1, TestRecord::new("replacement", 11))
    });
}

#[test]
fn deletion_rejects_truncated_payload_before_allocating_declared_length() {
    const DECLARED_PAYLOAD_LEN: u32 = 8 * 1024 * 1024;

    let mut files = Files::new();
    files.insert(TestRecord::new("one", 1)).unwrap();
    assert_eq!(files.list().unwrap().len(), 1);
    let length_start = STORAGE_HEADER_TOTAL_BYTES + STORAGE_PAYLOAD_FLAG_SIZE;
    files.store[length_start..length_start + STORAGE_PAYLOAD_LEN_SIZE]
        .copy_from_slice(&DECLARED_PAYLOAD_LEN.to_be_bytes());
    assert!(files.store.len() < DECLARED_PAYLOAD_LEN as usize);

    assert_rejects_without_changes(&mut files, |files| files.delete(1));
}

#[test]
fn corrupt_index_header_is_rejected_before_insertion() {
    let mut files = Files::new();
    files.insert(TestRecord::new("one", 1)).unwrap();
    assert_eq!(files.list().unwrap().len(), 1);
    files.index[0] ^= 0x01;

    assert_rejects_without_changes(&mut files, |files| {
        files.insert(TestRecord::new("must not be appended", 2))
    });
}

#[test]
fn regressed_next_id_after_deletion_is_rejected_on_reopen() {
    let mut files = files_with_regressed_next_id_after_deletion();

    assert_rejects_without_changes(&mut files, |files| files.list());
}

#[test]
fn insertion_rejects_regressed_next_id_before_reusing_a_deleted_id() {
    let mut files = files_with_regressed_next_id_after_deletion();

    assert_rejects_without_changes(&mut files, |files| {
        files.insert(TestRecord::new("must not reuse deleted ID 1", 2))
    });
}

#[test]
fn interrupted_update_after_redirecting_index_is_rejected_on_reopen() {
    let mut files = Files::new();
    files.insert(TestRecord::new("old", 1)).unwrap();
    assert_eq!(files.list().unwrap().len(), 1);
    // Redirect the index to the future replacement before appending it.
    let future_offset = files.store.len() as u64;
    files.index[INDEX_HEADER_TOTAL_BYTES + 4..INDEX_HEADER_TOTAL_BYTES + INDEX_RECORD_LEN]
        .copy_from_slice(&future_offset.to_be_bytes());

    assert_rejects_without_changes(&mut files, |files| files.list());
}

#[test]
fn unsupported_index_version_is_rejected_on_reopen() {
    let mut files = Files::new();
    files.insert(TestRecord::new("one", 1)).unwrap();
    assert_eq!(files.list().unwrap().len(), 1);
    files.index[INDEX_VERSION_OFFSET] = u8::MAX;

    assert!(files.list().is_err());
}

#[test]
fn deletion_with_zero_live_count_returns_error_without_mutation() {
    let mut files = Files::new();
    files.insert(TestRecord::new("one", 1)).unwrap();
    assert_eq!(files.list().unwrap().len(), 1);
    files.store[STORAGE_RECORD_COUNT_OFFSET..STORAGE_DEAD_BYTES_OFFSET]
        .copy_from_slice(&0u32.to_be_bytes());

    assert_rejects_without_changes(&mut files, |files| files.delete(1));
}

#[test]
fn large_index_id_returns_error_without_panicking_or_mutating_files() {
    let mut files = Files::new();
    assert!(files.list().unwrap().is_empty());
    // The index stays tiny; its count must not make (id - 1) * slot_size panic.
    files.index[INDEX_RECORD_COUNT_OFFSET..INDEX_HEADER_TOTAL_BYTES]
        .copy_from_slice(&u32::MAX.to_be_bytes());

    assert_rejects_without_changes(&mut files, |files| files.delete(u32::MAX));
}

#[test]
fn empty_collection_with_corrupt_index_magic_is_rejected_on_reopen() {
    assert_empty_collection_rejects_corrupt_index(|bytes| bytes[0] ^= 1);
}

#[test]
fn empty_collection_with_unsupported_index_version_is_rejected_on_reopen() {
    assert_empty_collection_rejects_corrupt_index(|bytes| bytes[INDEX_VERSION_OFFSET] = u8::MAX);
}

#[test]
fn empty_collection_with_truncated_index_header_is_rejected_on_reopen() {
    for length in 0..INDEX_HEADER_TOTAL_BYTES {
        assert_empty_collection_rejects_corrupt_index(|bytes| bytes.truncate(length));
    }
}

#[test]
fn empty_collection_with_index_count_without_entries_is_rejected_on_reopen() {
    assert_empty_collection_rejects_corrupt_index(|bytes| {
        bytes[INDEX_RECORD_COUNT_OFFSET..INDEX_HEADER_TOTAL_BYTES]
            .copy_from_slice(&1u32.to_be_bytes());
    });
}

#[test]
fn interrupted_insert_after_index_write_into_empty_collection_is_rejected_on_reopen() {
    assert_index_only_insertion_is_rejected(0);
}

#[test]
fn interrupted_insert_after_index_write_into_nonempty_collection_is_rejected_on_reopen() {
    assert_index_only_insertion_is_rejected(1);
}

#[test]
fn insertion_rejects_corrupt_storage_magic_without_mutation() {
    assert_single_record_mutation_rejects_corruption(
        |store, _index| store[0] ^= 1,
        |files| files.insert(TestRecord::new("must not append", 2)),
    );
}

#[test]
fn deletion_rejects_corrupt_storage_magic_without_mutation() {
    assert_single_record_mutation_rejects_corruption(
        |store, _index| store[0] ^= 1,
        |files| files.delete(1),
    );
}

#[test]
fn update_rejects_corrupt_storage_magic_without_mutation() {
    assert_single_record_mutation_rejects_corruption(
        |store, _index| store[0] ^= 1,
        |files| files.update(1, TestRecord::new("must not replace", 2)),
    );
}

#[test]
fn insertion_rejects_unsupported_storage_version_without_mutation() {
    assert_single_record_mutation_rejects_corruption(
        |store, _index| store[STORAGE_VERSION_OFFSET] = u8::MAX,
        |files| files.insert(TestRecord::new("must not append", 2)),
    );
}

#[test]
fn deletion_rejects_unsupported_storage_version_without_mutation() {
    assert_single_record_mutation_rejects_corruption(
        |store, _index| store[STORAGE_VERSION_OFFSET] = u8::MAX,
        |files| files.delete(1),
    );
}

#[test]
fn update_rejects_unsupported_storage_version_without_mutation() {
    assert_single_record_mutation_rejects_corruption(
        |store, _index| store[STORAGE_VERSION_OFFSET] = u8::MAX,
        |files| files.update(1, TestRecord::new("must not replace", 2)),
    );
}

#[test]
fn deletion_rejects_invalid_frame_flag_without_mutation() {
    assert_single_record_mutation_rejects_corruption(
        |store, _index| store[STORAGE_HEADER_TOTAL_BYTES] = 2,
        |files| files.delete(1),
    );
}

#[test]
fn update_rejects_invalid_frame_flag_without_mutation() {
    assert_single_record_mutation_rejects_corruption(
        |store, _index| store[STORAGE_HEADER_TOTAL_BYTES] = 2,
        |files| files.update(1, TestRecord::new("must not replace", 2)),
    );
}

#[test]
fn deletion_rejects_index_pointing_to_tombstoned_version_without_mutation() {
    let mut files = files_with_index_pointing_to_tombstone();

    assert_rejects_without_changes(&mut files, |files| files.delete(1));
}

#[test]
fn update_rejects_index_pointing_to_tombstoned_version_without_mutation() {
    let mut files = files_with_index_pointing_to_tombstone();

    assert_rejects_without_changes(&mut files, |files| {
        files.update(1, TestRecord::new("must not replace", 3))
    });
}

#[test]
fn deletion_rejects_maximum_index_offset_without_panicking_or_mutating_files() {
    assert_single_record_mutation_rejects_corruption(
        |_store, index| {
            index[INDEX_HEADER_TOTAL_BYTES + 4..INDEX_HEADER_TOTAL_BYTES + INDEX_RECORD_LEN]
                .copy_from_slice(&u64::MAX.to_be_bytes());
        },
        |files| files.delete(1),
    );
}

#[test]
fn update_rejects_maximum_index_offset_without_panicking_or_mutating_files() {
    assert_single_record_mutation_rejects_corruption(
        |_store, index| {
            index[INDEX_HEADER_TOTAL_BYTES + 4..INDEX_HEADER_TOTAL_BYTES + INDEX_RECORD_LEN]
                .copy_from_slice(&u64::MAX.to_be_bytes());
        },
        |files| files.update(1, TestRecord::new("must not replace", 2)),
    );
}

#[test]
fn deletion_rejects_dead_bytes_overflow_without_panicking_or_mutating_files() {
    assert_single_record_mutation_rejects_corruption(
        |store, _index| {
            store[STORAGE_DEAD_BYTES_OFFSET..STORAGE_HEADER_TOTAL_BYTES]
                .copy_from_slice(&u64::MAX.to_be_bytes());
        },
        |files| files.delete(1),
    );
}

#[test]
fn update_rejects_dead_bytes_overflow_without_panicking_or_mutating_files() {
    assert_single_record_mutation_rejects_corruption(
        |store, _index| {
            store[STORAGE_DEAD_BYTES_OFFSET..STORAGE_HEADER_TOTAL_BYTES]
                .copy_from_slice(&u64::MAX.to_be_bytes());
        },
        |files| files.update(1, TestRecord::new("must not replace", 2)),
    );
}

/// A record that counts its decodes and the payload bytes they read.
struct CountingRecord(TestRecord);

impl HasId for CountingRecord {
    fn id(&self) -> u32 {
        self.0.id()
    }
}

impl Encode for CountingRecord {
    fn encode(&self, id: u32) -> Result<Vec<u8>, StoreError> {
        self.0.encode(id)
    }
}

impl Decode for CountingRecord {
    fn decode(decoder: &mut Decoder<'_>) -> Result<Self, StoreError> {
        DECODE_CALLS.fetch_add(1, Ordering::Relaxed);
        let bytes_before = decoder.bytes.len();
        let record = TestRecord::decode(decoder)?;
        DECODED_PAYLOAD_BYTES.fetch_add(bytes_before - decoder.bytes.len(), Ordering::Relaxed);
        Ok(Self(record))
    }
}

#[test]
fn large_valid_file_decodes_each_payload_once() {
    const RECORDS: usize = 1_024;

    let mut files = Files::new();
    let mut expected_payload_bytes = 0;
    for number in 0..RECORDS {
        let record = TestRecord::new(format!("record-{number:04}"), number as u32);
        expected_payload_bytes += record.encode(number as u32 + 1).unwrap().len();
        insert_one(&mut files.store, &mut files.index, &CountingRecord(record)).unwrap();
    }
    DECODE_CALLS.store(0, Ordering::Relaxed);
    DECODED_PAYLOAD_BYTES.store(0, Ordering::Relaxed);

    let listed = list_records::<CountingRecord>(&files.store, &files.index).unwrap();
    assert_eq!(listed.len(), RECORDS);
    assert_eq!(DECODE_CALLS.load(Ordering::Relaxed), RECORDS);
    assert_eq!(DECODED_PAYLOAD_BYTES.load(Ordering::Relaxed), expected_payload_bytes);
}

#[test]
fn insertion_rejects_next_id_ahead_of_the_index_without_mutation() {
    let mut files = Files::new();
    files.insert(TestRecord::new("first", 1)).unwrap();
    // The collection says id 3 comes next, but the index holds one entry.
    files.store[STORAGE_NEXT_ID_OFFSET..STORAGE_RECORD_COUNT_OFFSET]
        .copy_from_slice(&3u32.to_be_bytes());
    let store = files.store.clone();
    let index = files.index.clone();
    assert!(matches!(
        files.insert(TestRecord::new("second", 2)),
        Err(StoreError::InvalidStorageIndexFormat)
    ));
    assert_eq!(files.store, store);
    assert_eq!(files.index, index);
}

#[test]
fn insertion_rejects_trailing_index_bytes_without_mutation() {
    let mut files = Files::new();
    files.insert(TestRecord::new("first", 1)).unwrap();
    files.index.push(0);
    let store = files.store.clone();
    let index = files.index.clone();
    assert!(matches!(
        files.insert(TestRecord::new("second", 2)),
        Err(StoreError::InvalidStorageIndexFormat)
    ));
    assert_eq!(files.store, store);
    assert_eq!(files.index, index);
}
