//! Why a storage operation failed, and how it is reported.
use vstd::prelude::*;
use crate::bytes::{decimal, lemma_decimal_ascii, push_decimal};
use crate::text::{Utf8Fault, ascii_chars, ascii_string};

verus! {

/// Why a storage operation failed.
#[derive(Debug)]
pub enum StoreError {
    ConnectionError(String),
    IoError(String),
    FieldTooLarge(String),
    /// Text that is not UTF-8, and where its validation stopped.
    InvalidUtf8(Utf8Fault),
    TryFromSliceError,
    TryFromIntError,
    InvalidStorageFormat,
    UnsupportStorageVersion,
    UnsupportIndexVersion,
    StorageIndexIdNotFound,
    StorageIndexDeleted,
    IdNotMatch,
    OverflowPayloadSize,
    OverflowDeadbytesSize,
    InvalidStorageIndexFormat,
    OverflowId,
    UnexpectedEndOfPayload,
    RecordCountMismatch,
    DeadBytesMismatch,
    TrailingBytesInPayload,
    InvalidFrameFlag(u8),
    TruncatedFrame,
    InvalidCollectionName,
    IndexRecordIdMismatch { expected_id: u32, actual_id: u32 },
    IndexRecordOffsetMismatch { expected_offset: u64, actual_offset: u64 },
    InvalidNextId(u32),
    OverflowIndexRecordCount,
    OverflowStoreRecordCount,
}

/// The decimal text of a number.
pub open spec fn number_text(n: nat) -> Seq<char> {
    ascii_chars(decimal(n))
}

/// How a failed UTF-8 validation is reported: the length of the bad sequence
/// and where it starts, or where the text ends inside a character.
pub open spec fn utf8_fault_text(f: Utf8Fault) -> Seq<char> {
    match f.error_len {
        Some(n) => "invalid utf-8 sequence of "@ + number_text(n as nat) + " bytes from index "@
            + number_text(f.valid_up_to as nat),
        None => "incomplete utf-8 byte sequence from index "@ + number_text(f.valid_up_to as nat),
    }
}

/// The message that reports an error.
pub open spec fn store_message(e: StoreError) -> Seq<char> {
    match e {
        StoreError::ConnectionError(s) => "Error connecting storage: "@ + s@,
        StoreError::IoError(s) => "IO error: "@ + s@,
        StoreError::FieldTooLarge(s) => "Field Too Large: "@ + s@,
        StoreError::InvalidUtf8(f) => "Invalid UTF-8 In Payload: "@ + utf8_fault_text(f),
        StoreError::TryFromSliceError => "try_from slice error: could not convert slice to array"@,
        StoreError::TryFromIntError => "try_from int error: out of range integral type conversion attempted"@,
        StoreError::InvalidStorageFormat => "Invalid storage format"@,
        StoreError::UnsupportStorageVersion => "Unsupport storage version"@,
        StoreError::UnsupportIndexVersion => "Unsupport index version"@,
        StoreError::StorageIndexIdNotFound => "Storage index id not found"@,
        StoreError::StorageIndexDeleted => "Storage index deleted"@,
        StoreError::IdNotMatch => "Id not match"@,
        StoreError::OverflowPayloadSize => "Overflow Payload Size"@,
        StoreError::OverflowDeadbytesSize => "Overflow Deadbytes Size"@,
        StoreError::InvalidStorageIndexFormat => "Invalid storage index format"@,
        StoreError::OverflowId => "Overflow id"@,
        StoreError::UnexpectedEndOfPayload => "Unexpected end of payload"@,
        StoreError::RecordCountMismatch => "Record count mismatch"@,
        StoreError::DeadBytesMismatch => "Storage dead_bytes does not match the total size of deleted frames"@,
        StoreError::TrailingBytesInPayload => "Trailing bytes in payload"@,
        StoreError::InvalidFrameFlag(f) => "Invalid Frame Flag: "@ + number_text(f as nat),
        StoreError::TruncatedFrame => "Storage file ends before the frame is complete"@,
        StoreError::InvalidCollectionName => "Invalid collection name"@,
        StoreError::IndexRecordIdMismatch { expected_id, actual_id } => "index points to record ID "@
            + number_text(actual_id as nat) + ", expected record ID "@ + number_text(
            expected_id as nat,
        ),
        StoreError::IndexRecordOffsetMismatch { expected_offset, actual_offset } =>
            "index points to offset"@ + number_text(actual_offset as nat) + ", expected offset "@
            + number_text(expected_offset as nat),
        StoreError::InvalidNextId(id) => "Invalid next_id "@ + number_text(id as nat)
            + ": ID has already been issued"@,
        StoreError::OverflowIndexRecordCount => "Overflow index record count"@,
        StoreError::OverflowStoreRecordCount => "Overflow store record count"@,
    }
}

/// The decimal text of `n`.
pub fn number_string(n: u64) -> (r: String)
    ensures
        r@ == number_text(n as nat),
{
    let mut digits: Vec<u8> = Vec::new();
    push_decimal(&mut digits, n);
    proof {
        lemma_decimal_ascii(n as nat);
        assert(digits@ =~= decimal(n as nat));
    }
    ascii_string(digits)
}

/// `a` followed by `b`.
pub fn join(a: &str, b: &str) -> (r: String)
    ensures
        r@ == a@ + b@,
{
    let mut s = a.to_owned();
    s.append(b);
    s
}

impl StoreError {
    /// The message that reports this error (see `store_message`).
    pub fn message(&self) -> (r: String)
        ensures
            r@ == store_message(*self),
    {
        match self {
            StoreError::ConnectionError(s) => join("Error connecting storage: ", s.as_str()),
            StoreError::IoError(s) => join("IO error: ", s.as_str()),
            StoreError::FieldTooLarge(s) => join("Field Too Large: ", s.as_str()),
            StoreError::InvalidUtf8(f) => {
                let mut r = "Invalid UTF-8 In Payload: ".to_owned();
                match f.error_len {
                    Some(n) => {
                        r.append("invalid utf-8 sequence of ");
                        r.append(number_string(n as u64).as_str());
                        r.append(" bytes from index ");
                    },
                    None => {
                        r.append("incomplete utf-8 byte sequence from index ");
                    },
                }
                r.append(number_string(f.valid_up_to as u64).as_str());
                r
            },
            StoreError::TryFromSliceError => "try_from slice error: could not convert slice to array".to_owned(),
            StoreError::TryFromIntError => "try_from int error: out of range integral type conversion attempted".to_owned(),
            StoreError::InvalidStorageFormat => "Invalid storage format".to_owned(),
            StoreError::UnsupportStorageVersion => "Unsupport storage version".to_owned(),
            StoreError::UnsupportIndexVersion => "Unsupport index version".to_owned(),
            StoreError::StorageIndexIdNotFound => "Storage index id not found".to_owned(),
            StoreError::StorageIndexDeleted => "Storage index deleted".to_owned(),
            StoreError::IdNotMatch => "Id not match".to_owned(),
            StoreError::OverflowPayloadSize => "Overflow Payload Size".to_owned(),
            StoreError::OverflowDeadbytesSize => "Overflow Deadbytes Size".to_owned(),
            StoreError::InvalidStorageIndexFormat => "Invalid storage index format".to_owned(),
            StoreError::OverflowId => "Overflow id".to_owned(),
            StoreError::UnexpectedEndOfPayload => "Unexpected end of payload".to_owned(),
            StoreError::RecordCountMismatch => "Record count mismatch".to_owned(),
            StoreError::DeadBytesMismatch => "Storage dead_bytes does not match the total size of deleted frames".to_owned(),
            StoreError::TrailingBytesInPayload => "Trailing bytes in payload".to_owned(),
            StoreError::InvalidFrameFlag(f) => join("Invalid Frame Flag: ", number_string(*f as u64).as_str()),
            StoreError::TruncatedFrame => "Storage file ends before the frame is complete".to_owned(),
            StoreError::InvalidCollectionName => "Invalid collection name".to_owned(),
            StoreError::IndexRecordIdMismatch { expected_id, actual_id } => {
                let mut r = join("index points to record ID ", number_string(*actual_id as u64).as_str());
                r.append(", expected record ID ");
                r.append(number_string(*expected_id as u64).as_str());
                r
            },
            StoreError::IndexRecordOffsetMismatch { expected_offset, actual_offset } => {
                let mut r = join("index points to offset", number_string(*actual_offset).as_str());
                r.append(", expected offset ");
                r.append(number_string(*expected_offset).as_str());
                r
            },
            StoreError::InvalidNextId(id) => {
                let mut r = join("Invalid next_id ", number_string(*id as u64).as_str());
                r.append(": ID has already been issued");
                r
            },
            StoreError::OverflowIndexRecordCount => "Overflow index record count".to_owned(),
            StoreError::OverflowStoreRecordCount => "Overflow store record count".to_owned(),
        }
    }
}

} // verus!
