//! Limits and fixed names shared across the server.
use vstd::prelude::*;

verus! {

/// The largest request accepted, in bytes.
pub const MAX_REQUEST_BYTES: usize = 1024 * 1024;

/// The size of one read from a connection.
pub const MAX_BUFFER_SIZE: usize = 512;

/// `Content-Length` as it is written.
pub const CONTENT_LENGTH: &'static str = "Content-Length";

/// `Content-Type` as it is written.
pub const CONTENT_TYPE: &'static str = "Content-Type";

/// `Location` as it is written.
pub const LOCATION: &'static str = "Location";

/// `Transfer-Encoding` as it is written.
pub const TRANSFER_ENCODING: &'static str = "Transfer-Encoding";

/// `Connection` as it is written.
pub const CONNECTION: &'static str = "Connection";

/// `Set-Cookie` as it is written.
pub const SET_COOKIE: &'static str = "Set-Cookie";

/// The media type of form bodies.
pub const FORM_CONTENT_TYPE: &'static str = "application/x-www-form-urlencoded";

/// The largest static asset served, in bytes.
pub const MAX_ASSET_SIZE: usize = 10 * 1024 * 1024;

/// The directory of the store, relative to the crate.
pub const STORAGE_FOLDER: &'static str = "storage";

/// The directory the server opens its store in.
pub const STORAGE_URL: &'static str = "storage";

/// The magic text that starts a collection file.
pub const STORAGE_MAGIC: &'static str = "toikhongdien";

/// Where the magic text of a collection file ends.
pub const STORAGE_MAGIC_END: usize = 12;

/// The collection file format version.
pub const STORAGE_VERSION: u8 = 1;

/// Where the version byte of a collection file is.
pub const STORAGE_VERSION_OFFSET: usize = 12;

/// The first id a collection issues.
pub const STORAGE_NEXT_ID: u32 = 1;

/// Where the next id (big-endian `u32`) of a collection file is.
pub const STORAGE_NEXT_ID_OFFSET: usize = 13;

/// The record count of a new collection.
pub const STORAGE_RECORD_COUNT: u32 = 0;

/// Where the record count (big-endian `u32`) of a collection file is.
pub const STORAGE_RECORD_COUNT_OFFSET: usize = 17;

/// The dead bytes of a new collection.
pub const STORAGE_DEAD_BYTES: u64 = 0;

/// Where the dead byte count (big-endian `u64`) of a collection file is.
pub const STORAGE_DEAD_BYTES_OFFSET: usize = 21;

/// The length of the header of a collection file.
pub const STORAGE_HEADER_TOTAL_BYTES: usize = 29;

/// The flag byte of a live frame.
pub const STORAGE_PAYLOAD_FRAME_LIVE: u8 = 1;

/// The flag byte of a deleted frame.
pub const STORAGE_PAYLOAD_FRAME_OFF: u8 = 0;

/// The size of a frame's flag.
pub const STORAGE_PAYLOAD_FLAG_SIZE: usize = 1;

/// The size of a frame's payload length.
pub const STORAGE_PAYLOAD_LEN_SIZE: usize = 4;

/// The collection of resources.
pub const RESOURCE_COLLECTION: &'static str = "resource";

/// The collection of users.
pub const USER_COLLECTION: &'static str = "user";

/// The extension of collection files.
pub const COLLECTION_EXTENSION: &'static str = "store";

/// The magic text that starts an index file.
pub const INDEX_MAGIC: &'static str = "toikhongdienindex";

/// Where the magic text of an index file ends.
pub const INDEX_MAGIC_END: usize = 17;

/// The index file format version.
pub const INDEX_VERSION: u8 = 1;

/// Where the version byte of an index file is.
pub const INDEX_VERSION_OFFSET: usize = 17;

/// The record count of a new index.
pub const INDEX_RECORD_COUNT: u32 = 0;

/// Where the record count (big-endian `u32`) of an index file is.
pub const INDEX_RECORD_COUNT_OFFSET: usize = 18;

/// The length of the header of an index file.
pub const INDEX_HEADER_TOTAL_BYTES: usize = 22;

/// The extension of index files.
pub const INDEX_EXTENSION: &'static str = "idx";

/// The length of one index entry: an id and a frame offset.
pub const INDEX_RECORD_LEN: usize = 12;

} // verus!
