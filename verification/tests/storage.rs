use life::constant::{
    INDEX_HEADER_TOTAL_BYTES, INDEX_MAGIC, INDEX_VERSION, STORAGE_DEAD_BYTES_OFFSET,
    STORAGE_HEADER_TOTAL_BYTES, STORAGE_MAGIC, STORAGE_NEXT_ID_OFFSET,
    STORAGE_PAYLOAD_FRAME_LIVE, STORAGE_RECORD_COUNT_OFFSET, STORAGE_VERSION,
    STORAGE_VERSION_OFFSET,
};
use life::app::login::model::User;
use life::app::resource::controller::{
    requested_listing, resource_page, store_error_reply, Listing,
};
use life::app::resource::model::Resource;
use life::http::request::Request;
use life::storage::{
    collection::{
        append_record, delete_one, find_by_id, insert_one, list_records, next_record_id,
        record_count, update_one,
    },
    decode::{Decode, Decoder},
    encode::{Encode, Encoder},
    error::StoreError,
    format::{find_id_offset, parse_store_header, read_frame},
    util::HasId,
};

#[derive(Clone, Debug, PartialEq, Eq)]
struct TestRecord {
    id: u32,
    name: String,
    number: u32,
}

impl TestRecord {
    fn new(name: impl Into<String>, number: u32) -> Self {
        Self {
            id: 0,
            name: name.into(),
            number,
        }
    }
}

impl Encode for TestRecord {
    fn encode(&self, id: u32) -> Result<Vec<u8>, StoreError> {
        let mut encoder = Encoder::new();
        encoder.write_u32(id);
        encoder.write_string(&self.name)?;
        encoder.write_u32(self.number);
        Ok(encoder.bytes)
    }
}

impl Decode for TestRecord {
    fn decode(decoder: &mut Decoder<'_>) -> Result<Self, StoreError> {
        Ok(Self {
            id: decoder.read_u32()?,
            name: decoder.read_str()?.to_owned(),
            number: decoder.read_u32()?,
        })
    }
}

impl HasId for TestRecord {
    fn id(&self) -> u32 {
        self.id
    }
}

fn storage_header(next_id: u32, record_count: u32, dead_bytes: u64) -> Vec<u8> {
    let mut bytes = Vec::with_capacity(STORAGE_HEADER_TOTAL_BYTES);
    bytes.extend_from_slice(STORAGE_MAGIC.as_bytes());
    bytes.push(STORAGE_VERSION);
    bytes.extend_from_slice(&next_id.to_be_bytes());
    bytes.extend_from_slice(&record_count.to_be_bytes());
    bytes.extend_from_slice(&dead_bytes.to_be_bytes());
    assert_eq!(bytes.len(), STORAGE_HEADER_TOTAL_BYTES);
    bytes
}

fn index_header(count: u32) -> Vec<u8> {
    let mut bytes = Vec::new();
    bytes.extend_from_slice(INDEX_MAGIC.as_bytes());
    bytes.push(INDEX_VERSION);
    bytes.extend_from_slice(&count.to_be_bytes());
    assert_eq!(bytes.len(), INDEX_HEADER_TOTAL_BYTES);
    bytes
}

fn append_frame(bytes: &mut Vec<u8>, payload: &[u8]) {
    let payload_len = u32::try_from(payload.len()).expect("test payload length fits u32");
    bytes.push(STORAGE_PAYLOAD_FRAME_LIVE);
    bytes.extend_from_slice(&payload_len.to_be_bytes());
    bytes.extend_from_slice(payload);
}

fn new_collection() -> (Vec<u8>, Vec<u8>) {
    (storage_header(1, 0, 0), index_header(0))
}

#[test]
fn primitive_u32_values_round_trip_in_big_endian_order() {
    let values = [0, 1, 0x0102_0304, u32::MAX];
    let mut encoder = Encoder::new();

    for value in values {
        encoder.write_u32(value);
    }

    assert_eq!(&encoder.bytes[8..12], &[1, 2, 3, 4]);

    let mut decoder = Decoder::new(&encoder.bytes);
    for expected in values {
        assert_eq!(decoder.read_u32().unwrap(), expected);
    }
    assert!(decoder.bytes.is_empty());
}

#[test]
fn strings_with_phase_09a_boundary_content_round_trip() {
    let values = ["", "xin chào 🦀", "a=b&c|d", "first line\nsecond line"];
    let mut encoder = Encoder::new();

    for value in values {
        encoder.write_string(value).unwrap();
    }

    let mut decoder = Decoder::new(&encoder.bytes);
    for expected in values {
        assert_eq!(decoder.read_str().unwrap(), expected);
    }
    assert!(decoder.bytes.is_empty());
}

#[test]
fn concrete_record_round_trips_through_its_manual_codec() {
    let original = TestRecord::new("manual codec", 42);
    let payload = original.encode(7).unwrap();
    let mut decoder = Decoder::new(&payload);

    let decoded = TestRecord::decode(&mut decoder).unwrap();

    assert_eq!(decoded, TestRecord { id: 7, ..original });
    assert!(decoder.bytes.is_empty());
}

#[test]
fn truncated_primitive_returns_error_instead_of_panicking() {
    let mut decoder = Decoder::new(&[0, 0]);

    assert!(matches!(
        decoder.read_u32(),
        Err(StoreError::UnexpectedEndOfPayload)
    ));
    assert_eq!(decoder.bytes, &[0, 0]);
}

#[test]
fn field_length_larger_than_its_payload_is_an_error() {
    let mut payload = Vec::new();
    payload.extend_from_slice(&100u32.to_be_bytes());
    payload.extend_from_slice(b"short");
    let mut decoder = Decoder::new(&payload);

    assert!(matches!(
        decoder.read_str(),
        Err(StoreError::UnexpectedEndOfPayload)
    ));
}

#[test]
fn invalid_utf8_text_field_reports_where_validation_stopped() {
    for (field, valid_up_to, error_len) in [
        (vec![0xff, 0xfe], 0, Some(1)),
        (vec![b'a', b'b', 0xc3], 2, None),
        (vec![b'a', 0xe2, 0x82, b'z'], 1, Some(2)),
        (vec![0xf0, 0x9f, 0x98], 0, None),
    ] {
        let mut payload = (field.len() as u32).to_be_bytes().to_vec();
        payload.extend_from_slice(&field);
        let mut decoder = Decoder::new(&payload);
        let err = decoder.read_str().unwrap_err();
        let std_err = std::str::from_utf8(&field).unwrap_err();
        match &err {
            StoreError::InvalidUtf8(fault) => {
                assert_eq!(fault.valid_up_to, valid_up_to);
                assert_eq!(fault.error_len, error_len);
                assert_eq!(fault.valid_up_to, std_err.valid_up_to());
                assert_eq!(fault.error_len, std_err.error_len());
            }
            other => panic!("{other:?}"),
        }
        assert_eq!(err.message(), format!("Invalid UTF-8 In Payload: {std_err}"));
    }
}

#[test]
fn user_and_resource_round_trip_through_their_codecs() {
    let user = User::new("ada".into(), "hash".into(), "session".into());
    let bytes = user.encode(3).unwrap();
    let mut decoder = Decoder::new(&bytes);
    let back = User::decode(&mut decoder).unwrap();
    assert_eq!(back.id, 3);
    assert_eq!(back.username, "ada");
    assert_eq!(back.password, "hash");
    assert_eq!(back.session, "session");
    assert!(decoder.bytes.is_empty());

    let resource = Resource::new("bolts".into(), 12);
    let bytes = resource.encode(9).unwrap();
    let mut decoder = Decoder::new(&bytes);
    let back = Resource::decode(&mut decoder).unwrap();
    assert_eq!((back.id, back.name.as_str(), back.number), (9, "bolts", 12));
}

#[test]
fn header_fields_are_read_big_endian() {
    let bytes = storage_header(5, 4, 300);
    let header = parse_store_header(&bytes).unwrap();
    assert_eq!(
        (header.next_id, header.record_count, header.dead_bytes),
        (5, 4, 300)
    );
    assert_eq!(record_count(&bytes).unwrap(), 4);
}

#[test]
fn invalid_storage_magic_is_rejected() {
    let mut bytes = storage_header(1, 0, 0);
    bytes[0] ^= 0x01;

    assert!(matches!(
        parse_store_header(&bytes),
        Err(StoreError::InvalidStorageFormat)
    ));
    assert!(matches!(
        list_records::<TestRecord>(&bytes, &index_header(0)),
        Err(StoreError::InvalidStorageFormat)
    ));
}

#[test]
fn unsupported_storage_version_is_rejected() {
    let mut bytes = storage_header(1, 0, 0);
    bytes[STORAGE_VERSION_OFFSET] = STORAGE_VERSION.wrapping_add(1);

    assert!(matches!(
        parse_store_header(&bytes),
        Err(StoreError::UnsupportStorageVersion)
    ));
}

#[test]
fn short_header_is_a_read_past_the_end() {
    let bytes = storage_header(1, 0, 0);
    match parse_store_header(&bytes[..STORAGE_DEAD_BYTES_OFFSET]) {
        Err(StoreError::IoError(message)) => assert_eq!(message, "failed to fill whole buffer"),
        _ => panic!("expected an IO error"),
    }
}

#[test]
fn frames_are_checked_for_truncation_and_flags() {
    let mut bytes = storage_header(2, 1, 0);
    bytes.push(STORAGE_PAYLOAD_FRAME_LIVE);
    bytes.extend_from_slice(&[0, 0, 0]);
    assert!(matches!(
        read_frame(&bytes, STORAGE_HEADER_TOTAL_BYTES),
        Err(StoreError::TruncatedFrame)
    ));

    let mut bytes = storage_header(2, 1, 0);
    bytes.push(7);
    bytes.extend_from_slice(&1u32.to_be_bytes());
    bytes.push(0);
    assert!(matches!(
        read_frame(&bytes, STORAGE_HEADER_TOTAL_BYTES),
        Err(StoreError::InvalidFrameFlag(7))
    ));

    let mut bytes = storage_header(2, 1, 0);
    append_frame(&mut bytes, b"abc");
    let frame = read_frame(&bytes, STORAGE_HEADER_TOTAL_BYTES).unwrap();
    assert!(frame.live);
    assert_eq!(frame.start, STORAGE_HEADER_TOTAL_BYTES + 5);
    assert_eq!(frame.len, 3);
}

#[test]
fn inserted_records_are_listed_in_order_with_their_ids() {
    let (mut store, mut index) = new_collection();
    insert_one(&mut store, &mut index, &TestRecord::new("one", 1)).unwrap();
    insert_one(&mut store, &mut index, &TestRecord::new("two 🦀", 2)).unwrap();

    let items = list_records::<TestRecord>(&store, &index).unwrap();
    assert_eq!(
        items,
        vec![
            TestRecord {
                id: 1,
                name: "one".into(),
                number: 1,
            },
            TestRecord {
                id: 2,
                name: "two 🦀".into(),
                number: 2,
            },
        ]
    );
    assert_eq!(record_count(&store).unwrap(), 2);
    assert_eq!(next_record_id(&store, &index).unwrap(), 3);
    assert_eq!(find_id_offset(&index, 1).unwrap(), STORAGE_HEADER_TOTAL_BYTES as u64);
}

#[test]
fn deletion_tombstones_the_frame_and_keeps_ids_monotonic() {
    let (mut store, mut index) = new_collection();
    for name in ["a", "b", "c"] {
        insert_one(&mut store, &mut index, &TestRecord::new(name, 0)).unwrap();
    }
    let before_len = store.len();
    delete_one::<TestRecord>(&mut store, &mut index, 2).unwrap();

    assert_eq!(store.len(), before_len);
    let names: Vec<String> = list_records::<TestRecord>(&store, &index)
        .unwrap()
        .into_iter()
        .map(|record| record.name)
        .collect();
    assert_eq!(names, ["a", "c"]);
    assert!(matches!(
        find_id_offset(&index, 2),
        Err(StoreError::StorageIndexIdNotFound)
    ));
    let dead = u64::from_be_bytes(store[STORAGE_DEAD_BYTES_OFFSET..STORAGE_HEADER_TOTAL_BYTES].try_into().unwrap());
    assert_eq!(dead, 5 + TestRecord::new("b", 0).encode(2).unwrap().len() as u64);

    insert_one(&mut store, &mut index, &TestRecord::new("d", 0)).unwrap();
    let ids: Vec<u32> = list_records::<TestRecord>(&store, &index)
        .unwrap()
        .iter()
        .map(|record| record.id)
        .collect();
    assert_eq!(ids, [1, 3, 4]);
}

#[test]
fn deleting_id_zero_or_an_unknown_id_is_an_error_and_changes_nothing() {
    let (mut store, mut index) = new_collection();
    insert_one(&mut store, &mut index, &TestRecord::new("a", 0)).unwrap();
    let (store_before, index_before) = (store.clone(), index.clone());

    for id in [0, 2, u32::MAX] {
        assert!(matches!(
            delete_one::<TestRecord>(&mut store, &mut index, id),
            Err(StoreError::StorageIndexIdNotFound)
        ));
    }
    assert_eq!(store, store_before);
    assert_eq!(index, index_before);
}

#[test]
fn update_replaces_the_record_under_the_same_id() {
    let (mut store, mut index) = new_collection();
    insert_one(&mut store, &mut index, &TestRecord::new("old", 1)).unwrap();
    update_one(&mut store, &mut index, 1, &TestRecord::new("new", 2)).unwrap();

    let items = list_records::<TestRecord>(&store, &index).unwrap();
    assert_eq!(
        items,
        vec![TestRecord {
            id: 1,
            name: "new".into(),
            number: 2,
        }]
    );
    assert_eq!(record_count(&store).unwrap(), 1);
}

#[test]
fn record_count_larger_than_available_frames_is_rejected() {
    let (mut store, mut index) = new_collection();
    insert_one(&mut store, &mut index, &TestRecord::new("only", 1)).unwrap();
    store[STORAGE_RECORD_COUNT_OFFSET..STORAGE_DEAD_BYTES_OFFSET]
        .copy_from_slice(&2u32.to_be_bytes());

    assert!(matches!(
        list_records::<TestRecord>(&store, &index),
        Err(StoreError::RecordCountMismatch)
    ));
}

#[test]
fn exhausted_next_id_is_an_error() {
    let (mut store, mut index) = new_collection();
    store[STORAGE_NEXT_ID_OFFSET..STORAGE_RECORD_COUNT_OFFSET]
        .copy_from_slice(&u32::MAX.to_be_bytes());

    assert!(matches!(
        insert_one(&mut store, &mut index, &TestRecord::new("x", 0)),
        Err(StoreError::OverflowId)
    ));
}

#[test]
fn an_already_issued_next_id_is_refused() {
    let (mut store, mut index) = new_collection();
    insert_one(&mut store, &mut index, &TestRecord::new("a", 0)).unwrap();
    store[STORAGE_NEXT_ID_OFFSET..STORAGE_RECORD_COUNT_OFFSET].copy_from_slice(&1u32.to_be_bytes());

    assert!(matches!(
        append_record(&mut store, &mut index, b"payload"),
        Err(StoreError::InvalidNextId(1))
    ));
}

#[test]
fn error_messages_name_their_values() {
    assert_eq!(StoreError::InvalidFrameFlag(7).message(), "Invalid Frame Flag: 7");
    assert_eq!(
        StoreError::InvalidNextId(12).message(),
        "Invalid next_id 12: ID has already been issued"
    );
    assert_eq!(
        StoreError::IndexRecordIdMismatch {
            expected_id: 4,
            actual_id: 40
        }
        .message(),
        "index points to record ID 40, expected record ID 4"
    );
    assert_eq!(StoreError::TruncatedFrame.message(), "Storage file ends before the frame is complete");
}

#[test]
fn updated_record_is_listed_after_the_others() {
    let (mut store, mut index) = new_collection();
    for (name, number) in [("a", 1), ("b", 2), ("c", 3)] {
        insert_one(&mut store, &mut index, &Resource::new(name.to_owned(), number)).unwrap();
    }
    update_one(&mut store, &mut index, 1, &Resource::new("a2".to_owned(), 10)).unwrap();
    let listed: Vec<(u32, String, u32)> = list_records::<Resource>(&store, &index)
        .unwrap()
        .into_iter()
        .map(|r| (r.id, r.name, r.number))
        .collect();
    assert_eq!(
        listed,
        [(2, "b".to_owned(), 2), (3, "c".to_owned(), 3), (1, "a2".to_owned(), 10)]
    );
}

#[test]
fn deleted_user_leaves_the_others_in_order() {
    let (mut store, mut index) = new_collection();
    for name in ["ann", "bob", "cy"] {
        let user = User::new(name.to_owned(), "hash".to_owned(), "s".to_owned());
        insert_one(&mut store, &mut index, &user).unwrap();
    }
    delete_one::<User>(&mut store, &mut index, 1).unwrap();
    let names: Vec<String> = list_records::<User>(&store, &index)
        .unwrap()
        .into_iter()
        .map(|u| u.username)
        .collect();
    assert_eq!(names, ["bob", "cy"]);
}

#[test]
fn listed_resource_is_found_by_its_id() {
    let (mut store, mut index) = new_collection();
    for (name, number) in [("a", 1), ("b", 2), ("c", 3)] {
        insert_one(&mut store, &mut index, &Resource::new(name.to_owned(), number)).unwrap();
    }
    let found = find_by_id(list_records::<Resource>(&store, &index).unwrap(), 2).unwrap();
    assert_eq!((found.id, found.name.as_str(), found.number), (2, "b", 2));
    let missing = find_by_id(list_records::<Resource>(&store, &index).unwrap(), 4);
    assert!(matches!(missing, Err(StoreError::StorageIndexIdNotFound)));
}

#[test]
fn resource_lookup_lists_all_or_finds_one_by_id() {
    let (mut store, mut index) = new_collection();
    for (name, number) in [("alpha", 10), ("beta", 20), ("deleted", 30)] {
        insert_one(&mut store, &mut index, &Resource::new(name.to_owned(), number)).unwrap();
    }
    delete_one::<Resource>(&mut store, &mut index, 3).unwrap();
    for (query, expected) in [
        ("", Some(vec!["alpha", "beta"])),
        ("?id=1", Some(vec!["alpha"])),
        ("?id=2", Some(vec!["beta"])),
        ("?id=3", Some(vec![])),
        ("?id=99", Some(vec![])),
        ("?id=0", None),
        ("?id=abc", None),
        ("?id=", None),
        ("?id=4294967296", None),
    ] {
        let wire = format!("GET /resources{query} HTTP/1.1\r\nHost: localhost\r\n\r\n");
        let request = Request::parse(wire.as_bytes()).unwrap();
        let listed = list_records::<Resource>(&store, &index).unwrap();
        let found = match requested_listing(request.query()) {
            Listing::All => Ok(listed),
            Listing::One(id) => find_by_id(listed, id).map(|r| vec![r]),
            Listing::Invalid => {
                assert!(expected.is_none(), "{query}");
                continue;
            }
        };
        let expected = expected.unwrap();
        match found {
            Ok(found) => {
                let names: Vec<&str> = found.iter().map(|r| r.name.as_str()).collect();
                assert_eq!(names, expected, "{query}");
                if found.is_empty() {
                    continue;
                }
                let page = resource_page(&found);
                assert!(page.contains("method=\"GET\" action=\"/resources\""), "{query}");
                assert!(page.contains(&format!("Total: {}", found.len())), "{query}");
                assert_eq!(
                    page.matches("<article class=\"resource-card\">").count(),
                    found.len(),
                    "{query}"
                );
                for name in ["alpha", "beta", "deleted"] {
                    let card = format!("<h3>{name}</h3>");
                    assert_eq!(page.contains(&card), expected.contains(&name), "{query}");
                }
            }
            Err(err) => {
                assert!(expected.is_empty(), "{query}");
                let reply = String::from_utf8(store_error_reply(&err).to_bytes()).unwrap();
                assert!(reply.starts_with("HTTP/1.1 404 Not Found\r\n"), "{query}");
                assert!(reply.ends_with("Resource not found"), "{query}");
            }
        }
    }
}
