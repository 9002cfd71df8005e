use std::io::Write;

use swift_ring::ring::bytes::{read_be32, read_le16};
use swift_ring::ring::container::{check_header, decode_payload, decode_with_document, partition_count_for, read_table};
use swift_ring::ring::error::{FormatError, RingError};
use swift_ring::ring::json::JsonValue;
use swift_ring::ring::limits::check_limits;
use swift_ring::ring::container::read_document;
use swift_ring::ring::metadata::{device_from_json, find_member, metadata_from_json, read_unsigned, RingData, Weight};
use swift_ring::ring::{decode_ring_file, Ring};

fn gzip(payload: &[u8]) -> Vec<u8> {
    let mut encoder = flate2::write::GzEncoder::new(Vec::new(), flate2::Compression::default());
    encoder.write_all(payload).unwrap();
    encoder.finish().unwrap()
}

fn device_json(id: u32) -> String {
    format!(
        "{{\"device\": \"d{}\", \"id\": {}, \"ip\": \"10.149.30.7\", \"port\": 6000, \"region\": 1, \
         \"replication_ip\": \"10.149.30.8\", \"replication_port\": 6003, \"weight\": 3000.592982016, \"zone\": 3}}",
        id, id
    )
}

fn metadata_json(devs: &[Option<u32>], part_shift: u32, replica_count: u32) -> String {
    let mut slots: Vec<String> = Vec::new();
    for dev in devs {
        match dev {
            Some(id) => slots.push(device_json(*id)),
            None => slots.push(String::from("null")),
        }
    }
    format!(
        "{{\"devs\": [{}], \"part_shift\": {}, \"replica_count\": {}}}",
        slots.join(", "),
        part_shift,
        replica_count
    )
}

fn container(json: &str, rows: &[Vec<u16>]) -> Vec<u8> {
    let mut payload: Vec<u8> = Vec::new();
    payload.extend_from_slice(b"R1NG");
    payload.extend_from_slice(&[0, 1]);
    payload.extend_from_slice(&(json.len() as u32).to_be_bytes());
    payload.extend_from_slice(json.as_bytes());
    for row in rows {
        for entry in row {
            payload.extend_from_slice(&entry.to_le_bytes());
        }
    }
    payload
}

fn minimal_payload() -> Vec<u8> {
    container(&metadata_json(&[Some(0)], 30, 1), &[vec![0, 0, 0, 0]])
}

fn ids(ring: &Ring, part: u32) -> Vec<u32> {
    ring.get_part_nodes(part).iter().map(|dev| dev.id).collect()
}

fn object(members: Vec<(&str, JsonValue)>) -> JsonValue {
    JsonValue::Object(members.into_iter().map(|(k, v)| (String::from(k), v)).collect())
}

fn device_value(id: u64) -> JsonValue {
    object(vec![
        ("device", JsonValue::String(String::from("sdb1"))),
        ("id", JsonValue::U64(id)),
        ("ip", JsonValue::String(String::from("10.0.0.1"))),
        ("port", JsonValue::U64(6000)),
        ("region", JsonValue::U64(1)),
        ("replication_ip", JsonValue::String(String::from("10.0.0.2"))),
        ("replication_port", JsonValue::U64(6003)),
        ("weight", JsonValue::U64(100)),
        ("zone", JsonValue::U64(3)),
    ])
}

#[test]
fn test_replica_count() {
    let json = metadata_json(&[Some(0), Some(1)], 31, 3);
    let payload = container(&json, &[vec![0, 1], vec![1, 0], vec![0, 0]]);
    let ring = Ring::decode_ring_file(&gzip(&payload)).unwrap();
    assert_eq!(ring.replica_count(), 3);

    let none = container(&metadata_json(&[Some(0)], 31, 0), &[]);
    let ring = Ring::decode_ring_file(&gzip(&none)).unwrap();
    assert_eq!(ring.replica_count(), 0);
}

#[test]
fn test_partition_count() {
    let json = metadata_json(&[Some(0), Some(1)], 29, 2);
    let payload = container(&json, &[vec![0, 1, 0, 1, 0, 1, 0, 1], vec![1, 0, 1, 0, 1, 0, 1, 0]]);
    let ring = Ring::decode_ring_file(&gzip(&payload)).unwrap();
    assert_eq!(ring.partition_count(), 8);
    assert_eq!(ring.part_shift(), 29);

    let one = container(&metadata_json(&[Some(0)], 32, 1), &[vec![0]]);
    let ring = Ring::decode_ring_file(&gzip(&one)).unwrap();
    assert_eq!(ring.partition_count(), 1);
}

#[test]
fn partition_count_is_two_to_the_thirty_two_minus_shift() {
    assert_eq!(partition_count_for(32), 1);
    assert_eq!(partition_count_for(30), 4);
    assert_eq!(partition_count_for(16), 65536);
    assert_eq!(partition_count_for(0), 4294967296);
}

#[test]
fn round_trip_of_a_minimal_container() {
    let ring = Ring::decode_ring_file(&gzip(&minimal_payload())).unwrap();
    assert_eq!(ring.replica_count(), 1);
    assert_eq!(ring.partition_count(), 4);
    for k in 0..4u32 {
        let nodes = ring.get_part_nodes(k);
        assert_eq!(nodes.len(), 1);
        assert_eq!(nodes[0].id, 0);
    }
    for k in [4u32, 5, 100, u32::MAX] {
        assert_eq!(ring.get_part_nodes(k).len(), 0);
    }
}

#[test]
fn decoded_device_has_every_field() {
    let ring = Ring::decode_ring_file(&gzip(&minimal_payload())).unwrap();
    let dev = &ring.devices()[0];
    assert_eq!(dev.device, "d0");
    assert_eq!(dev.id, 0);
    assert_eq!(dev.ip, "10.149.30.7");
    assert_eq!(dev.port, 6000);
    assert_eq!(dev.region, 1);
    assert_eq!(dev.replication_ip, "10.149.30.8");
    assert_eq!(dev.replication_port, 6003);
    match dev.weight {
        Weight::Real(bits) => assert!((f64::from_bits(bits) - 3000.592982016).abs() < 0.000001),
        _ => panic!("the weight is a real number"),
    }
    assert_eq!(dev.zone, 3);
}

#[test]
fn corrupt_magic_is_bad_magic() {
    let mut payload = minimal_payload();
    payload[0] = b'X';
    assert_eq!(Ring::decode_ring_file(&gzip(&payload)).err(), Some(RingError::Format(FormatError::BadMagic)));
    let mut payload = minimal_payload();
    payload[3] = b'g';
    assert_eq!(decode_payload(&payload).err(), Some(FormatError::BadMagic));
    assert_eq!(check_header(b"RING\x00\x01\x00\x00\x00\x00").err(), Some(FormatError::BadMagic));
}

#[test]
fn version_two_is_unsupported() {
    let mut payload = minimal_payload();
    payload[4] = 0;
    payload[5] = 2;
    assert_eq!(
        Ring::decode_ring_file(&gzip(&payload)).err(),
        Some(RingError::Format(FormatError::UnsupportedVersion))
    );
    let mut payload = minimal_payload();
    payload[4] = 1;
    payload[5] = 0;
    assert_eq!(decode_payload(&payload).err(), Some(FormatError::UnsupportedVersion));
}

#[test]
fn truncation_inside_a_row_is_truncated() {
    let full = minimal_payload();
    for cut in 1..8 {
        let payload = &full[..full.len() - cut];
        assert_eq!(
            Ring::decode_ring_file(&gzip(payload)).err(),
            Some(RingError::Format(FormatError::Truncated))
        );
    }
}

#[test]
fn short_header_is_truncated() {
    assert_eq!(check_header(b"").err(), Some(FormatError::Truncated));
    assert_eq!(check_header(b"R1N").err(), Some(FormatError::Truncated));
    assert_eq!(check_header(b"XYZ").err(), Some(FormatError::Truncated));
    assert_eq!(check_header(b"R1NG").err(), Some(FormatError::Truncated));
    assert_eq!(check_header(b"R1NG\x00").err(), Some(FormatError::Truncated));
    assert_eq!(check_header(b"R1NG\x00\x01").err(), Some(FormatError::Truncated));
    assert_eq!(check_header(b"R1NG\x00\x01\x00\x00\x00").err(), Some(FormatError::Truncated));
    assert_eq!(check_header(b"R1NG\x00\x01\x00\x00\x00\x05abcd").err(), Some(FormatError::Truncated));
}

#[test]
fn header_gives_the_end_of_the_metadata() {
    assert_eq!(check_header(b"R1NG\x00\x01\x00\x00\x00\x00"), Ok(10));
    assert_eq!(check_header(b"R1NG\x00\x01\x00\x00\x00\x05abcde"), Ok(15));
    assert_eq!(check_header(b"R1NG\x00\x01\x00\x00\x00\x02abcde"), Ok(12));
    let mut long = Vec::from(&b"R1NG\x00\x01\x00\x00\x01\x02"[..]);
    long.extend(std::iter::repeat(b' ').take(258));
    assert_eq!(check_header(&long), Ok(268));
}

#[test]
fn length_prefix_is_big_endian() {
    assert_eq!(read_be32(0, 0, 0, 1), 1);
    assert_eq!(read_be32(0, 0, 1, 0), 256);
    assert_eq!(read_be32(0, 1, 0, 0), 65536);
    assert_eq!(read_be32(1, 0, 0, 0), 16777216);
    assert_eq!(read_be32(0x12, 0x34, 0x56, 0x78), 0x12345678);
    assert_eq!(read_be32(255, 255, 255, 255), u32::MAX);
}

#[test]
fn table_entries_are_little_endian() {
    assert_eq!(read_le16(1, 0), 1);
    assert_eq!(read_le16(0, 1), 256);
    assert_eq!(read_le16(0x34, 0x12), 0x1234);
    assert_eq!(read_le16(255, 255), u16::MAX);
    let table = read_table(&[9, 9, 0x01, 0x02, 0xff, 0x00], 2, 31, 1).unwrap();
    assert_eq!(table, vec![vec![0x0201u16, 0x00ff]]);
}

#[test]
fn table_is_read_row_by_row() {
    let bytes: Vec<u8> = vec![1, 0, 2, 0, 3, 0, 4, 0, 5, 0, 6, 0, 7, 0, 8, 0, 0xAA];
    let table = read_table(&bytes, 0, 30, 2).unwrap();
    assert_eq!(table, vec![vec![1u16, 2, 3, 4], vec![5, 6, 7, 8]]);
    let table = read_table(&bytes, 8, 31, 2).unwrap();
    assert_eq!(table, vec![vec![5u16, 6], vec![7, 8]]);
    assert_eq!(read_table(&bytes, 0, 32, 0).unwrap(), Vec::<Vec<u16>>::new());
    assert_eq!(read_table(&bytes, 17, 31, 0).unwrap(), Vec::<Vec<u16>>::new());
}

#[test]
fn table_errors() {
    let bytes: Vec<u8> = vec![0; 16];
    assert_eq!(read_table(&bytes, 0, 33, 1).err(), Some(FormatError::InvalidShift));
    assert_eq!(read_table(&bytes, 0, 255, 0).err(), Some(FormatError::InvalidShift));
    assert_eq!(read_table(&bytes, 0, 29, 1).unwrap().len(), 1);
    assert_eq!(read_table(&bytes, 1, 29, 1).err(), Some(FormatError::Truncated));
    assert_eq!(read_table(&bytes, 0, 30, 3).err(), Some(FormatError::Truncated));
    assert_eq!(read_table(&bytes, 0, 0, 1).err(), Some(FormatError::Truncated));
    assert_eq!(read_table(&bytes, 0, 0, 255).err(), Some(FormatError::Truncated));
    assert_eq!(read_table(&bytes, 16, 32, 0).unwrap().len(), 0);
    assert_eq!(read_table(&bytes, 17, 32, 0).err(), Some(FormatError::Truncated));
    assert_eq!(read_table(&bytes, 17, 32, 1).err(), Some(FormatError::Truncated));
    assert_eq!(read_table(&bytes, usize::MAX, 0, 255).err(), Some(FormatError::Truncated));
    assert_eq!(read_table(&bytes, 17, 33, 0).err(), Some(FormatError::InvalidShift));
}

#[test]
fn shift_of_thirty_three_is_invalid() {
    let payload = container(&metadata_json(&[Some(0)], 33, 1), &[vec![0, 0, 0, 0]]);
    assert_eq!(
        Ring::decode_ring_file(&gzip(&payload)).err(),
        Some(RingError::Format(FormatError::InvalidShift))
    );
    let payload = container(&metadata_json(&[Some(0)], 255, 0), &[]);
    assert_eq!(decode_payload(&payload).err(), Some(FormatError::InvalidShift));
}

#[test]
fn shift_beyond_a_byte_is_bad_metadata() {
    let payload = container(&metadata_json(&[Some(0)], 256, 1), &[vec![0]]);
    assert_eq!(decode_payload(&payload).err(), Some(FormatError::BadMetadata));
}

#[test]
fn absent_slots_leave_no_device() {
    let json = metadata_json(&[Some(0), None, Some(2), None, Some(4)], 31, 1);
    let payload = container(&json, &[vec![2, 4]]);
    let (meta, table) = decode_payload(&payload).unwrap();
    assert_eq!(meta.devs.len(), 5);
    assert!(meta.devs[1].is_none() && meta.devs[3].is_none());
    let ring = Ring::rd_to_ring(meta, table);
    let present: Vec<u32> = ring.devices().iter().map(|dev| dev.id).collect();
    assert_eq!(present, vec![0, 2, 4]);
    assert_eq!(ids(&ring, 0), vec![2]);
    assert_eq!(ids(&ring, 1), vec![4]);
}

#[test]
fn devices_are_found_by_identifier_not_by_position() {
    let json = metadata_json(&[Some(7), None, Some(3)], 31, 2);
    let payload = container(&json, &[vec![3, 7], vec![7, 1]]);
    let ring = Ring::decode_ring_file(&gzip(&payload)).unwrap();
    assert_eq!(ids(&ring, 0), vec![3, 7]);
    assert_eq!(ids(&ring, 1), vec![7]);
    assert_eq!(ring.dev_by_id(7).map(|dev| dev.id), Some(7));
    assert_eq!(ring.dev_by_id(3).map(|dev| dev.device.clone()), Some(String::from("d3")));
    assert!(ring.dev_by_id(1).is_none());
    assert!(ring.dev_by_id(0).is_none());
}

#[test]
fn dangling_entries_are_skipped() {
    let json = metadata_json(&[Some(0), Some(1)], 31, 3);
    let payload = container(&json, &[vec![0, 9], vec![9, 9], vec![1, 0]]);
    let ring = Ring::decode_ring_file(&gzip(&payload)).unwrap();
    assert_eq!(ids(&ring, 0), vec![0, 1]);
    assert_eq!(ids(&ring, 1), vec![0]);
    assert_eq!(ids(&ring, 2), Vec::<u32>::new());
}

#[test]
fn lookup_is_repeatable_and_bounded() {
    let json = metadata_json(&[Some(0), Some(1), Some(2)], 30, 3);
    let payload = container(&json, &[vec![0, 1, 2, 0], vec![1, 2, 0, 1], vec![2, 0, 1, 5]]);
    let ring = Ring::decode_ring_file(&gzip(&payload)).unwrap();
    for part in 0..6u32 {
        let first = ids(&ring, part);
        assert_eq!(first, ids(&ring, part));
        assert!(first.len() <= ring.replica_count());
    }
    assert_eq!(ids(&ring, 0), vec![0, 1, 2]);
    assert_eq!(ids(&ring, 3), vec![0, 1]);
}

#[test]
fn first_of_two_devices_with_one_identifier_wins() {
    let json = format!(
        "{{\"devs\": [{}, {}], \"part_shift\": 32, \"replica_count\": 1}}",
        device_json(5).replace("\"d5\"", "\"first\""),
        device_json(5).replace("\"d5\"", "\"second\"")
    );
    let ring = Ring::decode_ring_file(&gzip(&container(&json, &[vec![5]]))).unwrap();
    let nodes = ring.get_part_nodes(0);
    assert_eq!(nodes.len(), 1);
    assert_eq!(nodes[0].device, "first");
}

#[test]
fn metadata_is_bounded_by_its_length_prefix() {
    let json = metadata_json(&[Some(0)], 31, 1);
    let payload = container(&json, &[vec![0x7b7d, 0x0a20]]);
    let (meta, table) = decode_payload(&payload).unwrap();
    assert_eq!(meta.part_shift, 31);
    assert_eq!(meta.replica_count, 1);
    assert_eq!(table, vec![vec![0x7b7du16, 0x0a20]]);

    let mut longer = container(&json, &[]);
    let size = (json.len() as u32 + 2).to_be_bytes();
    longer[6..10].copy_from_slice(&size);
    longer.extend_from_slice(b"}}");
    longer.extend_from_slice(&[0, 0, 0, 0]);
    assert_eq!(decode_payload(&longer).err(), Some(FormatError::BadMetadata));
}

#[test]
fn bytes_behind_the_table_are_ignored() {
    let mut payload = minimal_payload();
    payload.extend_from_slice(&[1, 2, 3]);
    let ring = Ring::decode_ring_file(&gzip(&payload)).unwrap();
    assert_eq!(ring.partition_count(), 4);
}

#[test]
fn malformed_metadata_is_bad_metadata() {
    for json in [
        "",
        "{",
        "[]",
        "null",
        "{\"devs\": [], \"part_shift\": 30}",
        "{\"devs\": [], \"replica_count\": 1}",
        "{\"part_shift\": 30, \"replica_count\": 1}",
        "{\"devs\": {}, \"part_shift\": 30, \"replica_count\": 1}",
        "{\"devs\": [1], \"part_shift\": 30, \"replica_count\": 1}",
        "{\"devs\": [{}], \"part_shift\": 30, \"replica_count\": 1}",
        "{\"devs\": [], \"part_shift\": \"30\", \"replica_count\": 1}",
        "{\"devs\": [], \"part_shift\": 30.0, \"replica_count\": 1}",
        "{\"devs\": [], \"part_shift\": -1, \"replica_count\": 1}",
        "{\"devs\": [], \"part_shift\": 30, \"replica_count\": 256}",
        "{\"devs\": [], \"part_shift\": 30, \"replica_count\": 1} x",
    ] {
        let payload = container(json, &[vec![0, 0, 0, 0]]);
        assert_eq!(decode_payload(&payload).err(), Some(FormatError::BadMetadata), "{}", json);
    }
    let mut payload = container("{\"devs\": [], \"part_shift\": 32, \"replica_count\": 0, \"x\": \"a\"}", &[]);
    let at = payload.len() - 3;
    payload[at] = 0xff;
    assert_eq!(decode_payload(&payload).err(), Some(FormatError::BadMetadata));
}

#[test]
fn device_with_a_wrong_member_is_bad_metadata() {
    let good = device_json(1);
    for (from, to) in [
        ("\"id\": 1", "\"id\": 4294967296"),
        ("\"id\": 1", "\"id\": -1"),
        ("\"id\": 1", "\"id\": \"1\""),
        ("\"port\": 6000", "\"port\": 65536"),
        ("\"zone\": 3", "\"zone\": null"),
        ("\"region\": 1", "\"region\": 1.5"),
        ("\"weight\": 3000.592982016", "\"weight\": \"heavy\""),
        ("\"weight\": 3000.592982016", "\"weight\": null"),
        ("\"device\": \"d1\"", "\"device\": 1"),
        ("\"ip\": \"10.149.30.7\", ", ""),
        ("\"replication_port\": 6003, ", ""),
    ] {
        let bad = good.replace(from, to);
        assert_ne!(bad, good);
        let json = format!("{{\"devs\": [{}], \"part_shift\": 32, \"replica_count\": 0}}", bad);
        assert_eq!(decode_payload(&container(&json, &[])).err(), Some(FormatError::BadMetadata), "{}", to);
    }
    let json = format!("{{\"devs\": [{}], \"part_shift\": 32, \"replica_count\": 0}}", good);
    assert!(decode_payload(&container(&json, &[])).is_ok());
}

#[test]
fn limits_of_the_integer_members() {
    let json = "{\"devs\": [{\"device\": \"\", \"id\": 4294967295, \"ip\": \"\", \"port\": 65535, \"region\": 0, \
                \"replication_ip\": \"\", \"replication_port\": 65535, \"weight\": -2, \"zone\": 65535, \
                \"meta\": \"ignored\"}], \"part_shift\": 0, \"replica_count\": 0, \"version\": 4}";
    let (meta, table) = decode_payload(&container(json, &[])).unwrap();
    assert_eq!(table.len(), 0);
    assert_eq!(meta.part_shift, 0);
    let dev = meta.devs[0].as_ref().unwrap();
    assert_eq!(dev.id, u32::MAX);
    assert_eq!(dev.port, u16::MAX);
    assert_eq!(dev.region, 0);
    assert_eq!(dev.zone, u16::MAX);
    assert_eq!(dev.weight, Weight::Signed(-2));
    assert_eq!(dev.device, "");
}

#[test]
fn whole_weight_is_kept_whole() {
    let json = device_json(1).replace("3000.592982016", "100");
    let json = format!("{{\"devs\": [{}], \"part_shift\": 32, \"replica_count\": 0}}", json);
    let (meta, _) = decode_payload(&container(&json, &[])).unwrap();
    assert_eq!(meta.devs[0].as_ref().unwrap().weight, Weight::Unsigned(100));
}

#[test]
fn not_gzip_is_an_io_error() {
    assert_eq!(Ring::decode_ring_file(b"").err(), Some(RingError::IoError));
    assert_eq!(Ring::decode_ring_file(b"R1NG not compressed").err(), Some(RingError::IoError));
    assert_eq!(Ring::decode_ring_file(&minimal_payload()).err(), Some(RingError::IoError));
    let whole = gzip(&minimal_payload());
    assert_eq!(Ring::decode_ring_file(&whole[..whole.len() - 5]).err(), Some(RingError::IoError));
    assert_eq!(decode_ring_file(&whole[..whole.len() / 2]).err(), Some(RingError::IoError));
}

#[test]
fn file_decodes_to_metadata_and_table() {
    let json = metadata_json(&[Some(4), None], 31, 2);
    let payload = container(&json, &[vec![4, 4], vec![0, 4]]);
    let (meta, table): (RingData, Vec<Vec<u16>>) = decode_ring_file(&gzip(&payload)).unwrap();
    assert_eq!(meta.devs.len(), 2);
    assert_eq!(meta.replica_count, 2);
    assert_eq!(table, vec![vec![4u16, 4], vec![0, 4]]);
    assert_eq!(
        decode_ring_file(&gzip(b"R1NG\x00\x07")).err(),
        Some(RingError::Format(FormatError::UnsupportedVersion))
    );
}

#[test]
fn document_decides_only_behind_a_sound_header() {
    let payload = minimal_payload();
    assert_eq!(decode_with_document(&payload, None).err(), Some(FormatError::BadMetadata));
    assert_eq!(decode_with_document(b"R1N", None).err(), Some(FormatError::Truncated));
    let value = object(vec![
        ("devs", JsonValue::Array(vec![JsonValue::Null, device_value(6)])),
        ("part_shift", JsonValue::U64(31)),
        ("replica_count", JsonValue::I64(2)),
    ]);
    let (meta, table) = decode_with_document(&payload, Some(&value)).unwrap();
    assert_eq!(meta.devs.len(), 2);
    assert_eq!(meta.devs[1].as_ref().unwrap().id, 6);
    assert_eq!(table, vec![vec![0u16, 0], vec![0, 0]]);
    assert_eq!(
        decode_with_document(b"XXXX", Some(&value)).err(),
        Some(FormatError::BadMagic)
    );
    assert_eq!(
        decode_with_document(&payload[..payload.len() - 1], Some(&value)).err(),
        Some(FormatError::Truncated)
    );
    assert_eq!(
        decode_with_document(&payload, Some(&JsonValue::Array(Vec::new()))).err(),
        Some(FormatError::BadMetadata)
    );
}

#[test]
fn metadata_from_a_value() {
    let value = object(vec![
        ("devs", JsonValue::Array(vec![device_value(1), JsonValue::Null])),
        ("part_shift", JsonValue::U64(40)),
        ("replica_count", JsonValue::U64(255)),
        ("extra", JsonValue::Boolean(true)),
    ]);
    let meta = metadata_from_json(&value).unwrap();
    assert_eq!(meta.part_shift, 40);
    assert_eq!(meta.replica_count, 255);
    assert_eq!(meta.devs.len(), 2);
    assert!(meta.devs[1].is_none());
    let dev = meta.devs[0].as_ref().unwrap();
    assert_eq!(dev.device, "sdb1");
    assert_eq!(dev.ip, "10.0.0.1");
    assert_eq!(dev.replication_ip, "10.0.0.2");
    assert_eq!(dev.weight, Weight::Unsigned(100));
    assert!(metadata_from_json(&JsonValue::Null).is_none());
    assert!(metadata_from_json(&object(vec![("devs", JsonValue::Array(Vec::new()))])).is_none());
    assert!(device_from_json(&JsonValue::Array(vec![device_value(1)])).is_none());
    assert!(device_from_json(&object(vec![("id", JsonValue::U64(1))])).is_none());
}

#[test]
fn members_and_numbers() {
    let members = vec![
        (String::from("a"), JsonValue::U64(1)),
        (String::from("b"), JsonValue::I64(-1)),
        (String::from("a"), JsonValue::U64(2)),
    ];
    assert!(matches!(find_member(&members, "a"), Some(JsonValue::U64(1))));
    assert!(matches!(find_member(&members, "b"), Some(JsonValue::I64(-1))));
    assert!(find_member(&members, "c").is_none());
    assert_eq!(read_unsigned(&JsonValue::U64(255), 255), Some(255));
    assert_eq!(read_unsigned(&JsonValue::U64(256), 255), None);
    assert_eq!(read_unsigned(&JsonValue::I64(7), 255), Some(7));
    assert_eq!(read_unsigned(&JsonValue::I64(-7), 255), None);
    assert_eq!(read_unsigned(&JsonValue::F64(7.0f64.to_bits()), 255), None);
    assert_eq!(read_unsigned(&JsonValue::String(String::from("7")), 255), None);
    assert_eq!(read_unsigned(&JsonValue::U64(u64::MAX), u64::MAX), Some(u64::MAX));
}

#[test]
fn nesting_is_limited() {
    let nested = |depth: usize| format!("{}{}", "[".repeat(depth), "]".repeat(depth));
    assert!(check_limits(nested(128).as_bytes()));
    assert!(!check_limits(nested(129).as_bytes()));
    assert!(check_limits(format!("[{}]", "{\"a\":[]},".repeat(5000)).as_bytes()));
    assert!(check_limits(format!("\"{}\"", "[".repeat(1000)).as_bytes()));
    assert!(check_limits(format!("\"\\\"{}\"", "{".repeat(1000)).as_bytes()));
    assert!(!check_limits(format!("\"\\\\\"{}\"", "{".repeat(1000)).as_bytes()));
    assert!(check_limits(format!("{}{}", "[]".repeat(1000), "[".repeat(128)).as_bytes()));
    assert!(!check_limits(format!("[\"]]]]\", {}", "[".repeat(128)).as_bytes()));
    assert!(read_document(nested(128).as_bytes()).is_some());
    assert!(read_document(nested(129).as_bytes()).is_none());
    assert!(read_document("[".repeat(200000).as_bytes()).is_none());
    assert!(read_document(nested(200000).as_bytes()).is_none());
    let deep = format!("{{\"devs\": {}, \"part_shift\": 32, \"replica_count\": 0}}", nested(100000));
    assert_eq!(decode_payload(&container(&deep, &[])).err(), Some(FormatError::BadMetadata));
    let ring = Ring::decode_ring_file(&gzip(&container(&deep, &[])));
    assert_eq!(ring.err(), Some(RingError::Format(FormatError::BadMetadata)));
    let ignored = format!("{{\"devs\": [], \"part_shift\": 31, \"replica_count\": 1, \"x\": {}}}", nested(100));
    let (meta, table) = decode_payload(&container(&ignored, &[vec![7, 8]])).unwrap();
    assert_eq!(meta.replica_count, 1);
    assert_eq!(table, vec![vec![7u16, 8]]);
}

#[test]
fn comma_before_the_end_of_an_object_is_bad_metadata() {
    assert!(!check_limits(b"[{\"x\":{\"a\":1,},\"y\":2}]"));
    assert!(read_document(b"[{\"x\":{\"a\":1,},\"y\":2}]").is_none());
    assert!(read_document(b"[{\"x\":{\"a\":1, \t\r\n},\"y\":2}]").is_none());
    assert!(read_document(b"{\"a\":1,}").is_none());
    assert!(read_document(b"[{\"a\":1,}]").is_none());
    assert!(read_document(b"{\"a\":{\"b\":[1],}}").is_none());
    assert!(read_document(b"[{\"x\":{\"a\":1},\"y\":2}]").is_some());
    assert!(read_document(b"{\"a\":\",}\"}").is_some());
    assert!(read_document(b"[1,]").is_none());
    let dev = device_json(1).replace("\"zone\": 3}", "\"zone\": 3, \"meta\": {\"a\": 1,}, \"b\": 2}");
    let json = format!("{{\"devs\": [{}], \"part_shift\": 32, \"replica_count\": 0}}", dev);
    assert_eq!(decode_payload(&container(&json, &[])).err(), Some(FormatError::BadMetadata));
    let json = metadata_json(&[Some(0)], 30, 1).replace("\"zone\": 3}", "\"zone\": 3,}");
    assert_eq!(
        Ring::decode_ring_file(&gzip(&container(&json, &[vec![0, 0, 0, 0]]))).err(),
        Some(RingError::Format(FormatError::BadMetadata))
    );
}

#[test]
fn exponents_are_limited() {
    assert!(check_limits(b"1e123456789"));
    assert!(check_limits(b"1E+123456789"));
    assert!(check_limits(b"1e-000000001"));
    assert!(!check_limits(b"1e1234567890"));
    assert!(!check_limits(b"1E-1234567890"));
    assert!(!check_limits(b"1e11111111111111111111"));
    assert!(check_limits(b"\"1e11111111111111111111\""));
    assert!(check_limits(b"12345678901234567890"));
    assert!(check_limits(b"[1e1, 22222222222]"));
    assert!(check_limits(b"1e+-1234567890"));
    assert!(read_document(b"1e11111111111111111111").is_none());
    assert!(read_document(b"[1.5e3]").is_some());
    assert!(matches!(read_document(b"0e999"), Some(JsonValue::F64(_))));
    let json = device_json(1).replace("3000.592982016", "1e11111111111111111111");
    let json = format!("{{\"devs\": [{}], \"part_shift\": 32, \"replica_count\": 0}}", json);
    assert_eq!(decode_payload(&container(&json, &[])).err(), Some(FormatError::BadMetadata));
    let json = device_json(1).replace("3000.592982016", "1e2");
    let json = format!("{{\"devs\": [{}], \"part_shift\": 32, \"replica_count\": 0}}", json);
    let (meta, _) = decode_payload(&container(&json, &[])).unwrap();
    match meta.devs[0].as_ref().unwrap().weight {
        Weight::Real(bits) => assert!((f64::from_bits(bits) - 100.0).abs() < 0.001),
        _ => panic!("the weight is a real number"),
    }
}

#[test]
fn keys_are_limited_and_other_strings_are_not() {
    let quoted = |n: usize| format!("\"{}\"", "k".repeat(n));
    assert!(check_limits(quoted(100000).as_bytes()));
    assert!(check_limits(format!("[{}, {}]", quoted(5000), quoted(70000)).as_bytes()));
    assert!(check_limits(format!("{{{}: {}}}", quoted(511), quoted(70000)).as_bytes()));
    assert!(!check_limits(format!("{{{}: 1}}", quoted(512)).as_bytes()));
    assert!(!check_limits(format!("{{{} \n: 1}}", quoted(512)).as_bytes()));
    assert!(check_limits(format!("{{\"{}\": 1}}", "\\n".repeat(255)).as_bytes()));
    assert!(!check_limits(format!("{{\"{}\": 1}}", "\\n".repeat(256)).as_bytes()));
    assert!(read_document(quoted(70000).as_bytes()).is_some());
    assert!(read_document(format!("{{{}: 1}}", quoted(511)).as_bytes()).is_some());
    assert!(read_document(format!("{{{}: 1}}", quoted(70000)).as_bytes()).is_none());
    let long_key = format!("{{{}: {{\"\u{e9}\": 1}}}}", quoted(65535));
    assert!(read_document(long_key.as_bytes()).is_none());
    let json = format!("{{\"devs\": [], \"part_shift\": 32, \"replica_count\": 0, {}: 1}}", quoted(512));
    assert_eq!(decode_payload(&container(&json, &[])).err(), Some(FormatError::BadMetadata));
    let name = "n".repeat(5000);
    let dev = device_json(1).replace("\"d1\"", &format!("\"{}\"", name));
    let json = format!("{{\"devs\": [{}], \"part_shift\": 33, \"replica_count\": 1}}", dev);
    assert_eq!(decode_payload(&container(&json, &[])).err(), Some(FormatError::InvalidShift));
    let json = format!("{{\"devs\": [{}], \"part_shift\": 31, \"replica_count\": 1}}", dev);
    assert_eq!(decode_payload(&container(&json, &[vec![1]])).err(), Some(FormatError::Truncated));
    let ring = Ring::decode_ring_file(&gzip(&container(&json, &[vec![1, 9]]))).unwrap();
    assert_eq!(ring.get_part_nodes(0)[0].device, name);
    assert_eq!(ring.get_part_nodes(1).len(), 0);
}

#[test]
fn many_devices_are_within_the_limits() {
    let slots: Vec<Option<u32>> = (0..3000).map(|id| if id % 7 == 3 { None } else { Some(id) }).collect();
    let json = metadata_json(&slots, 32, 1);
    let ring = Ring::decode_ring_file(&gzip(&container(&json, &[vec![2998]]))).unwrap();
    assert_eq!(ring.devices().len(), 2571);
    assert_eq!(ids(&ring, 0), vec![2998]);
}
