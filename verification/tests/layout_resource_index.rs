use nesstar_core::layout::resource_index::{parse_resource_index, ResourceLayoutError, ResourceRecord};

fn container(records: &[(u32, u64, u32)], extra: usize) -> Vec<u8> {
    let mut data = b"NESSTART".to_vec();
    data.resize(64 + extra, 0);
    let index = data.len() as u64;
    data[0x25..0x2B].copy_from_slice(&index.to_le_bytes()[..6]);
    data.extend_from_slice(&(records.len() as u32).to_le_bytes());
    for (id, offset, length) in records {
        data.extend_from_slice(&id.to_le_bytes());
        data.extend_from_slice(&offset.to_le_bytes()[..6]);
        data.extend_from_slice(&length.to_le_bytes());
        data.push(0);
    }
    data
}

#[test]
fn reads_the_trailing_record_index() {
    let data = container(&[(7, 0, 8), (9, 8, 56)], 0);
    let records = parse_resource_index(&data).unwrap();
    assert_eq!(records.len(), 2);
    assert_eq!(records[&7], ResourceRecord { record_id: 7, offset: 0, length: 8 });
    assert_eq!(records[&9], ResourceRecord { record_id: 9, offset: 8, length: 56 });
}

#[test]
fn rejects_truncated_resource_index() {
    let mut data = container(&[(7, 0, 8)], 0);
    data.truncate(data.len() - 3);
    assert_eq!(
        parse_resource_index(&data),
        Err(ResourceLayoutError::OutOfBounds { context: "records", start: 68, end: 83, length: 80 })
    );
    let empty = vec![0u8; 64];
    assert_eq!(parse_resource_index(&empty), Err(ResourceLayoutError::EmptyIndex));
    let outside = container(&[(7, 60, 100)], 0);
    assert!(matches!(
        parse_resource_index(&outside),
        Err(ResourceLayoutError::OutOfBounds { context: "record payload", .. })
    ));
}
