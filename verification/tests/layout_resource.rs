use nesstar_core::layout::resource_index::{is_duplicate_payload, ResourceRecord};

#[test]
fn duplicate_payload_requires_matching_halves() {
    let record = ResourceRecord { record_id: 1, offset: 0, length: 4 };
    assert!(is_duplicate_payload(b"abab", &record, Some(2), 5, 0, 4));
    assert!(!is_duplicate_payload(b"abcd", &record, Some(2), 5, 0, 4));
}
