use nesstar_core::layout::metadata_scan::{
    compute_binary_width, count_metadata_slots, find_metadata_sections, range_needs_more_than, read_metadata_slots,
    width_for_range, MetadataEncoding, MetadataLayoutError, MetadataSlot,
};
use nesstar_core::model::{BlockDefinition, DeclaredType, NumericRange, VariableDefinition};

fn slot(var_num: u32, flag4: u8, flag5: u8, char_width: u8, name: &str) -> Vec<u8> {
    let mut slot = vec![0u8; 160];
    slot[0..4].copy_from_slice(&var_num.to_le_bytes());
    slot[4] = flag4;
    slot[5] = flag5;
    slot[14] = char_width;
    for (i, unit) in name.encode_utf16().enumerate() {
        slot[63 + 2 * i..65 + 2 * i].copy_from_slice(&unit.to_le_bytes());
    }
    slot
}

fn number(name: &str, minimum: f64, maximum: f64, ddi_width: u32) -> VariableDefinition {
    VariableDefinition {
        name: name.into(),
        label: String::new(),
        declared_type: DeclaredType::Numeric,
        ddi_width,
        decimals: 0,
        range: Some(NumericRange { minimum: Some(minimum.to_bits()), maximum: Some(maximum.to_bits()) }),
        referenced_file_ids: vec![],
    }
}

#[test]
fn refuses_width_reduction_that_cannot_represent_range() {
    let variable = number("NUMBER", 0.0, 400_000.0, 6);
    let slot = MetadataSlot {
        var_num: 1,
        encoding: MetadataEncoding::OffsetInteger,
        char_width: 0,
        name: "NUMBER".into(),
        slot_index: 0,
    };
    assert_eq!(compute_binary_width(&variable, &slot).unwrap(), 3);
    assert!(range_needs_more_than(&variable.range, 2));
    assert!(!range_needs_more_than(&variable.range, 3));
}

#[test]
fn offset_widths_follow_the_declared_range() {
    assert_eq!(width_for_range(&None, 2), 1);
    assert_eq!(width_for_range(&None, 3), 2);
    assert_eq!(width_for_range(&number("X", -2.0, 300.0, 3).range, 3), 2);
    assert_eq!(width_for_range(&number("X", 5.0, 5.0, 3).range, 3), 1);
    let text = MetadataSlot {
        var_num: 1,
        encoding: MetadataEncoding::FixedAscii,
        char_width: 0,
        name: "T".into(),
        slot_index: 0,
    };
    assert_eq!(
        compute_binary_width(&number("T", 0.0, 1.0, 1), &text),
        Err(MetadataLayoutError::ZeroWidth { variable: "T".into() })
    );
}

#[test]
fn slots_are_counted_until_the_first_invalid_one() {
    let mut data = vec![0u8; 8];
    data.extend(slot(1, 1, 0, 4, "NAME"));
    data.extend(slot(2, 0, 10, 0, "SCORE"));
    data.extend(slot(0, 0, 0, 0, "GONE"));
    assert_eq!(count_metadata_slots(&data, 8, 200), 2);
    assert_eq!(count_metadata_slots(&data, 8, 1), 1);
    let slots = read_metadata_slots(&data, 8, 2).unwrap();
    assert_eq!(slots[0].name, "NAME");
    assert_eq!(slots[0].encoding, MetadataEncoding::FixedAscii);
    assert_eq!(slots[0].char_width, 4);
    assert_eq!(slots[1].encoding, MetadataEncoding::LittleEndianDouble);
    assert_eq!(slots[1].slot_index, 1);
    assert_eq!(slots[1].var_num, 2);
}

#[test]
fn rejects_truncated_requested_metadata_slot() {
    let mut data = vec![0u8; 8];
    data.extend(slot(1, 1, 0, 4, "NAME"));
    data.truncate(100);
    assert_eq!(count_metadata_slots(&data, 8, 200), 0);
    assert_eq!(
        read_metadata_slots(&data, 8, 1),
        Err(MetadataLayoutError::TruncatedSlot { slot_index: 0, offset: 8 })
    );
    let error = MetadataLayoutError::TruncatedSlot { slot_index: 0, offset: 8 };
    assert_eq!(error.message(), "metadata slot 0 at offset 8 is truncated");
    let counts = MetadataLayoutError::IncompatibleSlotCount { ddi_count: 3, slot_count: 9 };
    assert_eq!(counts.message(), "DDI has 3 variables but metadata has 9 slots");
}

#[test]
fn unreadable_slot_names_fall_back_to_the_number() {
    let mut data = vec![0u8; 8];
    let mut bad = slot(7, 0, 0, 0, "");
    bad[63..65].copy_from_slice(&0xD800u16.to_le_bytes());
    data.extend(bad);
    let slots = read_metadata_slots(&data, 8, 1).unwrap();
    assert_eq!(slots[0].name, "var_7");
    assert_eq!(slots[0].encoding, MetadataEncoding::OffsetInteger);
}

#[test]
fn a_table_needs_its_last_name_to_match() {
    let block = BlockDefinition {
        file_id: "F1".into(),
        file_id_number: 1,
        name: "people".into(),
        row_count: 0,
        variables: vec![number("NAME", 0.0, 1.0, 1), number("SCORE", 0.0, 1.0, 1)],
    };
    let mut wrong = vec![0u8; 8];
    wrong.extend(slot(1, 1, 0, 4, "NAME"));
    wrong.extend(slot(2, 0, 10, 0, "OTHER"));
    assert!(find_metadata_sections(&wrong, std::slice::from_ref(&block)).is_empty());
    let mut right = vec![0u8; 8];
    right.extend(slot(1, 1, 0, 4, "NAME"));
    right.extend(slot(2, 0, 10, 0, "SCORE"));
    assert_eq!(find_metadata_sections(&right, std::slice::from_ref(&block)), vec![("F1".to_string(), 8)]);
}
