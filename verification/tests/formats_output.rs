use nesstar_core::decode::{ColumnBatch, RecordBatch};
use nesstar_core::formats::dta::DtaOutput;
use nesstar_core::formats::fwf::FixedWidthOutput;
use nesstar_core::formats::json::{JsonMode, JsonOutput};
use nesstar_core::formats::spss::SpssOutput;
use nesstar_core::model::{CellValue, DeclaredType, VariableDefinition};

fn batch(start: u64, columns: &[(&str, Vec<Option<&str>>)]) -> RecordBatch {
    let row_count = columns.first().map(|c| c.1.len()).unwrap_or(0);
    RecordBatch {
        start_row: start,
        row_count,
        columns: columns
            .iter()
            .map(|(name, values)| ColumnBatch {
                variable_name: name.to_string(),
                values: values
                    .iter()
                    .map(|v| match v {
                        Some(t) => CellValue::Text(t.to_string()),
                        None => CellValue::Missing,
                    })
                    .collect(),
            })
            .collect(),
    }
}

fn variable(name: &str, declared_type: DeclaredType, ddi_width: u32) -> VariableDefinition {
    VariableDefinition {
        name: name.into(),
        label: String::new(),
        declared_type,
        ddi_width,
        decimals: 0,
        range: None,
        referenced_file_ids: vec![],
    }
}

fn parse_double(text: &str) -> Option<u64> {
    text.parse::<f64>().ok().map(f64::to_bits)
}

#[test]
fn json_array_and_lines() {
    let headers = vec!["A".to_string(), "B".to_string()];
    let (mut array, opening) = JsonOutput::create(&headers, JsonMode::Array);
    assert_eq!(opening, "[");
    let first = batch(0, &[("A", vec![Some("x\"y")]), ("B", vec![None])]);
    let second = batch(1, &[("A", vec![Some("tab\there")]), ("B", vec![Some("\u{1}")])]);
    assert_eq!(array.write_batch(&first).unwrap(), "{\"A\":\"x\\\"y\",\"B\":\"\"}");
    assert_eq!(array.write_batch(&second).unwrap(), ",{\"A\":\"tab\\there\",\"B\":\"\\u0001\"}");
    assert_eq!(array.finish(), "]\n");
    let (mut lines, opening) = JsonOutput::create(&headers, JsonMode::Lines);
    assert_eq!(opening, "");
    assert_eq!(lines.write_batch(&first).unwrap(), "{\"A\":\"x\\\"y\",\"B\":\"\"}\n");
    assert_eq!(lines.finish(), "");
    let narrow = batch(0, &[("A", vec![Some("1")])]);
    assert_eq!(
        format!("{:?}", lines.write_batch(&narrow)),
        "Err(Unsupported(\"JSON batch schema differs from header\"))"
    );
}

#[test]
fn fixed_width_lines_are_padded_and_trimmed() {
    let headers = vec!["A".to_string(), "LONGNAME".to_string()];
    let (out, header) = FixedWidthOutput::create(&headers, &vec![0, 12]).unwrap();
    assert_eq!(out.widths, [11, 13]);
    assert_eq!(header, "A          LONGNAME\n");
    let rows = batch(0, &[("A", vec![Some("x"), None]), ("LONGNAME", vec![None, Some("yz")])]);
    assert_eq!(out.write_batch(&rows), "x\n           yz\n");
    assert!(FixedWidthOutput::create(&headers, &vec![1]).is_err());
}

#[test]
fn stata_file_has_its_sections() {
    let vars = vec![
        variable("NAME", DeclaredType::Character, 5),
        variable("AGE", DeclaredType::Numeric, 3),
    ];
    let headers = vec!["NAME".to_string(), "AGE".to_string()];
    let mut out = DtaOutput::new(&headers, &vars);
    out.write_batch(&batch(0, &[("NAME", vec![Some("ann")]), ("AGE", vec![Some("30")])]), &parse_double);
    out.write_batch(&batch(1, &[("NAME", vec![None]), ("AGE", vec![Some("n/a")])]), &parse_double);
    assert_eq!(out.nobs, 2);
    let file = out.finish(&vars);
    let text = String::from_utf8_lossy(&file);
    assert!(text.starts_with("<stata_dta><header><release>118</release>"));
    assert!(text.contains("<variable_types>"));
    assert!(file.ends_with(b"</stata_dta>"));
    let data_at = file.windows(6).position(|w| w == b"<data>").unwrap() + 6;
    assert_eq!(&file[data_at..data_at + 5], b"ann\0\0");
    assert_eq!(&file[data_at + 5..data_at + 13], &30.0f64.to_le_bytes());
}

#[test]
fn spss_file_has_its_header() {
    let vars = vec![
        variable("NAME", DeclaredType::Character, 5),
        variable("AGE", DeclaredType::Numeric, 3),
    ];
    let mut out = SpssOutput::new(&vars);
    out.write_batch(&batch(0, &[("NAME", vec![Some("ann")]), ("AGE", vec![Some("30")])]), &parse_double);
    let file = out.finish(&vars);
    assert!(file.starts_with(b"$FL2"));
    assert_eq!(out.nobs, 1);
    assert!(file.ends_with(&30.0f64.to_le_bytes()));
}

fn find(file: &[u8], tag: &[u8]) -> usize {
    file.windows(tag.len()).position(|w| w == tag).unwrap()
}

fn i32_at(file: &[u8], at: usize) -> i32 {
    i32::from_le_bytes([file[at], file[at + 1], file[at + 2], file[at + 3]])
}

#[test]
fn stata_map_points_at_each_section() {
    let vars = vec![
        variable("NAME", DeclaredType::Character, 5),
        variable("AGE", DeclaredType::Numeric, 3),
    ];
    let headers = vec!["NAME".to_string(), "AGE".to_string()];
    let mut out = DtaOutput::new(&headers, &vars);
    out.write_batch(&batch(0, &[("NAME", vec![Some("ann")]), ("AGE", vec![Some("30")])]), &parse_double);
    let file = out.finish(&vars);
    let map_at = find(&file, b"<map>");
    let slots: Vec<u64> = (0..14)
        .map(|i| {
            let at = map_at + 5 + 8 * i;
            let mut b = [0u8; 8];
            b.copy_from_slice(&file[at..at + 8]);
            u64::from_le_bytes(b)
        })
        .collect();
    let tags: [&[u8]; 12] = [
        b"<stata_dta>",
        b"<map>",
        b"<variable_types>",
        b"<varnames>",
        b"<sortlist>",
        b"<formats>",
        b"<value_label_names>",
        b"<variable_labels>",
        b"<characteristics>",
        b"<data>",
        b"<strls>",
        b"<value_labels>",
    ];
    for (i, tag) in tags.iter().enumerate() {
        assert_eq!(slots[i], find(&file, tag) as u64, "slot {}", i);
    }
    assert_eq!(slots[12], find(&file, b"</stata_dta>") as u64);
    assert_eq!(slots[13], file.len() as u64);
}

#[test]
fn spss_machine_record_and_formats() {
    let vars = vec![
        variable("NAME", DeclaredType::Character, 5),
        variable("AGE", DeclaredType::Numeric, 3),
    ];
    let mut out = SpssOutput::new(&vars);
    out.write_batch(&batch(0, &[("NAME", vec![Some("ann")]), ("AGE", vec![Some("30")])]), &parse_double);
    let file = out.finish(&vars);
    let head: Vec<u8> = [7i32, 3, 4, 8].iter().flat_map(|v| v.to_le_bytes()).collect();
    let at = find(&file, &head) + 16;
    let values: Vec<i32> = (0..8).map(|k| i32_at(&file, at + 4 * k)).collect();
    assert_eq!(values[4], 1);
    assert_eq!(values[6], 2);
    assert_eq!(values[7], 65001);
    let age = find(&file, b"AGE     ");
    assert_eq!(i32_at(&file, age - 8), (5 << 16) | (8 << 8) | 2);
    assert_eq!(i32_at(&file, age - 4), (5 << 16) | (8 << 8) | 2);
    let name = find(&file, b"NAME    ");
    assert_eq!(i32_at(&file, name - 8), (1 << 16) | (5 << 8));
    assert_eq!(i32_at(&file, name - 4), (1 << 16) | (5 << 8));
}
