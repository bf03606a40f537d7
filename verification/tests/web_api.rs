use nesstar_core::dataset::discover_layout;
use nesstar_core::ddi::{XmlAttribute, XmlElement, XmlEvent};
use nesstar_core::model::CellValue;
use nesstar_core::source::ReadOnlySource;
use nesstar_core::web::{
    convert_from_events, convert_nesstar, dataset_info_from_events, export_mode, get_dataset_info,
    preview_from_events, preview_nesstar, ExportMode,
};

fn attr(key: &str, value: &str) -> XmlAttribute {
    let number = value.parse::<f64>().map(f64::to_bits).map_err(|e| e.to_string());
    XmlAttribute::Entry { key: key.as_bytes().to_vec(), value: Ok(value.to_string()), number }
}

fn tag(name: &str, attrs: &[(&str, &str)]) -> XmlElement {
    XmlElement {
        name: name.as_bytes().to_vec(),
        attributes: attrs.iter().map(|(k, v)| attr(k, v)).collect(),
    }
}

fn people_codebook() -> Vec<XmlEvent> {
    vec![
        XmlEvent::Start(tag("codeBook", &[])),
        XmlEvent::Start(tag("fileDscr", &[("ID", "F1"), ("URI", "data.Nesstar?Name=people")])),
        XmlEvent::Start(tag("caseQnty", &[])),
        XmlEvent::Text(Ok("2".to_string())),
        XmlEvent::End(b"caseQnty".to_vec()),
        XmlEvent::End(b"fileDscr".to_vec()),
        XmlEvent::Start(tag("var", &[("name", "NAME"), ("files", "F1")])),
        XmlEvent::Start(tag("labl", &[])),
        XmlEvent::Text(Ok("Given name".to_string())),
        XmlEvent::End(b"labl".to_vec()),
        XmlEvent::Empty(tag("varFormat", &[("type", "character")])),
        XmlEvent::End(b"var".to_vec()),
        XmlEvent::Start(tag("var", &[("name", "AGE"), ("files", "F1")])),
        XmlEvent::Empty(tag("location", &[("width", "3")])),
        XmlEvent::Empty(tag("range", &[("min", "0"), ("max", "200")])),
        XmlEvent::Empty(tag("varFormat", &[("type", "numeric")])),
        XmlEvent::End(b"var".to_vec()),
        XmlEvent::Start(tag("var", &[("name", "SCORE"), ("files", "F1")])),
        XmlEvent::Empty(tag("varFormat", &[("type", "numeric"), ("dcml", "1")])),
        XmlEvent::End(b"var".to_vec()),
        XmlEvent::End(b"codeBook".to_vec()),
        XmlEvent::Eof,
    ]
}

fn slot(var_num: u32, ascii: bool, double: bool, char_width: u8, name: &str) -> Vec<u8> {
    let mut slot = vec![0u8; 160];
    slot[0..4].copy_from_slice(&var_num.to_le_bytes());
    slot[4] = if ascii { 1 } else { 0 };
    slot[5] = if double { 10 } else { 0 };
    slot[14] = char_width;
    for (i, unit) in name.encode_utf16().enumerate() {
        slot[63 + 2 * i..65 + 2 * i].copy_from_slice(&unit.to_le_bytes());
    }
    slot
}

/// A metadata-scan container with two rows of NAME (text), AGE (offset
/// integer) and SCORE (double).
fn people_container() -> Vec<u8> {
    let mut data = b"NESSTART".to_vec();
    data.extend(std::iter::repeat(0u8).take(40));
    data.extend_from_slice(b"ann bob ");
    data.extend_from_slice(&[30, 41]);
    data.extend_from_slice(&1.5f64.to_le_bytes());
    data.extend_from_slice(&2.0f64.to_le_bytes());
    data.extend(slot(1, true, false, 4, "NAME"));
    data.extend(slot(2, false, false, 0, "AGE"));
    data.extend(slot(3, false, true, 0, "SCORE"));
    data
}

fn format_double(bits: u64, precision: usize) -> String {
    format!("{:.*}", precision, f64::from_bits(bits))
}

#[test]
fn summarises_the_first_block() {
    let info = dataset_info_from_events(&people_codebook()).unwrap();
    assert_eq!(info.name, "people");
    assert_eq!(info.row_count, 2);
    assert_eq!(info.column_count, 3);
    assert_eq!(info.columns[0].name, "NAME");
    assert_eq!(info.columns[0].label, "Given name");
    assert_eq!(info.columns[0].declared_type, "Character");
    assert_eq!(info.columns[1].declared_type, "Numeric");
    assert_eq!(info.columns[1].width, 3);
}

#[test]
fn summary_shows_other_types_in_debug_form() {
    let events = vec![
        XmlEvent::Empty(tag("fileDscr", &[("ID", "F1")])),
        XmlEvent::Start(tag("var", &[("name", "D"), ("files", "F1")])),
        XmlEvent::Empty(tag("varFormat", &[("type", "Da\"te")])),
        XmlEvent::End(b"var".to_vec()),
        XmlEvent::Eof,
    ];
    let info = dataset_info_from_events(&events).unwrap();
    assert_eq!(info.name, "F1");
    assert_eq!(info.columns[0].declared_type, "Other(\"da\\\"te\")");
}

#[test]
fn previews_the_first_rows() {
    let preview = preview_from_events(&people_container(), &people_codebook(), 1, &format_double).unwrap();
    assert_eq!(preview.headers, ["NAME", "AGE", "SCORE"]);
    assert_eq!(preview.rows, vec![vec!["ann".to_string(), "30".to_string(), "1.5".to_string()]]);
    assert_eq!(preview.total_rows, 2);
    assert_eq!(preview.total_cols, 3);
    let all = preview_from_events(&people_container(), &people_codebook(), 0, &format_double).unwrap();
    assert_eq!(all.rows.len(), 2);
    assert_eq!(all.rows[1], ["bob", "41", "2"]);
}

#[test]
fn exports_every_row_in_each_format() {
    let data = people_container();
    let events = people_codebook();
    let csv = convert_from_events(&data, &events, "csv", &format_double).unwrap();
    assert_eq!(String::from_utf8(csv).unwrap(), "NAME,AGE,SCORE\nann,30,1.5\nbob,41,2\n");
    let tsv = convert_from_events(&data, &events, "TXT", &format_double).unwrap();
    assert_eq!(String::from_utf8(tsv).unwrap(), "NAME\tAGE\tSCORE\nann\t30\t1.5\nbob\t41\t2\n");
    let lines = convert_from_events(&data, &events, "jsonl", &format_double).unwrap();
    assert_eq!(
        String::from_utf8(lines).unwrap(),
        "{\"AGE\":\"30\",\"NAME\":\"ann\",\"SCORE\":\"1.5\"}\n{\"AGE\":\"41\",\"NAME\":\"bob\",\"SCORE\":\"2\"}\n"
    );
    let json = convert_from_events(&data, &events, "Json", &format_double).unwrap();
    assert_eq!(
        String::from_utf8(json).unwrap(),
        "[\n{\"AGE\":\"30\",\"NAME\":\"ann\",\"SCORE\":\"1.5\"},\n{\"AGE\":\"41\",\"NAME\":\"bob\",\"SCORE\":\"2\"}\n]\n"
    );
}

#[test]
fn reports_each_kind_of_failure() {
    let events = people_codebook();
    let mut bad_magic = people_container();
    bad_magic[0] = b'X';
    assert_eq!(
        convert_from_events(&bad_magic, &events, "csv", &format_double).unwrap_err(),
        "Binary Error: invalid source `in-memory.Nesstar`: first eight bytes are not NESSTART"
    );
    assert_eq!(
        convert_from_events(b"NESS", &events, "csv", &format_double).unwrap_err(),
        "Binary Error: invalid source `in-memory.Nesstar`: file is shorter than the NESSTART header"
    );
    let mut empty = b"NESSTART".to_vec();
    empty.extend(std::iter::repeat(0u8).take(64));
    assert_eq!(
        convert_from_events(&empty, &events, "csv", &format_double).unwrap_err(),
        "Layout Error: metadata layout for block `F1` could not be found"
    );
    assert_eq!(
        preview_from_events(&people_container(), &vec![XmlEvent::Eof], 5, &format_double).err(),
        Some("DDI XML contains no data blocks".to_string())
    );
    let broken = vec![XmlEvent::End(b"fileDscr".to_vec())];
    assert_eq!(
        dataset_info_from_events(&broken).err(),
        Some("DDI Error: invalid DDI: closing fileDscr without opening element".to_string())
    );
}

#[test]
fn export_mode_ignores_ascii_case() {
    assert_eq!(export_mode("JSONL"), ExportMode::Jsonl);
    assert_eq!(export_mode("json"), ExportMode::Json);
    assert_eq!(export_mode("Tsv"), ExportMode::Tsv);
    assert_eq!(export_mode("txt"), ExportMode::Tsv);
    assert_eq!(export_mode("xlsx"), ExportMode::Csv);
    assert_eq!(export_mode("ndjson"), ExportMode::Csv);
}

fn resource_codebook() -> Vec<XmlEvent> {
    let mut events = vec![
        XmlEvent::Start(tag("fileDscr", &[("ID", "F1"), ("URI", "x?Name=codes")])),
        XmlEvent::Start(tag("caseQnty", &[])),
        XmlEvent::Text(Ok("3".to_string())),
        XmlEvent::End(b"caseQnty".to_vec()),
        XmlEvent::End(b"fileDscr".to_vec()),
    ];
    for (name, kind) in [("CODE", "numeric"), ("TEXT", "character"), ("NIB", "numeric")] {
        events.push(XmlEvent::Start(tag("var", &[("name", name), ("files", "F1")])));
        events.push(XmlEvent::Empty(tag("varFormat", &[("type", kind)])));
        events.push(XmlEvent::End(b"var".to_vec()));
    }
    events.push(XmlEvent::Eof);
    events
}

fn entry(index: u32, name: &str, format: u8, offset: i64, record: u32, width: u8, mode: u8) -> Vec<u8> {
    let mut e = vec![0u8; 160];
    e[0..4].copy_from_slice(&index.to_le_bytes());
    e[5] = format;
    e[6..14].copy_from_slice(&offset.to_le_bytes());
    e[15..19].copy_from_slice(&record.to_le_bytes());
    for (i, unit) in name.encode_utf16().enumerate() {
        e[63 + 2 * i..65 + 2 * i].copy_from_slice(&unit.to_le_bytes());
    }
    e[149] = width;
    e[159] = mode;
    e
}

/// A resource-index container with three rows of CODE (one-byte compact
/// integers with an offset), TEXT (four-byte text) and NIB (nibbles).
fn resource_container() -> Vec<u8> {
    let mut data = b"NESSTART".to_vec();
    data.resize(64, 0);
    data[0x2b] = 1;
    data[0x2d..0x2f].copy_from_slice(&26u16.to_le_bytes());
    data[0x2f..0x33].copy_from_slice(&1u32.to_le_bytes());
    let mut records: Vec<(u32, usize, usize)> = Vec::new();
    let mut add = |data: &mut Vec<u8>, id: u32, bytes: &[u8]| {
        records.push((id, data.len(), bytes.len()));
        data.extend_from_slice(bytes);
    };
    let mut descriptor = vec![0u8; 26];
    descriptor[0..4].copy_from_slice(&1u32.to_le_bytes());
    descriptor[4..8].copy_from_slice(&3u32.to_le_bytes());
    descriptor[8..12].copy_from_slice(&3u32.to_le_bytes());
    descriptor[20..22].copy_from_slice(&160u16.to_le_bytes());
    descriptor[22..26].copy_from_slice(&2u32.to_le_bytes());
    add(&mut data, 1, &descriptor);
    let mut directory = entry(0, "CODE", 3, 100, 3, 1, 5);
    directory.extend(entry(1, "TEXT", 0, 0, 4, 4, 0));
    directory.extend(entry(2, "NIB", 2, 0, 5, 0, 0));
    add(&mut data, 2, &directory);
    add(&mut data, 3, &[5, 255, 7]);
    add(&mut data, 4, b"ab  cd  ef  ");
    add(&mut data, 5, &[0x12, 0xF0]);
    let index = data.len() as u64;
    data[0x25..0x2B].copy_from_slice(&index.to_le_bytes()[..6]);
    data.extend_from_slice(&(records.len() as u32).to_le_bytes());
    for (id, offset, length) in records {
        data.extend_from_slice(&id.to_le_bytes());
        data.extend_from_slice(&(offset as u64).to_le_bytes()[..6]);
        data.extend_from_slice(&(length as u32).to_le_bytes());
        data.push(0);
    }
    data
}

#[test]
fn exports_a_resource_index_container() {
    let data = resource_container();
    let events = resource_codebook();
    let csv = convert_from_events(&data, &events, "csv", &format_double).unwrap();
    assert_eq!(String::from_utf8(csv).unwrap(), "CODE,TEXT,NIB\n105,ab,1\n,cd,2\n107,ef,\n");
    let preview = preview_from_events(&data, &events, 2, &format_double).unwrap();
    assert_eq!(preview.headers, ["CODE", "TEXT", "NIB"]);
    assert_eq!(preview.rows, vec![vec!["105", "ab", "1"], vec!["", "cd", "2"]]);
    assert_eq!(preview.total_rows, 3);
}

#[test]
fn batches_of_any_size_decode_the_same_rows() {
    let metadata = nesstar_core::ddi::parse_ddi_events(&resource_codebook()).unwrap();
    let source = ReadOnlySource::from_bytes(resource_container()).unwrap();
    let layout = discover_layout(source.bytes(), &metadata.blocks[0]).unwrap();
    let rows = layout.row_total().unwrap();
    let mut by_size: Vec<Vec<Vec<CellValue>>> = Vec::new();
    for size in 1..=rows {
        let mut columns: Vec<Vec<CellValue>> = vec![Vec::new(); 3];
        let mut start = 0;
        while start < rows {
            let count = size.min(rows - start);
            let batch = layout.decode_batch(&source, rows, start, count, &format_double).unwrap();
            for (k, column) in batch.into_iter().enumerate() {
                columns[k].extend(column.values);
            }
            start += count;
        }
        by_size.push(columns);
    }
    assert!(by_size.windows(2).all(|pair| pair[0] == pair[1]));
    assert_eq!(by_size[0][0], [CellValue::Text("105".into()), CellValue::Missing, CellValue::Text("107".into())]);
}

const PEOPLE_XML: &str = r#"<?xml version="1.0" encoding="UTF-8"?>
<codeBook xmlns="ddi:codebook:2_5">
  <fileDscr ID="F1" URI="data.Nesstar?Name=people"><caseQnty>2</caseQnty></fileDscr>
  <var name="NAME" files="F1"><labl>Given name</labl><varFormat type="character"/></var>
  <var name="AGE" files="F1"><location width="3"/><range min="0" max="200"/><varFormat type="numeric"/></var>
  <var name="SCORE" files="F1"><varFormat type="numeric" dcml="1"/></var>
</codeBook>
"#;

fn parse_number(text: &str) -> Result<u64, String> {
    text.parse::<f64>().map(f64::to_bits).map_err(|e| e.to_string())
}

#[test]
fn codebook_text_drives_the_web_api() {
    let info = get_dataset_info(PEOPLE_XML, &parse_number).unwrap();
    assert_eq!(info.name, "people");
    assert_eq!(info.row_count, 2);
    assert_eq!(info.columns[0].label, "Given name");
    assert_eq!(info.columns[1].width, 3);
    let preview = preview_nesstar(&people_container(), PEOPLE_XML, 1, &format_double, &parse_number).unwrap();
    assert_eq!(preview.rows, vec![vec!["ann".to_string(), "30".to_string(), "1.5".to_string()]]);
    let csv = convert_nesstar(&people_container(), PEOPLE_XML, "csv", &format_double, &parse_number).unwrap();
    assert_eq!(String::from_utf8(csv).unwrap(), "NAME,AGE,SCORE\nann,30,1.5\nbob,41,2\n");
}

#[test]
fn broken_codebook_text_is_reported() {
    assert_eq!(
        get_dataset_info("<codeBook></codeBook>", &parse_number).err(),
        Some("DDI XML contains no data blocks".to_string())
    );
    let error = convert_nesstar(&people_container(), "<codeBook><x></codeBook>", "csv", &format_double, &parse_number)
        .unwrap_err();
    assert!(error.starts_with("DDI Error: invalid DDI: XML parse error: "), "{error}");
}
