use nesstar_core::ddi::{parse_ddi_bytes, parse_ddi_events, DdiParser, XmlAttribute, XmlElement, XmlEvent};
use nesstar_core::error::NesstarError;
use nesstar_core::model::{DeclaredType, NumericRange};

fn attr(key: &str, value: &str) -> XmlAttribute {
    let number = value
        .parse::<f64>()
        .map(f64::to_bits)
        .map_err(|e| e.to_string());
    XmlAttribute::Entry { key: key.as_bytes().to_vec(), value: Ok(value.to_string()), number }
}

fn element(name: &str, attrs: &[(&str, &str)]) -> XmlElement {
    XmlElement {
        name: name.as_bytes().to_vec(),
        attributes: attrs.iter().map(|(k, v)| attr(k, v)).collect(),
    }
}

fn start(name: &str, attrs: &[(&str, &str)]) -> XmlEvent {
    XmlEvent::Start(element(name, attrs))
}

fn empty(name: &str, attrs: &[(&str, &str)]) -> XmlEvent {
    XmlEvent::Empty(element(name, attrs))
}

fn end(name: &str) -> XmlEvent {
    XmlEvent::End(name.as_bytes().to_vec())
}

fn text(value: &str) -> XmlEvent {
    XmlEvent::Text(Ok(value.to_string()))
}

fn reason(error: NesstarError) -> String {
    match error {
        NesstarError::InvalidDdi(reason) => reason,
        other => panic!("unexpected error {other:?}"),
    }
}

fn codebook(prefix: &str) -> Vec<XmlEvent> {
    let n = |local: &str| format!("{prefix}{local}");
    vec![
        start(&n("codeBook"), &[("xmlns", "ddi:codebook:2_5")]),
        start(&n("fileDscr"), &[("ID", "F1"), ("URI", "file:///data?Name=metadata-scan")]),
        start(&n("dimensns"), &[]),
        start(&n("caseQnty"), &[]),
        text(" 4 "),
        end(&n("caseQnty")),
        end(&n("dimensns")),
        end(&n("fileDscr")),
        start(&n("dataDscr"), &[]),
        start(&n("var"), &[("name", "ASCII"), ("files", "F1")]),
        empty(&n("location"), &[("width", "5")]),
        start(&n("labl"), &[]),
        text("Text value"),
        end(&n("labl")),
        empty(&n("varFormat"), &[("type", "character")]),
        end(&n("var")),
        start(&n("var"), &[("name", "OFFSET"), ("files", "F1")]),
        empty(&n("range"), &[("min", "-2"), ("max", "300")]),
        empty(&n("varFormat"), &[("type", "numeric"), ("dcml", "0")]),
        end(&n("var")),
        start(&n("var"), &[("name", "FLOAT"), ("files", "F1")]),
        empty(&n("varFormat"), &[("type", "NUMBER"), ("dcml", "3")]),
        end(&n("var")),
        end(&n("dataDscr")),
        end(&n("codeBook")),
        XmlEvent::Eof,
    ]
}

#[test]
fn rejects_invalid_numeric_contextually() {
    let error = parse_ddi_bytes(
        "<codeBook><fileDscr ID=\"F1\"><dimensns><caseQnty>nope</caseQnty></dimensns></fileDscr></codeBook>".as_bytes(),
        &parse_number,
    )
    .unwrap_err();
    assert!(error.message().contains("caseQnty"));
    assert_eq!(reason(error), "invalid caseQnty `nope`: invalid digit found in string");
}

#[test]
fn rejects_invalid_numeric_contextually_from_events() {
    let events = vec![
        start("codeBook", &[]),
        start("fileDscr", &[("ID", "F1")]),
        start("dimensns", &[]),
        start("caseQnty", &[]),
        text("nope"),
        end("caseQnty"),
        end("dimensns"),
        end("fileDscr"),
        end("codeBook"),
        XmlEvent::Eof,
    ];
    let error = parse_ddi_events(&events).unwrap_err();
    assert_eq!(reason(error), "invalid caseQnty `nope`: invalid digit found in string");
}

fn parse_number(text: &str) -> Result<u64, String> {
    text.parse::<f64>().map(f64::to_bits).map_err(|e| e.to_string())
}

fn codebook_text(prefix: &str) -> String {
    let decl = if prefix.is_empty() {
        "xmlns=\"ddi:codebook:2_5\"".to_string()
    } else {
        format!("xmlns:{}=\"ddi:codebook:2_5\"", prefix.trim_end_matches(':'))
    };
    format!(
        "<?xml version=\"1.0\"?>\n<{p}codeBook {decl}>\n  <{p}fileDscr ID=\"F1\" URI=\"file:///data?Name=metadata-scan\">\n             <{p}dimensns><{p}caseQnty> 4 </{p}caseQnty></{p}dimensns>\n  </{p}fileDscr>\n  <{p}dataDscr>\n             <{p}var name=\"ASCII\" files=\"F1\"><{p}location width=\"5\"/><{p}labl>Text value</{p}labl>\
         <{p}varFormat type=\"character\"/></{p}var>\n             <{p}var name=\"OFFSET\" files=\"F1\"><{p}range min=\"-2\" max=\"300\"/><{p}varFormat type=\"numeric\" dcml=\"0\"/></{p}var>\n           </{p}dataDscr>\n</{p}codeBook>\n",
        p = prefix,
        decl = decl
    )
}

#[test]
fn reads_codebook_text() {
    let metadata = parse_ddi_bytes(codebook_text("").as_bytes(), &parse_number).unwrap();
    let block = &metadata.blocks[0];
    assert_eq!(block.file_id, "F1");
    assert_eq!(block.name, "metadata-scan");
    assert_eq!(block.row_count, 4);
    let names: Vec<&str> = block.variables.iter().map(|v| v.name.as_str()).collect();
    assert_eq!(names, ["ASCII", "OFFSET"]);
    assert_eq!(block.variables[0].label, "Text value");
    assert_eq!(block.variables[0].ddi_width, 5);
    assert_eq!(
        block.variables[1].range,
        Some(NumericRange { minimum: Some((-2.0f64).to_bits()), maximum: Some(300.0f64.to_bits()) })
    );
}

#[test]
fn namespaced_codebook_text_reads_the_same() {
    let plain = parse_ddi_bytes(codebook_text("").as_bytes(), &parse_number).unwrap();
    let prefixed = parse_ddi_bytes(codebook_text("ddi:").as_bytes(), &parse_number).unwrap();
    assert_eq!(format!("{:?}", plain.blocks), format!("{:?}", prefixed.blocks));
}

#[test]
fn malformed_xml_text_is_refused() {
    let error = parse_ddi_bytes(b"<codeBook><fileDscr ID=\"F1\"></codeBook>", &parse_number).unwrap_err();
    assert!(reason(error).starts_with("XML parse error: "));
    let error = parse_ddi_bytes(b"<codeBook><fileDscr ID=\"F\xff\"/></codeBook>", &parse_number).unwrap_err();
    assert!(reason(error).starts_with("attribute value is not UTF-8: "));
    let error = parse_ddi_bytes(b"<codeBook><fileDscr ID=\"F1\">", &parse_number).unwrap_err();
    assert_eq!(reason(error), "unexpected end of XML inside a DDI element");
}

#[test]
fn parses_namespaced_metadata_scan_events() {
    let metadata = parse_ddi_events(&codebook("ddi:")).unwrap();
    let block = &metadata.blocks[0];
    assert_eq!(block.file_id, "F1");
    assert_eq!(block.file_id_number, 1);
    assert_eq!(block.name, "metadata-scan");
    assert_eq!(block.row_count, 4);
    let names: Vec<&str> = block.variables.iter().map(|v| v.name.as_str()).collect();
    assert_eq!(names, ["ASCII", "OFFSET", "FLOAT"]);
    assert_eq!(
        block.variables[1].range,
        Some(NumericRange { minimum: Some((-2.0f64).to_bits()), maximum: Some(300.0f64.to_bits()) })
    );
    assert!(matches!(block.variables[2].declared_type, DeclaredType::Numeric));
    assert_eq!(block.variables[2].decimals, 3);
    assert_eq!(block.variables[0].ddi_width, 5);
    assert_eq!(block.variables[0].label, "Text value");
    assert_eq!(block.variables[0].referenced_file_ids, ["F1"]);
}

#[test]
fn namespace_prefixes_do_not_change_the_result() {
    let plain = parse_ddi_events(&codebook("")).unwrap();
    let prefixed = parse_ddi_events(&codebook("a:")).unwrap();
    assert_eq!(plain.blocks.len(), prefixed.blocks.len());
    assert_eq!(plain.blocks[0].name, prefixed.blocks[0].name);
    assert_eq!(plain.blocks[0].variables.len(), prefixed.blocks[0].variables.len());
    assert_eq!(plain.blocks[0].variables[1].range, prefixed.blocks[0].variables[1].range);
}

#[test]
fn blocks_are_sorted_stably_by_file_number() {
    let events = vec![
        empty("fileDscr", &[("ID", "F10"), ("URI", "x?Name=ten")]),
        empty("fileDscr", &[("ID", "F2"), ("URI", "x?Name=two")]),
        empty("fileDscr", &[("ID", "G2"), ("URI", "")]),
        empty("var", &[("name", "V"), ("files", "F2 F10 F2")]),
        XmlEvent::Eof,
    ];
    let metadata = parse_ddi_events(&events).unwrap();
    let ids: Vec<&str> = metadata.blocks.iter().map(|b| b.file_id.as_str()).collect();
    assert_eq!(ids, ["F2", "G2", "F10"]);
    assert_eq!(metadata.blocks[1].name, "G2");
    assert_eq!(metadata.blocks[0].variables.len(), 2);
    assert_eq!(metadata.blocks[2].variables.len(), 1);
    assert_eq!(metadata.blocks[1].variables.len(), 0);
}

#[test]
fn structural_errors_are_reported() {
    let nested = vec![start("fileDscr", &[]), start("fileDscr", &[]), XmlEvent::Eof];
    assert_eq!(
        reason(parse_ddi_events(&nested).unwrap_err()),
        "nested fileDscr elements are not supported"
    );
    let unopened = vec![end("var"), XmlEvent::Eof];
    assert_eq!(
        reason(parse_ddi_events(&unopened).unwrap_err()),
        "closing var without opening element"
    );
    let open = vec![start("var", &[("name", "X")]), XmlEvent::Eof];
    assert_eq!(
        reason(parse_ddi_events(&open).unwrap_err()),
        "unexpected end of XML inside a DDI element"
    );
    let outside = vec![empty("location", &[("width", "3")]), XmlEvent::Eof];
    assert_eq!(reason(parse_ddi_events(&outside).unwrap_err()), "location outside var");
    let broken = vec![XmlEvent::Failed("unexpected end".to_string())];
    assert_eq!(reason(parse_ddi_events(&broken).unwrap_err()), "XML parse error: unexpected end");
    let bad_text = vec![XmlEvent::Text(Err("invalid utf-8 sequence".to_string()))];
    assert_eq!(
        reason(parse_ddi_events(&bad_text).unwrap_err()),
        "text is not UTF-8: invalid utf-8 sequence"
    );
}

#[test]
fn number_errors_name_their_context() {
    let events = vec![
        start("var", &[("name", "X")]),
        empty("location", &[("width", "-1")]),
        XmlEvent::Eof,
    ];
    assert_eq!(
        reason(parse_ddi_events(&events).unwrap_err()),
        "invalid location width `-1`: invalid digit found in string"
    );
    let missing = vec![start("var", &[("name", "X")]), empty("location", &[]), XmlEvent::Eof];
    assert_eq!(
        reason(parse_ddi_events(&missing).unwrap_err()),
        "invalid location width ``: cannot parse integer from empty string"
    );
    let decimals = vec![
        start("var", &[("name", "X")]),
        empty("varFormat", &[("dcml", "70000")]),
        XmlEvent::Eof,
    ];
    assert_eq!(
        reason(parse_ddi_events(&decimals).unwrap_err()),
        "invalid varFormat dcml `70000`: number too large to fit in target type"
    );
    let bound = vec![
        start("var", &[("name", "X")]),
        empty("range", &[("min", "low")]),
        XmlEvent::Eof,
    ];
    assert_eq!(
        reason(parse_ddi_events(&bound).unwrap_err()),
        "invalid range min `low`: invalid float literal"
    );
}

#[test]
fn blank_range_bounds_and_unknown_types() {
    let events = vec![
        start("fileDscr", &[("ID", "F1")]),
        end("fileDscr"),
        start("var", &[("name", "X"), ("files", "F1")]),
        empty("range", &[("min", " "), ("max", "7")]),
        empty("varFormat", &[("type", " Date ")]),
        start("labl", &[]),
        text("a"),
        text(" b "),
        end("labl"),
        end("var"),
        XmlEvent::Eof,
    ];
    let metadata = parse_ddi_events(&events).unwrap();
    let v = &metadata.blocks[0].variables[0];
    assert_eq!(v.range, Some(NumericRange { minimum: None, maximum: Some(7.0f64.to_bits()) }));
    match &v.declared_type {
        DeclaredType::Other(t) => assert_eq!(t, "date"),
        other => panic!("unexpected type {other:?}"),
    }
    assert_eq!(v.label, "ab");
}

#[test]
fn parser_reports_the_end_of_the_document() {
    let mut parser = DdiParser::new();
    assert_eq!(parser.step(&start("codeBook", &[])).unwrap(), false);
    assert_eq!(parser.step(&XmlEvent::Other).unwrap(), false);
    assert_eq!(parser.step(&end("codeBook")).unwrap(), false);
    assert_eq!(parser.step(&XmlEvent::Eof).unwrap(), true);
    assert!(parser.finish().unwrap().blocks.is_empty());
}
