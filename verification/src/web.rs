//! The in-browser API: a summary of a dataset, a preview of its first rows
//! and an export of all of its rows, each from the container's bytes and
//! its DDI codebook, given as XML text or as the events of that text.

use vstd::prelude::*;
use crate::ddi::{block_view, ddi_result, parse_ddi_events, type_view, BlockView, TypeView, VarView, XmlEvent};
use crate::model::{BlockDefinition, DeclaredType, VariableDefinition};
use crate::dataset::{
    batch_outcome, discover_layout, layout_found, layout_headers, lemma_batch_shape, rows_outcome,
    DataLayout,
};
use crate::decode::{decode_error_text, ColumnBatch, DecodeError};
use crate::layout::metadata_scan::{metadata_error_text, MetadataLayoutError};
use crate::source::{has_magic, magic_reason, ReadOnlySource};
use crate::model::CellValue;
use crate::text::{
    ascii_lower, chars_equal_str, chars_of, lemma_string_views_len, lower_chars, push_chars, push_str,
    string_from_chars, string_views, utf8, utf8_bytes,
};
use crate::xml::{events_cooked, xml_events, xml_tokens};

verus! {

/// One column of a dataset summary.
pub struct ColumnInfo {
    pub name: String,
    pub label: String,
    pub declared_type: String,
    pub width: u32,
}

/// A dataset summary: the first block of the codebook.
pub struct DatasetInfo {
    pub name: String,
    pub row_count: u64,
    pub column_count: usize,
    pub columns: Vec<ColumnInfo>,
}

/// The first rows of a dataset, as text.
pub struct PreviewData {
    pub headers: Vec<String>,
    pub rows: Vec<Vec<String>>,
    pub total_rows: u64,
    pub total_cols: usize,
}

/// The `Debug` text of a string: quoted, with special characters escaped.
pub uninterp spec fn str_debug(s: Seq<char>) -> Seq<char>;

/// `format!("{:?}", s)` from std: the string's `Debug` text. What the
/// escaping does to each character is left to std; the contract only names
/// the result as a function of the string.
#[verifier::external_body]
fn debug_quoted(s: &str) -> (r: String)
    ensures
        r@ == str_debug(s@),
{
    format!("{:?}", s)
}

/// The `Debug` text of a declared type.
pub open spec fn type_debug(t: TypeView) -> Seq<char> {
    match t {
        TypeView::Character => "Character"@,
        TypeView::Numeric => "Numeric"@,
        TypeView::Other(s) => "Other("@ + str_debug(s) + ")"@,
    }
}

/// The `Debug` text of a declared type.
pub fn type_label(t: &DeclaredType) -> (r: String)
    ensures
        r@ == type_debug(type_view(*t)),
{
    match t {
        DeclaredType::Character => "Character".to_owned(),
        DeclaredType::Numeric => "Numeric".to_owned(),
        DeclaredType::Other(s) => {
            let quoted = debug_quoted(s.as_str());
            let mut m: Vec<char> = Vec::new();
            push_str(&mut m, "Other(");
            push_str(&mut m, quoted.as_str());
            push_str(&mut m, ")");
            proof {
                assert(m@ =~= type_debug(type_view(*t)));
            }
            string_from_chars(m.as_slice())
        },
    }
}

/// `c` summarises the variable `v`.
pub open spec fn column_matches(c: ColumnInfo, v: VarView) -> bool {
    &&& c.name@ == v.name
    &&& c.label@ == v.label
    &&& c.declared_type@ == type_debug(v.declared_type)
    &&& c.width == v.ddi_width
}

/// `info` summarises the block `b`.
pub open spec fn info_matches(info: DatasetInfo, b: BlockView) -> bool {
    &&& info.name@ == b.name
    &&& info.row_count == b.row_count
    &&& info.column_count == b.variables.len()
    &&& info.columns@.len() == b.variables.len()
    &&& forall|i: int|
        0 <= i < b.variables.len() ==> column_matches(#[trigger] info.columns@[i], b.variables[i])
}

/// The summary of one variable.
fn column_info(v: &VariableDefinition) -> (c: ColumnInfo)
    ensures
        column_matches(c, crate::ddi::var_view(*v)),
{
    ColumnInfo {
        name: v.name.clone(),
        label: v.label.clone(),
        declared_type: type_label(&v.declared_type),
        width: v.ddi_width,
    }
}

/// The summary of a block.
pub fn dataset_info(block: &BlockDefinition) -> (info: DatasetInfo)
    ensures
        info_matches(info, block_view(*block)),
{
    let mut columns: Vec<ColumnInfo> = Vec::new();
    let mut i: usize = 0;
    while i < block.variables.len()
        invariant
            i <= block.variables@.len(),
            columns@.len() == i,
            forall|k: int|
                0 <= k < i ==> column_matches(
                    #[trigger] columns@[k],
                    crate::ddi::var_view(block.variables@[k]),
                ),
        decreases block.variables@.len() - i,
    {
        let c = column_info(&block.variables[i]);
        columns.push(c);
        i += 1;
    }
    DatasetInfo {
        name: block.name.clone(),
        row_count: block.row_count,
        column_count: block.variables.len(),
        columns,
    }
}

/// How a refused codebook is reported.
pub open spec fn ddi_error_text(reason: Seq<char>) -> Seq<char> {
    "DDI Error: "@ + "invalid DDI: "@ + reason
}

/// How a codebook without blocks is reported.
pub open spec fn no_blocks_text() -> Seq<char> {
    "DDI XML contains no data blocks"@
}

/// The first block of a codebook, or how its absence is reported.
pub fn first_ddi_block(events: &Vec<XmlEvent>) -> (r: Result<BlockDefinition, String>)
    ensures
        match ddi_result(events@) {
            Err(m) => r matches Err(s) && s@ == ddi_error_text(m),
            Ok(bs) => if bs.len() == 0 {
                r matches Err(s) && s@ == no_blocks_text()
            } else {
                r matches Ok(b) && block_view(b) == bs[0]
            },
        },
{
    match parse_ddi_events(events) {
        Err(e) => {
            let text = e.message();
            let mut m: Vec<char> = Vec::new();
            push_str(&mut m, "DDI Error: ");
            push_str(&mut m, text.as_str());
            proof {
                assert(m@ =~= "DDI Error: "@ + "invalid DDI: "@ + (e->InvalidDdi_0)@);
            }
            Err(string_from_chars(m.as_slice()))
        },
        Ok(metadata) => {
            let mut blocks = metadata.blocks;
            if blocks.len() == 0 {
                Err("DDI XML contains no data blocks".to_owned())
            } else {
                let ghost before = blocks@;
                let b = blocks.remove(0);
                proof {
                    assert(block_view(b) == crate::ddi::blocks_view(before)[0]);
                }
                Ok(b)
            }
        },
    }
}

/// `r` is what summarising the codebook with the events `events` gives.
pub open spec fn info_outcome(events: Seq<XmlEvent>, r: Result<DatasetInfo, String>) -> bool {
        match ddi_result(events) {
            Err(m) => r matches Err(s) && s@ == ddi_error_text(m),
            Ok(bs) => if bs.len() == 0 {
                r matches Err(s) && s@ == no_blocks_text()
            } else {
                r matches Ok(info) && info_matches(info, bs[0])
            },
        }
}

/// A summary of the first block of a codebook, from the codebook's events.
pub fn dataset_info_from_events(events: &Vec<XmlEvent>) -> (r: Result<DatasetInfo, String>)
    ensures
        info_outcome(events@, r),
{
    match first_ddi_block(events) {
        Err(e) => Err(e),
        Ok(b) => Ok(dataset_info(&b)),
    }
}

/// A summary of the first block of a codebook, from its XML text.
/// Attribute values are read as numbers by `parse_number`.
pub fn get_dataset_info<P: Fn(&str) -> Result<u64, String>>(ddi_xml: &str, parse_number: &P) -> (r:
    Result<DatasetInfo, String>)
    requires
        forall|t: &str| parse_number.requires((t,)),
    ensures
        exists|events: Seq<XmlEvent>|
            #[trigger] events_cooked(*parse_number, xml_tokens(utf8(ddi_xml@)), events)
                && info_outcome(events, r),
{
    let text = utf8_bytes(ddi_xml);
    let events = xml_events(text.as_slice(), parse_number);
    let r = dataset_info_from_events(&events);
    proof {
        assert(events_cooked(*parse_number, xml_tokens(utf8(ddi_xml@)), events@));
    }
    r
}


/// The formats an export can take.
#[derive(Clone, Copy, Debug, PartialEq, Eq, Structural)]
pub enum ExportMode {
    Csv,
    Tsv,
    Json,
    Jsonl,
}

/// `format` is `word` up to ASCII case.
pub open spec fn names_format(format: Seq<char>, word: Seq<char>) -> bool {
    format.map_values(|c: char| ascii_lower(c)) == word
}

/// The export format a format name asks for; anything unknown is CSV.
pub open spec fn export_mode_of(format: Seq<char>) -> ExportMode {
    if names_format(format, "json"@) {
        ExportMode::Json
    } else if names_format(format, "jsonl"@) {
        ExportMode::Jsonl
    } else if names_format(format, "tsv"@) || names_format(format, "txt"@) {
        ExportMode::Tsv
    } else {
        ExportMode::Csv
    }
}

/// The export format a format name asks for; anything unknown is CSV.
pub fn export_mode(format: &str) -> (m: ExportMode)
    ensures
        m == export_mode_of(format@),
{
    let chars = chars_of(format);
    let lower = lower_chars(chars.as_slice());
    if chars_equal_str(lower.as_slice(), "json") {
        ExportMode::Json
    } else if chars_equal_str(lower.as_slice(), "jsonl") {
        ExportMode::Jsonl
    } else if chars_equal_str(lower.as_slice(), "tsv") || chars_equal_str(lower.as_slice(), "txt") {
        ExportMode::Tsv
    } else {
        ExportMode::Csv
    }
}

/// The text of a cell; a missing value is empty.
pub open spec fn cell_text(c: CellValue) -> Seq<char> {
    match c {
        CellValue::Missing => Seq::empty(),
        CellValue::Text(s) => s@,
    }
}

/// The text of a cell, if it has one.
pub open spec fn cell_option(c: CellValue) -> Option<Seq<char>> {
    match c {
        CellValue::Missing => None,
        CellValue::Text(s) => Some(s@),
    }
}

/// A comma-separated field must be quoted.
pub open spec fn needs_quotes(s: Seq<char>) -> bool {
    s.contains(',') || s.contains('"') || s.contains('\n')
}

/// `s` with every `"` doubled.
pub open spec fn double_quotes(s: Seq<char>) -> Seq<char>
    decreases s.len(),
{
    if s.len() == 0 {
        s
    } else if s.last() == '"' {
        double_quotes(s.drop_last()) + seq!['"', '"']
    } else {
        double_quotes(s.drop_last()).push(s.last())
    }
}

/// A cell as a delimited field: missing is empty; a comma-separated field
/// holding a comma, quote or line break is quoted.
pub open spec fn delimited_cell(c: CellValue, tab: bool) -> Seq<char> {
    match c {
        CellValue::Missing => Seq::empty(),
        CellValue::Text(s) => if !tab && needs_quotes(s@) {
            seq!['"'] + double_quotes(s@) + seq!['"']
        } else {
            s@
        },
    }
}

/// The field separator.
pub open spec fn separator(tab: bool) -> char {
    if tab {
        '\t'
    } else {
        ','
    }
}

/// `fields` joined by `sep`.
pub open spec fn join_fields(fields: Seq<Seq<char>>, sep: char) -> Seq<char>
    decreases fields.len(),
{
    if fields.len() == 0 {
        Seq::empty()
    } else if fields.len() == 1 {
        fields[0]
    } else {
        join_fields(fields.drop_last(), sep).push(sep) + fields.last()
    }
}

/// How a reader takes the inside of a quoted comma-separated field: each
/// doubled quote is one quote, and a lone quote would end the field early,
/// so the inside is then not one field (`None`).
pub open spec fn unquote(inner: Seq<char>) -> Option<Seq<char>>
    decreases inner.len(),
{
    if inner.len() == 0 {
        Some(Seq::empty())
    } else if inner[0] == '"' {
        if inner.len() >= 2 && inner[1] == '"' {
            match unquote(inner.skip(2)) {
                Some(r) => Some(seq!['"'] + r),
                None => None,
            }
        } else {
            None
        }
    } else {
        match unquote(inner.skip(1)) {
            Some(r) => Some(seq![inner[0]] + r),
            None => None,
        }
    }
}

proof fn lemma_double_quotes_concat(a: Seq<char>, b: Seq<char>)
    ensures
        double_quotes(a + b) == double_quotes(a) + double_quotes(b),
    decreases b.len(),
{
    if b.len() == 0 {
        assert(a + b =~= a);
        assert(double_quotes(a) + double_quotes(b) =~= double_quotes(a));
    } else {
        lemma_double_quotes_concat(a, b.drop_last());
        assert((a + b).drop_last() =~= a + b.drop_last());
        assert((a + b).last() == b.last());
        if b.last() == '"' {
            assert(double_quotes(a) + double_quotes(b) =~= double_quotes(a) + double_quotes(
                b.drop_last(),
            ) + seq!['"', '"']);
        } else {
            assert(double_quotes(a) + double_quotes(b) =~= (double_quotes(a) + double_quotes(
                b.drop_last(),
            )).push(b.last()));
        }
    }
}

proof fn lemma_unquote_double_quotes(s: Seq<char>)
    ensures
        unquote(double_quotes(s)) == Some(s),
    decreases s.len(),
{
    if s.len() > 0 {
        let head = seq![s[0]];
        let rest = s.skip(1);
        assert(s =~= head + rest);
        lemma_double_quotes_concat(head, rest);
        lemma_unquote_double_quotes(rest);
        assert(head.drop_last() =~= Seq::<char>::empty());
        assert(head.last() == s[0]);
        assert(double_quotes(head.drop_last()) =~= Seq::<char>::empty());
        let d = double_quotes(s);
        if s[0] == '"' {
            assert(double_quotes(head) =~= seq!['"', '"']);
            assert(d.skip(2) =~= double_quotes(rest));
            assert(seq!['"'] + rest =~= s);
        } else {
            assert(double_quotes(head) =~= seq![s[0]]);
            assert(d.skip(1) =~= double_quotes(rest));
            assert(seq![s[0]] + rest =~= s);
        }
    }
}

/// In comma-separated output every text cell is one field that reads back
/// as exactly the cell's text: a field not opened by a quote holds no
/// comma, quote or line feed and is the text itself; a field opened by a
/// quote is closed by one, and its inside, with doubled quotes read as one,
/// is the text. Text with none of those characters is written as it is,
/// and tab-separated fields are always the text itself.
pub proof fn csv_fields_read_back(cell: CellValue)
    ensures
        match cell {
            CellValue::Text(s) => {
                let f = delimited_cell(cell, false);
                &&& (f.len() == 0 || f[0] != '"') ==> f == s@ && !f.contains(',') && !f.contains('"')
                    && !f.contains('\n')
                &&& (f.len() > 0 && f[0] == '"') ==> f.len() >= 2 && f.last() == '"' && unquote(
                    f.subrange(1, f.len() - 1),
                ) == Some(s@)
                &&& !s@.contains(',') && !s@.contains('"') && !s@.contains('\n') ==> f == s@
                &&& delimited_cell(cell, true) == s@
            },
            CellValue::Missing => delimited_cell(cell, false) == Seq::<char>::empty(),
        },
{
    if let CellValue::Text(s) = cell {
        let f = delimited_cell(cell, false);
        if needs_quotes(s@) {
            lemma_unquote_double_quotes(s@);
            assert(f.subrange(1, f.len() - 1) =~= double_quotes(s@));
        } else {
            if f.len() > 0 && f[0] == '"' {
                assert(s@.contains('"'));
            }
        }
    }
}

/// Whether `s` needs quotes in a comma-separated field.
fn has_special(s: &[char]) -> (r: bool)
    ensures
        r == needs_quotes(s@),
{
    let mut i: usize = 0;
    while i < s.len()
        invariant
            i <= s@.len(),
            forall|k: int| 0 <= k < i ==> s@[k] != ',' && s@[k] != '"' && s@[k] != '\n',
        decreases s@.len() - i,
    {
        if s[i] == ',' || s[i] == '"' || s[i] == '\n' {
            proof {
                assert(s@[i as int] == s[i as int]);
                if s[i as int] == ',' {
                    assert(s@.contains(','));
                } else if s[i as int] == '"' {
                    assert(s@.contains('"'));
                } else {
                    assert(s@.contains('\n'));
                }
            }
            return true;
        }
        i += 1;
    }
    false
}

/// Append a cell as a delimited field.
fn push_delimited_cell(out: &mut Vec<char>, c: &CellValue, tab: bool)
    ensures
        final(out)@ == old(out)@ + delimited_cell(*c, tab),
{
    match c {
        CellValue::Missing => {
            proof {
                assert(out@ =~= old(out)@ + delimited_cell(*c, tab));
            }
        },
        CellValue::Text(s) => {
            let chars = chars_of(s.as_str());
            if !tab && has_special(chars.as_slice()) {
                let ghost start = out@;
                out.push('"');
                let mut i: usize = 0;
                while i < chars.len()
                    invariant
                        i <= chars@.len(),
                        out@ == start.push('"') + double_quotes(chars@.take(i as int)),
                    decreases chars@.len() - i,
                {
                    proof {
                        assert(chars@.take(i + 1).drop_last() =~= chars@.take(i as int));
                    }
                    if chars[i] == '"' {
                        out.push('"');
                        out.push('"');
                    } else {
                        out.push(chars[i]);
                    }
                    i += 1;
                    proof {
                        assert(out@ =~= start.push('"') + double_quotes(chars@.take(i as int)));
                    }
                }
                out.push('"');
                proof {
                    assert(chars@.take(i as int) =~= chars@);
                    assert(out@ =~= start + delimited_cell(*c, tab));
                }
            } else {
                push_chars(out, chars.as_slice());
            }
        },
    }
}

/// The fields of row `row` of a batch.
pub open spec fn row_fields(cols: Seq<ColumnBatch>, row: int, tab: bool) -> Seq<Seq<char>> {
    Seq::new(cols.len(), |k: int| delimited_cell(cols[k].values@[row], tab))
}

/// Every column of a batch holds at least `count` values.
pub open spec fn holds_rows(cols: Seq<ColumnBatch>, count: nat) -> bool {
    forall|k: int| 0 <= k < cols.len() ==> (#[trigger] cols[k]).values@.len() >= count
}

/// Append row `row` of a batch as a delimited line.
fn push_delimited_row(out: &mut Vec<char>, cols: &Vec<ColumnBatch>, row: usize, tab: bool)
    requires
        holds_rows(cols@, (row + 1) as nat),
    ensures
        final(out)@ == old(out)@ + join_fields(row_fields(cols@, row as int, tab), separator(tab)).push(
            '\n',
        ),
{
    let ghost fields = row_fields(cols@, row as int, tab);
    let ghost start = out@;
    let mut k: usize = 0;
    while k < cols.len()
        invariant
            k <= cols@.len(),
            holds_rows(cols@, (row + 1) as nat),
            fields == row_fields(cols@, row as int, tab),
            out@ == start + join_fields(fields.take(k as int), separator(tab)),
        decreases cols@.len() - k,
    {
        let ghost before = out@;
        if k > 0 {
            out.push(if tab {
                '\t'
            } else {
                ','
            });
        }
        assert(cols@[k as int].values@.len() >= row + 1);
        push_delimited_cell(out, &cols[k].values[row], tab);
        k += 1;
        proof {
            let t = fields.take(k as int);
            assert(t.drop_last() =~= fields.take(k - 1));
            assert(t.last() == fields[k - 1]);
            if k == 1 {
                assert(join_fields(t, separator(tab)) == t[0]);
            }
            assert(out@ =~= start + join_fields(t, separator(tab)));
        }
    }
    out.push('\n');
    proof {
        assert(fields.take(k as int) =~= fields);
    }
}

/// Append the names of a schema as a delimited line.
fn push_header_line(out: &mut Vec<char>, headers: &Vec<String>, tab: bool)
    ensures
        final(out)@ == old(out)@ + join_fields(string_views(headers@), separator(tab)).push('\n'),
{
    let ghost fields = string_views(headers@);
    let ghost start = out@;
    let mut k: usize = 0;
    while k < headers.len()
        invariant
            k <= headers@.len(),
            fields == string_views(headers@),
            out@ == start + join_fields(fields.take(k as int), separator(tab)),
        decreases headers@.len() - k,
    {
        if k > 0 {
            out.push(if tab {
                '\t'
            } else {
                ','
            });
        }
        push_str(out, headers[k].as_str());
        k += 1;
        proof {
            let t = fields.take(k as int);
            assert(t.drop_last() =~= fields.take(k - 1));
            assert(t.last() == fields[k - 1]);
            if k == 1 {
                assert(join_fields(t, separator(tab)) == t[0]);
            }
            assert(out@ =~= start + join_fields(t, separator(tab)));
        }
    }
    out.push('\n');
    proof {
        assert(fields.take(k as int) =~= fields);
    }
}


/// The compact JSON text that serde_json gives an object whose keys map to
/// strings, or to `null` for `None`, inserted in order.
pub uninterp spec fn json_object_text(keys: Seq<Seq<char>>, values: Seq<Option<Seq<char>>>) -> Option<
    Seq<char>,
>;

/// The views of optional strings.
pub open spec fn option_views(v: Seq<Option<String>>) -> Seq<Option<Seq<char>>> {
    v.map_values(|o: Option<String>| option_view(o))
}

/// The view of an optional string.
pub open spec fn option_view(o: Option<String>) -> Option<Seq<char>> {
    match o {
        Some(s) => Some(s@),
        None => None,
    }
}

/// `serde_json::to_string` of a `serde_json::Map` built by inserting each
/// key with `Value::String` or `Value::Null`: the JSON text of the object,
/// or nothing where serde_json reports an error. Key order, duplicate keys
/// and escaping are serde_json's; the contract only names the result as a
/// function of the keys and values.
#[verifier::external_body]
fn json_object_line(keys: &Vec<String>, values: &Vec<Option<String>>) -> (r: Option<String>)
    ensures
        option_view(r) == json_object_text(string_views(keys@), option_views(values@)),
{
    let mut object = serde_json::Map::new();
    for (key, value) in keys.iter().zip(values.iter()) {
        let value = match value {
            Some(text) => serde_json::Value::String(text.clone()),
            None => serde_json::Value::Null,
        };
        object.insert(key.clone(), value);
    }
    serde_json::to_string(&object).ok()
}

/// The values of row `row` of a batch.
pub open spec fn row_values(cols: Seq<ColumnBatch>, row: int) -> Seq<Option<Seq<char>>> {
    Seq::new(cols.len(), |k: int| cell_option(cols[k].values@[row]))
}

/// The JSON object of row `row` of a batch, keyed by `headers`.
fn json_row(headers: &Vec<String>, cols: &Vec<ColumnBatch>, row: usize) -> (r: Option<String>)
    requires
        holds_rows(cols@, (row + 1) as nat),
    ensures
        option_view(r) == json_object_text(string_views(headers@), row_values(cols@, row as int)),
{
    let mut values: Vec<Option<String>> = Vec::new();
    let mut k: usize = 0;
    while k < cols.len()
        invariant
            k <= cols@.len(),
            holds_rows(cols@, (row + 1) as nat),
            values@.len() == k,
            forall|q: int|
                0 <= q < k ==> option_view(#[trigger] values@[q]) == cell_option(
                    cols@[q].values@[row as int],
                ),
        decreases cols@.len() - k,
    {
        assert(cols@[k as int].values@.len() >= row + 1);
        let v = match &cols[k].values[row] {
            CellValue::Missing => None,
            CellValue::Text(t) => Some(t.clone()),
        };
        values.push(v);
        k += 1;
    }
    proof {
        assert(option_views(values@) =~= row_values(cols@, row as int));
    }
    json_object_line(headers, &values)
}

/// Row `row` of a batch as exported: a JSON Lines record, a JSON array
/// element (after a separator unless it is the first), or a delimited line.
pub open spec fn export_row(
    mode: ExportMode,
    headers: Seq<Seq<char>>,
    cols: Seq<ColumnBatch>,
    row: int,
    first: bool,
) -> Seq<char> {
    match mode {
        ExportMode::Jsonl => match json_object_text(headers, row_values(cols, row)) {
            Some(t) => t.push('\n'),
            None => Seq::empty(),
        },
        ExportMode::Json => (if first {
            Seq::empty()
        } else {
            seq![',', '\n']
        }) + match json_object_text(headers, row_values(cols, row)) {
            Some(t) => t,
            None => Seq::empty(),
        },
        ExportMode::Csv => join_fields(row_fields(cols, row, false), ',').push('\n'),
        ExportMode::Tsv => join_fields(row_fields(cols, row, true), '\t').push('\n'),
    }
}

/// The first `n` rows of a batch as exported; `first` says whether the
/// batch's first row is the export's first.
pub open spec fn export_rows(
    mode: ExportMode,
    headers: Seq<Seq<char>>,
    cols: Seq<ColumnBatch>,
    n: nat,
    first: bool,
) -> Seq<char>
    decreases n,
{
    if n == 0 {
        Seq::empty()
    } else {
        export_rows(mode, headers, cols, (n - 1) as nat, first) + export_row(
            mode,
            headers,
            cols,
            n - 1,
            first && n == 1,
        )
    }
}

/// Append row `row` of a batch as exported.
fn push_export_row(
    out: &mut Vec<char>,
    mode: ExportMode,
    headers: &Vec<String>,
    cols: &Vec<ColumnBatch>,
    row: usize,
    first: bool,
)
    requires
        holds_rows(cols@, (row + 1) as nat),
    ensures
        final(out)@ == old(out)@ + export_row(mode, string_views(headers@), cols@, row as int, first),
{
    match mode {
        ExportMode::Jsonl => {
            match json_row(headers, cols, row) {
                Some(t) => {
                    push_str(out, t.as_str());
                    out.push('\n');
                },
                None => {},
            }
            proof {
                assert(out@ =~= old(out)@ + export_row(
                    mode,
                    string_views(headers@),
                    cols@,
                    row as int,
                    first,
                ));
            }
        },
        ExportMode::Json => {
            if !first {
                out.push(',');
                out.push('\n');
            }
            match json_row(headers, cols, row) {
                Some(t) => {
                    push_str(out, t.as_str());
                },
                None => {},
            }
            proof {
                assert(out@ =~= old(out)@ + export_row(
                    mode,
                    string_views(headers@),
                    cols@,
                    row as int,
                    first,
                ));
            }
        },
        ExportMode::Csv => push_delimited_row(out, cols, row, false),
        ExportMode::Tsv => push_delimited_row(out, cols, row, true),
    }
}

/// Append the first `count` rows of a batch as exported.
fn push_export_rows(
    out: &mut Vec<char>,
    mode: ExportMode,
    headers: &Vec<String>,
    cols: &Vec<ColumnBatch>,
    count: usize,
    first: bool,
)
    requires
        holds_rows(cols@, count as nat),
    ensures
        final(out)@ == old(out)@ + export_rows(mode, string_views(headers@), cols@, count as nat, first),
{
    let ghost start = out@;
    let mut row: usize = 0;
    while row < count
        invariant
            row <= count,
            holds_rows(cols@, count as nat),
            out@ == start + export_rows(mode, string_views(headers@), cols@, row as nat, first),
        decreases count - row,
    {
        push_export_row(out, mode, headers, cols, row, first && row == 0);
        row += 1;
        proof {
            assert(out@ =~= start + export_rows(mode, string_views(headers@), cols@, row as nat, first));
        }
    }
}


/// Row `row` of a batch as text; a missing value is empty.
pub open spec fn preview_row(cols: Seq<ColumnBatch>, row: int) -> Seq<Seq<char>> {
    Seq::new(cols.len(), |k: int| cell_text(cols[k].values@[row]))
}

/// `rows` are the first `n` rows of a batch as text.
pub open spec fn preview_rows_match(rows: Seq<Vec<String>>, cols: Seq<ColumnBatch>, n: nat) -> bool {
    &&& rows.len() == n
    &&& forall|r: int| 0 <= r < n ==> string_views((#[trigger] rows[r])@) == preview_row(cols, r)
}

/// The first `count` rows of a batch as text.
fn preview_rows(cols: &Vec<ColumnBatch>, count: usize) -> (rows: Vec<Vec<String>>)
    requires
        holds_rows(cols@, count as nat),
    ensures
        preview_rows_match(rows@, cols@, count as nat),
{
    let mut rows: Vec<Vec<String>> = Vec::new();
    let mut r: usize = 0;
    while r < count
        invariant
            r <= count,
            holds_rows(cols@, count as nat),
            preview_rows_match(rows@, cols@, r as nat),
        decreases count - r,
    {
        let mut row: Vec<String> = Vec::new();
        let mut k: usize = 0;
        while k < cols.len()
            invariant
                k <= cols@.len(),
                r < count,
                holds_rows(cols@, count as nat),
                string_views(row@) == preview_row(cols@, r as int).take(k as int),
            decreases cols@.len() - k,
        {
            assert(cols@[k as int].values@.len() >= count);
            let text = match &cols[k].values[r] {
                CellValue::Missing => String::new(),
                CellValue::Text(t) => t.clone(),
            };
            let ghost prev = row@;
            row.push(text);
            k += 1;
            proof {
                crate::text::lemma_string_views_push(prev, text);
                assert(preview_row(cols@, r as int).take(k as int) =~= preview_row(cols@, r as int).take(
                    k - 1,
                ).push(text@));
            }
        }
        proof {
            assert(preview_row(cols@, r as int).take(k as int) =~= preview_row(cols@, r as int));
        }
        rows.push(row);
        r += 1;
    }
    rows
}

/// How a container without the Nesstar magic is reported.
pub open spec fn binary_error_text(bytes: Seq<u8>) -> Seq<char> {
    "Binary Error: "@ + "invalid source `"@ + "in-memory.Nesstar"@ + "`: "@ + magic_reason(bytes)
}

/// How a block without a layout is reported.
pub open spec fn layout_error_text(e: MetadataLayoutError) -> Seq<char> {
    "Layout Error: "@ + metadata_error_text(e)
}

/// How a failed decode is reported.
pub open spec fn decode_failure_text(e: DecodeError) -> Seq<char> {
    "Decode Error: "@ + decode_error_text(e)
}

/// The number of rows a preview asks for: `limit`, or fifty for zero.
pub open spec fn preview_limit(limit: usize) -> nat {
    if limit == 0 {
        50
    } else {
        limit as nat
    }
}

/// The smaller of two counts.
pub open spec fn min_count(a: nat, b: nat) -> nat {
    if a < b {
        a
    } else {
        b
    }
}

/// `p` previews a block with the given layout: its schema, its size, and
/// the first rows of its first batch; no rows where decoding fails.
pub open spec fn preview_matches<F: Fn(u64, usize) -> String>(
    format: F,
    source: ReadOnlySource,
    layout: DataLayout,
    block: BlockView,
    max_rows: nat,
    p: PreviewData,
) -> bool {
    &&& string_views(p.headers@) == layout_headers(layout)
    &&& p.total_rows == block.row_count
    &&& p.total_cols == p.headers@.len()
    &&& preview_rows_outcome(format, source, layout, max_rows, p.rows@)
}

/// `rows` are the first rows of a layout's first batch, or none where
/// counting or decoding the rows fails.
pub open spec fn preview_rows_outcome<F: Fn(u64, usize) -> String>(
    format: F,
    source: ReadOnlySource,
    layout: DataLayout,
    max_rows: nat,
    rows: Seq<Vec<String>>,
) -> bool {
    exists|rr: Result<usize, DecodeError>|
        #[trigger] rows_outcome(layout, rr) && match rr {
            Err(_) => rows.len() == 0,
            Ok(total) => if total == 0 {
                rows.len() == 0
            } else {
                exists|br: Result<Vec<ColumnBatch>, DecodeError>|
                    #[trigger] batch_outcome(
                        format,
                        source,
                        layout,
                        0,
                        min_count(total as nat, max_rows) as usize,
                        br,
                    ) && match br {
                        Err(_) => rows.len() == 0,
                        Ok(cols) => preview_rows_match(rows, cols@, min_count(total as nat, max_rows)),
                    }
            },
        }
}

/// The preview of a block with a known layout.
fn preview_layout<F: Fn(u64, usize) -> String>(
    source: &ReadOnlySource,
    layout: &DataLayout,
    block: &BlockDefinition,
    max_rows: usize,
    format: &F,
) -> (p: PreviewData)
    requires
        forall|b: u64, q: usize| format.requires((b, q)),
        max_rows > 0,
    ensures
        preview_matches(*format, *source, *layout, block_view(*block), max_rows as nat, p),
{
    let headers = layout.headers();
    let rr = layout.row_total();
    let rows = match rr {
        Err(_) => {
            let v: Vec<Vec<String>> = Vec::new();
            proof {
                assert(rows_outcome(*layout, rr));
            }
            v
        },
        Ok(total) => {
            if total == 0 {
                let v: Vec<Vec<String>> = Vec::new();
                proof {
                    assert(rows_outcome(*layout, rr));
                }
                v
            } else {
                let count = if total < max_rows {
                    total
                } else {
                    max_rows
                };
                let br = layout.decode_batch(source, total, 0, count, format);
                let rows = match &br {
                    Err(_) => Vec::new(),
                    Ok(cols) => {
                        proof {
                            lemma_batch_shape(*format, *source, *layout, 0, count, *cols);
                        }
                        preview_rows(cols, count)
                    },
                };
                proof {
                    assert(count == min_count(total as nat, max_rows as nat) as usize);
                    assert(batch_outcome(
                        *format,
                        *source,
                        *layout,
                        0,
                        min_count(total as nat, max_rows as nat) as usize,
                        br,
                    ));
                    assert(rows_outcome(*layout, rr));
                    assert(preview_rows_outcome(*format, *source, *layout, max_rows as nat, rows@));
                }
                rows
            }
        },
    };
    let total_cols = headers.len();
    PreviewData { headers, rows, total_rows: block.row_count, total_cols }
}

/// The source over the container's bytes, or how its refusal is reported.
fn open_source(nesstar_bytes: &[u8]) -> (r: Result<ReadOnlySource, String>)
    ensures
        has_magic(nesstar_bytes@) ==> (r matches Ok(s) && s.data() == nesstar_bytes@ && s.name()
            == "in-memory.Nesstar"@),
        !has_magic(nesstar_bytes@) ==> (r matches Err(m) && m@ == binary_error_text(nesstar_bytes@)),
{
    match ReadOnlySource::from_bytes(vstd::slice::slice_to_vec(nesstar_bytes)) {
        Ok(s) => Ok(s),
        Err(e) => {
            let text = e.message();
            let mut m: Vec<char> = Vec::new();
            push_str(&mut m, "Binary Error: ");
            push_str(&mut m, text.as_str());
            proof {
                assert(m@ =~= binary_error_text(nesstar_bytes@));
            }
            Err(string_from_chars(m.as_slice()))
        },
    }
}

/// A message after a fixed prefix.
fn prefixed_message(prefix: &str, text: String) -> (r: String)
    ensures
        r@ == prefix@ + text@,
{
    let mut m: Vec<char> = Vec::new();
    push_str(&mut m, prefix);
    push_str(&mut m, text.as_str());
    string_from_chars(m.as_slice())
}

/// `r` is what previewing the container `bytes` with the codebook events
/// `events` gives.
pub open spec fn preview_outcome<F: Fn(u64, usize) -> String>(
    bytes: Seq<u8>,
    events: Seq<XmlEvent>,
    limit: usize,
    format: F,
    r: Result<PreviewData, String>,
) -> bool {
        match ddi_result(events) {
            Err(m) => r matches Err(s) && s@ == ddi_error_text(m),
            Ok(bs) => if bs.len() == 0 {
                r matches Err(s) && s@ == no_blocks_text()
            } else if !has_magic(bytes) {
                r matches Err(s) && s@ == binary_error_text(bytes)
            } else {
                exists|
                    block: BlockDefinition,
                    source: ReadOnlySource,
                    found: Result<DataLayout, MetadataLayoutError>,
                |
                    #![trigger layout_found(bytes, block, found), source.data()]
                    {
                        &&& block_view(block) == bs[0]
                        &&& source.data() == bytes
                        &&& source.name() == "in-memory.Nesstar"@
                        &&& layout_found(bytes, block, found)
                        &&& match found {
                            Err(e) => r matches Err(s) && s@ == layout_error_text(e),
                            Ok(layout) => r matches Ok(p) && preview_matches(
                                format,
                                source,
                                layout,
                                bs[0],
                                preview_limit(limit),
                                p,
                            ),
                        }
                    }
            },
        }
}

/// The first rows of the first block of a dataset, from the codebook's
/// events: at most `limit` rows, or fifty when `limit` is zero.
pub fn preview_from_events<F: Fn(u64, usize) -> String>(
    nesstar_bytes: &[u8],
    ddi_events: &Vec<XmlEvent>,
    limit: usize,
    format: &F,
) -> (r: Result<PreviewData, String>)
    requires
        forall|b: u64, q: usize| format.requires((b, q)),
    ensures
        preview_outcome(nesstar_bytes@, ddi_events@, limit, *format, r),
{
    let block = match first_ddi_block(ddi_events) {
        Ok(b) => b,
        Err(e) => return Err(e),
    };
    let source = match open_source(nesstar_bytes) {
        Ok(s) => s,
        Err(e) => return Err(e),
    };
    let max_rows: usize = if limit == 0 {
        50
    } else {
        limit
    };
    let found = discover_layout(source.bytes(), &block);
    proof {
        assert(source.data() == nesstar_bytes@);
        assert(layout_found(nesstar_bytes@, block, found));
    }
    match found {
        Err(e) => Err(prefixed_message("Layout Error: ", e.message())),
        Ok(layout) => Ok(preview_layout(&source, &layout, &block, max_rows, format)),
    }
}

/// The first rows of the first block of a dataset, as text: at most
/// `limit` rows, or fifty when `limit` is zero. The codebook is XML text,
/// its attribute values read as numbers by `parse_number`; doubles in the
/// data are written by `format`.
pub fn preview_nesstar<F: Fn(u64, usize) -> String, P: Fn(&str) -> Result<u64, String>>(
    nesstar_bytes: &[u8],
    ddi_xml: &str,
    limit: usize,
    format: &F,
    parse_number: &P,
) -> (r: Result<PreviewData, String>)
    requires
        forall|b: u64, q: usize| format.requires((b, q)),
        forall|t: &str| parse_number.requires((t,)),
    ensures
        exists|events: Seq<XmlEvent>|
            #[trigger] events_cooked(*parse_number, xml_tokens(utf8(ddi_xml@)), events)
                && preview_outcome(nesstar_bytes@, events, limit, *format, r),
{
    let text = utf8_bytes(ddi_xml);
    let events = xml_events(text.as_slice(), parse_number);
    let r = preview_from_events(nesstar_bytes, &events, limit, format);
    proof {
        assert(events_cooked(*parse_number, xml_tokens(utf8(ddi_xml@)), events@));
    }
    r
}


/// How many rows a batch takes from `start` on when batches hold `size` rows.
pub open spec fn plan_step(rows: nat, size: nat, start: nat) -> nat {
    if rows - start < size {
        (rows - start) as nat
    } else {
        size
    }
}

/// `starts` and `counts` are the first batches of `rows` rows taken `size`
/// at a time, in order and without gaps.
pub open spec fn batch_plan(rows: nat, size: nat, starts: Seq<usize>, counts: Seq<usize>) -> bool {
    &&& starts.len() == counts.len()
    &&& starts.len() > 0 ==> starts[0] == 0
    &&& forall|i: int|
        0 <= i < starts.len() ==> #[trigger] starts[i] < rows && counts[i] == plan_step(
            rows,
            size,
            starts[i] as nat,
        )
    &&& forall|i: int| 0 < i < starts.len() ==> #[trigger] starts[i] == starts[i - 1] + counts[i - 1]
}

/// The first row after the planned batches.
pub open spec fn plan_end(starts: Seq<usize>, counts: Seq<usize>) -> nat {
    if starts.len() == 0 {
        0
    } else {
        (starts.last() + counts.last()) as nat
    }
}

/// Each batch decoded as planned.
pub open spec fn batches_decoded<F: Fn(u64, usize) -> String>(
    format: F,
    source: ReadOnlySource,
    layout: DataLayout,
    starts: Seq<usize>,
    counts: Seq<usize>,
    batches: Seq<Vec<ColumnBatch>>,
) -> bool {
    &&& batches.len() == starts.len()
    &&& forall|i: int|
        0 <= i < batches.len() ==> batch_outcome(
            format,
            source,
            layout,
            starts[i],
            counts[i],
            Ok::<Vec<ColumnBatch>, DecodeError>(#[trigger] batches[i]),
        )
}

/// The rows of the batches as exported, the first row of the first batch
/// being the export's first.
pub open spec fn export_batches(
    mode: ExportMode,
    headers: Seq<Seq<char>>,
    batches: Seq<Vec<ColumnBatch>>,
    counts: Seq<usize>,
) -> Seq<char>
    decreases batches.len(),
{
    if batches.len() == 0 {
        Seq::empty()
    } else {
        export_batches(mode, headers, batches.drop_last(), counts.take(batches.len() - 1))
            + export_rows(
            mode,
            headers,
            batches.last()@,
            counts[batches.len() - 1] as nat,
            batches.len() == 1,
        )
    }
}

/// What an export starts with: `[` for JSON, the header line for delimited
/// text, nothing for JSON Lines.
pub open spec fn export_prefix(mode: ExportMode, headers: Seq<Seq<char>>) -> Seq<char> {
    match mode {
        ExportMode::Json => seq!['[', '\n'],
        ExportMode::Jsonl => Seq::empty(),
        ExportMode::Csv => join_fields(headers, ',').push('\n'),
        ExportMode::Tsv => join_fields(headers, '\t').push('\n'),
    }
}

/// What an export ends with: `]` for JSON, nothing otherwise.
pub open spec fn export_suffix(mode: ExportMode) -> Seq<char> {
    match mode {
        ExportMode::Json => seq!['\n', ']', '\n'],
        _ => Seq::empty(),
    }
}

/// The rows per export batch.
pub open spec fn export_batch_rows() -> nat {
    5000
}

/// `r` is what exporting every row of a layout gives: the rendered bytes
/// once every batch has decoded, else the first failure.
pub open spec fn export_outcome<F: Fn(u64, usize) -> String>(
    format: F,
    source: ReadOnlySource,
    layout: DataLayout,
    mode: ExportMode,
    r: Result<Vec<u8>, String>,
) -> bool {
    exists|rr: Result<usize, DecodeError>|
        #[trigger] rows_outcome(layout, rr) && match rr {
            Err(e) => (r matches Err(s) && s@ == decode_failure_text(e)),
            Ok(rows) => export_rows_outcome(format, source, layout, mode, rows as nat, r),
        }
}

/// `r` is what exporting the `rows` rows of a layout gives: the rendered
/// bytes once every batch has decoded, else the first failure.
pub open spec fn export_rows_outcome<F: Fn(u64, usize) -> String>(
    format: F,
    source: ReadOnlySource,
    layout: DataLayout,
    mode: ExportMode,
    rows: nat,
    r: Result<Vec<u8>, String>,
) -> bool {
    exists|starts: Seq<usize>, counts: Seq<usize>, batches: Seq<Vec<ColumnBatch>>|
        #![trigger batch_plan(rows, export_batch_rows(), starts, counts), batches_decoded(format, source, layout, starts, counts, batches)]
        {
            &&& batch_plan(rows, export_batch_rows(), starts, counts)
            &&& batches_decoded(format, source, layout, starts, counts, batches)
            &&& export_finished(format, source, layout, mode, rows, starts, counts, batches, r)
        }
}

/// After the planned batches: the export is done when they reach the last
/// row, else the next batch failed.
pub open spec fn export_finished<F: Fn(u64, usize) -> String>(
    format: F,
    source: ReadOnlySource,
    layout: DataLayout,
    mode: ExportMode,
    rows: nat,
    starts: Seq<usize>,
    counts: Seq<usize>,
    batches: Seq<Vec<ColumnBatch>>,
    r: Result<Vec<u8>, String>,
) -> bool {
    let headers = layout_headers(layout);
    if plan_end(starts, counts) >= rows {
        r matches Ok(bytes) && bytes@ == crate::text::utf8(
            export_prefix(mode, headers) + export_batches(mode, headers, batches, counts)
                + export_suffix(mode),
        )
    } else {
        exists|e: DecodeError|
            #[trigger] batch_outcome(
                format,
                source,
                layout,
                plan_end(starts, counts) as usize,
                plan_step(rows, export_batch_rows(), plan_end(starts, counts)) as usize,
                Err(e),
            ) && (r matches Err(s) && s@ == decode_failure_text(e))
    }
}

/// Export every row of a layout.
#[verifier::rlimit(40)]
#[verifier::spinoff_prover]
fn export_layout<F: Fn(u64, usize) -> String>(
    source: &ReadOnlySource,
    layout: &DataLayout,
    mode: ExportMode,
    format: &F,
) -> (r: Result<Vec<u8>, String>)
    requires
        forall|b: u64, q: usize| format.requires((b, q)),
    ensures
        export_outcome(*format, *source, *layout, mode, r),
{
    let headers = layout.headers();
    let ghost hv = layout_headers(*layout);
    let rr = layout.row_total();
    let total = match rr {
        Err(e) => {
            let r = Err(prefixed_message("Decode Error: ", e.message()));
            proof {
                assert(rows_outcome(*layout, rr));
            }
            return r;
        },
        Ok(t) => t,
    };
    let size: usize = 5000;
    let mut text: Vec<char> = Vec::new();
    match mode {
        ExportMode::Json => {
            text.push('[');
            text.push('\n');
        },
        ExportMode::Jsonl => {},
        ExportMode::Csv => push_header_line(&mut text, &headers, false),
        ExportMode::Tsv => push_header_line(&mut text, &headers, true),
    }
    proof {
        assert(text@ =~= export_prefix(mode, hv));
    }
    let ghost mut starts: Seq<usize> = Seq::empty();
    let ghost mut counts: Seq<usize> = Seq::empty();
    let ghost mut batches: Seq<Vec<ColumnBatch>> = Seq::empty();
    let mut start: usize = 0;
    while start < total
        invariant
            start <= total,
            rows_outcome(*layout, Ok::<usize, DecodeError>(total)),
            rr == Ok::<usize, DecodeError>(total),
            forall|b: u64, q: usize| format.requires((b, q)),
            hv == layout_headers(*layout),
            string_views(headers@) == hv,
            size == export_batch_rows(),
            batch_plan(total as nat, export_batch_rows(), starts, counts),
            batches_decoded(*format, *source, *layout, starts, counts, batches),
            plan_end(starts, counts) == start,
            starts.len() == 0 <==> start == 0,
            text@ == export_prefix(mode, hv) + export_batches(mode, hv, batches, counts),
        decreases total - start,
    {
        let count: usize = if total - start < size {
            total - start
        } else {
            size
        };
        let br = layout.decode_batch(source, total, start, count, format);
        match br {
            Err(e) => {
                let r = Err(prefixed_message("Decode Error: ", e.message()));
                proof {
                    assert(count == plan_step(total as nat, export_batch_rows(), start as nat) as usize);
                    assert(batch_outcome(
                        *format,
                        *source,
                        *layout,
                        plan_end(starts, counts) as usize,
                        plan_step(total as nat, export_batch_rows(), plan_end(starts, counts)) as usize,
                        Err(e),
                    ));
                    assert(export_finished(
                        *format,
                        *source,
                        *layout,
                        mode,
                        total as nat,
                        starts,
                        counts,
                        batches,
                        r,
                    ));
                    assert(batch_plan(total as nat, export_batch_rows(), starts, counts) && batches_decoded(
                        *format,
                        *source,
                        *layout,
                        starts,
                        counts,
                        batches,
                    ));
                    assert(rows_outcome(*layout, rr));
                    assert(export_rows_outcome(*format, *source, *layout, mode, total as nat, r));
                }
                return r;
            },
            Ok(cols) => {
                proof {
                    lemma_batch_shape(*format, *source, *layout, start, count, cols);
                    lemma_string_views_len(headers@);
                }
                push_export_rows(&mut text, mode, &headers, &cols, count, start == 0);
                proof {
                    lemma_export_batches_push(mode, hv, batches, counts, cols, count);
                    lemma_plan_push(total as nat, starts, counts, start, count);
                    lemma_decoded_push(*format, *source, *layout, starts, counts, batches, start, count, cols);
                    starts = starts.push(start);
                    counts = counts.push(count);
                    batches = batches.push(cols);
                }
                start = start + count;
            },
        }
    }
    match mode {
        ExportMode::Json => {
            text.push('\n');
            text.push(']');
            text.push('\n');
        },
        _ => {},
    }
    proof {
        assert(text@ =~= export_prefix(mode, hv) + export_batches(mode, hv, batches, counts) + export_suffix(
            mode,
        ));
    }
    let bytes = crate::text::utf8_of(text.as_slice());
    let r = Ok(bytes);
    proof {
        assert(export_finished(*format, *source, *layout, mode, total as nat, starts, counts, batches, r));
        assert(batch_plan(total as nat, export_batch_rows(), starts, counts) && batches_decoded(
            *format,
            *source,
            *layout,
            starts,
            counts,
            batches,
        ));
        assert(rows_outcome(*layout, rr));
    }
    r
}

proof fn lemma_export_batches_push(
    mode: ExportMode,
    headers: Seq<Seq<char>>,
    batches: Seq<Vec<ColumnBatch>>,
    counts: Seq<usize>,
    cols: Vec<ColumnBatch>,
    count: usize,
)
    requires
        batches.len() == counts.len(),
    ensures
        export_batches(mode, headers, batches.push(cols), counts.push(count)) == export_batches(
            mode,
            headers,
            batches,
            counts,
        ) + export_rows(mode, headers, cols@, count as nat, batches.len() == 0),
{
    assert(batches.push(cols).drop_last() =~= batches);
    assert(counts.push(count).take(batches.len() as int) =~= counts);
}

proof fn lemma_plan_push(rows: nat, starts: Seq<usize>, counts: Seq<usize>, start: usize, count: usize)
    requires
        batch_plan(rows, export_batch_rows(), starts, counts),
        plan_end(starts, counts) == start,
        starts.len() == 0 <==> start == 0,
        start < rows,
        count == plan_step(rows, export_batch_rows(), start as nat),
    ensures
        batch_plan(rows, export_batch_rows(), starts.push(start), counts.push(count)),
        plan_end(starts.push(start), counts.push(count)) == start + count,
        count > 0,
{
    let s2 = starts.push(start);
    let c2 = counts.push(count);
    assert forall|i: int| 0 < i < s2.len() implies #[trigger] s2[i] == s2[i - 1] + c2[i - 1] by {
        if i < starts.len() {
            assert(s2[i] == starts[i]);
        }
    }
    assert forall|i: int| 0 <= i < s2.len() implies #[trigger] s2[i] < rows && c2[i] == plan_step(
        rows,
        export_batch_rows(),
        s2[i] as nat,
    ) by {
        if i < starts.len() {
            assert(s2[i] == starts[i]);
        }
    }
}

proof fn lemma_decoded_push<F: Fn(u64, usize) -> String>(
    format: F,
    source: ReadOnlySource,
    layout: DataLayout,
    starts: Seq<usize>,
    counts: Seq<usize>,
    batches: Seq<Vec<ColumnBatch>>,
    start: usize,
    count: usize,
    cols: Vec<ColumnBatch>,
)
    requires
        batches_decoded(format, source, layout, starts, counts, batches),
        starts.len() == counts.len(),
        batch_outcome(format, source, layout, start, count, Ok::<Vec<ColumnBatch>, DecodeError>(cols)),
    ensures
        batches_decoded(format, source, layout, starts.push(start), counts.push(count), batches.push(cols)),
{
    let b2 = batches.push(cols);
    assert forall|i: int| 0 <= i < b2.len() implies batch_outcome(
        format,
        source,
        layout,
        starts.push(start)[i],
        counts.push(count)[i],
        Ok::<Vec<ColumnBatch>, DecodeError>(#[trigger] b2[i]),
    ) by {
        if i < batches.len() {
            assert(b2[i] == batches[i]);
        }
    }
}


/// `r` is what exporting the container `bytes` as `format_name` with the
/// codebook events `events` gives.
pub open spec fn convert_outcome<F: Fn(u64, usize) -> String>(
    bytes: Seq<u8>,
    events: Seq<XmlEvent>,
    format_name: Seq<char>,
    format: F,
    r: Result<Vec<u8>, String>,
) -> bool {
        match ddi_result(events) {
            Err(m) => r matches Err(s) && s@ == ddi_error_text(m),
            Ok(bs) => if bs.len() == 0 {
                r matches Err(s) && s@ == no_blocks_text()
            } else if !has_magic(bytes) {
                r matches Err(s) && s@ == binary_error_text(bytes)
            } else {
                exists|
                    block: BlockDefinition,
                    source: ReadOnlySource,
                    found: Result<DataLayout, MetadataLayoutError>,
                |
                    #![trigger layout_found(bytes, block, found), source.data()]
                    {
                        &&& block_view(block) == bs[0]
                        &&& source.data() == bytes
                        &&& source.name() == "in-memory.Nesstar"@
                        &&& layout_found(bytes, block, found)
                        &&& match found {
                            Err(e) => r matches Err(s) && s@ == layout_error_text(e),
                            Ok(layout) => export_outcome(
                                format,
                                source,
                                layout,
                                export_mode_of(format_name),
                                r,
                            ),
                        }
                    }
            },
        }
}

/// Every row of the first block of a dataset, from the codebook's events,
/// exported in the format that `format_name` names: JSON, JSON Lines, TSV
/// (`tsv` or `txt`), else CSV.
pub fn convert_from_events<F: Fn(u64, usize) -> String>(
    nesstar_bytes: &[u8],
    ddi_events: &Vec<XmlEvent>,
    format_name: &str,
    format: &F,
) -> (r: Result<Vec<u8>, String>)
    requires
        forall|b: u64, q: usize| format.requires((b, q)),
    ensures
        convert_outcome(nesstar_bytes@, ddi_events@, format_name@, *format, r),
{
    let block = match first_ddi_block(ddi_events) {
        Ok(b) => b,
        Err(e) => return Err(e),
    };
    let source = match open_source(nesstar_bytes) {
        Ok(s) => s,
        Err(e) => return Err(e),
    };
    let mode = export_mode(format_name);
    let found = discover_layout(source.bytes(), &block);
    proof {
        assert(source.data() == nesstar_bytes@);
        assert(layout_found(nesstar_bytes@, block, found));
    }
    match found {
        Err(e) => Err(prefixed_message("Layout Error: ", e.message())),
        Ok(layout) => export_layout(&source, &layout, mode, format),
    }
}

/// Every row of the first block of a dataset, exported in the format that
/// `format_name` names: JSON, JSON Lines, TSV (`tsv` or `txt`), else CSV.
/// The codebook is XML text, its attribute values read as numbers by
/// `parse_number`; doubles in the data are written by `format`.
pub fn convert_nesstar<F: Fn(u64, usize) -> String, P: Fn(&str) -> Result<u64, String>>(
    nesstar_bytes: &[u8],
    ddi_xml: &str,
    format_name: &str,
    format: &F,
    parse_number: &P,
) -> (r: Result<Vec<u8>, String>)
    requires
        forall|b: u64, q: usize| format.requires((b, q)),
        forall|t: &str| parse_number.requires((t,)),
    ensures
        exists|events: Seq<XmlEvent>|
            #[trigger] events_cooked(*parse_number, xml_tokens(utf8(ddi_xml@)), events)
                && convert_outcome(nesstar_bytes@, events, format_name@, *format, r),
{
    let text = utf8_bytes(ddi_xml);
    let events = xml_events(text.as_slice(), parse_number);
    let r = convert_from_events(nesstar_bytes, &events, format_name, format);
    proof {
        assert(events_cooked(*parse_number, xml_tokens(utf8(ddi_xml@)), events@));
    }
    r
}

} // verus!
