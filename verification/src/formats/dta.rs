//! Stata DTA release 118 rendering: the minimal subset that Stata and pandas
//! read. Rows are kept as observation bytes and the file is rendered at the
//! end, with the section map pointing at each section.

use vstd::prelude::*;
use crate::bytes::{
    fit_bytes, le_bytes, push_bytes, push_fit, push_le, push_repeat, repeat_byte,
};
use crate::decode::RecordBatch;
use crate::formats::json::{batch_complete, cell_text};
use crate::model::{CellValue, DeclaredType, VariableDefinition};
use crate::text::{chars_of, nat_text, push_str, string_from_chars, trim, trim_chars, u64_text, utf8, utf8_bytes};

verus! {

/// Maximum length of a Stata variable name (129 bytes in release 118).
pub const STATA_NAME_LEN: usize = 129;
/// Maximum length of a Stata variable label (321 bytes in release 118).
pub const STATA_LABEL_LEN: usize = 321;
/// Maximum length of a string variable (2045 bytes in release 118).
pub const STATA_STR_MAX: usize = 2045;
/// The bit pattern of Stata's system-missing double.
pub const STATA_SYSMIS_BITS: u64 = 0x7fe0_0000_0000_0000;

/// A DTA storage type.
#[derive(Clone, Copy, Debug, PartialEq, Eq, Structural)]
pub enum DtaType {
    /// An eight-byte double.
    Double,
    /// A fixed-width string of `n` bytes.
    Str(u16),
}

/// `w` clamped to `1 ..= 2045`.
pub open spec fn stata_str_width(w: u32) -> nat {
    if w < 1 {
        1
    } else if w > 2045 {
        2045
    } else {
        w as nat
    }
}

/// The storage type of a variable: strings for character variables, of their
/// DDI width (clamped), doubles otherwise.
pub open spec fn dta_type_of(var: VariableDefinition) -> DtaType {
    match var.declared_type {
        DeclaredType::Character => DtaType::Str(stata_str_width(var.ddi_width) as u16),
        _ => DtaType::Double,
    }
}

/// The type code written to the type list.
pub open spec fn dta_code(t: DtaType) -> u16 {
    match t {
        DtaType::Double => 65526,
        DtaType::Str(n) => n,
    }
}

/// The bytes one value of type `t` takes.
pub open spec fn dta_width(t: DtaType) -> nat {
    match t {
        DtaType::Double => 8,
        DtaType::Str(n) => n as nat,
    }
}

impl DtaType {
    /// The storage type of a variable.
    pub fn from_ddi(var: &VariableDefinition) -> (r: Self)
        ensures
            r == dta_type_of(*var),
    {
        match var.declared_type {
            DeclaredType::Character => {
                let w = if var.ddi_width < 1 {
                    1
                } else if var.ddi_width > 2045 {
                    2045
                } else {
                    var.ddi_width
                };
                DtaType::Str(w as u16)
            },
            _ => DtaType::Double,
        }
    }

    /// The type code written to the type list.
    pub fn code(self) -> (r: u16)
        ensures
            r == dta_code(self),
    {
        match self {
            DtaType::Double => 65526,
            DtaType::Str(n) => n,
        }
    }
}

/// `read` is what `parse` makes of the trimmed text of `cell`, whatever
/// form of that text it is given.
pub open spec fn parsed_as<P: Fn(&str) -> Option<u64>>(parse: P, cell: CellValue, read: Option<u64>) -> bool {
    cell matches CellValue::Text(s) && forall|t: &str, o: Option<u64>|
        #![trigger call_ensures(parse, (t,), o)]
        t@ == trim(s@) && call_ensures(parse, (t,), o) ==> o == read
}

/// The bits of a numeric cell: system missing for a missing cell, else what
/// `parse` makes of the trimmed text (system missing when it fails).
pub open spec fn parsed_bits<P: Fn(&str) -> Option<u64>>(
    parse: P,
    cell: CellValue,
    missing: u64,
    bits: u64,
) -> bool {
    match cell {
        CellValue::Missing => bits == missing,
        CellValue::Text(s) => exists|t: &str, o: Option<u64>|
            #![trigger call_ensures(parse, (t,), o)]
            t@ == trim(s@) && call_ensures(parse, (t,), o) && bits == match o {
                Some(b) => b,
                None => missing,
            },
    }
}

/// The bits of a numeric cell.
pub fn numeric_bits<P: Fn(&str) -> Option<u64>>(cell: &CellValue, missing: u64, parse: &P) -> (r: u64)
    requires
        forall|t: &str| parse.requires((t,)),
    ensures
        parsed_bits(*parse, *cell, missing, r),
{
    match cell {
        CellValue::Missing => missing,
        CellValue::Text(s) => {
            let t = string_from_chars(trim_chars(chars_of(s.as_str()).as_slice()).as_slice());
            let ts: &str = t.as_str();
            let o = parse(ts);
            let r = match o {
                Some(b) => b,
                None => missing,
            };
            proof {
                assert(call_ensures(*parse, (ts,), o));
            }
            r
        },
    }
}

/// `bytes` are the observation bytes of a cell of type `t`.
pub open spec fn dta_cell<P: Fn(&str) -> Option<u64>>(
    parse: P,
    t: DtaType,
    cell: CellValue,
    bytes: Seq<u8>,
) -> bool {
    match t {
        DtaType::Double => exists|bits: u64|
            parsed_bits(parse, cell, STATA_SYSMIS_BITS, bits) && bytes == le_bytes(bits as nat, 8),
        DtaType::Str(n) => bytes == fit_bytes(utf8(cell_text(cell)), n as nat, 0),
    }
}

/// A numeric Stata cell that holds no number (a missing cell, or text that
/// the parser does not read as one) is written as Stata's system missing
/// value `.`, the double with bits `0x7fe0_0000_0000_0000`; text the parser
/// reads as a number is written as that number's bits.
pub proof fn stata_numbers_and_missing<P: Fn(&str) -> Option<u64>>(
    parse: P,
    cell: CellValue,
    bytes: Seq<u8>,
)
    requires
        dta_cell(parse, DtaType::Double, cell, bytes),
    ensures
        cell is Missing ==> bytes == le_bytes(0x7fe0_0000_0000_0000nat, 8),
        forall|read: Option<u64>|
            #![trigger parsed_as(parse, cell, read)]
            parsed_as(parse, cell, read) ==> bytes == le_bytes(
                match read {
                    Some(b) => b as nat,
                    None => 0x7fe0_0000_0000_0000nat,
                },
                8,
            ),
{
    let bits = choose|bits: u64|
        parsed_bits(parse, cell, STATA_SYSMIS_BITS, bits) && bytes == le_bytes(bits as nat, 8);
    assert forall|read: Option<u64>| #[trigger] parsed_as(parse, cell, read) implies bytes == le_bytes(
        match read {
            Some(b) => b as nat,
            None => 0x7fe0_0000_0000_0000nat,
        },
        8,
    ) by {
        if let CellValue::Text(s) = cell {
            let (t, o) = choose|t: &str, o: Option<u64>|
                t@ == trim(s@) && call_ensures(parse, (t,), o) && bits == match o {
                    Some(b) => b,
                    None => STATA_SYSMIS_BITS,
                };
            assert(o == read);
        }
    }
}

/// The bytes of one observation with `n` columns.
pub open spec fn row_width(types: Seq<DtaType>, n: nat) -> nat
    decreases n,
{
    if n == 0 {
        0
    } else {
        row_width(types, (n - 1) as nat) + dta_width(types[n - 1])
    }
}

/// `rows` holds, after `before`, row after row of `batch`, each column in
/// the bytes of its type.
pub open spec fn dta_rows_appended<P: Fn(&str) -> Option<u64>>(
    parse: P,
    types: Seq<DtaType>,
    batch: RecordBatch,
    before: Seq<u8>,
    rows: Seq<u8>,
) -> bool {
    let n = batch.columns@.len();
    let w = row_width(types, n);
    &&& rows.len() == before.len() + batch.row_count * w
    &&& rows.take(before.len() as int) == before
    &&& forall|r: int, k: int|
        0 <= r < batch.row_count && 0 <= k < n ==> {
            let at = before.len() + r * w + row_width(types, k as nat);
            dta_cell(
                parse,
                types[k],
                #[trigger] batch.columns@[k].values@[r],
                rows.subrange(at, at + dta_width(types[k])),
            )
        }
}

proof fn lemma_row_width_grows(types: Seq<DtaType>, a: nat, b: nat)
    requires
        a <= b,
    ensures
        row_width(types, a) <= row_width(types, b),
    decreases b,
{
    if a < b {
        lemma_row_width_grows(types, a, (b - 1) as nat);
    }
}

/// A DTA rendering in progress: the column types, the column count, the
/// rows so far and their bytes.
pub struct DtaOutput {
    pub types: Vec<DtaType>,
    pub nvar: u32,
    pub nobs: u64,
    pub rows: Vec<u8>,
}

impl DtaOutput {
    /// Start a rendering for `variables`, with one column per header.
    pub fn new(headers: &Vec<String>, variables: &Vec<VariableDefinition>) -> (r: Self)
        ensures
            r.types@.len() == variables@.len(),
            forall|i: int| 0 <= i < variables@.len() ==> r.types@[i] == dta_type_of(#[trigger] variables@[i]),
            r.nvar == headers@.len() as u32,
            r.nobs == 0,
            r.rows@ == Seq::<u8>::empty(),
    {
        let mut types: Vec<DtaType> = Vec::new();
        let mut i: usize = 0;
        while i < variables.len()
            invariant
                i <= variables@.len(),
                types@.len() == i,
                forall|q: int| 0 <= q < i ==> types@[q] == dta_type_of(#[trigger] variables@[q]),
            decreases variables@.len() - i,
        {
            types.push(DtaType::from_ddi(&variables[i]));
            i += 1;
        }
        DtaOutput { types, nvar: headers.len() as u32, nobs: 0, rows: Vec::new() }
    }

    /// Add the rows of `batch`; numeric text is read by `parse`.
    pub fn write_batch<P: Fn(&str) -> Option<u64>>(&mut self, batch: &RecordBatch, parse: &P)
        requires
            batch_complete(*batch),
            batch.columns@.len() <= old(self).types@.len(),
            old(self).nobs + batch.row_count <= u64::MAX,
            forall|t: &str| parse.requires((t,)),
        ensures
            final(self).types == old(self).types,
            final(self).nvar == old(self).nvar,
            final(self).nobs == old(self).nobs + batch.row_count,
            dta_rows_appended(*parse, old(self).types@, *batch, old(self).rows@, final(self).rows@),
    {
        let ghost before = self.rows@;
        let ghost types = self.types@;
        let ghost n = batch.columns@.len();
        let ghost w = row_width(types, n as nat);
        let mut row: usize = 0;
        while row < batch.row_count
            invariant
                row <= batch.row_count,
                batch_complete(*batch),
                n == batch.columns@.len(),
                n <= types.len(),
                types == self.types@,
                self.types == old(self).types,
                self.nvar == old(self).nvar,
                self.nobs == old(self).nobs + row,
                old(self).nobs + batch.row_count <= u64::MAX,
                w == row_width(types, n as nat),
                forall|t: &str| parse.requires((t,)),
                self.rows@.len() == before.len() + row * w,
                self.rows@.take(before.len() as int) == before,
                before == old(self).rows@,
                forall|r: int, k: int|
                    0 <= r < row && 0 <= k < n ==> {
                        let at = before.len() + r * w + row_width(types, k as nat);
                        dta_cell(
                            *parse,
                            types[k],
                            #[trigger] batch.columns@[k].values@[r],
                            self.rows@.subrange(at, at + dta_width(types[k])),
                        )
                    },
            decreases batch.row_count - row,
        {
            self.nobs = self.nobs + 1;
            let ghost row_start: int = self.rows@.len() as int;
            let ghost at_row_start = self.rows@;
            let mut k: usize = 0;
            while k < batch.columns.len()
                invariant
                    k <= n,
                    row < batch.row_count,
                    batch_complete(*batch),
                    n == batch.columns@.len(),
                    n <= types.len(),
                    types == self.types@,
                    self.types == old(self).types,
                    self.nvar == old(self).nvar,
                    self.nobs == old(self).nobs + row + 1,
                    forall|t: &str| parse.requires((t,)),
                    self.rows@.len() == row_start + row_width(types, k as nat),
                    row_start == at_row_start.len(),
                    self.rows@.take(row_start) == at_row_start,
                    forall|q: int|
                        0 <= q < k ==> {
                            let at = row_start + row_width(types, q as nat);
                            dta_cell(
                                *parse,
                                types[q],
                                #[trigger] batch.columns@[q].values@[row as int],
                                self.rows@.subrange(at, at + dta_width(types[q])),
                            )
                        },
                decreases n - k,
            {
                let column = &batch.columns[k];
                assert(column.values@.len() >= batch.row_count);
                let cell = &column.values[row];
                let ghost prior = self.rows@;
                let ghost at: int = row_start + row_width(types, k as nat);
                match self.types[k] {
                    DtaType::Double => {
                        let bits = numeric_bits(cell, STATA_SYSMIS_BITS, parse);
                        push_le(&mut self.rows, bits, 8);
                        proof {
                            assert(self.rows@.subrange(at, at + 8) =~= le_bytes(bits as nat, 8));
                        }
                    },
                    DtaType::Str(width) => {
                        let text: &str = match cell {
                            CellValue::Missing => "",
                            CellValue::Text(s) => s.as_str(),
                        };
                        proof {
                            reveal_strlit("");
                        }
                        assert(text@ == cell_text(*cell));
                        let bytes = utf8_bytes(text);
                        push_fit(&mut self.rows, bytes.as_slice(), width as usize, 0);
                        proof {
                            let fitted = fit_bytes(bytes@, width as nat, 0);
                            assert(fitted.len() == width as nat);
                            assert(self.rows@.subrange(at, at + width as nat) =~= fitted);
                        }
                    },
                }
                proof {
                    assert(self.rows@.take(row_start) =~= at_row_start);
                    assert forall|q: int| 0 <= q < k + 1 implies {
                        let a = row_start + row_width(types, q as nat);
                        dta_cell(
                            *parse,
                            types[q],
                            #[trigger] batch.columns@[q].values@[row as int],
                            self.rows@.subrange(a, a + dta_width(types[q])),
                        )
                    } by {
                        if q < k {
                            let a = row_start + row_width(types, q as nat);
                            lemma_row_width_grows(types, (q + 1) as nat, k as nat);
                            assert(self.rows@.subrange(a, a + dta_width(types[q])) =~= prior.subrange(
                                a,
                                a + dta_width(types[q]),
                            ));
                        }
                    }
                }
                k += 1;
            }
            proof {
                assert((row + 1) * w == row * w + w) by (nonlinear_arith);
                assert forall|r: int, q: int| 0 <= r < row + 1 && 0 <= q < n implies {
                    let a = before.len() + r * w + row_width(types, q as nat);
                    dta_cell(
                        *parse,
                        types[q],
                        #[trigger] batch.columns@[q].values@[r],
                        self.rows@.subrange(a, a + dta_width(types[q])),
                    )
                } by {
                    let a = before.len() + r * w + row_width(types, q as nat);
                    lemma_row_width_grows(types, (q + 1) as nat, n as nat);
                    if r < row {
                        assert(r * w + w <= row * w) by (nonlinear_arith)
                            requires
                                r < row,
                                w >= 0,
                        ;
                        assert(self.rows@.subrange(a, a + dta_width(types[q])) =~= at_row_start.subrange(
                            a,
                            a + dta_width(types[q]),
                        ));
                    }
                }
                assert(self.rows@.take(before.len() as int) =~= before);
            }
            row += 1;
        }
    }
}

/// The fields `0 .. n`, one after another.
pub open spec fn concat_fields(f: spec_fn(int) -> Seq<u8>, n: nat) -> Seq<u8>
    decreases n,
{
    if n == 0 {
        Seq::empty()
    } else {
        concat_fields(f, (n - 1) as nat) + f(n - 1)
    }
}

/// A NUL-padded field of `n` bytes holding at most `n - 1` bytes of `b`.
pub open spec fn name_field(b: Seq<u8>, n: nat) -> Seq<u8> {
    let kept = if b.len() > n - 1 {
        b.take(n - 1)
    } else {
        b
    };
    fit_bytes(kept, n, 0)
}

/// The file header: release, byte order, column and row counts, dataset
/// label and time stamp.
#[verifier::opaque]
pub open spec fn dta_header(nvar: u32, nobs: u64) -> Seq<u8> {
    utf8("<stata_dta><header><release>118</release><byteorder>LSF</byteorder>"@) + utf8("<K>"@)
        + le_bytes(nvar as u16 as nat, 2) + utf8("</K><N>"@) + le_bytes(nobs as nat, 8) + utf8(
        "</N><label>"@,
    ) + seq![80u8] + fit_bytes(utf8("Nesstar Export"@), 80, 0) + utf8("</label><timestamp>"@)
        + seq![17u8] + utf8("01 Jan 2024 00:00"@) + utf8("</timestamp></header>"@)
}

/// The type list.
#[verifier::opaque]
pub open spec fn types_section(types: Seq<DtaType>) -> Seq<u8> {
    utf8("<variable_types>"@) + concat_fields(
        |i: int| le_bytes(dta_code(types[i]) as nat, 2),
        types.len(),
    ) + utf8("</variable_types>"@)
}

/// The variable names, 129 bytes each.
#[verifier::opaque]
pub open spec fn names_section(vars: Seq<VariableDefinition>) -> Seq<u8> {
    utf8("<varnames>"@) + concat_fields(
        |i: int| name_field(utf8(vars[i].name@), STATA_NAME_LEN as nat),
        vars.len(),
    ) + utf8("</varnames>"@)
}

/// The sort list: all zero, the data being unsorted.
#[verifier::opaque]
pub open spec fn sort_section(nvar: u32) -> Seq<u8> {
    utf8("<sortlist>"@) + repeat_byte(0, 2 * (nvar + 1) as nat) + utf8("</sortlist>"@)
}

/// The display format of a column: `%9.0g` for doubles, `%<width>s` for
/// strings, in 57 NUL-padded bytes.
pub open spec fn format_field(t: DtaType, var: VariableDefinition) -> Seq<u8> {
    match t {
        DtaType::Double => name_field(utf8("%9.0g"@), 57),
        DtaType::Str(_) => name_field(
            utf8(seq!['%'] + nat_text(stata_str_width(var.ddi_width)) + seq!['s']),
            57,
        ),
    }
}

/// The display formats.
#[verifier::opaque]
pub open spec fn formats_section(types: Seq<DtaType>, vars: Seq<VariableDefinition>) -> Seq<u8> {
    utf8("<formats>"@) + concat_fields(|i: int| format_field(types[i], vars[i]), vars.len())
        + utf8("</formats>"@)
}

/// The value-label names: all blank.
#[verifier::opaque]
pub open spec fn label_names_section(nvar: u32) -> Seq<u8> {
    utf8("<value_label_names>"@) + repeat_byte(0, (STATA_NAME_LEN * nvar) as nat) + utf8(
        "</value_label_names>"@,
    )
}

/// The variable labels, 321 bytes each.
#[verifier::opaque]
pub open spec fn labels_section(vars: Seq<VariableDefinition>) -> Seq<u8> {
    utf8("<variable_labels>"@) + concat_fields(
        |i: int| name_field(utf8(vars[i].label@), STATA_LABEL_LEN as nat),
        vars.len(),
    ) + utf8("</variable_labels>"@)
}

/// The data section.
#[verifier::opaque]
pub open spec fn data_section(rows: Seq<u8>) -> Seq<u8> {
    utf8("<data>"@) + rows + utf8("</data>"@)
}

/// The sections after the map, in file order.
pub open spec fn dta_body(
    types: Seq<DtaType>,
    nvar: u32,
    rows: Seq<u8>,
    vars: Seq<VariableDefinition>,
) -> Seq<u8> {
    types_section(types) + names_section(vars) + sort_section(nvar) + formats_section(types, vars)
        + label_names_section(nvar) + labels_section(vars) + utf8(
        "<characteristics></characteristics>"@,
    ) + data_section(rows) + utf8("<strls></strls>"@) + utf8("<value_labels></value_labels>"@)
        + utf8("</stata_dta>"@)
}

/// The map: the byte offsets of `<stata_dta>` (zero), `<map>` (at `map_at`),
/// each section from `<variable_types>` (at `start`) to `<value_labels>`, the
/// closing `</stata_dta>`, and the end of the file.
pub open spec fn dta_map(
    types: Seq<DtaType>,
    nvar: u32,
    rows: Seq<u8>,
    vars: Seq<VariableDefinition>,
    map_at: nat,
    start: nat,
) -> Seq<nat> {
    let types_at = start;
    let names_at = types_at + types_section(types).len();
    let sort_at = names_at + names_section(vars).len();
    let formats_at = sort_at + sort_section(nvar).len();
    let label_names_at = formats_at + formats_section(types, vars).len();
    let labels_at = label_names_at + label_names_section(nvar).len();
    let chars_at = labels_at + labels_section(vars).len();
    let data_at = chars_at + utf8("<characteristics></characteristics>"@).len();
    let strls_at = data_at + data_section(rows).len();
    let value_labels_at = strls_at + utf8("<strls></strls>"@).len();
    let close_at = value_labels_at + utf8("<value_labels></value_labels>"@).len();
    let end_at = close_at + utf8("</stata_dta>"@).len();
    seq![
        0,
        map_at,
        types_at,
        names_at,
        sort_at,
        formats_at,
        label_names_at,
        labels_at,
        chars_at,
        data_at,
        strls_at,
        value_labels_at,
        close_at,
        end_at,
    ]
}

/// The bytes of the map's offsets.
pub open spec fn map_bytes(offsets: Seq<nat>) -> Seq<u8> {
    concat_fields(|i: int| le_bytes(offsets[i], 8), 14)
}

/// The whole DTA file: header, map, and the sections up to `</stata_dta>`.
pub open spec fn dta_file(
    types: Seq<DtaType>,
    nvar: u32,
    nobs: u64,
    rows: Seq<u8>,
    vars: Seq<VariableDefinition>,
) -> Seq<u8> {
    let head = dta_header(nvar, nobs);
    let start = head.len() + utf8("<map>"@).len() + 112 + utf8("</map>"@).len();
    head + utf8("<map>"@) + map_bytes(dta_map(types, nvar, rows, vars, head.len(), start)) + utf8(
        "</map>"@,
    ) + dta_body(types, nvar, rows, vars)
}

/// Append the literal `s`.
fn push_literal(out: &mut Vec<u8>, s: &str)
    ensures
        final(out)@ == old(out)@ + utf8(s@),
{
    let b = utf8_bytes(s);
    push_bytes(out, b.as_slice());
}

proof fn lemma_concat_fields_len(f: spec_fn(int) -> Seq<u8>, n: nat, w: nat)
    requires
        forall|i: int| 0 <= i < n ==> (#[trigger] f(i)).len() == w,
    ensures
        concat_fields(f, n).len() == n * w,
    decreases n,
{
    if n > 0 {
        lemma_concat_fields_len(f, (n - 1) as nat, w);
        assert((n - 1) * w + w == n * w) by (nonlinear_arith);
        assert(f(n - 1).len() == w);
    } else {
        assert(0 * w == 0) by (nonlinear_arith);
    }
}

/// Append a field of `n` NUL-padded bytes holding at most `n - 1` of `b`.
fn push_name_field(out: &mut Vec<u8>, b: &[u8], n: usize)
    requires
        n >= 1,
    ensures
        final(out)@ == old(out)@ + name_field(b@, n as nat),
{
    if b.len() > n - 1 {
        let kept = vstd::slice::slice_subrange(b, 0, n - 1);
        proof {
            assert(kept@ =~= b@.take(n - 1));
        }
        push_fit(out, kept, n, 0);
    } else {
        push_fit(out, b, n, 0);
    }
}

/// Overwrite eight bytes at `at` with `v`, least significant first.
fn patch_u64(out: &mut Vec<u8>, at: usize, v: u64)
    requires
        at + 8 <= old(out)@.len(),
    ensures
        final(out)@ == old(out)@.take(at as int) + le_bytes(v as nat, 8) + old(out)@.skip(at + 8),
{
    let mut bytes: Vec<u8> = Vec::new();
    push_le(&mut bytes, v, 8);
    let ghost start = out@;
    let len = out.len();
    let mut i: usize = 0;
    while i < 8
        invariant
            i <= 8,
            len == start.len(),
            at + 8 <= start.len(),
            bytes@ == le_bytes(v as nat, 8),
            out@ == start.take(at as int) + bytes@.take(i as int) + start.skip(at + i),
        decreases 8 - i,
    {
        out.set(at + i, bytes[i]);
        i += 1;
        proof {
            assert(out@ =~= start.take(at as int) + bytes@.take(i as int) + start.skip(at + i));
        }
    }
    proof {
        assert(bytes@.take(8) =~= bytes@);
    }
}

/// Append the type list.
fn push_types_section(out: &mut Vec<u8>, types: &Vec<DtaType>)
    ensures
        final(out)@ == old(out)@ + types_section(types@),
{
    let ghost start = out@;
    push_literal(out, "<variable_types>");
    let ghost open = out@;
    let ghost f = |i: int| le_bytes(dta_code(types@[i]) as nat, 2);
    let mut i: usize = 0;
    while i < types.len()
        invariant
            i <= types@.len(),
            f == |i: int| le_bytes(dta_code(types@[i]) as nat, 2),
            out@ == open + concat_fields(f, i as nat),
        decreases types@.len() - i,
    {
        push_le(out, types[i].code() as u64, 2);
        i += 1;
    }
    push_literal(out, "</variable_types>");
    proof {
        reveal(types_section);
        assert(out@ =~= start + types_section(types@));
    }
}

/// Append the variable names.
fn push_names_section(out: &mut Vec<u8>, vars: &Vec<VariableDefinition>)
    ensures
        final(out)@ == old(out)@ + names_section(vars@),
{
    let ghost start = out@;
    push_literal(out, "<varnames>");
    let ghost open = out@;
    let ghost f = |i: int| name_field(utf8(vars@[i].name@), STATA_NAME_LEN as nat);
    let mut i: usize = 0;
    while i < vars.len()
        invariant
            i <= vars@.len(),
            f == |i: int| name_field(utf8(vars@[i].name@), STATA_NAME_LEN as nat),
            out@ == open + concat_fields(f, i as nat),
        decreases vars@.len() - i,
    {
        let b = utf8_bytes(vars[i].name.as_str());
        push_name_field(out, b.as_slice(), STATA_NAME_LEN);
        i += 1;
    }
    push_literal(out, "</varnames>");
    proof {
        reveal(names_section);
        assert(out@ =~= start + names_section(vars@));
    }
}

/// Append the variable labels.
fn push_labels_section(out: &mut Vec<u8>, vars: &Vec<VariableDefinition>)
    ensures
        final(out)@ == old(out)@ + labels_section(vars@),
{
    let ghost start = out@;
    push_literal(out, "<variable_labels>");
    let ghost open = out@;
    let ghost f = |i: int| name_field(utf8(vars@[i].label@), STATA_LABEL_LEN as nat);
    let mut i: usize = 0;
    while i < vars.len()
        invariant
            i <= vars@.len(),
            f == |i: int| name_field(utf8(vars@[i].label@), STATA_LABEL_LEN as nat),
            out@ == open + concat_fields(f, i as nat),
        decreases vars@.len() - i,
    {
        let b = utf8_bytes(vars[i].label.as_str());
        push_name_field(out, b.as_slice(), STATA_LABEL_LEN);
        i += 1;
    }
    push_literal(out, "</variable_labels>");
    proof {
        reveal(labels_section);
        assert(out@ =~= start + labels_section(vars@));
    }
}

/// Append the display formats.
fn push_formats_section(out: &mut Vec<u8>, types: &Vec<DtaType>, vars: &Vec<VariableDefinition>)
    requires
        types@.len() >= vars@.len(),
    ensures
        final(out)@ == old(out)@ + formats_section(types@, vars@),
{
    let ghost start = out@;
    push_literal(out, "<formats>");
    let ghost open = out@;
    let ghost f = |i: int| format_field(types@[i], vars@[i]);
    let mut i: usize = 0;
    while i < vars.len()
        invariant
            i <= vars@.len(),
            types@.len() >= vars@.len(),
            f == |i: int| format_field(types@[i], vars@[i]),
            out@ == open + concat_fields(f, i as nat),
        decreases vars@.len() - i,
    {
        match types[i] {
            DtaType::Double => {
                let b = utf8_bytes("%9.0g");
                push_name_field(out, b.as_slice(), 57);
            },
            DtaType::Str(_) => {
                let d = vars[i].ddi_width;
                let w: u32 = if d < 1 {
                    1
                } else if d > 2045 {
                    2045
                } else {
                    d
                };
                let mut text: Vec<char> = Vec::new();
                text.push('%');
                let digits = u64_text(w as u64);
                crate::text::push_chars(&mut text, digits.as_slice());
                text.push('s');
                proof {
                    assert(text@ =~= seq!['%'] + nat_text(stata_str_width(d) as nat) + seq!['s']);
                }
                let s = string_from_chars(text.as_slice());
                let b = utf8_bytes(s.as_str());
                push_name_field(out, b.as_slice(), 57);
            },
        }
        i += 1;
    }
    push_literal(out, "</formats>");
    proof {
        reveal(formats_section);
        assert(out@ =~= start + formats_section(types@, vars@));
    }
}

/// Append the sort list.
fn push_sort_section(out: &mut Vec<u8>, nvar: u32)
    ensures
        final(out)@ == old(out)@ + sort_section(nvar),
{
    let ghost start = out@;
    push_literal(out, "<sortlist>");
    let ghost open = out@;
    push_repeat(out, 0, 2);
    let mut z: u32 = 0;
    while z < nvar
        invariant
            z <= nvar,
            out@ == open + repeat_byte(0, 2 * (z + 1) as nat),
        decreases nvar - z,
    {
        push_repeat(out, 0, 2);
        z += 1;
        proof {
            assert(out@ =~= open + repeat_byte(0, 2 * (z + 1) as nat));
        }
    }
    push_literal(out, "</sortlist>");
    proof {
        reveal(sort_section);
        assert(out@ =~= start + sort_section(nvar));
    }
}

/// Append the blank value-label names.
fn push_label_names_section(out: &mut Vec<u8>, nvar: u32)
    ensures
        final(out)@ == old(out)@ + label_names_section(nvar),
{
    let ghost start = out@;
    push_literal(out, "<value_label_names>");
    let ghost open = out@;
    let mut z: u32 = 0;
    proof {
        assert(open + repeat_byte(0, 0) =~= open);
    }
    while z < nvar
        invariant
            z <= nvar,
            out@ == open + repeat_byte(0, (STATA_NAME_LEN * z) as nat),
        decreases nvar - z,
    {
        push_repeat(out, 0, STATA_NAME_LEN);
        z += 1;
        proof {
            assert(out@ =~= open + repeat_byte(0, (STATA_NAME_LEN * z) as nat));
        }
    }
    push_literal(out, "</value_label_names>");
    proof {
        reveal(label_names_section);
        assert(out@ =~= start + label_names_section(nvar));
    }
}

/// Append the file header.
fn push_header(out: &mut Vec<u8>, nvar: u32, nobs: u64)
    ensures
        final(out)@ == old(out)@ + dta_header(nvar, nobs),
{
    let ghost start = out@;
    push_literal(out, "<stata_dta><header><release>118</release><byteorder>LSF</byteorder>");
    push_literal(out, "<K>");
    #[verifier::truncate]
    let k = nvar as u16;
    push_le(out, k as u64, 2);
    push_literal(out, "</K><N>");
    push_le(out, nobs, 8);
    push_literal(out, "</N><label>");
    out.push(80);
    let label = utf8_bytes("Nesstar Export");
    push_fit(out, label.as_slice(), 80, 0);
    push_literal(out, "</label><timestamp>");
    out.push(17);
    push_literal(out, "01 Jan 2024 00:00");
    push_literal(out, "</timestamp></header>");
    proof {
        reveal(dta_header);
        assert(out@ =~= start + dta_header(nvar, nobs));
    }
}

/// Append the first five sections after the map; their starts are returned.
fn push_front_sections(
    out: &mut Vec<u8>,
    types: &Vec<DtaType>,
    nvar: u32,
    vars: &Vec<VariableDefinition>,
) -> (starts: [u64; 5])
    requires
        types@.len() >= vars@.len(),
    ensures
        final(out)@ == old(out)@ + types_section(types@) + names_section(vars@) + sort_section(
            nvar,
        ) + formats_section(types@, vars@) + label_names_section(nvar),
        starts@[0] == old(out)@.len(),
        starts@[1] == old(out)@.len() + types_section(types@).len(),
        starts@[2] == old(out)@.len() + types_section(types@).len() + names_section(vars@).len(),
        starts@[3] == old(out)@.len() + types_section(types@).len() + names_section(vars@).len()
            + sort_section(nvar).len(),
        starts@[4] == old(out)@.len() + types_section(types@).len() + names_section(vars@).len()
            + sort_section(nvar).len() + formats_section(types@, vars@).len(),
{
    let ghost start = out@;
    let s0 = out.len() as u64;
    push_types_section(out, types);
    let s1 = out.len() as u64;
    push_names_section(out, vars);
    let s2 = out.len() as u64;
    push_sort_section(out, nvar);
    let s3 = out.len() as u64;
    push_formats_section(out, types, vars);
    let s4 = out.len() as u64;
    push_label_names_section(out, nvar);
    proof {
        assert(out@ =~= start + types_section(types@) + names_section(vars@) + sort_section(nvar)
            + formats_section(types@, vars@) + label_names_section(nvar));
    }
    [s0, s1, s2, s3, s4]
}

/// Append the last six sections; their starts are returned.
fn push_back_sections(out: &mut Vec<u8>, rows: &Vec<u8>, vars: &Vec<VariableDefinition>) -> (starts:
    [u64; 6])
    ensures
        final(out)@ == old(out)@ + labels_section(vars@) + utf8(
            "<characteristics></characteristics>"@,
        ) + data_section(rows@) + utf8("<strls></strls>"@) + utf8("<value_labels></value_labels>"@)
            + utf8("</stata_dta>"@),
        starts@[0] == old(out)@.len(),
        starts@[1] == old(out)@.len() + labels_section(vars@).len(),
        starts@[2] == old(out)@.len() + labels_section(vars@).len() + utf8(
            "<characteristics></characteristics>"@,
        ).len(),
        starts@[3] == old(out)@.len() + labels_section(vars@).len() + utf8(
            "<characteristics></characteristics>"@,
        ).len() + data_section(rows@).len(),
        starts@[4] == old(out)@.len() + labels_section(vars@).len() + utf8(
            "<characteristics></characteristics>"@,
        ).len() + data_section(rows@).len() + utf8("<strls></strls>"@).len(),
        starts@[5] == old(out)@.len() + labels_section(vars@).len() + utf8(
            "<characteristics></characteristics>"@,
        ).len() + data_section(rows@).len() + utf8("<strls></strls>"@).len() + utf8(
            "<value_labels></value_labels>"@,
        ).len(),
{
    let ghost start = out@;
    let s0 = out.len() as u64;
    push_labels_section(out, vars);
    let s1 = out.len() as u64;
    push_literal(out, "<characteristics></characteristics>");
    let s2 = out.len() as u64;
    push_literal(out, "<data>");
    push_bytes(out, rows.as_slice());
    push_literal(out, "</data>");
    let s3 = out.len() as u64;
    push_literal(out, "<strls></strls>");
    let s4 = out.len() as u64;
    push_literal(out, "<value_labels></value_labels>");
    let s5 = out.len() as u64;
    push_literal(out, "</stata_dta>");
    proof {
        reveal(data_section);
        assert(out@ =~= start + labels_section(vars@) + utf8(
            "<characteristics></characteristics>"@,
        ) + data_section(rows@) + utf8("<strls></strls>"@) + utf8("<value_labels></value_labels>"@)
            + utf8("</stata_dta>"@));
    }
    [s0, s1, s2, s3, s4, s5]
}

proof fn lemma_map_tag_len()
    ensures
        utf8("<map>"@).len() == 5,
{
    reveal_strlit("<map>");
    reveal_with_fuel(utf8, 6);
}

/// Write the map's fourteen offsets over the 112 zero bytes at `at`.
fn patch_map(out: &mut Vec<u8>, at: usize, offsets: &[u64; 14])
    requires
        at + 112 <= old(out)@.len(),
    ensures
        final(out)@ == old(out)@.take(at as int) + concat_fields(
            |i: int| le_bytes(offsets@[i] as nat, 8),
            14,
        ) + old(out)@.skip(at + 112),
{
    let ghost g = |i: int| le_bytes(offsets@[i] as nat, 8);
    let ghost start = out@;
    let len = out.len();
    let mut i: usize = 0;
    proof {
        assert(start =~= start.take(at as int) + concat_fields(g, 0) + start.skip(at as int));
    }
    while i < 14
        invariant
            i <= 14,
            len == start.len(),
            at + 112 <= len,
            g == |i: int| le_bytes(offsets@[i] as nat, 8),
            out@.len() == len,
            out@ == start.take(at as int) + concat_fields(g, i as nat) + start.skip(at + 8 * i),
        decreases 14 - i,
    {
        proof {
            lemma_concat_fields_len(g, i as nat, 8);
        }
        patch_u64(out, at + 8 * i, offsets[i]);
        i += 1;
        proof {
            lemma_concat_fields_len(g, i as nat, 8);
            assert(out@ =~= start.take(at as int) + concat_fields(g, i as nat) + start.skip(
                at + 8 * i,
            ));
        }
    }
}

impl DtaOutput {
    /// The bytes of the finished file.
    #[verifier::rlimit(80)]
    #[verifier::spinoff_prover]
    pub fn finish(&self, variables: &Vec<VariableDefinition>) -> (file: Vec<u8>)
        requires
            self.types@.len() >= variables@.len(),
        ensures
            file@ == dta_file(self.types@, self.nvar, self.nobs, self.rows@, variables@),
    {
        let mut out: Vec<u8> = Vec::new();
        push_header(&mut out, self.nvar, self.nobs);
        let ghost head = out@;
        let head_len = out.len();
        proof {
            lemma_map_tag_len();
        }
        push_literal(&mut out, "<map>");
        push_repeat(&mut out, 0, 112);
        push_literal(&mut out, "</map>");
        let ghost before_sections = out@;
        let front = push_front_sections(&mut out, &self.types, self.nvar, variables);
        let back = push_back_sections(&mut out, &self.rows, variables);
        let end_at = out.len() as u64;
        let offsets: [u64; 14] = [
            0,
            head_len as u64,
            front[0],
            front[1],
            front[2],
            front[3],
            front[4],
            back[0],
            back[1],
            back[2],
            back[3],
            back[4],
            back[5],
            end_at,
        ];
        proof {
            lemma_map_tag_len();
        }
        let ghost unpatched = out@;
        let total = out.len();
        assert(total >= head_len + 5 + 112);
        patch_map(&mut out, head_len + 5, &offsets);
        proof {
            let start = head.len() + utf8("<map>"@).len() + 112 + utf8("</map>"@).len();
            let map = dta_map(self.types@, self.nvar, self.rows@, variables@, head.len(), start);
            assert(before_sections.len() == start);
            assert forall|i: int| 0 <= i < 14 implies #[trigger] le_bytes(offsets@[i] as nat, 8)
                == le_bytes(map[i], 8) by {}
            lemma_concat_fields_agree(
                |i: int| le_bytes(offsets@[i] as nat, 8),
                |i: int| le_bytes(map[i], 8),
                14,
            );
            assert(unpatched.take(head_len + 5) =~= head + utf8("<map>"@));
            assert(unpatched.skip(head_len + 5 + 112) =~= utf8("</map>"@) + dta_body(
                self.types@,
                self.nvar,
                self.rows@,
                variables@,
            ));
            assert(out@ =~= dta_file(self.types@, self.nvar, self.nobs, self.rows@, variables@));
        }
        out
    }
}

proof fn lemma_concat_fields_agree(f: spec_fn(int) -> Seq<u8>, g: spec_fn(int) -> Seq<u8>, n: nat)
    requires
        forall|i: int| 0 <= i < n ==> #[trigger] f(i) == #[trigger] g(i),
    ensures
        concat_fields(f, n) == concat_fields(g, n),
    decreases n,
{
    if n > 0 {
        lemma_concat_fields_agree(f, g, (n - 1) as nat);
    }
}

} // verus!
