//! SPSS system file (`.sav`) rendering, uncompressed.

use vstd::prelude::*;
use crate::bytes::{fit_bytes, le_bytes, push_bytes, push_fit, push_le, push_repeat, repeat_byte};
use crate::decode::RecordBatch;
use crate::formats::dta::{concat_fields, numeric_bits, parsed_as, parsed_bits};
use crate::text::trim;
use crate::formats::json::{batch_complete, cell_text};
use crate::model::{CellValue, DeclaredType, VariableDefinition};
use crate::text::{ascii_upper, char_utf8, chars_of, push_utf8, to_ascii_upper, utf8, utf8_bytes};

verus! {

/// The bit pattern of SPSS's system-missing value, the lowest double.
pub const SPSS_SYSMIS_BITS: u64 = 0xffef_ffff_ffff_ffff;
/// The bit pattern of the largest double.
pub const SPSS_HIGHEST_BITS: u64 = 0x7fef_ffff_ffff_ffff;
/// The bit pattern of the compression bias, `100.0`.
pub const SPSS_BIAS_BITS: u64 = 0x4059_0000_0000_0000;

/// An SPSS variable type.
#[derive(Clone, Copy, Debug, PartialEq, Eq, Structural)]
pub enum SpssType {
    Numeric,
    /// A string of `width` bytes stored in `n_segments` eight-byte cells.
    Str { width: usize, n_segments: usize },
}

/// `w` clamped to `1 ..= 255`.
pub open spec fn spss_str_width(w: u32) -> nat {
    if w < 1 {
        1
    } else if w > 255 {
        255
    } else {
        w as nat
    }
}

/// The type of a variable: strings for character variables, numbers
/// otherwise.
pub open spec fn spss_type_of(var: VariableDefinition) -> SpssType {
    match var.declared_type {
        DeclaredType::Character => {
            let w = spss_str_width(var.ddi_width);
            SpssType::Str { width: w as usize, n_segments: ((w + 7) / 8) as usize }
        },
        _ => SpssType::Numeric,
    }
}

/// The type code: zero for numbers, the width for strings.
pub open spec fn spss_code(t: SpssType) -> i32 {
    match t {
        SpssType::Numeric => 0,
        SpssType::Str { width, .. } => width as i32,
    }
}

/// The eight-byte cells one value takes.
pub open spec fn spss_cells(t: SpssType) -> nat {
    match t {
        SpssType::Numeric => 1,
        SpssType::Str { n_segments, .. } => n_segments as nat,
    }
}

impl SpssType {
    /// The type of a variable.
    pub fn from_ddi(var: &VariableDefinition) -> (r: Self)
        ensures
            r == spss_type_of(*var),
    {
        match var.declared_type {
            DeclaredType::Character => {
                let d = var.ddi_width;
                let w: usize = if d < 1 {
                    1
                } else if d > 255 {
                    255
                } else {
                    d as usize
                };
                SpssType::Str { width: w, n_segments: (w + 7) / 8 }
            },
            _ => SpssType::Numeric,
        }
    }

    /// The type code.
    pub fn code(&self) -> (r: i32)
        requires
            *self matches SpssType::Str { width, .. } ==> width <= 255,
        ensures
            r == spss_code(*self),
    {
        match self {
            SpssType::Numeric => 0,
            SpssType::Str { width, .. } => *width as i32,
        }
    }

    /// The eight-byte cells one value takes.
    pub fn n_cells(&self) -> (r: usize)
        ensures
            r == spss_cells(*self),
    {
        match self {
            SpssType::Numeric => 1,
            SpssType::Str { n_segments, .. } => *n_segments,
        }
    }
}

/// The bytes of a 32-bit integer, least significant first.
pub open spec fn i32_bytes(v: i32) -> Seq<u8> {
    le_bytes(v as u32 as nat, 4)
}

/// Append a 32-bit integer.
fn push_i32(out: &mut Vec<u8>, v: i32)
    ensures
        final(out)@ == old(out)@ + i32_bytes(v),
{
    #[verifier::truncate]
    let u = v as u32;
    push_le(out, u as u64, 4);
}

/// `bytes` are the observation bytes of a cell of type `t`.
pub open spec fn spss_cell<P: Fn(&str) -> Option<u64>>(
    parse: P,
    t: SpssType,
    cell: CellValue,
    bytes: Seq<u8>,
) -> bool {
    match t {
        SpssType::Numeric => exists|bits: u64|
            parsed_bits(parse, cell, SPSS_SYSMIS_BITS, bits) && bytes == le_bytes(bits as nat, 8),
        SpssType::Str { n_segments, .. } => bytes == fit_bytes(
            utf8(cell_text(cell)),
            (n_segments * 8) as nat,
            32,
        ),
    }
}

/// A numeric SPSS cell that holds no number (a missing cell, or text that
/// the parser does not read as one) is written as SPSS's system missing
/// value, the double `-1.7976931348623157e308` with bits
/// `0xffef_ffff_ffff_ffff`; text the parser reads as a number is written as
/// that number's bits.
pub proof fn spss_numbers_and_missing<P: Fn(&str) -> Option<u64>>(
    parse: P,
    t: SpssType,
    cell: CellValue,
    bytes: Seq<u8>,
)
    requires
        t is Numeric,
        spss_cell(parse, t, cell, bytes),
    ensures
        cell is Missing ==> bytes == le_bytes(0xffef_ffff_ffff_ffffnat, 8),
        forall|read: Option<u64>|
            #![trigger parsed_as(parse, cell, read)]
            parsed_as(parse, cell, read) ==> bytes == le_bytes(
                match read {
                    Some(b) => b as nat,
                    None => 0xffef_ffff_ffff_ffffnat,
                },
                8,
            ),
{
    let bits = choose|bits: u64|
        parsed_bits(parse, cell, SPSS_SYSMIS_BITS, bits) && bytes == le_bytes(bits as nat, 8);
    assert forall|read: Option<u64>| #[trigger] parsed_as(parse, cell, read) implies bytes == le_bytes(
        match read {
            Some(b) => b as nat,
            None => 0xffef_ffff_ffff_ffffnat,
        },
        8,
    ) by {
        if let CellValue::Text(s) = cell {
            let (x, o) = choose|x: &str, o: Option<u64>|
                x@ == trim(s@) && call_ensures(parse, (x,), o) && bits == match o {
                    Some(b) => b,
                    None => SPSS_SYSMIS_BITS,
                };
            assert(o == read);
        }
    }
}

/// The bytes of one observation with `n` columns.
pub open spec fn spss_row_width(types: Seq<SpssType>, n: nat) -> nat
    decreases n,
{
    if n == 0 {
        0
    } else {
        spss_row_width(types, (n - 1) as nat) + 8 * spss_cells(types[n - 1])
    }
}

proof fn lemma_row_width_grows(types: Seq<SpssType>, a: nat, b: nat)
    requires
        a <= b,
    ensures
        spss_row_width(types, a) <= spss_row_width(types, b),
    decreases b,
{
    if a < b {
        lemma_row_width_grows(types, a, (b - 1) as nat);
    }
}

/// An SPSS rendering in progress: the variable types, the rows so far and
/// their bytes.
pub struct SpssOutput {
    pub types: Vec<SpssType>,
    pub nobs: u32,
    pub rows: Vec<u8>,
}

impl SpssOutput {
    /// Start a rendering for `variables`.
    pub fn new(variables: &Vec<VariableDefinition>) -> (r: Self)
        ensures
            r.types@.len() == variables@.len(),
            forall|i: int| 0 <= i < variables@.len() ==> r.types@[i] == spss_type_of(#[trigger] variables@[i]),
            r.nobs == 0,
            r.rows@ == Seq::<u8>::empty(),
    {
        let mut types: Vec<SpssType> = Vec::new();
        let mut i: usize = 0;
        while i < variables.len()
            invariant
                i <= variables@.len(),
                types@.len() == i,
                forall|q: int| 0 <= q < i ==> types@[q] == spss_type_of(#[trigger] variables@[q]),
            decreases variables@.len() - i,
        {
            types.push(SpssType::from_ddi(&variables[i]));
            i += 1;
        }
        SpssOutput { types, nobs: 0, rows: Vec::new() }
    }

    /// Add the rows of `batch`; numeric text is read by `parse`.
    pub fn write_batch<P: Fn(&str) -> Option<u64>>(&mut self, batch: &RecordBatch, parse: &P)
        requires
            batch_complete(*batch),
            batch.columns@.len() <= old(self).types@.len(),
            old(self).nobs + batch.row_count <= u32::MAX,
            forall|i: int|
                0 <= i < old(self).types@.len() ==> match #[trigger] old(self).types@[i] {
                    SpssType::Str { n_segments, .. } => n_segments <= 32,
                    _ => true,
                },
            forall|t: &str| parse.requires((t,)),
        ensures
            final(self).types == old(self).types,
            final(self).nobs == old(self).nobs + batch.row_count,
            final(self).rows@.len() == old(self).rows@.len() + batch.row_count * spss_row_width(
                old(self).types@,
                batch.columns@.len() as nat,
            ),
            final(self).rows@.take(old(self).rows@.len() as int) == old(self).rows@,
            forall|r: int, k: int|
                0 <= r < batch.row_count && 0 <= k < batch.columns@.len() ==> {
                    let at = old(self).rows@.len() + r * spss_row_width(
                        old(self).types@,
                        batch.columns@.len() as nat,
                    ) + spss_row_width(old(self).types@, k as nat);
                    spss_cell(
                        *parse,
                        old(self).types@[k],
                        #[trigger] batch.columns@[k].values@[r],
                        final(self).rows@.subrange(at, at + 8 * spss_cells(old(self).types@[k])),
                    )
                },
    {
        let ghost before = self.rows@;
        let ghost types = self.types@;
        let ghost n = batch.columns@.len();
        let ghost w = spss_row_width(types, n as nat);
        let mut row: usize = 0;
        while row < batch.row_count
            invariant
                row <= batch.row_count,
                batch_complete(*batch),
                n == batch.columns@.len(),
                n <= types.len(),
                types == self.types@,
                self.types == old(self).types,
                before == old(self).rows@,
                self.nobs == old(self).nobs + row,
                old(self).nobs + batch.row_count <= u32::MAX,
                w == spss_row_width(types, n as nat),
                forall|i: int|
                    0 <= i < types.len() ==> match #[trigger] types[i] {
                        SpssType::Str { n_segments, .. } => n_segments <= 32,
                        _ => true,
                    },
                forall|t: &str| parse.requires((t,)),
                self.rows@.len() == before.len() + row * w,
                self.rows@.take(before.len() as int) == before,
                forall|r: int, k: int|
                    0 <= r < row && 0 <= k < n ==> {
                        let at = before.len() + r * w + spss_row_width(types, k as nat);
                        spss_cell(
                            *parse,
                            types[k],
                            #[trigger] batch.columns@[k].values@[r],
                            self.rows@.subrange(at, at + 8 * spss_cells(types[k])),
                        )
                    },
            decreases batch.row_count - row,
        {
            self.nobs = self.nobs + 1;
            let ghost row_start: int = self.rows@.len() as int;
            let ghost at_row_start = self.rows@;
            let mut k: usize = 0;
            while k < batch.columns.len()
                invariant
                    k <= n,
                    row < batch.row_count,
                    batch_complete(*batch),
                    n == batch.columns@.len(),
                    n <= types.len(),
                    types == self.types@,
                    self.types == old(self).types,
                    self.nobs == old(self).nobs + row + 1,
                    forall|i: int|
                        0 <= i < types.len() ==> match #[trigger] types[i] {
                            SpssType::Str { n_segments, .. } => n_segments <= 32,
                            _ => true,
                        },
                    forall|t: &str| parse.requires((t,)),
                    self.rows@.len() == row_start + spss_row_width(types, k as nat),
                    row_start == at_row_start.len(),
                    self.rows@.take(row_start) == at_row_start,
                    forall|q: int|
                        0 <= q < k ==> {
                            let at = row_start + spss_row_width(types, q as nat);
                            spss_cell(
                                *parse,
                                types[q],
                                #[trigger] batch.columns@[q].values@[row as int],
                                self.rows@.subrange(at, at + 8 * spss_cells(types[q])),
                            )
                        },
                decreases n - k,
            {
                let column = &batch.columns[k];
                assert(column.values@.len() >= batch.row_count);
                let cell = &column.values[row];
                let ghost prior = self.rows@;
                let ghost at: int = row_start + spss_row_width(types, k as nat);
                match self.types[k] {
                    SpssType::Numeric => {
                        let bits = numeric_bits(cell, SPSS_SYSMIS_BITS, parse);
                        push_le(&mut self.rows, bits, 8);
                        proof {
                            assert(self.rows@.subrange(at, at + 8) =~= le_bytes(bits as nat, 8));
                        }
                    },
                    SpssType::Str { n_segments, .. } => {
                        let text: &str = match cell {
                            CellValue::Missing => "",
                            CellValue::Text(s) => s.as_str(),
                        };
                        proof {
                            reveal_strlit("");
                        }
                        assert(text@ == cell_text(*cell));
                        let bytes = utf8_bytes(text);
                        push_fit(&mut self.rows, bytes.as_slice(), n_segments * 8, 32);
                        proof {
                            let fitted = fit_bytes(bytes@, (n_segments * 8) as nat, 32);
                            assert(fitted.len() == n_segments * 8);
                            assert(self.rows@.subrange(at, at + n_segments * 8) =~= fitted);
                        }
                    },
                }
                proof {
                    assert(self.rows@.take(row_start) =~= at_row_start);
                    assert forall|q: int| 0 <= q < k + 1 implies {
                        let a = row_start + spss_row_width(types, q as nat);
                        spss_cell(
                            *parse,
                            types[q],
                            #[trigger] batch.columns@[q].values@[row as int],
                            self.rows@.subrange(a, a + 8 * spss_cells(types[q])),
                        )
                    } by {
                        if q < k {
                            let a = row_start + spss_row_width(types, q as nat);
                            lemma_row_width_grows(types, (q + 1) as nat, k as nat);
                            assert(self.rows@.subrange(a, a + 8 * spss_cells(types[q])) =~= prior.subrange(
                                a,
                                a + 8 * spss_cells(types[q]),
                            ));
                        }
                    }
                }
                k += 1;
            }
            proof {
                assert((row + 1) * w == row * w + w) by (nonlinear_arith);
                assert forall|r: int, q: int| 0 <= r < row + 1 && 0 <= q < n implies {
                    let a = before.len() + r * w + spss_row_width(types, q as nat);
                    spss_cell(
                        *parse,
                        types[q],
                        #[trigger] batch.columns@[q].values@[r],
                        self.rows@.subrange(a, a + 8 * spss_cells(types[q])),
                    )
                } by {
                    let a = before.len() + r * w + spss_row_width(types, q as nat);
                    lemma_row_width_grows(types, (q + 1) as nat, n as nat);
                    if r < row {
                        assert(r * w + w <= row * w) by (nonlinear_arith)
                            requires
                                r < row,
                                w >= 0,
                        ;
                        assert(self.rows@.subrange(a, a + 8 * spss_cells(types[q])) =~= at_row_start.subrange(
                            a,
                            a + 8 * spss_cells(types[q]),
                        ));
                    }
                }
                assert(self.rows@.take(before.len() as int) =~= before);
            }
            row += 1;
        }
    }
}

/// The eight-byte cells of the first `n` variables.
pub open spec fn nominal_case_size(types: Seq<SpssType>, n: nat) -> nat
    decreases n,
{
    if n == 0 {
        0
    } else {
        nominal_case_size(types, (n - 1) as nat) + spss_cells(types[n - 1])
    }
}

/// The 32-bit integers of `vs`, one after another.
pub open spec fn i32s(vs: Seq<i32>) -> Seq<u8> {
    concat_fields(|i: int| i32_bytes(vs[i]), vs.len())
}

/// The general header record.
#[verifier::opaque]
pub open spec fn spss_header(nominal: nat, nobs: u32) -> Seq<u8> {
    utf8("$FL2"@) + fit_bytes(utf8("@(#) SPSS DATA FILE NesstarConverter"@), 60, 32) + i32_bytes(2)
        + i32_bytes(nominal as i32) + i32_bytes(0) + i32_bytes(0) + i32_bytes(nobs as i32)
        + le_bytes(SPSS_BIAS_BITS as nat, 8) + utf8("01 Jan 24"@) + utf8("00:00:00"@) + fit_bytes(
        utf8("Nesstar Export"@),
        64,
        32,
    ) + seq![0u8, 0u8, 0u8]
}

/// A variable label: its length (at most 120 bytes), its bytes and NULs to
/// a multiple of four.
pub open spec fn label_part(label: Seq<char>) -> Seq<u8> {
    let b = utf8(label);
    let l: nat = if b.len() < 120 {
        b.len()
    } else {
        120
    };
    i32_bytes(l as i32) + b.take(l as int) + repeat_byte(0, ((4 - l % 4) % 4) as nat)
}

/// The print and write format of a type: `F8.2` for numbers, `A<width>` for
/// strings.
pub open spec fn print_format(t: SpssType) -> i32 {
    match t {
        SpssType::Numeric => 0x50802,
        SpssType::Str { width, .. } => (0x10000 + (if width < 255 {
            width as int
        } else {
            255
        }) * 256) as i32,
    }
}

/// A byte in ASCII upper case.
pub open spec fn upper_byte(b: u8) -> u8 {
    if 97 <= b <= 122 {
        (b - 32) as u8
    } else {
        b
    }
}

/// The short name: the first eight bytes of the name in ASCII upper case,
/// padded with spaces.
pub open spec fn short_name_field(name: Seq<char>) -> Seq<u8> {
    let b = utf8(name);
    Seq::new(8, |i: int| if i < b.len() { upper_byte(b[i]) } else { 32u8 })
}

/// A string continuation record.
pub open spec fn continuation_record() -> Seq<u8> {
    i32s(seq![2i32, -1i32, 0i32, 0i32, 0i32, 0i32]) + repeat_byte(32, 8)
}

/// The variable record of one variable, with its label and, for long
/// strings, its continuation records.
pub open spec fn variable_record(t: SpssType, var: VariableDefinition) -> Seq<u8> {
    let has_label = var.label@.len() > 0;
    let fmt = print_format(t);
    let head = i32s(seq![2i32, spss_code(t), if has_label { 1 } else { 0 }, 0, fmt, fmt])
        + short_name_field(var.name@);
    let label = if has_label {
        label_part(var.label@)
    } else {
        Seq::empty()
    };
    match t {
        SpssType::Numeric => head + label,
        SpssType::Str { n_segments, .. } => head + label + concat_fields(
            |i: int| continuation_record(),
            (n_segments - 1) as nat,
        ),
    }
}

/// All variable records.
#[verifier::opaque]
pub open spec fn variable_records(types: Seq<SpssType>, vars: Seq<VariableDefinition>) -> Seq<u8> {
    concat_fields(|i: int| variable_record(types[i], vars[i]), vars.len())
}

/// The short form of a name in the long-name map: its first eight bytes
/// (which must end on a character) in ASCII upper case.
pub open spec fn map_short_name(name: Seq<char>) -> Seq<char> {
    let kept = if utf8(name).len() > 8 {
        name.take(choose|k: int| 0 <= k <= name.len() && utf8(name.take(k)).len() == 8)
    } else {
        name
    };
    kept.map_values(|c: char| ascii_upper(c))
}

/// The long-name map of the first `n` variables: `SHORT=long` entries
/// separated by tabs.
pub open spec fn name_map(vars: Seq<VariableDefinition>, n: nat) -> Seq<char>
    decreases n,
{
    if n == 0 {
        Seq::empty()
    } else {
        name_map(vars, (n - 1) as nat) + (if n > 1 {
            seq!['\t']
        } else {
            Seq::empty()
        }) + map_short_name(vars[n - 1].name@) + seq!['='] + vars[n - 1].name@
    }
}

/// The machine record (IEEE 754 floats, no compression, little-endian,
/// UTF-8 character code), the float, encoding and long-name records, and the
/// end of the dictionary.
#[verifier::opaque]
pub open spec fn info_records(vars: Seq<VariableDefinition>) -> Seq<u8> {
    let map = utf8(name_map(vars, vars.len()));
    i32s(seq![7i32, 3, 4, 8, 1, 2, 1, 1, 1, 0, 2, 65001]) + i32s(seq![7i32, 4, 8, 3]) + le_bytes(
        SPSS_SYSMIS_BITS as nat,
        8,
    ) + le_bytes(SPSS_HIGHEST_BITS as nat, 8) + le_bytes(SPSS_SYSMIS_BITS as nat, 8) + i32s(
        seq![7i32, 20, 1, 5],
    ) + utf8("UTF-8"@) + i32s(seq![7i32, 13, 1, map.len() as i32]) + map + i32s(seq![999i32, 0])
}

/// The whole `.sav` file.
pub open spec fn spss_file(
    types: Seq<SpssType>,
    nobs: u32,
    rows: Seq<u8>,
    vars: Seq<VariableDefinition>,
) -> Seq<u8> {
    spss_header(nominal_case_size(types, types.len()), nobs) + variable_records(types, vars)
        + info_records(vars) + rows
}

/// Append the 32-bit integers of `vs`.
fn push_i32s(out: &mut Vec<u8>, vs: &[i32])
    ensures
        final(out)@ == old(out)@ + i32s(vs@),
{
    let ghost start = out@;
    let ghost f = |i: int| i32_bytes(vs@[i]);
    let mut i: usize = 0;
    while i < vs.len()
        invariant
            i <= vs@.len(),
            f == |i: int| i32_bytes(vs@[i]),
            out@ == start + concat_fields(f, i as nat),
        decreases vs@.len() - i,
    {
        push_i32(out, vs[i]);
        i += 1;
    }
}

/// Append the literal `s`.
fn push_literal(out: &mut Vec<u8>, s: &str)
    ensures
        final(out)@ == old(out)@ + utf8(s@),
{
    let b = utf8_bytes(s);
    push_bytes(out, b.as_slice());
}

/// Append the general header record.
fn push_header(out: &mut Vec<u8>, nominal: usize, nobs: u32)
    ensures
        final(out)@ == old(out)@ + spss_header(nominal as nat, nobs),
{
    let ghost start = out@;
    push_literal(out, "$FL2");
    let product = utf8_bytes("@(#) SPSS DATA FILE NesstarConverter");
    push_fit(out, product.as_slice(), 60, 32);
    push_i32(out, 2);
    #[verifier::truncate]
    let n = nominal as i32;
    push_i32(out, n);
    push_i32(out, 0);
    push_i32(out, 0);
    #[verifier::truncate]
    let cases = nobs as i32;
    push_i32(out, cases);
    push_le(out, SPSS_BIAS_BITS, 8);
    push_literal(out, "01 Jan 24");
    push_literal(out, "00:00:00");
    let label = utf8_bytes("Nesstar Export");
    push_fit(out, label.as_slice(), 64, 32);
    out.push(0);
    out.push(0);
    out.push(0);
    proof {
        reveal(spss_header);
        assert(out@ =~= start + spss_header(nominal as nat, nobs));
    }
}

/// Append a variable label.
fn push_label_part(out: &mut Vec<u8>, label: &str)
    ensures
        final(out)@ == old(out)@ + label_part(label@),
{
    let ghost start = out@;
    let b = utf8_bytes(label);
    let l: usize = if b.len() < 120 {
        b.len()
    } else {
        120
    };
    push_i32(out, l as i32);
    let kept = vstd::slice::slice_subrange(b.as_slice(), 0, l);
    push_bytes(out, kept);
    push_repeat(out, 0, (4 - l % 4) % 4);
    proof {
        assert(kept@ =~= b@.take(l as int));
        assert(out@ =~= start + label_part(label@));
    }
}

/// Append the short name of a variable.
fn push_short_name(out: &mut Vec<u8>, name: &str)
    ensures
        final(out)@ == old(out)@ + short_name_field(name@),
{
    let ghost start = out@;
    let b = utf8_bytes(name);
    let mut i: usize = 0;
    while i < 8
        invariant
            i <= 8,
            out@ == start + short_name_field(name@).take(i as int),
            b@ == utf8(name@),
        decreases 8 - i,
    {
        let byte: u8 = if i < b.len() {
            let x = b[i];
            if 97 <= x && x <= 122 {
                x - 32
            } else {
                x
            }
        } else {
            32
        };
        out.push(byte);
        i += 1;
        proof {
            assert(out@ =~= start + short_name_field(name@).take(i as int));
        }
    }
    proof {
        assert(short_name_field(name@).take(8) =~= short_name_field(name@));
    }
}

/// Append one variable record.
fn push_variable_record(out: &mut Vec<u8>, t: SpssType, var: &VariableDefinition)
    requires
        t matches SpssType::Str { width, n_segments } ==> width <= 255 && 1 <= n_segments,
    ensures
        final(out)@ == old(out)@ + variable_record(t, *var),
{
    let ghost start = out@;
    let has_label = chars_of(var.label.as_str()).len() > 0;
    let fmt: i32 = match t {
        SpssType::Numeric => 0x50802,
        SpssType::Str { width, .. } => {
            let w: i32 = if width < 255 {
                width as i32
            } else {
                255
            };
            0x10000 + w * 256
        },
    };
    let head: [i32; 6] = [2, t.code(), if has_label { 1 } else { 0 }, 0, fmt, fmt];
    push_i32s(out, &head);
    push_short_name(out, var.name.as_str());
    if has_label {
        push_label_part(out, var.label.as_str());
    }
    let ghost after_head = out@;
    match t {
        SpssType::Numeric => {},
        SpssType::Str { n_segments, .. } => {
            let ghost f = |i: int| continuation_record();
            let mut k: usize = 1;
            while k < n_segments
                invariant
                    1 <= k <= n_segments,
                    f == |i: int| continuation_record(),
                    out@ == after_head + concat_fields(f, (k - 1) as nat),
                decreases n_segments - k,
            {
                let cont: [i32; 6] = [2, -1, 0, 0, 0, 0];
                push_i32s(out, &cont);
                push_repeat(out, 32, 8);
                proof {
                    assert(cont@ =~= seq![2i32, -1i32, 0i32, 0i32, 0i32, 0i32]);
                }
                k += 1;
            }
        },
    }
    proof {
        assert(head@ =~= seq![2i32, spss_code(t), if has_label { 1i32 } else { 0i32 }, 0i32, print_format(t), print_format(t)]);
        assert(out@ =~= start + variable_record(t, *var));
    }
}

/// Append all variable records.
fn push_variable_records(out: &mut Vec<u8>, types: &Vec<SpssType>, vars: &Vec<VariableDefinition>)
    requires
        types@.len() >= vars@.len(),
        forall|i: int|
            0 <= i < types@.len() ==> (#[trigger] types@[i] matches SpssType::Str { width, n_segments }
                ==> width <= 255 && 1 <= n_segments),
    ensures
        final(out)@ == old(out)@ + variable_records(types@, vars@),
{
    let ghost start = out@;
    let ghost f = |i: int| variable_record(types@[i], vars@[i]);
    let mut i: usize = 0;
    while i < vars.len()
        invariant
            i <= vars@.len(),
            types@.len() >= vars@.len(),
            forall|i: int|
                0 <= i < types@.len() ==> (#[trigger] types@[i] matches SpssType::Str {
                    width,
                    n_segments,
                } ==> width <= 255 && 1 <= n_segments),
            f == |i: int| variable_record(types@[i], vars@[i]),
            out@ == start + concat_fields(f, i as nat),
        decreases vars@.len() - i,
    {
        push_variable_record(out, types[i], &vars[i]);
        i += 1;
    }
    proof {
        reveal(variable_records);
    }
}

/// The UTF-8 length grows by the length of each character added.
proof fn lemma_utf8_take_step(s: Seq<char>, k: int)
    requires
        0 <= k < s.len(),
    ensures
        utf8(s.take(k + 1)).len() == utf8(s.take(k)).len() + char_utf8(s[k]).len(),
        char_utf8(s[k]).len() >= 1,
{
    assert(s.take(k + 1).drop_last() =~= s.take(k));
}

proof fn lemma_utf8_take_grows(s: Seq<char>, a: int, b: int)
    requires
        0 <= a < b <= s.len(),
    ensures
        utf8(s.take(a)).len() < utf8(s.take(b)).len(),
    decreases b - a,
{
    lemma_utf8_take_step(s, b - 1);
    if a < b - 1 {
        lemma_utf8_take_grows(s, a, b - 1);
    }
}

/// A name cut at eight UTF-8 bytes ends on a character.
pub open spec fn short_name_fits(name: Seq<char>) -> bool {
    utf8(name).len() > 8 ==> exists|k: int| 0 <= k <= name.len() && utf8(name.take(k)).len() == 8
}

/// The UTF-8 length of a character.
fn utf8_len(c: char) -> (r: usize)
    ensures
        r == char_utf8(c).len(),
{
    let v = c as u32;
    if v < 0x80 {
        1
    } else if v < 0x800 {
        2
    } else if v < 0x10000 {
        3
    } else {
        4
    }
}

/// The short form of a name in the long-name map.
fn map_short_name_chars(name: &str) -> (r: Vec<char>)
    requires
        short_name_fits(name@),
    ensures
        r@ == map_short_name(name@),
{
    let chars = chars_of(name);
    let total = utf8_bytes(name).len();
    let mut k: usize = chars.len();
    if total > 8 {
        let ghost k8 = choose|k: int| 0 <= k <= name@.len() && utf8(name@.take(k)).len() == 8;
        let mut acc: usize = 0;
        k = 0;
        proof {
            assert(name@.take(0) =~= Seq::<char>::empty());
        }
        while acc < 8
            invariant
                chars@ == name@,
                chars@.len() == chars.len(),
                0 <= k8 <= name@.len(),
                utf8(name@.take(k8)).len() == 8,
                k <= k8,
                acc == utf8(name@.take(k as int)).len(),
            decreases k8 - k,
        {
            proof {
                if k == k8 {
                    assert(false);
                }
                lemma_utf8_take_step(name@, k as int);
                if k + 1 < k8 {
                    lemma_utf8_take_grows(name@, k + 1, k8);
                }
            }
            acc = acc + utf8_len(chars[k]);
            k += 1;
        }
        proof {
            if k < k8 {
                lemma_utf8_take_grows(name@, k as int, k8);
            }
        }
    }
    let mut r: Vec<char> = Vec::new();
    let mut i: usize = 0;
    while i < k
        invariant
            i <= k <= chars@.len(),
            chars@ == name@,
            r@ == name@.take(i as int).map_values(|c: char| ascii_upper(c)),
        decreases k - i,
    {
        r.push(to_ascii_upper(chars[i]));
        i += 1;
        proof {
            assert(r@ =~= name@.take(i as int).map_values(|c: char| ascii_upper(c)));
        }
    }
    proof {
        if total <= 8 {
            assert(name@.take(k as int) =~= name@);
        }
    }
    r
}

/// The long-name map of all variables.
fn name_map_chars(vars: &Vec<VariableDefinition>) -> (r: Vec<char>)
    requires
        forall|i: int| 0 <= i < vars@.len() ==> short_name_fits((#[trigger] vars@[i]).name@),
    ensures
        r@ == name_map(vars@, vars@.len()),
{
    let mut r: Vec<char> = Vec::new();
    let mut i: usize = 0;
    while i < vars.len()
        invariant
            i <= vars@.len(),
            forall|i: int| 0 <= i < vars@.len() ==> short_name_fits((#[trigger] vars@[i]).name@),
            r@ == name_map(vars@, i as nat),
        decreases vars@.len() - i,
    {
        let ghost before = r@;
        if i > 0 {
            r.push('\t');
        }
        let short = map_short_name_chars(vars[i].name.as_str());
        crate::text::push_chars(&mut r, short.as_slice());
        r.push('=');
        let long = chars_of(vars[i].name.as_str());
        crate::text::push_chars(&mut r, long.as_slice());
        i += 1;
        proof {
            assert(r@ =~= name_map(vars@, i as nat));
        }
    }
    r
}

/// Append the machine, encoding and long-name records and the end of the
/// dictionary.
fn push_info_records(out: &mut Vec<u8>, vars: &Vec<VariableDefinition>)
    requires
        forall|i: int| 0 <= i < vars@.len() ==> short_name_fits((#[trigger] vars@[i]).name@),
    ensures
        final(out)@ == old(out)@ + info_records(vars@),
{
    let ghost start = out@;
    let int_info: [i32; 12] = [7, 3, 4, 8, 1, 2, 1, 1, 1, 0, 2, 65001];
    push_i32s(out, &int_info);
    let float_info: [i32; 4] = [7, 4, 8, 3];
    push_i32s(out, &float_info);
    push_le(out, SPSS_SYSMIS_BITS, 8);
    push_le(out, SPSS_HIGHEST_BITS, 8);
    push_le(out, SPSS_SYSMIS_BITS, 8);
    let encoding: [i32; 4] = [7, 20, 1, 5];
    push_i32s(out, &encoding);
    push_literal(out, "UTF-8");
    let map_chars = name_map_chars(vars);
    let mut map: Vec<u8> = Vec::new();
    let mut i: usize = 0;
    while i < map_chars.len()
        invariant
            i <= map_chars@.len(),
            map@ == utf8(map_chars@.take(i as int)),
        decreases map_chars@.len() - i,
    {
        proof {
            assert(map_chars@.take(i + 1).drop_last() =~= map_chars@.take(i as int));
        }
        push_utf8(&mut map, map_chars[i]);
        i += 1;
    }
    proof {
        assert(map_chars@.take(i as int) =~= map_chars@);
    }
    #[verifier::truncate]
    let map_len = map.len() as i32;
    let names_head: [i32; 4] = [7, 13, 1, map_len];
    push_i32s(out, &names_head);
    push_bytes(out, map.as_slice());
    let end: [i32; 2] = [999, 0];
    push_i32s(out, &end);
    proof {
        reveal(info_records);
        assert(int_info@ =~= seq![7i32, 3, 4, 8, 1, 2, 1, 1, 1, 0, 2, 65001]);
        assert(float_info@ =~= seq![7i32, 4, 8, 3]);
        assert(encoding@ =~= seq![7i32, 20, 1, 5]);
        assert(names_head@ =~= seq![7i32, 13, 1, map@.len() as i32]);
        assert(end@ =~= seq![999i32, 0]);
        assert(out@ =~= start + info_records(vars@));
    }
}

impl SpssOutput {
    /// The bytes of the finished file.
    pub fn finish(&self, variables: &Vec<VariableDefinition>) -> (file: Vec<u8>)
        requires
            self.types@.len() >= variables@.len(),
            self.types@.len() * 32 <= usize::MAX,
            forall|i: int|
                0 <= i < self.types@.len() ==> (#[trigger] self.types@[i] matches SpssType::Str {
                    width,
                    n_segments,
                } ==> width <= 255 && 1 <= n_segments <= 32),
            forall|i: int| 0 <= i < variables@.len() ==> short_name_fits((#[trigger] variables@[i]).name@),
        ensures
            file@ == spss_file(self.types@, self.nobs, self.rows@, variables@),
    {
        let mut nominal: usize = 0;
        let mut i: usize = 0;
        while i < self.types.len()
            invariant
                i <= self.types@.len(),
                self.types@.len() * 32 <= usize::MAX,
                forall|i: int|
                    0 <= i < self.types@.len() ==> (#[trigger] self.types@[i] matches SpssType::Str {
                        width,
                        n_segments,
                    } ==> width <= 255 && 1 <= n_segments <= 32),
                nominal == nominal_case_size(self.types@, i as nat),
                nominal <= 32 * i,
            decreases self.types@.len() - i,
        {
            nominal = nominal + self.types[i].n_cells();
            i += 1;
        }
        let mut out: Vec<u8> = Vec::new();
        push_header(&mut out, nominal, self.nobs);
        push_variable_records(&mut out, &self.types, variables);
        push_info_records(&mut out, variables);
        push_bytes(&mut out, self.rows.as_slice());
        proof {
            assert(out@ =~= spss_file(self.types@, self.nobs, self.rows@, variables@));
        }
        out
    }
}

} // verus!
