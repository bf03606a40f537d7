//! Bounded, checked decoding for both Nesstar layout variants.
//!
//! Cells are decoded batch by batch: a caller asks for the columns of rows
//! `start..start + count` and decides itself whether to go on. Floating-point
//! cells that are not whole numbers are rendered by a formatter the caller
//! supplies; everything else about a cell is decided here.

use vstd::prelude::*;
use vstd::arithmetic::power2::pow2;
use crate::bytes::{le_value, lemma_le_value_all_ones, lemma_le_value_bound, lemma_pow256_values, pow256, read_le};
use crate::double::{
    exponent_field, fraction_field, is_infinite, is_nan, saturating_trunc, sign_negative,
    trunc_magnitude, trunc_magnitude_below_2_127, trunc_to_i64,
};
use crate::model::{CellValue, NumericRange, cell_holds};
use crate::source::SourceError;
use crate::text::{i64_to_string, int_text, nat_text, string_from_chars, trim, trim_chars, u64_text};
use crate::layout::resource_index::{ResourceColumn, ResourceLayout};
use crate::layout::metadata_scan::{MetadataColumn, MetadataEncoding, MetadataLayout, in_slot_order};
use crate::source::ReadOnlySource;
use crate::order::is_stable_order;
use crate::model::DeclaredType;

verus! {

/// The bit pattern of `f64::MAX * 0.99`, from which on a double means missing.
pub const DOUBLE_MISSING_SENTINEL_BITS: u64 = 0x7fef_ae14_7ae1_47ad;

/// Why decoding stopped.
#[derive(Debug)]
pub enum DecodeError {
    Source(SourceError),
    Cancelled,
    UnsupportedFormat { variable: String, format_code: u8 },
    InvalidPayload { variable: String, length: usize, rows: usize },
    InvalidWidth { variable: String, width: usize },
    Overflow { context: &'static str },
    Writer(String),
}

/// The text of a decode error, as it is shown to a user.
pub open spec fn decode_error_text(e: DecodeError) -> Seq<char> {
    match e {
        DecodeError::Source(inner) => crate::source::source_error_text(inner),
        DecodeError::Cancelled => "decode cancelled"@,
        DecodeError::UnsupportedFormat { variable, format_code } => "decode `"@ + variable@
            + "`: unsupported compact format code "@ + nat_text(format_code as nat),
        DecodeError::InvalidPayload { variable, length, rows } => "decode `"@ + variable@
            + "`: invalid payload length "@ + nat_text(length as nat) + " for "@ + nat_text(
            rows as nat,
        ) + " rows"@,
        DecodeError::InvalidWidth { variable, width } => "decode `"@ + variable@
            + "`: invalid value width "@ + nat_text(width as nat),
        DecodeError::Overflow { context } => "decode arithmetic overflow while calculating "@
            + context@,
        DecodeError::Writer(what) => "output writer failed: "@ + what@,
    }
}

impl DecodeError {
    /// The text of this error, as it is shown to a user.
    pub fn message(&self) -> (r: String)
        ensures
            r@ == decode_error_text(*self),
    {
        let mut m: Vec<char> = Vec::new();
        match self {
            DecodeError::Source(inner) => {
                return inner.message();
            },
            DecodeError::Cancelled => {
                crate::text::push_str(&mut m, "decode cancelled");
            },
            DecodeError::UnsupportedFormat { variable, format_code } => {
                crate::text::push_str(&mut m, "decode `");
                crate::text::push_str(&mut m, variable.as_str());
                crate::text::push_str(&mut m, "`: unsupported compact format code ");
                crate::text::push_nat(&mut m, *format_code as u64);
            },
            DecodeError::InvalidPayload { variable, length, rows } => {
                crate::text::push_str(&mut m, "decode `");
                crate::text::push_str(&mut m, variable.as_str());
                crate::text::push_str(&mut m, "`: invalid payload length ");
                crate::text::push_nat(&mut m, *length as u64);
                crate::text::push_str(&mut m, " for ");
                crate::text::push_nat(&mut m, *rows as u64);
                crate::text::push_str(&mut m, " rows");
            },
            DecodeError::InvalidWidth { variable, width } => {
                crate::text::push_str(&mut m, "decode `");
                crate::text::push_str(&mut m, variable.as_str());
                crate::text::push_str(&mut m, "`: invalid value width ");
                crate::text::push_nat(&mut m, *width as u64);
            },
            DecodeError::Overflow { context } => {
                crate::text::push_str(&mut m, "decode arithmetic overflow while calculating ");
                crate::text::push_str(&mut m, context);
            },
            DecodeError::Writer(what) => {
                crate::text::push_str(&mut m, "output writer failed: ");
                crate::text::push_str(&mut m, what.as_str());
            },
        }
        proof {
            assert(m@ =~= decode_error_text(*self));
        }
        string_from_chars(m.as_slice())
    }
}

/// The values of one column for a batch of rows.
#[derive(Debug, PartialEq, Eq)]
pub struct ColumnBatch {
    pub variable_name: String,
    pub values: Vec<CellValue>,
}

/// A batch of decoded rows.
#[derive(Debug, PartialEq, Eq)]
pub struct RecordBatch {
    pub start_row: u64,
    pub row_count: usize,
    /// Columns retain the stable DDI schema order.
    pub columns: Vec<ColumnBatch>,
}

/// The unsigned value of at most eight little-endian bytes.
pub fn unsigned_le(bytes: &[u8]) -> (r: u64)
    requires
        bytes@.len() <= 8,
    ensures
        r as nat == le_value(bytes@),
{
    proof {
        assert(bytes@.subrange(0, bytes@.len() as int) =~= bytes@);
    }
    read_le(bytes, 0, bytes.len())
}

/// The declared minimum of a range as Rust's `as i64` converts it (zero when
/// none is declared).
pub open spec fn range_minimum_spec(range: Option<NumericRange>) -> int {
    let bits: u64 = match range {
        Some(r) => match r.minimum {
            Some(b) => b,
            None => 0,
        },
        None => 0,
    };
    saturating_trunc(bits, i64::MIN as int, i64::MAX as int)
}

/// The declared minimum of a range, as an `i64`.
pub fn range_minimum(range: &Option<NumericRange>) -> (r: i64)
    ensures
        r as int == range_minimum_spec(*range),
{
    let bits: u64 = match range {
        Some(r) => match r.minimum {
            Some(b) => b,
            None => 0,
        },
        None => 0,
    };
    trunc_to_i64(bits)
}

/// The text of an integer cell: `raw`, plus `offset` when it applies, or
/// nothing when the sum leaves `i64`.
pub open spec fn integer_text(raw: i64, offset: i64, apply_offset: bool) -> Option<Seq<char>> {
    let sum = raw + if apply_offset {
        offset as int
    } else {
        0
    };
    if i64::MIN <= sum <= i64::MAX {
        Some(int_text(sum))
    } else {
        None
    }
}

/// An integer cell, missing when the offset sum overflows.
pub fn integer_value(raw: i64, offset: i64, apply_offset: bool) -> (r: CellValue)
    ensures
        cell_holds(r, integer_text(raw, offset, apply_offset)),
{
    let to_add = if apply_offset {
        offset
    } else {
        0
    };
    match raw.checked_add(to_add) {
        Some(sum) => CellValue::Text(i64_to_string(sum)),
        None => CellValue::Missing,
    }
}

/// `s` with every NUL replaced by a space.
pub open spec fn nul_as_space(s: Seq<char>) -> Seq<char> {
    s.map_values(|c: char| if c == '\0' { ' ' } else { c })
}

/// The text of a text cell: NULs read as spaces, surrounding white space
/// removed, and nothing when that leaves nothing.
pub open spec fn text_cell_spec(decoded: Seq<char>) -> Option<Seq<char>> {
    let t = trim(nul_as_space(decoded));
    if t.len() == 0 {
        None
    } else {
        Some(t)
    }
}

/// The cell for already decoded text.
pub fn text_cell(decoded: &str) -> (r: CellValue)
    ensures
        cell_holds(r, text_cell_spec(decoded@)),
{
    let chars = crate::text::chars_of(decoded);
    let mut spaced: Vec<char> = Vec::new();
    let mut i: usize = 0;
    while i < chars.len()
        invariant
            i <= chars@.len(),
            chars@ == decoded@,
            spaced@ == nul_as_space(chars@).take(i as int),
        decreases chars@.len() - i,
    {
        let c = chars[i];
        spaced.push(if c == '\0' { ' ' } else { c });
        i += 1;
        proof {
            assert(spaced@ =~= nul_as_space(chars@).take(i as int));
        }
    }
    proof {
        assert(spaced@ =~= nul_as_space(decoded@));
    }
    let trimmed = trim_chars(spaced.as_slice());
    if trimmed.len() == 0 {
        CellValue::Missing
    } else {
        CellValue::Text(string_from_chars(trimmed.as_slice()))
    }
}

/// What `String::from_utf8_lossy` makes of `bytes`.
pub uninterp spec fn utf8_lossy(bytes: Seq<u8>) -> Seq<char>;

/// Every byte is ASCII.
pub open spec fn all_ascii(bytes: Seq<u8>) -> bool {
    forall|i: int| 0 <= i < bytes.len() ==> bytes[i] < 0x80
}

/// Calls `String::from_utf8_lossy`. Its result is named `utf8_lossy`; as std
/// documents, bytes that are already valid UTF-8 come back as the text they
/// encode, which for ASCII means one character per byte. How invalid
/// sequences are replaced is left to std.
#[verifier::external_body]
fn lossy_utf8(bytes: &[u8]) -> (s: String)
    ensures
        s@ == utf8_lossy(bytes@),
        forall|t: Seq<char>| crate::text::utf8(t) == bytes@ ==> s@ == t,
        all_ascii(bytes@) ==> s@ == bytes@.map_values(|b: u8| b as char),
{
    String::from_utf8_lossy(bytes).into_owned()
}

/// The bytes before the first NUL, or all of them.
pub open spec fn before_nul(bytes: Seq<u8>) -> Seq<u8> {
    if exists|i: int| 0 <= i < bytes.len() && bytes[i] == 0 {
        bytes.take(choose|i: int| 0 <= i < bytes.len() && bytes[i] == 0 && forall|k: int| 0 <= k < i ==> bytes[k] != 0)
    } else {
        bytes
    }
}

/// A text cell from raw bytes, cut at the first NUL when `nul_terminated`.
pub fn text_value(bytes: &[u8], nul_terminated: bool) -> (r: CellValue)
    ensures
        cell_holds(
            r,
            text_cell_spec(
                utf8_lossy(
                    if nul_terminated {
                        before_nul(bytes@)
                    } else {
                        bytes@
                    },
                ),
            ),
        ),
{
    let mut end: usize = bytes.len();
    if nul_terminated {
        let mut i: usize = 0;
        while i < bytes.len()
            invariant_except_break
                end == bytes@.len(),
            invariant
                i <= bytes@.len(),
                forall|k: int| 0 <= k < i ==> bytes@[k] != 0,
            ensures
                end <= bytes@.len(),
                forall|k: int| 0 <= k < end ==> bytes@[k] != 0,
                end < bytes@.len() ==> bytes@[end as int] == 0,
            decreases bytes@.len() - i,
        {
            if bytes[i] == 0 {
                end = i;
                break;
            }
            i += 1;
        }
        proof {
            if end < bytes@.len() {
                let j = choose|i: int| 0 <= i < bytes@.len() && bytes@[i] == 0 && forall|k: int| 0 <= k < i ==> bytes@[k] != 0;
                assert(0 <= end < bytes@.len() && bytes@[end as int] == 0 && forall|k: int| 0 <= k < end ==> bytes@[k] != 0);
                assert(j == end);
            } else {
                assert(bytes@.take(end as int) =~= bytes@);
            }
        }
    }
    let part = vstd::slice::slice_subrange(bytes, 0, end);
    proof {
        if !nul_terminated {
            assert(part@ =~= bytes@);
        }
    }
    let decoded = lossy_utf8(part);
    text_cell(decoded.as_str())
}

/// The text of an offset-integer cell: missing when every byte is `0xFF`, the
/// stored value plus `minimum` otherwise, missing again when that leaves
/// `i64`.
pub open spec fn offset_text(bytes: Seq<u8>, minimum: i64) -> Option<Seq<char>> {
    if forall|i: int| 0 <= i < bytes.len() ==> bytes[i] == 0xFF {
        None
    } else {
        let raw = le_value(bytes);
        if raw > i64::MAX || raw + minimum > i64::MAX || raw + minimum < i64::MIN {
            None
        } else {
            Some(int_text(raw + minimum))
        }
    }
}

/// An offset-integer cell.
pub fn offset_value(bytes: &[u8], minimum: i64) -> (r: CellValue)
    requires
        bytes@.len() <= 8,
    ensures
        cell_holds(r, offset_text(bytes@, minimum)),
{
    let mut all_max = true;
    let mut i: usize = 0;
    while i < bytes.len()
        invariant
            i <= bytes@.len(),
            all_max == forall|k: int| 0 <= k < i ==> bytes@[k] == 0xFF,
        decreases bytes@.len() - i,
    {
        if bytes[i] != 0xFF {
            all_max = false;
        }
        i += 1;
    }
    if all_max {
        return CellValue::Missing;
    }
    let raw = unsigned_le(bytes);
    if raw > i64::MAX as u64 {
        return CellValue::Missing;
    }
    match (raw as i64).checked_add(minimum) {
        Some(sum) => CellValue::Text(i64_to_string(sum)),
        None => CellValue::Missing,
    }
}

/// The double is not finite or at least the missing sentinel.
pub open spec fn double_is_missing(bits: u64) -> bool {
    is_nan(bits) || is_infinite(bits) || (!sign_negative(bits) && bits
        >= DOUBLE_MISSING_SENTINEL_BITS)
}

/// The (finite) double is a whole number.
pub open spec fn double_is_integral(bits: u64) -> bool {
    let e = exponent_field(bits);
    let f = fraction_field(bits);
    if e == 0 {
        f == 0
    } else if e >= 1075 {
        true
    } else {
        (f + 0x10_0000_0000_0000) % pow2((1075 - e) as nat) == 0
    }
}

/// The whole number a (finite, whole) double holds.
pub open spec fn double_integer(bits: u64) -> int {
    if sign_negative(bits) {
        -(trunc_magnitude(bits) as int)
    } else {
        trunc_magnitude(bits) as int
    }
}

/// The (finite) double lies in `-2^63 .. 2^63`, when it is whole.
pub open spec fn double_in_i64(bits: u64) -> bool {
    i64::MIN <= double_integer(bits) <= i64::MAX
}

/// The digits after the decimal point that a double cell is written with.
pub open spec fn double_precision(decimals: u16) -> usize {
    if decimals < 6 {
        6
    } else {
        decimals as usize
    }
}

/// `s` without trailing `c`.
pub open spec fn strip_trailing(s: Seq<char>, c: char) -> Seq<char>
    decreases s.len(),
{
    if s.len() > 0 && s.last() == c {
        strip_trailing(s.drop_last(), c)
    } else {
        s
    }
}

/// Fixed-point text without trailing zeros and then without a trailing point.
pub open spec fn trim_fixed(s: Seq<char>) -> Seq<char> {
    strip_trailing(strip_trailing(s, '0'), '.')
}

/// `cell` is the cell of the double `bits`: missing when not finite or at
/// least the sentinel, the integer when it is a whole number inside `i64`,
/// and otherwise what `format` writes with `double_precision(decimals)`
/// digits, trailing zeros and point removed.
pub open spec fn float_cell<F: Fn(u64, usize) -> String>(
    format: F,
    bits: u64,
    decimals: u16,
    cell: CellValue,
) -> bool {
    if double_is_missing(bits) {
        cell is Missing
    } else if double_is_integral(bits) && double_in_i64(bits) {
        cell_holds(cell, Some(int_text(double_integer(bits))))
    } else {
        exists|s: String|
            call_ensures(format, (bits, double_precision(decimals)), s) && cell_holds(
                cell,
                Some(trim_fixed(#[trigger] s@)),
            )
    }
}

/// Remove trailing `c` from `v`.
fn strip_trailing_chars(v: &mut Vec<char>, c: char)
    ensures
        final(v)@ == strip_trailing(old(v)@, c),
{
    let ghost start = v@;
    while v.len() > 0 && v[v.len() - 1] == c
        invariant
            strip_trailing(start, c) == strip_trailing(v@, c),
        decreases v@.len(),
    {
        v.pop();
    }
}

/// Whether the finite double `bits` is a whole number.
fn is_integral(bits: u64) -> (r: bool)
    requires
        !is_nan(bits) && !is_infinite(bits),
    ensures
        r == double_is_integral(bits),
{
    let e = bits / 0x10_0000_0000_0000 % 2048;
    let f = bits % 0x10_0000_0000_0000;
    if e == 0 {
        return f == 0;
    }
    if e >= 1075 {
        return true;
    }
    let shift = 1075 - e;
    let m = f + 0x10_0000_0000_0000;
    proof {
        vstd::arithmetic::power2::lemma2_to64();
        vstd::arithmetic::power2::lemma_pow2_adds(32, 21);
        vstd::arithmetic::power2::lemma_pow2_pos(shift as nat);
    }
    if shift > 53 {
        proof {
            vstd::arithmetic::power2::lemma_pow2_strictly_increases(53, shift as nat);
            vstd::arithmetic::div_mod::lemma_small_mod(m as nat, pow2(shift as nat));
        }
        return false;
    }
    proof {
        if shift < 53 {
            vstd::arithmetic::power2::lemma_pow2_strictly_increases(shift as nat, 53);
        }
        vstd::bits::lemma_u64_shl_is_mul(1, shift);
    }
    m % (1u64 << shift) == 0
}

/// The cell of a double, written by `format` when it is not a whole number
/// inside `i64`.
pub fn float_value<F: Fn(u64, usize) -> String>(bits: u64, decimals: u16, format: &F) -> (r:
    CellValue)
    requires
        forall|b: u64, p: usize| format.requires((b, p)),
    ensures
        float_cell(*format, bits, decimals, r),
{
    let e = bits / 0x10_0000_0000_0000 % 2048;
    let negative = bits >= 0x8000_0000_0000_0000;
    if e == 2047 || (!negative && bits >= DOUBLE_MISSING_SENTINEL_BITS) {
        return CellValue::Missing;
    }
    let integral = is_integral(bits);
    let magnitude = trunc_magnitude_below_2_127(bits);
    let fits = match magnitude {
        Some(v) => if negative {
            v <= 0x8000_0000_0000_0000
        } else {
            v < 0x8000_0000_0000_0000
        },
        None => false,
    };
    proof {
        vstd::arithmetic::power2::lemma2_to64();
        vstd::arithmetic::power2::lemma_pow2_adds(64, 63);
        vstd::arithmetic::power2::lemma_pow2_adds(32, 31);
        assert(fits == double_in_i64(bits));
    }
    if integral && fits {
        let value = trunc_to_i64(bits);
        return CellValue::Text(i64_to_string(value));
    }
    let precision: usize = if decimals < 6 {
        6
    } else {
        decimals as usize
    };
    let formatted = format(bits, precision);
    let mut chars = crate::text::chars_of(formatted.as_str());
    strip_trailing_chars(&mut chars, '0');
    strip_trailing_chars(&mut chars, '.');
    let r = CellValue::Text(string_from_chars(chars.as_slice()));
    proof {
        assert(call_ensures(*format, (bits, double_precision(decimals)), formatted) && cell_holds(
            r,
            Some(trim_fixed(formatted@)),
        ));
    }
    r
}

/// A control byte that text does not contain: below 32 and not NUL, tab,
/// line feed or carriage return.
pub open spec fn is_stray_control(b: u8) -> bool {
    b < 32 && b != 0 && b != 9 && b != 10 && b != 13
}

/// How many bytes of `s` are stray control bytes.
pub open spec fn count_stray(s: Seq<u8>) -> nat
    decreases s.len(),
{
    if s.len() == 0 {
        0
    } else {
        count_stray(s.drop_last()) + if is_stray_control(s.last()) {
            1nat
        } else {
            0nat
        }
    }
}

/// A one-byte column of a numeric variable holds raw bytes rather than text
/// when more than a quarter of its first (up to 1000) values are stray
/// control bytes.
pub open spec fn raw_byte_numeric_spec(bytes: Seq<u8>, rows: nat, width: nat) -> bool {
    if width != 1 || bytes.len() < rows || rows == 0 {
        false
    } else {
        let sample = bytes.take(
            if rows < 1000 {
                rows as int
            } else {
                1000
            },
        );
        count_stray(sample) * 4 > sample.len()
    }
}

/// Whether a numeric one-byte column holds raw bytes.
pub fn looks_like_raw_byte_numeric(bytes: &[u8], rows: usize, width: usize) -> (r: bool)
    ensures
        r == raw_byte_numeric_spec(bytes@, rows as nat, width as nat),
{
    if width != 1 || bytes.len() < rows || rows == 0 {
        return false;
    }
    let n: usize = if rows < 1000 {
        rows
    } else {
        1000
    };
    let mut count: usize = 0;
    let mut i: usize = 0;
    while i < n
        invariant
            i <= n <= bytes@.len(),
            n <= 1000,
            count == count_stray(bytes@.take(i as int)),
            count <= i,
        decreases n - i,
    {
        proof {
            assert(bytes@.take(i + 1).drop_last() =~= bytes@.take(i as int));
        }
        let b = bytes[i];
        if b < 32 && b != 0 && b != 9 && b != 10 && b != 13 {
            count += 1;
        }
        i += 1;
    }
    count * 4 > n
}

/// The width of one text value: the declared width when it accounts for the
/// whole payload, else the payload divided evenly over the rows.
pub open spec fn text_width_spec(declared: nat, length: nat, rows: nat) -> Option<nat> {
    if declared != 0 && declared * rows == length {
        Some(declared)
    } else if rows != 0 && length % rows == 0 {
        Some(length / rows)
    } else {
        None
    }
}

/// The error, if any, of finding the text width.
pub open spec fn text_width_error(declared: usize, length: usize, rows: usize, variable: String) -> Option<
    DecodeError,
> {
    if declared * rows > usize::MAX {
        Some(DecodeError::Overflow { context: "declared text payload size" })
    } else {
        match text_width_spec(declared as nat, length as nat, rows as nat) {
            None => Some(DecodeError::InvalidPayload { variable, length, rows }),
            Some(w) => if w == 0 {
                Some(DecodeError::InvalidWidth { variable, width: 0 })
            } else {
                None
            },
        }
    }
}

/// The width of one text value.
fn text_width(declared: usize, length: usize, rows: usize, variable: &String) -> (r: Result<
    usize,
    DecodeError,
>)
    ensures
        match text_width_error(declared, length, rows, *variable) {
            Some(e) => r == Err::<usize, DecodeError>(e),
            None => r matches Ok(w) && Some(w as nat) == text_width_spec(
                declared as nat,
                length as nat,
                rows as nat,
            ),
        },
{
    let expected = match declared.checked_mul(rows) {
        Some(x) => x,
        None => return Err(DecodeError::Overflow { context: "declared text payload size" }),
    };
    let width = if declared != 0 && expected == length {
        declared
    } else if rows != 0 && length % rows == 0 {
        length / rows
    } else {
        return Err(DecodeError::InvalidPayload { variable: variable.clone(), length, rows });
    };
    if width == 0 {
        Err(DecodeError::InvalidWidth { variable: variable.clone(), width })
    } else {
        Ok(width)
    }
}

/// The payload size of a compact column of `rows` values, when the format is
/// compact and the size fits.
pub open spec fn compact_size_spec(format: u8, rows: nat) -> Option<nat> {
    let bytes: nat = if format == 2 {
        (rows + 1) / 2
    } else if 3 <= format <= 7 {
        ((format - 2) * rows) as nat
    } else {
        8 * rows
    };
    if format == 2 || (3 <= format <= 7) || format == 10 {
        if bytes <= usize::MAX {
            Some(bytes)
        } else {
            None
        }
    } else {
        None
    }
}

/// The payload size of a compact column.
pub fn compact_size(format: u8, rows: usize) -> (r: Option<usize>)
    ensures
        match compact_size_spec(format, rows as nat) {
            Some(n) => r == Some(n as usize),
            None => r is None,
        },
{
    match format {
        2 => Some(rows / 2 + rows % 2),
        3 => Some(rows),
        4 => rows.checked_mul(2),
        5 => rows.checked_mul(3),
        6 => rows.checked_mul(4),
        7 => rows.checked_mul(5),
        10 => rows.checked_mul(8),
        _ => None,
    }
}

/// The first error among rows `start .. start + n`, by `row_error`.
pub open spec fn first_row_error(
    row_error: spec_fn(int) -> Option<DecodeError>,
    start: int,
    n: nat,
) -> Option<DecodeError>
    decreases n,
{
    if n == 0 {
        None
    } else {
        match first_row_error(row_error, start, (n - 1) as nat) {
            Some(e) => Some(e),
            None => row_error(start + n - 1),
        }
    }
}

proof fn lemma_first_row_error(
    row_error: spec_fn(int) -> Option<DecodeError>,
    start: int,
    k: nat,
    n: nat,
)
    requires
        first_row_error(row_error, start, k) is None,
        k < n,
    ensures
        row_error(start + k) is Some ==> first_row_error(row_error, start, n) == row_error(
            start + k,
        ),
        row_error(start + k) is None ==> first_row_error(row_error, start, (k + 1) as nat) is None,
    decreases n,
{
    if n > k + 1 {
        lemma_first_row_error(row_error, start, k, (n - 1) as nat);
    }
}

/// The error, if any, of reading compact value `row`.
pub open spec fn compact_row_error(bytes: Seq<u8>, format: u8, variable: String, row: int) -> Option<
    DecodeError,
> {
    let missing_bytes = DecodeError::InvalidPayload {
        variable,
        length: bytes.len() as usize,
        rows: (row + 1) as usize,
    };
    if format == 2 {
        if row / 2 >= bytes.len() {
            Some(missing_bytes)
        } else {
            None
        }
    } else if 3 <= format <= 7 {
        if row * (format - 2) + (format - 2) > bytes.len() {
            Some(missing_bytes)
        } else {
            None
        }
    } else if format == 10 {
        if row * 8 + 8 > bytes.len() {
            Some(missing_bytes)
        } else {
            None
        }
    } else {
        Some(DecodeError::UnsupportedFormat { variable, format_code: format })
    }
}

/// `cell` is compact value `row`: a nibble or a little-endian integer whose
/// all-ones value means missing, plus the offset when it applies, or a
/// little-endian double.
pub open spec fn compact_cell<F: Fn(u64, usize) -> String>(
    format_fn: F,
    bytes: Seq<u8>,
    format: u8,
    decimals: u16,
    additive_offset: i64,
    apply_offset: bool,
    row: int,
    cell: CellValue,
) -> bool {
    if format == 2 {
        let byte = bytes[row / 2];
        let value: u8 = if row % 2 == 0 {
            byte / 16
        } else {
            byte % 16
        };
        if value == 15 {
            cell is Missing
        } else {
            cell_holds(cell, integer_text(value as i64, additive_offset, apply_offset))
        }
    } else if 3 <= format <= 7 {
        let width = (format - 2) as int;
        let raw = le_value(bytes.subrange(row * width, row * width + width));
        if raw == pow256(width as nat) - 1 {
            cell is Missing
        } else {
            cell_holds(cell, integer_text(raw as i64, additive_offset, apply_offset))
        }
    } else {
        float_cell(format_fn, le_value(bytes.subrange(row * 8, row * 8 + 8)) as u64, decimals, cell)
    }
}

/// Decode rows `start .. start + count` of a compact column.
fn decode_compact<F: Fn(u64, usize) -> String>(
    bytes: &[u8],
    format: u8,
    start: usize,
    count: usize,
    variable: &String,
    decimals: u16,
    additive_offset: i64,
    apply_offset: bool,
    format_fn: &F,
) -> (r: Result<Vec<CellValue>, DecodeError>)
    requires
        forall|b: u64, p: usize| format_fn.requires((b, p)),
        start + count <= usize::MAX,
        (3 <= format <= 7) ==> (start + count) * (format - 2) <= usize::MAX,
        format == 10 ==> (start + count) * 8 <= usize::MAX,
    ensures
        match first_row_error(
            |row: int| compact_row_error(bytes@, format, *variable, row),
            start as int,
            count as nat,
        ) {
            Some(e) => r == Err::<Vec<CellValue>, DecodeError>(e),
            None => r matches Ok(cells) && cells@.len() == count && forall|k: int|
                0 <= k < count ==> compact_cell(
                    *format_fn,
                    bytes@,
                    format,
                    decimals,
                    additive_offset,
                    apply_offset,
                    start + k,
                    #[trigger] cells@[k],
                ),
        },
{
    let ghost row_error = |row: int| compact_row_error(bytes@, format, *variable, row);
    let mut cells: Vec<CellValue> = Vec::new();
    let mut k: usize = 0;
    while k < count
        invariant
            k <= count,
            start + count <= usize::MAX,
            (3 <= format <= 7) ==> (start + count) * (format - 2) <= usize::MAX,
            format == 10 ==> (start + count) * 8 <= usize::MAX,
            forall|b: u64, p: usize| format_fn.requires((b, p)),
            row_error == |row: int| compact_row_error(bytes@, format, *variable, row),
            first_row_error(row_error, start as int, k as nat) is None,
            cells@.len() == k,
            forall|q: int|
                0 <= q < k ==> compact_cell(
                    *format_fn,
                    bytes@,
                    format,
                    decimals,
                    additive_offset,
                    apply_offset,
                    start + q,
                    #[trigger] cells@[q],
                ),
        decreases count - k,
    {
        let row = start + k;
        proof {
            lemma_first_row_error(row_error, start as int, k as nat, count as nat);
        }
        let cell = if format == 2 {
            if row / 2 >= bytes.len() {
                return Err(
                    DecodeError::InvalidPayload {
                        variable: variable.clone(),
                        length: bytes.len(),
                        rows: row + 1,
                    },
                );
            }
            let byte = bytes[row / 2];
            let value: u8 = if row % 2 == 0 {
                byte >> 4
            } else {
                byte & 0x0f
            };
            proof {
                assert(byte >> 4 == byte / 16) by (bit_vector);
                assert(byte & 0x0f == byte % 16) by (bit_vector);
            }
            if value == 0x0f {
                CellValue::Missing
            } else {
                integer_value(value as i64, additive_offset, apply_offset)
            }
        } else if 3 <= format && format <= 7 {
            let width = (format - 2) as usize;
            proof {
                assert(row * width <= (start + count) * width) by (nonlinear_arith)
                    requires
                        row < start + count,
                ;
                assert((row + 1) * width <= (start + count) * width) by (nonlinear_arith)
                    requires
                        row < start + count,
                ;
                assert(width as int == format - 2);
                assert((start + count) * width <= usize::MAX);
                assert(row * width + width == (row + 1) * width) by (nonlinear_arith);
            }
            let offset = row * width;
            if offset + width > bytes.len() {
                return Err(
                    DecodeError::InvalidPayload {
                        variable: variable.clone(),
                        length: bytes.len(),
                        rows: row + 1,
                    },
                );
            }
            let part = vstd::slice::slice_subrange(bytes, offset, offset + width);
            let raw = unsigned_le(part);
            proof {
                lemma_pow256_values();
            }
            let missing: u64 = if width == 1 {
                0xFF
            } else if width == 2 {
                0xFFFF
            } else if width == 3 {
                0xFF_FFFF
            } else if width == 4 {
                0xFFFF_FFFF
            } else {
                0xFF_FFFF_FFFF
            };
            if raw == missing {
                CellValue::Missing
            } else {
                proof {
                    lemma_le_value_bound(part@);
                }
                integer_value(raw as i64, additive_offset, apply_offset)
            }
        } else if format == 10 {
            proof {
                assert(row * 8 + 8 <= (start + count) * 8);
            }
            let offset = row * 8;
            if offset + 8 > bytes.len() {
                return Err(
                    DecodeError::InvalidPayload {
                        variable: variable.clone(),
                        length: bytes.len(),
                        rows: row + 1,
                    },
                );
            }
            let part = vstd::slice::slice_subrange(bytes, offset, offset + 8);
            let value = unsigned_le(part);
            float_value(value, decimals, format_fn)
        } else {
            return Err(DecodeError::UnsupportedFormat { variable: variable.clone(), format_code: format });
        };
        cells.push(cell);
        k += 1;
    }
    Ok(cells)
}

/// The error, if any, of reading text value `row` of a resource column.
pub open spec fn resource_text_row_error(
    bytes: Seq<u8>,
    rows: usize,
    width: nat,
    raw: bool,
    variable: String,
    row: int,
) -> Option<DecodeError> {
    let missing = DecodeError::InvalidPayload { variable, length: bytes.len() as usize, rows };
    if row * width > usize::MAX {
        Some(DecodeError::Overflow { context: "resource text value offset" })
    } else if raw {
        if row >= bytes.len() {
            Some(missing)
        } else {
            None
        }
    } else if row * width + width > bytes.len() {
        Some(missing)
    } else {
        None
    }
}

/// `cell` is text value `row` of a resource column: a raw byte (`0xFF` for
/// missing) or the text of `width` bytes.
pub open spec fn resource_text_cell(
    bytes: Seq<u8>,
    width: nat,
    raw: bool,
    nul_terminated: bool,
    row: int,
    cell: CellValue,
) -> bool {
    if raw {
        let b = bytes[row];
        if b == 0xFF {
            cell is Missing
        } else {
            cell_holds(cell, Some(nat_text(b as nat)))
        }
    } else {
        let part = bytes.subrange(row * width, row * width + width);
        cell_holds(
            cell,
            text_cell_spec(
                utf8_lossy(
                    if nul_terminated {
                        before_nul(part)
                    } else {
                        part
                    },
                ),
            ),
        )
    }
}

/// The column is decoded as compact numbers: its payload has exactly the
/// compact size and it is numeric by mode or by declaration.
pub open spec fn is_compact_numeric(column: ResourceColumn, rows: nat) -> bool {
    let res = column.resource;
    &&& compact_size_spec(res.value_format_code, rows) == Some(
        res.effective_payload_length as nat,
    )
    &&& (res.mode_code == 5 || column.variable.declared_type is Numeric)
}

/// The error, if any, of decoding rows `start .. start + count` of a resource
/// column whose payload is `bytes`.
pub open spec fn resource_payload_error(
    column: ResourceColumn,
    bytes: Seq<u8>,
    rows: usize,
    start: usize,
    count: usize,
) -> Option<DecodeError> {
    let res = column.resource;
    let name = column.variable.name;
    if is_compact_numeric(column, rows as nat) {
        first_row_error(
            |row: int| compact_row_error(bytes, res.value_format_code, name, row),
            start as int,
            count as nat,
        )
    } else {
        match text_width_error(res.width_value, res.effective_payload_length, rows, name) {
            Some(e) => Some(e),
            None => {
                let width = text_width_spec(
                    res.width_value as nat,
                    res.effective_payload_length as nat,
                    rows as nat,
                ).unwrap();
                let raw = column.variable.declared_type is Numeric && raw_byte_numeric_spec(
                    bytes,
                    rows as nat,
                    width,
                );
                first_row_error(
                    |row: int| resource_text_row_error(bytes, rows, width, raw, name, row),
                    start as int,
                    count as nat,
                )
            },
        }
    }
}

/// `values` are rows `start .. start + count` of a resource column whose
/// payload is `bytes`.
pub open spec fn resource_values<F: Fn(u64, usize) -> String>(
    format: F,
    column: ResourceColumn,
    bytes: Seq<u8>,
    rows: usize,
    start: usize,
    count: usize,
    values: Seq<CellValue>,
) -> bool {
    let res = column.resource;
    &&& values.len() == count
    &&& if is_compact_numeric(column, rows as nat) {
        forall|k: int|
            0 <= k < count ==> compact_cell(
                format,
                bytes,
                res.value_format_code,
                column.variable.decimals,
                res.value_offset_i64,
                res.mode_code == 5,
                start + k,
                #[trigger] values[k],
            )
    } else {
        let width = text_width_spec(
            res.width_value as nat,
            res.effective_payload_length as nat,
            rows as nat,
        ).unwrap();
        let raw = column.variable.declared_type is Numeric && raw_byte_numeric_spec(
            bytes,
            rows as nat,
            width,
        );
        forall|k: int|
            0 <= k < count ==> resource_text_cell(
                bytes,
                width,
                raw,
                res.mode_code == 1,
                start + k,
                #[trigger] values[k],
            )
    }
}

/// The error, if any, of decoding rows of a resource column from `source`.
pub open spec fn resource_column_error(
    source: ReadOnlySource,
    column: ResourceColumn,
    rows: usize,
    start: usize,
    count: usize,
) -> Option<DecodeError> {
    let res = column.resource;
    match source.slice_error(res.payload_offset, res.effective_payload_length, "resource payload") {
        Some(e) => Some(DecodeError::Source(e)),
        None => resource_payload_error(
            column,
            source.data().subrange(
                res.payload_offset as int,
                res.payload_offset + res.effective_payload_length,
            ),
            rows,
            start,
            count,
        ),
    }
}

/// `batch` holds rows `start .. start + count` of a resource column.
pub open spec fn resource_batch<F: Fn(u64, usize) -> String>(
    format: F,
    source: ReadOnlySource,
    column: ResourceColumn,
    rows: usize,
    start: usize,
    count: usize,
    batch: ColumnBatch,
) -> bool {
    let res = column.resource;
    &&& batch.variable_name == column.variable.name
    &&& resource_values(
        format,
        column,
        source.data().subrange(
            res.payload_offset as int,
            res.payload_offset + res.effective_payload_length,
        ),
        rows,
        start,
        count,
        batch.values@,
    )
}

/// Decode rows `start .. start + count` of a resource column.
pub fn decode_resource_column<F: Fn(u64, usize) -> String>(
    source: &ReadOnlySource,
    column: &ResourceColumn,
    rows: usize,
    start: usize,
    count: usize,
    format: &F,
) -> (r: Result<ColumnBatch, DecodeError>)
    requires
        forall|b: u64, p: usize| format.requires((b, p)),
        start + count <= rows,
    ensures
        match resource_column_error(*source, *column, rows, start, count) {
            Some(e) => r == Err::<ColumnBatch, DecodeError>(e),
            None => r matches Ok(batch) && resource_batch(
                *format,
                *source,
                *column,
                rows,
                start,
                count,
                batch,
            ),
        },
{
    let resource = &column.resource;
    let length = resource.effective_payload_length;
    let bytes = match source.slice(resource.payload_offset, length, "resource payload") {
        Ok(b) => b,
        Err(e) => return Err(DecodeError::Source(e)),
    };
    let compact = compact_size(resource.value_format_code, rows);
    let numeric = column.variable.declared_type.is_numeric();
    let compact_numeric = match compact {
        Some(size) => size == length && (resource.mode_code == 5 || numeric),
        None => false,
    };
    assert(compact_numeric == is_compact_numeric(*column, rows as nat));
    let values = if compact_numeric {
        proof {
            let f = resource.value_format_code;
            if 3 <= f <= 7 {
                assert((start + count) * (f - 2) <= rows * (f - 2)) by (nonlinear_arith)
                    requires
                        start + count <= rows,
                        f >= 2,
                ;
            }
        }
        decode_compact(
            bytes,
            resource.value_format_code,
            start,
            count,
            &column.variable.name,
            column.variable.decimals,
            resource.value_offset_i64,
            resource.mode_code == 5,
            format,
        )?
    } else {
        let width = text_width(resource.width_value, length, rows, &column.variable.name)?;
        let raw = numeric && looks_like_raw_byte_numeric(bytes, rows, width);
        let nul_terminated = resource.mode_code == 1;
        let ghost row_error = |row: int|
            resource_text_row_error(bytes@, rows, width as nat, raw, column.variable.name, row);
        proof {
            let res = column.resource;
            let w = text_width_spec(
                res.width_value as nat,
                res.effective_payload_length as nat,
                rows as nat,
            ).unwrap();
            let raw_spec = column.variable.declared_type is Numeric && raw_byte_numeric_spec(
                bytes@,
                rows as nat,
                w,
            );
            assert(w == width as nat);
            assert(raw_spec == raw);
            assert(resource_payload_error(*column, bytes@, rows, start, count) == first_row_error(
                row_error,
                start as int,
                count as nat,
            ));
        }
        let mut values: Vec<CellValue> = Vec::new();
        let mut k: usize = 0;
        while k < count
            invariant
                k <= count,
                start + count <= rows,
                bytes@.len() == length,
                source.slice_error(resource.payload_offset, length, "resource payload") is None,
                bytes@ == source.data().subrange(
                    resource.payload_offset as int,
                    resource.payload_offset + length,
                ),
                resource == column.resource,
                length == resource.effective_payload_length,
                !is_compact_numeric(*column, rows as nat),
                text_width_error(resource.width_value, length, rows, column.variable.name) is None,
                Some(width as nat) == text_width_spec(
                    resource.width_value as nat,
                    length as nat,
                    rows as nat,
                ),
                raw == (column.variable.declared_type is Numeric && raw_byte_numeric_spec(
                    bytes@,
                    rows as nat,
                    width as nat,
                )),
                nul_terminated == (resource.mode_code == 1),
                resource_payload_error(*column, bytes@, rows, start, count) == first_row_error(
                    row_error,
                    start as int,
                    count as nat,
                ),
                row_error == |row: int|
                    resource_text_row_error(
                        bytes@,
                        rows,
                        width as nat,
                        raw,
                        column.variable.name,
                        row,
                    ),
                first_row_error(row_error, start as int, k as nat) is None,
                values@.len() == k,
                forall|q: int|
                    0 <= q < k ==> resource_text_cell(
                        bytes@,
                        width as nat,
                        raw,
                        nul_terminated,
                        start + q,
                        #[trigger] values@[q],
                    ),
            decreases count - k,
        {
            let row = start + k;
            proof {
                lemma_first_row_error(row_error, start as int, k as nat, count as nat);
            }
            let offset = match row.checked_mul(width) {
                Some(o) => o,
                None => return Err(DecodeError::Overflow { context: "resource text value offset" }),
            };
            let value = if raw {
                if row >= bytes.len() {
                    return Err(
                        DecodeError::InvalidPayload {
                            variable: column.variable.name.clone(),
                            length,
                            rows,
                        },
                    );
                }
                let b = bytes[row];
                if b == 0xFF {
                    CellValue::Missing
                } else {
                    CellValue::Text(string_from_chars(u64_text(b as u64).as_slice()))
                }
            } else {
                if offset > bytes.len() || width > bytes.len() - offset {
                    return Err(
                        DecodeError::InvalidPayload {
                            variable: column.variable.name.clone(),
                            length,
                            rows,
                        },
                    );
                }
                let part = vstd::slice::slice_subrange(bytes, offset, offset + width);
                text_value(part, nul_terminated)
            };
            values.push(value);
            k += 1;
        }
        values
    };
    Ok(ColumnBatch { variable_name: column.variable.name.clone(), values })
}

/// The sum of the first `n` column widths.
pub open spec fn width_sum(columns: Seq<MetadataColumn>, n: nat) -> nat
    decreases n,
{
    if n == 0 {
        0
    } else {
        width_sum(columns, (n - 1) as nat) + columns[n - 1].binary_width as nat
    }
}

proof fn lemma_width_sum_grows(columns: Seq<MetadataColumn>, a: nat, b: nat)
    requires
        a <= b,
    ensures
        width_sum(columns, a) <= width_sum(columns, b),
    decreases b,
{
    if a < b {
        lemma_width_sum_grows(columns, a, (b - 1) as nat);
    }
}

/// The number of rows in a metadata payload: the payload bytes over the row
/// width, or why that is not a whole number (`None` for an uneven payload).
pub open spec fn metadata_rows(layout: MetadataLayout) -> Result<nat, Option<DecodeError>> {
    let columns = layout.columns@;
    if layout.metadata_offset < layout.data_offset {
        Err(Some(DecodeError::Overflow { context: "metadata payload range" }))
    } else if width_sum(columns, columns.len()) > usize::MAX {
        Err(Some(DecodeError::Overflow { context: "metadata row width" }))
    } else {
        let payload = (layout.metadata_offset - layout.data_offset) as nat;
        let width = width_sum(columns, columns.len());
        if width == 0 || payload % width != 0 {
            Err(None)
        } else {
            Ok(payload / width)
        }
    }
}

/// `r` fails as counting the rows of `layout` fails.
pub open spec fn metadata_rows_failure<T>(layout: MetadataLayout, r: Result<T, DecodeError>) -> bool {
    match metadata_rows(layout) {
        Ok(_) => false,
        Err(Some(e)) => r matches Err(x) && x == e,
        Err(None) => r matches Err(DecodeError::InvalidPayload { variable, length, rows })
            && variable@ == "metadata layout"@ && length == layout.metadata_offset
            - layout.data_offset && rows == 0,
    }
}

/// `r` is what counting the rows of `layout` gives.
pub open spec fn metadata_rows_result(layout: MetadataLayout, r: Result<usize, DecodeError>) -> bool {
    match metadata_rows(layout) {
        Ok(n) => r == Ok::<usize, DecodeError>(n as usize),
        Err(_) => metadata_rows_failure(layout, r),
    }
}

/// The number of rows of a metadata-scan payload.
pub fn rows_from_metadata(layout: &MetadataLayout) -> (r: Result<usize, DecodeError>)
    ensures
        metadata_rows_result(*layout, r),
{
    if layout.metadata_offset < layout.data_offset {
        return Err(DecodeError::Overflow { context: "metadata payload range" });
    }
    let payload = layout.metadata_offset - layout.data_offset;
    let mut width: usize = 0;
    let mut i: usize = 0;
    while i < layout.columns.len()
        invariant
            i <= layout.columns@.len(),
            width == width_sum(layout.columns@, i as nat),
            layout.metadata_offset >= layout.data_offset,
        decreases layout.columns@.len() - i,
    {
        width = match width.checked_add(layout.columns[i].binary_width) {
            Some(w) => w,
            None => {
                proof {
                    lemma_width_sum_grows(
                        layout.columns@,
                        (i + 1) as nat,
                        layout.columns@.len(),
                    );
                }
                return Err(DecodeError::Overflow { context: "metadata row width" });
            },
        };
        i += 1;
    }
    if width == 0 || payload % width != 0 {
        return Err(
            DecodeError::InvalidPayload {
                variable: "metadata layout".to_owned(),
                length: payload,
                rows: 0,
            },
        );
    }
    Ok(payload / width)
}

/// Where each column's values begin: after the values of all columns before
/// it.
pub open spec fn metadata_position(layout: MetadataLayout, rows: nat, k: nat) -> nat {
    layout.data_offset as nat + rows * width_sum(layout.columns@, k)
}

/// The payload position of every column, in binary order.
pub fn metadata_positions(layout: &MetadataLayout) -> (r: Result<Vec<usize>, DecodeError>)
    ensures
        match metadata_rows(*layout) {
            Ok(rows) => r matches Ok(positions) && positions@.len() == layout.columns@.len()
                && forall|k: int|
                0 <= k < positions@.len() ==> #[trigger] positions@[k] as nat == metadata_position(
                    *layout,
                    rows,
                    k as nat,
                ),
            Err(_) => metadata_rows_failure(*layout, r),
        },
{
    let rows = match rows_from_metadata(layout) {
        Ok(rows) => rows,
        Err(e) => return Err(e),
    };
    let ghost n = layout.columns@.len();
    let ghost total = width_sum(layout.columns@, n);
    let ghost payload = (layout.metadata_offset - layout.data_offset) as nat;
    proof {
        assert(rows * total == payload) by (nonlinear_arith)
            requires
                rows == payload / total,
                payload % total == 0,
                total > 0,
        ;
    }
    let mut positions: Vec<usize> = Vec::new();
    let mut current: usize = layout.data_offset;
    proof {
        assert(width_sum(layout.columns@, 0) == 0);
        assert(rows as nat * 0 == 0);
    }
    let mut i: usize = 0;
    while i < layout.columns.len()
        invariant
            i <= n,
            n == layout.columns@.len(),
            metadata_rows(*layout) == Ok::<nat, Option<DecodeError>>(rows as nat),
            rows * total == payload,
            total == width_sum(layout.columns@, n),
            payload == layout.metadata_offset - layout.data_offset,
            current as nat == metadata_position(*layout, rows as nat, i as nat),
            positions@.len() == i,
            forall|k: int|
                0 <= k < i ==> #[trigger] positions@[k] as nat == metadata_position(
                    *layout,
                    rows as nat,
                    k as nat,
                ),
        decreases n - i,
    {
        positions.push(current);
        proof {
            lemma_width_sum_grows(layout.columns@, (i + 1) as nat, n);
            let w = layout.columns@[i as int].binary_width as nat;
            let before = width_sum(layout.columns@, i as nat);
            assert(rows * (before + w) <= rows * total) by (nonlinear_arith)
                requires
                    before + w <= total,
            ;
            assert(rows * w <= rows * (before + w)) by (nonlinear_arith);
            assert(rows * (before + w) == rows * before + rows * w) by (nonlinear_arith);
        }
        let size = layout.columns[i].binary_width * rows;
        current = current + size;
        i += 1;
        proof {
            assert(rows * layout.columns@[(i - 1) as int].binary_width == size) by (nonlinear_arith)
                requires
                    size == layout.columns@[(i - 1) as int].binary_width * rows,
            ;
        }
    }
    Ok(positions)
}

/// The error, if any, of reading metadata value `row` of `column`.
pub open spec fn metadata_row_error(
    source: ReadOnlySource,
    column: MetadataColumn,
    payload_offset: usize,
    row: int,
) -> Option<DecodeError> {
    let width = column.binary_width;
    if row * width > usize::MAX || payload_offset + row * width > usize::MAX {
        Some(DecodeError::Overflow { context: "metadata value offset" })
    } else {
        let offset = (payload_offset + row * width) as usize;
        match source.slice_error(offset, width, "metadata value") {
            Some(e) => Some(DecodeError::Source(e)),
            None => if column.slot.encoding == MetadataEncoding::LittleEndianDouble && width != 8 {
                Some(DecodeError::InvalidWidth { variable: column.variable.name, width })
            } else {
                None
            },
        }
    }
}

/// `cell` is metadata value `row` of `column`: fixed text, a double, or an
/// offset integer added to the declared minimum.
pub open spec fn metadata_cell<F: Fn(u64, usize) -> String>(
    format: F,
    source: ReadOnlySource,
    column: MetadataColumn,
    payload_offset: usize,
    row: int,
    cell: CellValue,
) -> bool {
    let width = column.binary_width;
    let offset = payload_offset + row * width;
    let part = source.data().subrange(offset, offset + width);
    match column.slot.encoding {
        MetadataEncoding::FixedAscii => cell_holds(cell, text_cell_spec(utf8_lossy(part))),
        MetadataEncoding::LittleEndianDouble => float_cell(
            format,
            le_value(part) as u64,
            column.variable.decimals,
            cell,
        ),
        MetadataEncoding::OffsetInteger => cell_holds(
            cell,
            offset_text(part, range_minimum_spec(column.variable.range) as i64),
        ),
    }
}

/// `batch` holds rows `start .. start + count` of `column`.
pub open spec fn metadata_batch<F: Fn(u64, usize) -> String>(
    format: F,
    source: ReadOnlySource,
    column: MetadataColumn,
    payload_offset: usize,
    start: usize,
    count: usize,
    batch: ColumnBatch,
) -> bool {
    &&& batch.variable_name == column.variable.name
    &&& batch.values@.len() == count
    &&& forall|k: int|
        0 <= k < count ==> metadata_cell(
            format,
            source,
            column,
            payload_offset,
            start + k,
            #[trigger] batch.values@[k],
        )
}

/// Decode rows `start .. start + count` of a metadata-scan column whose values
/// begin at `payload_offset`.
pub fn decode_metadata_column<F: Fn(u64, usize) -> String>(
    source: &ReadOnlySource,
    column: &MetadataColumn,
    payload_offset: usize,
    start: usize,
    count: usize,
    format: &F,
) -> (r: Result<ColumnBatch, DecodeError>)
    requires
        forall|b: u64, p: usize| format.requires((b, p)),
        start + count <= usize::MAX,
        column.slot.encoding == MetadataEncoding::OffsetInteger ==> column.binary_width <= 8,
    ensures
        match first_row_error(
            |row: int| metadata_row_error(*source, *column, payload_offset, row),
            start as int,
            count as nat,
        ) {
            Some(e) => r == Err::<ColumnBatch, DecodeError>(e),
            None => r matches Ok(batch) && metadata_batch(
                *format,
                *source,
                *column,
                payload_offset,
                start,
                count,
                batch,
            ),
        },
{
    let ghost row_error = |row: int| metadata_row_error(*source, *column, payload_offset, row);
    let width = column.binary_width;
    let minimum = range_minimum(&column.variable.range);
    let mut values: Vec<CellValue> = Vec::new();
    let mut k: usize = 0;
    while k < count
        invariant
            k <= count,
            start + count <= usize::MAX,
            width == column.binary_width,
            minimum as int == range_minimum_spec(column.variable.range),
            column.slot.encoding == MetadataEncoding::OffsetInteger ==> width <= 8,
            forall|b: u64, p: usize| format.requires((b, p)),
            row_error == |row: int| metadata_row_error(*source, *column, payload_offset, row),
            first_row_error(row_error, start as int, k as nat) is None,
            values@.len() == k,
            forall|q: int|
                0 <= q < k ==> metadata_cell(
                    *format,
                    *source,
                    *column,
                    payload_offset,
                    start + q,
                    #[trigger] values@[q],
                ),
        decreases count - k,
    {
        let row = start + k;
        proof {
            lemma_first_row_error(row_error, start as int, k as nat, count as nat);
        }
        let step = match row.checked_mul(width) {
            Some(x) => x,
            None => return Err(DecodeError::Overflow { context: "metadata value offset" }),
        };
        let offset = match payload_offset.checked_add(step) {
            Some(x) => x,
            None => return Err(DecodeError::Overflow { context: "metadata value offset" }),
        };
        let bytes = match source.slice(offset, width, "metadata value") {
            Ok(b) => b,
            Err(e) => return Err(DecodeError::Source(e)),
        };
        let value = match column.slot.encoding {
            MetadataEncoding::FixedAscii => text_value(bytes, false),
            MetadataEncoding::LittleEndianDouble => {
                if width != 8 {
                    return Err(
                        DecodeError::InvalidWidth { variable: column.variable.name.clone(), width },
                    );
                }
                float_value(unsigned_le(bytes), column.variable.decimals, format)
            },
            MetadataEncoding::OffsetInteger => offset_value(bytes, minimum),
        };
        values.push(value);
        k += 1;
    }
    Ok(ColumnBatch { variable_name: column.variable.name.clone(), values })
}

/// The first column at or after `from` with variable number `var_num`.
pub open spec fn first_with_var_num(columns: Seq<MetadataColumn>, var_num: u32, from: int) -> int
    decreases columns.len() - from,
{
    if from < 0 || from >= columns.len() {
        from
    } else if columns[from].slot.var_num == var_num {
        from
    } else {
        first_with_var_num(columns, var_num, from + 1)
    }
}

/// The payload position of the column the DDI-order column `k` reads: that
/// of the first column with its variable number.
pub open spec fn ddi_column_position(layout: MetadataLayout, rows: nat, order: Seq<usize>, k: int) -> nat {
    let column = layout.columns@[order[k] as int];
    metadata_position(
        layout,
        rows,
        first_with_var_num(layout.columns@, column.slot.var_num, 0) as nat,
    )
}

/// The error, if any, of decoding the DDI-order column `k` of a batch.
pub open spec fn metadata_column_error(
    source: ReadOnlySource,
    layout: MetadataLayout,
    rows: nat,
    order: Seq<usize>,
    start: usize,
    count: usize,
    k: int,
) -> Option<DecodeError> {
    let column = layout.columns@[order[k] as int];
    let position = ddi_column_position(layout, rows, order, k) as usize;
    first_row_error(
        |row: int| metadata_row_error(source, column, position, row),
        start as int,
        count as nat,
    )
}

/// What decoding rows `start .. start + count` of a metadata-scan layout
/// gives, when its columns are taken in DDI order `order`.
pub open spec fn metadata_batch_by_order<F: Fn(u64, usize) -> String>(
    format: F,
    source: ReadOnlySource,
    layout: MetadataLayout,
    rows: nat,
    order: Seq<usize>,
    start: usize,
    count: usize,
    r: Result<Vec<ColumnBatch>, DecodeError>,
) -> bool {
    let n = layout.columns@.len();
    &&& is_stable_order(
        Seq::new(n, |i: int| layout.columns@[i].slot.slot_index as u64),
        order,
    )
    &&& match first_row_error(
        |k: int| metadata_column_error(source, layout, rows, order, start, count, k),
        0,
        n,
    ) {
        Some(e) => r == Err::<Vec<ColumnBatch>, DecodeError>(e),
        None => r matches Ok(batches) && batches@.len() == n && forall|k: int|
            0 <= k < n ==> metadata_batch(
                format,
                source,
                layout.columns@[order[k] as int],
                ddi_column_position(layout, rows, order, k) as usize,
                start,
                count,
                #[trigger] batches@[k],
            ),
    }
}

/// What decoding rows `start .. start + count` of a metadata-scan layout
/// gives: its columns in DDI order, each read from its payload position.
pub open spec fn metadata_batch_outcome<F: Fn(u64, usize) -> String>(
    format: F,
    source: ReadOnlySource,
    layout: MetadataLayout,
    start: usize,
    count: usize,
    r: Result<Vec<ColumnBatch>, DecodeError>,
) -> bool {
    match metadata_rows(layout) {
        Err(_) => metadata_rows_failure(layout, r),
        Ok(rows) => exists|order: Seq<usize>|
            #[trigger] metadata_batch_by_order(format, source, layout, rows, order, start, count, r),
    }
}

/// Every offset-integer column of `layout` reads at most eight bytes.
pub open spec fn offset_widths_fit(columns: Seq<MetadataColumn>) -> bool {
    forall|i: int|
        0 <= i < columns.len() && (#[trigger] columns[i]).slot.encoding
            == MetadataEncoding::OffsetInteger ==> columns[i].binary_width <= 8
}

/// The first column with the variable number `var_num`.
fn find_var_num(columns: &Vec<MetadataColumn>, var_num: u32) -> (r: usize)
    ensures
        r as int == first_with_var_num(columns@, var_num, 0),
        r <= columns@.len(),
        r < columns@.len() ==> columns@[r as int].slot.var_num == var_num,
{
    let mut j: usize = 0;
    while j < columns.len()
        invariant
            j <= columns@.len(),
            first_with_var_num(columns@, var_num, 0) == first_with_var_num(columns@, var_num, j as int),
        decreases columns@.len() - j,
    {
        if columns[j].slot.var_num == var_num {
            return j;
        }
        j += 1;
    }
    j
}

/// Decode rows `start .. start + count` of a metadata-scan layout, its
/// columns in DDI order.
pub fn decode_metadata_batch<F: Fn(u64, usize) -> String>(
    source: &ReadOnlySource,
    layout: &MetadataLayout,
    start: usize,
    count: usize,
    format: &F,
) -> (r: Result<Vec<ColumnBatch>, DecodeError>)
    requires
        forall|b: u64, p: usize| format.requires((b, p)),
        start + count <= usize::MAX,
        offset_widths_fit(layout.columns@),
    ensures
        metadata_batch_outcome(*format, *source, *layout, start, count, r),
{
    let positions = match metadata_positions(layout) {
        Ok(p) => p,
        Err(e) => return Err(e),
    };
    let ghost rows = metadata_rows(*layout)->Ok_0;
    let ordered = layout.columns_in_ddi_order();
    let ghost order = choose|order: Seq<usize>|
        crate::layout::metadata_scan::in_slot_order(layout.columns@, ordered@, order);
    let ghost n = layout.columns@.len();
    let ghost column_error = |k: int|
        metadata_column_error(*source, *layout, rows, order, start, count, k);
    let mut batches: Vec<ColumnBatch> = Vec::new();
    let mut k: usize = 0;
    while k < ordered.len()
        invariant
            k <= ordered@.len(),
            ordered@.len() == n,
            n == layout.columns@.len(),
            crate::layout::metadata_scan::in_slot_order(layout.columns@, ordered@, order),
            metadata_rows(*layout) == Ok::<nat, Option<DecodeError>>(rows),
            positions@.len() == n,
            forall|q: int|
                0 <= q < n ==> #[trigger] positions@[q] as nat == metadata_position(
                    *layout,
                    rows,
                    q as nat,
                ),
            forall|b: u64, p: usize| format.requires((b, p)),
            start + count <= usize::MAX,
            offset_widths_fit(layout.columns@),
            column_error == |k: int|
                metadata_column_error(*source, *layout, rows, order, start, count, k),
            first_row_error(column_error, 0, k as nat) is None,
            batches@.len() == k,
            forall|q: int|
                0 <= q < k ==> metadata_batch(
                    *format,
                    *source,
                    layout.columns@[order[q] as int],
                    ddi_column_position(*layout, rows, order, q) as usize,
                    start,
                    count,
                    #[trigger] batches@[q],
                ),
        decreases n - k,
    {
        proof {
            lemma_first_row_error(column_error, 0, k as nat, n);
        }
        let column = ordered[k];
        let j = find_var_num(&layout.columns, column.slot.var_num);
        assert(j < n) by {
            if j >= n {
                assert(layout.columns@[order[k as int] as int] == *column);
                lemma_var_num_found(layout.columns@, column.slot.var_num, 0, order[k as int] as int);
            }
        }
        let position = positions[j];
        let batch = match decode_metadata_column(source, column, position, start, count, format) {
            Ok(b) => b,
            Err(e) => {
                let r = Err(e);
                proof {
                    assert(metadata_batch_by_order(*format, *source, *layout, rows, order, start, count, r));
                    assert(metadata_rows(*layout) is Ok);
                    assert(metadata_rows(*layout)->Ok_0 == rows);
                    assert(exists|o: Seq<usize>| #[trigger] metadata_batch_by_order(*format, *source, *layout, rows, o, start, count, r));
                }
                return r;
            },
        };
        batches.push(batch);
        k += 1;
    }
    let r = Ok(batches);
    proof {
        assert(metadata_batch_by_order(*format, *source, *layout, rows, order, start, count, r));
        assert(metadata_rows(*layout)->Ok_0 == rows);
    }
    r
}

proof fn lemma_var_num_found(columns: Seq<MetadataColumn>, var_num: u32, from: int, at: int)
    requires
        0 <= from <= at < columns.len(),
        columns[at].slot.var_num == var_num,
    ensures
        first_with_var_num(columns, var_num, from) <= at,
    decreases at - from,
{
    if columns[from].slot.var_num != var_num {
        lemma_var_num_found(columns, var_num, from + 1, at);
    }
}

/// What decoding rows `start .. start + count` of a resource layout gives.
pub open spec fn resource_batch_outcome<F: Fn(u64, usize) -> String>(
    format: F,
    source: ReadOnlySource,
    layout: ResourceLayout,
    start: usize,
    count: usize,
    r: Result<Vec<ColumnBatch>, DecodeError>,
) -> bool {
    let n = layout.columns@.len();
    if layout.row_count > usize::MAX {
        r == Err::<Vec<ColumnBatch>, DecodeError>(
            DecodeError::Overflow { context: "resource row count" },
        )
    } else {
        let rows = layout.row_count as usize;
        match first_row_error(
            |k: int| resource_column_error(source, layout.columns@[k], rows, start, count),
            0,
            n,
        ) {
            Some(e) => r == Err::<Vec<ColumnBatch>, DecodeError>(e),
            None => r matches Ok(batches) && batches@.len() == n && forall|k: int|
                0 <= k < n ==> resource_batch(
                    format,
                    source,
                    layout.columns@[k],
                    rows,
                    start,
                    count,
                    #[trigger] batches@[k],
                ),
        }
    }
}

/// Decode rows `start .. start + count` of a resource layout.
pub fn decode_resource_batch<F: Fn(u64, usize) -> String>(
    source: &ReadOnlySource,
    layout: &ResourceLayout,
    start: usize,
    count: usize,
    format: &F,
) -> (r: Result<Vec<ColumnBatch>, DecodeError>)
    requires
        forall|b: u64, p: usize| format.requires((b, p)),
        start + count <= layout.row_count,
    ensures
        resource_batch_outcome(*format, *source, *layout, start, count, r),
{
    if layout.row_count > usize::MAX as u64 {
        return Err(DecodeError::Overflow { context: "resource row count" });
    }
    let rows = layout.row_count as usize;
    let ghost n = layout.columns@.len();
    let ghost column_error = |k: int|
        resource_column_error(*source, layout.columns@[k], rows, start, count);
    let mut batches: Vec<ColumnBatch> = Vec::new();
    let mut k: usize = 0;
    while k < layout.columns.len()
        invariant
            k <= n,
            n == layout.columns@.len(),
            rows == layout.row_count,
            start + count <= rows,
            forall|b: u64, p: usize| format.requires((b, p)),
            column_error == |k: int|
                resource_column_error(*source, layout.columns@[k], rows, start, count),
            first_row_error(column_error, 0, k as nat) is None,
            batches@.len() == k,
            forall|q: int|
                0 <= q < k ==> resource_batch(
                    *format,
                    *source,
                    layout.columns@[q],
                    rows,
                    start,
                    count,
                    #[trigger] batches@[q],
                ),
        decreases n - k,
    {
        proof {
            lemma_first_row_error(column_error, 0, k as nat, n);
        }
        let batch = decode_resource_column(source, &layout.columns[k], rows, start, count, format)?;
        batches.push(batch);
        k += 1;
    }
    Ok(batches)
}

/// Batches of at most `batch_size` (at least one) rows over `rows` rows, in
/// order.
pub struct BatchCursor {
    rows: usize,
    batch_size: usize,
    next_start: usize,
}

impl BatchCursor {
    /// The number of rows.
    pub closed spec fn total(&self) -> nat {
        self.rows as nat
    }

    /// The rows per batch.
    pub closed spec fn size(&self) -> nat {
        self.batch_size as nat
    }

    /// The first row not yet handed out.
    pub closed spec fn position(&self) -> nat {
        self.next_start as nat
    }

    /// The cursor's fields agree.
    pub closed spec fn wf(&self) -> bool {
        self.batch_size >= 1 && self.next_start <= self.rows
    }

    /// A cursor at the first row; a batch size of zero means one.
    pub fn new(rows: usize, batch_size: usize) -> (c: Self)
        ensures
            c.wf(),
            c.total() == rows,
            c.size() == if batch_size == 0 {
                1
            } else {
                batch_size as nat
            },
            c.position() == 0,
    {
        BatchCursor { rows, batch_size: if batch_size == 0 { 1 } else { batch_size }, next_start: 0 }
    }

    /// Whether rows remain.
    pub fn has_next(&self) -> (r: bool)
        requires
            self.wf(),
        ensures
            r == (self.position() < self.total()),
    {
        self.next_start < self.rows
    }

    /// The next batch: its first row and its row count.
    pub fn next_batch(&mut self) -> (r: (usize, usize))
        requires
            old(self).wf(),
            old(self).position() < old(self).total(),
        ensures
            final(self).wf(),
            r.0 == old(self).position(),
            r.1 == if old(self).total() - old(self).position() < old(self).size() {
                (old(self).total() - old(self).position()) as nat
            } else {
                old(self).size()
            },
            r.1 >= 1,
            final(self).position() == r.0 + r.1,
            final(self).total() == old(self).total(),
            final(self).size() == old(self).size(),
    {
        let start = self.next_start;
        let left = self.rows - start;
        let count = if left < self.batch_size {
            left
        } else {
            self.batch_size
        };
        self.next_start = start + count;
        (start, count)
    }
}


/// Looking for the first failing row of a range is looking in a first part
/// of it, then in the rest: however the rows are cut into batches, decoding
/// reports the same first error.
pub proof fn first_row_error_split(
    row_error: spec_fn(int) -> Option<DecodeError>,
    start: int,
    k: nat,
    m: nat,
)
    ensures
        first_row_error(row_error, start, k + m) == match first_row_error(row_error, start, k) {
            Some(e) => Some(e),
            None => first_row_error(row_error, start + k, m),
        },
    decreases m,
{
    if m > 0 {
        first_row_error_split(row_error, start, k, (m - 1) as nat);
    }
}

/// The error of decoding a range of rows of a resource column is that of
/// its first part, else that of the rest.
pub proof fn resource_column_error_split(
    source: ReadOnlySource,
    column: ResourceColumn,
    rows: usize,
    start: usize,
    k: usize,
    m: usize,
)
    requires
        start + k + m <= usize::MAX,
    ensures
        resource_column_error(source, column, rows, start, (k + m) as usize) == match resource_column_error(
            source,
            column,
            rows,
            start,
            k,
        ) {
            Some(e) => Some(e),
            None => resource_column_error(source, column, rows, (start + k) as usize, m),
        },
{
    let res = column.resource;
    let bytes = source.data().subrange(
        res.payload_offset as int,
        res.payload_offset + res.effective_payload_length,
    );
    let name = column.variable.name;
    if is_compact_numeric(column, rows as nat) {
        first_row_error_split(
            |row: int| compact_row_error(bytes, res.value_format_code, name, row),
            start as int,
            k as nat,
            m as nat,
        );
    } else if text_width_error(res.width_value, res.effective_payload_length, rows, name) is None {
        let width = text_width_spec(
            res.width_value as nat,
            res.effective_payload_length as nat,
            rows as nat,
        ).unwrap();
        let raw = column.variable.declared_type is Numeric && raw_byte_numeric_spec(
            bytes,
            rows as nat,
            width,
        );
        first_row_error_split(
            |row: int| resource_text_row_error(bytes, rows, width, raw, name, row),
            start as int,
            k as nat,
            m as nat,
        );
    }
}

/// Rows of a resource column decode one by one: two batches of adjacent
/// rows, joined, are the batch of all of those rows, and a batch cut in two
/// gives the batches of its parts.
pub proof fn resource_batch_join<F: Fn(u64, usize) -> String>(
    format: F,
    source: ReadOnlySource,
    column: ResourceColumn,
    rows: usize,
    start: usize,
    k: usize,
    m: usize,
    first: ColumnBatch,
    second: ColumnBatch,
    whole: ColumnBatch,
)
    requires
        start + k + m <= usize::MAX,
        whole.variable_name == first.variable_name,
        whole.variable_name == second.variable_name,
        whole.values@ == first.values@ + second.values@,
        first.values@.len() == k,
    ensures
        resource_batch(format, source, column, rows, start, k, first) && resource_batch(
            format,
            source,
            column,
            rows,
            (start + k) as usize,
            m,
            second,
        ) <==> resource_batch(format, source, column, rows, start, (k + m) as usize, whole),
{
    let v1 = first.values@;
    let v2 = second.values@;
    let v = whole.values@;
    assert forall|i: int| 0 <= i < k implies #[trigger] v[i] == v1[i] by {}
    assert forall|i: int| 0 <= i < v2.len() implies #[trigger] v[k + i] == v2[i] by {}
    let res = column.resource;
    let bytes = source.data().subrange(
        res.payload_offset as int,
        res.payload_offset + res.effective_payload_length,
    );
    if resource_batch(format, source, column, rows, start, k, first) && resource_batch(
        format,
        source,
        column,
        rows,
        (start + k) as usize,
        m,
        second,
    ) {
        if is_compact_numeric(column, rows as nat) {
            assert forall|i: int| 0 <= i < k + m implies compact_cell(
                format,
                bytes,
                res.value_format_code,
                column.variable.decimals,
                res.value_offset_i64,
                res.mode_code == 5,
                start + i,
                #[trigger] v[i],
            ) by {
                if i >= k {
                    assert(v[i] == v2[i - k]);
                }
            }
        } else {
            let width = text_width_spec(
                res.width_value as nat,
                res.effective_payload_length as nat,
                rows as nat,
            ).unwrap();
            let raw = column.variable.declared_type is Numeric && raw_byte_numeric_spec(
                bytes,
                rows as nat,
                width,
            );
            assert forall|i: int| 0 <= i < k + m implies resource_text_cell(
                bytes,
                width,
                raw,
                res.mode_code == 1,
                start + i,
                #[trigger] v[i],
            ) by {
                if i >= k {
                    assert(v[i] == v2[i - k]);
                }
            }
        }
    }
    if resource_batch(format, source, column, rows, start, (k + m) as usize, whole) {
        assert(v2.len() == m);
        if is_compact_numeric(column, rows as nat) {
            assert forall|i: int| 0 <= i < k implies compact_cell(
                format,
                bytes,
                res.value_format_code,
                column.variable.decimals,
                res.value_offset_i64,
                res.mode_code == 5,
                start + i,
                #[trigger] v1[i],
            ) by {
                assert(v[i] == v1[i]);
            }
            assert forall|i: int| 0 <= i < m implies compact_cell(
                format,
                bytes,
                res.value_format_code,
                column.variable.decimals,
                res.value_offset_i64,
                res.mode_code == 5,
                start + k + i,
                #[trigger] v2[i],
            ) by {
                assert(v[k + i] == v2[i]);
            }
        } else {
            let width = text_width_spec(
                res.width_value as nat,
                res.effective_payload_length as nat,
                rows as nat,
            ).unwrap();
            let raw = column.variable.declared_type is Numeric && raw_byte_numeric_spec(
                bytes,
                rows as nat,
                width,
            );
            assert forall|i: int| 0 <= i < k implies resource_text_cell(
                bytes,
                width,
                raw,
                res.mode_code == 1,
                start + i,
                #[trigger] v1[i],
            ) by {
                assert(v[i] == v1[i]);
            }
            assert forall|i: int| 0 <= i < m implies resource_text_cell(
                bytes,
                width,
                raw,
                res.mode_code == 1,
                start + k + i,
                #[trigger] v2[i],
            ) by {
                assert(v[k + i] == v2[i]);
            }
        }
    }
}

/// Rows of a metadata-scan column decode one by one: two batches of
/// adjacent rows, joined, are the batch of all of those rows, and a batch
/// cut in two gives the batches of its parts.
pub proof fn metadata_batch_join<F: Fn(u64, usize) -> String>(
    format: F,
    source: ReadOnlySource,
    column: MetadataColumn,
    payload_offset: usize,
    start: usize,
    k: usize,
    m: usize,
    first: ColumnBatch,
    second: ColumnBatch,
    whole: ColumnBatch,
)
    requires
        start + k + m <= usize::MAX,
        whole.variable_name == first.variable_name,
        whole.variable_name == second.variable_name,
        whole.values@ == first.values@ + second.values@,
        first.values@.len() == k,
    ensures
        metadata_batch(format, source, column, payload_offset, start, k, first) && metadata_batch(
            format,
            source,
            column,
            payload_offset,
            (start + k) as usize,
            m,
            second,
        ) <==> metadata_batch(format, source, column, payload_offset, start, (k + m) as usize, whole),
{
    let v1 = first.values@;
    let v2 = second.values@;
    let v = whole.values@;
    assert forall|i: int| 0 <= i < k implies #[trigger] v[i] == v1[i] by {}
    if metadata_batch(format, source, column, payload_offset, start, k, first) && metadata_batch(
        format,
        source,
        column,
        payload_offset,
        (start + k) as usize,
        m,
        second,
    ) {
        assert forall|i: int| 0 <= i < k + m implies metadata_cell(
            format,
            source,
            column,
            payload_offset,
            start + i,
            #[trigger] v[i],
        ) by {
            if i >= k {
                assert(v[i] == v2[i - k]);
            }
        }
    }
    if metadata_batch(format, source, column, payload_offset, start, (k + m) as usize, whole) {
        assert(v2.len() == m);
        assert forall|i: int| 0 <= i < k implies metadata_cell(
            format,
            source,
            column,
            payload_offset,
            start + i,
            #[trigger] v1[i],
        ) by {
            assert(v[i] == v1[i]);
        }
        assert forall|i: int| 0 <= i < m implies metadata_cell(
            format,
            source,
            column,
            payload_offset,
            start + k + i,
            #[trigger] v2[i],
        ) by {
            assert(v[k + i] == v2[i]);
        }
    }
}

/// A compact integer column reads each value as the little-endian number its
/// bytes hold plus the additive offset, whenever the offset applies and
/// whatever the width (one to five bytes): a value that is not missing is
/// exactly that sum, and a value is missing only when its bytes are all
/// `0xFF` or the sum leaves `i64`.
pub proof fn compact_integers_add_the_offset<F: Fn(u64, usize) -> String>(
    format_fn: F,
    bytes: Seq<u8>,
    format: u8,
    decimals: u16,
    additive_offset: i64,
    apply_offset: bool,
    row: int,
    cell: CellValue,
)
    requires
        3 <= format <= 7,
        0 <= row,
        row * (format - 2) + (format - 2) <= bytes.len(),
        compact_cell(format_fn, bytes, format, decimals, additive_offset, apply_offset, row, cell),
    ensures
        ({
            let w = format - 2;
            let part = bytes.subrange(row * w, row * w + w);
            let sum = le_value(part) + if apply_offset {
                additive_offset as int
            } else {
                0
            };
            &&& !(cell is Missing) ==> (cell matches CellValue::Text(t) && t@ == int_text(sum))
            &&& (exists|i: int| 0 <= i < part.len() && part[i] != 0xFF) && i64::MIN <= sum
                <= i64::MAX ==> !(cell is Missing)
        }),
{
    let w = (format - 2) as int;
    let part = bytes.subrange(row * w, row * w + w);
    lemma_le_value_bound(part);
    lemma_pow256_values();
    assert(pow256(part.len()) <= 0x100_0000_0000);
    let raw = le_value(part);
    assert(raw as i64 == raw);
    if raw == pow256(w as nat) - 1 {
        lemma_le_value_all_ones(part);
    }
}

/// A nibble column reads each value as its half-byte (high half first) plus
/// the additive offset when it applies; fifteen is missing.
pub proof fn compact_nibbles_add_the_offset<F: Fn(u64, usize) -> String>(
    format_fn: F,
    bytes: Seq<u8>,
    decimals: u16,
    additive_offset: i64,
    apply_offset: bool,
    row: int,
    cell: CellValue,
)
    requires
        0 <= row,
        row / 2 < bytes.len(),
        compact_cell(format_fn, bytes, 2, decimals, additive_offset, apply_offset, row, cell),
    ensures
        ({
            let nibble: int = if row % 2 == 0 {
                bytes[row / 2] as int / 16
            } else {
                bytes[row / 2] as int % 16
            };
            let sum = nibble + if apply_offset {
                additive_offset as int
            } else {
                0
            };
            &&& nibble == 15 ==> cell is Missing
            &&& nibble != 15 && i64::MIN <= sum <= i64::MAX ==> (cell matches CellValue::Text(t)
                && t@ == int_text(sum))
        }),
{
}

/// The declared minimum of an offset-integer column: the DDI range minimum
/// as a double truncated to `i64` (saturating), or zero when none is given.
pub open spec fn declared_minimum(range: Option<NumericRange>) -> int {
    match range {
        Some(NumericRange { minimum: Some(bits), .. }) => saturating_trunc(bits, i64::MIN as int, i64::MAX as int),
        _ => 0,
    }
}

/// An offset-integer metadata value reads as the little-endian number its
/// bytes hold plus the variable's declared minimum, so a stored zero is the
/// minimum itself: a value that is not missing is exactly that sum, and a
/// value is missing only when its bytes are all `0xFF` or the sum leaves
/// `i64`.
pub proof fn offset_integers_start_at_the_minimum<F: Fn(u64, usize) -> String>(
    format: F,
    source: ReadOnlySource,
    column: MetadataColumn,
    payload_offset: usize,
    row: int,
    cell: CellValue,
)
    requires
        column.slot.encoding == MetadataEncoding::OffsetInteger,
        column.binary_width <= 8,
        0 <= row,
        payload_offset + row * column.binary_width + column.binary_width <= source.data().len(),
        metadata_cell(format, source, column, payload_offset, row, cell),
    ensures
        ({
            let offset = payload_offset + row * column.binary_width;
            let part = source.data().subrange(offset, offset + column.binary_width);
            let sum = le_value(part) + declared_minimum(column.variable.range);
            &&& !(cell is Missing) ==> (cell matches CellValue::Text(t) && t@ == int_text(sum))
            &&& (exists|i: int| 0 <= i < part.len() && part[i] != 0xFF) && le_value(part)
                <= i64::MAX && i64::MIN <= sum <= i64::MAX ==> !(cell is Missing)
        }),
{
    let offset = payload_offset + row * column.binary_width;
    let part = source.data().subrange(offset, offset + column.binary_width);
    lemma_le_value_bound(part);
    lemma_pow256_values();
    assert(range_minimum_spec(column.variable.range) == declared_minimum(column.variable.range));
    let m = range_minimum_spec(column.variable.range);
    assert(i64::MIN <= m <= i64::MAX);
    assert(m as i64 == m);
}

} // verus!
