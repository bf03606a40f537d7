//! Fixed-width text rendering of decoded batches.

use vstd::prelude::*;
use crate::decode::RecordBatch;
use crate::error::NesstarError;
use crate::formats::json::{batch_complete, cell_text};
use crate::model::CellValue;
use crate::text::{chars_of, char_is_whitespace, is_whitespace, push_chars, string_from_chars, trim_end};

verus! {

/// The width of a column: its DDI width, at least ten and at least one more
/// than its header, plus one separating space.
pub open spec fn fwf_width(name: Seq<char>, ddi_width: u32) -> nat {
    let w: nat = if ddi_width < 10 {
        10
    } else {
        ddi_width as nat
    };
    let w = if w < name.len() + 1 {
        name.len() + 1
    } else {
        w
    };
    w + 1
}

/// `s` padded with spaces on the right to `width` characters.
pub open spec fn pad_right(s: Seq<char>, width: nat) -> Seq<char> {
    if s.len() >= width {
        s
    } else {
        s + Seq::new((width - s.len()) as nat, |i: int| ' ')
    }
}

/// The first `n` values, each padded to its width, side by side.
pub open spec fn padded_cells(values: Seq<Seq<char>>, widths: Seq<usize>, n: nat) -> Seq<char>
    decreases n,
{
    if n == 0 {
        Seq::empty()
    } else {
        padded_cells(values, widths, (n - 1) as nat) + pad_right(values[n - 1], widths[n - 1] as nat)
    }
}

/// One line: the padded values with trailing white space removed, then a
/// line feed. Values beyond the widths are left out.
pub open spec fn fwf_line(values: Seq<Seq<char>>, widths: Seq<usize>) -> Seq<char> {
    let n = if values.len() < widths.len() {
        values.len()
    } else {
        widths.len()
    };
    trim_end(padded_cells(values, widths, n)) + seq!['\n']
}

/// The texts of row `row` of `batch`.
pub open spec fn row_texts(batch: RecordBatch, row: int) -> Seq<Seq<char>> {
    Seq::new(batch.columns@.len(), |k: int| cell_text(batch.columns@[k].values@[row]))
}

/// The lines of the first `n` rows of `batch`.
pub open spec fn fwf_rows(batch: RecordBatch, widths: Seq<usize>, n: nat) -> Seq<char>
    decreases n,
{
    if n == 0 {
        Seq::empty()
    } else {
        fwf_rows(batch, widths, (n - 1) as nat) + fwf_line(row_texts(batch, n - 1), widths)
    }
}

/// Append `s` padded to `width` characters.
fn push_padded(out: &mut Vec<char>, s: &[char], width: usize)
    ensures
        final(out)@ == old(out)@ + pad_right(s@, width as nat),
{
    let ghost start = out@;
    push_chars(out, s);
    let mut n = s.len();
    while n < width
        invariant
            s@.len() <= n <= width || (n == s@.len() && n >= width),
            out@ == start + s@ + Seq::new((n - s@.len()) as nat, |i: int| ' '),
        decreases width - n,
    {
        out.push(' ');
        n += 1;
        proof {
            assert(out@ =~= start + s@ + Seq::new((n - s@.len()) as nat, |i: int| ' '));
        }
    }
    proof {
        if s@.len() >= width {
            assert(out@ =~= start + s@);
        }
    }
}

/// The line of `values` under `widths`.
fn line_text(values: &Vec<Vec<char>>, widths: &Vec<usize>) -> (r: Vec<char>)
    ensures
        r@ == fwf_line(values@.map_values(|v: Vec<char>| v@), widths@),
{
    let ghost vs = values@.map_values(|v: Vec<char>| v@);
    let n = if values.len() < widths.len() {
        values.len()
    } else {
        widths.len()
    };
    let mut out: Vec<char> = Vec::new();
    let mut k: usize = 0;
    while k < n
        invariant
            k <= n <= values@.len(),
            n <= widths@.len(),
            vs == values@.map_values(|v: Vec<char>| v@),
            out@ == padded_cells(vs, widths@, k as nat),
        decreases n - k,
    {
        push_padded(&mut out, values[k].as_slice(), widths[k]);
        k += 1;
    }
    let trimmed = trim_end_chars(out.as_slice());
    let mut line = trimmed;
    line.push('\n');
    proof {
        assert(line@ =~= trim_end(padded_cells(vs, widths@, n as nat)) + seq!['\n']);
    }
    line
}

/// `s` without trailing white space.
fn trim_end_chars(s: &[char]) -> (r: Vec<char>)
    ensures
        r@ == trim_end(s@),
{
    let mut end = s.len();
    proof {
        assert(s@.take(end as int) =~= s@);
    }
    while end > 0 && char_is_whitespace(s[end - 1])
        invariant
            end <= s@.len(),
            trim_end(s@) == trim_end(s@.take(end as int)),
        decreases end,
    {
        proof {
            assert(s@.take(end as int).drop_last() =~= s@.take(end - 1));
        }
        end -= 1;
    }
    let mut r: Vec<char> = Vec::new();
    let mut i: usize = 0;
    while i < end
        invariant
            i <= end <= s@.len(),
            r@ == s@.take(i as int),
        decreases end - i,
    {
        r.push(s[i]);
        i += 1;
        proof {
            assert(r@ =~= s@.take(i as int));
        }
    }
    r
}

/// The column widths of a fixed-width rendering.
pub struct FixedWidthOutput {
    pub widths: Vec<usize>,
}

impl FixedWidthOutput {
    /// Start a fixed-width rendering; the text returned is the header line.
    pub fn create(headers: &Vec<String>, ddi_widths: &Vec<u32>) -> (r: Result<
        (Self, String),
        NesstarError,
    >)
        requires
            forall|k: int| 0 <= k < headers@.len() ==> (#[trigger] headers@[k])@.len() + 2 <= usize::MAX,
            forall|k: int| 0 <= k < ddi_widths@.len() ==> (#[trigger] ddi_widths@[k]) + 1 <= usize::MAX,
        ensures
            headers@.len() != ddi_widths@.len() ==> (r matches Err(NesstarError::Unsupported(m))
                && m@ == "FWF header and width count differ"@),
            headers@.len() == ddi_widths@.len() ==> (r matches Ok((out, line))
                && out.widths@.len() == headers@.len() && (forall|k: int|
                0 <= k < headers@.len() ==> out.widths@[k] as nat == fwf_width(
                    #[trigger] headers@[k]@,
                    ddi_widths@[k],
                )) && line@ == fwf_line(
                headers@.map_values(|h: String| h@),
                out.widths@,
            )),
    {
        if headers.len() != ddi_widths.len() {
            return Err(NesstarError::Unsupported("FWF header and width count differ".to_owned()));
        }
        let mut widths: Vec<usize> = Vec::new();
        let mut names: Vec<Vec<char>> = Vec::new();
        let mut k: usize = 0;
        while k < headers.len()
            invariant
                k <= headers@.len(),
                headers@.len() == ddi_widths@.len(),
                forall|q: int| 0 <= q < headers@.len() ==> (#[trigger] headers@[q])@.len() + 2 <= usize::MAX,
                forall|q: int| 0 <= q < ddi_widths@.len() ==> (#[trigger] ddi_widths@[q]) + 1 <= usize::MAX,
                widths@.len() == k,
                names@.len() == k,
                forall|q: int| 0 <= q < k ==> (#[trigger] names@[q])@ == headers@[q]@,
                forall|q: int|
                    0 <= q < k ==> (#[trigger] widths@[q]) as nat == fwf_width(
                        headers@[q]@,
                        ddi_widths@[q],
                    ),
            decreases headers@.len() - k,
        {
            let name = chars_of(headers[k].as_str());
            let d = ddi_widths[k] as usize;
            let w = if d < 10 {
                10
            } else {
                d
            };
            let w = if w < name.len() + 1 {
                name.len() + 1
            } else {
                w
            };
            widths.push(w + 1);
            names.push(name);
            k += 1;
        }
        proof {
            assert(names@.map_values(|v: Vec<char>| v@) =~= headers@.map_values(|h: String| h@));
        }
        let line = line_text(&names, &widths);
        Ok((FixedWidthOutput { widths }, string_from_chars(line.as_slice())))
    }

    /// The lines of the rows of `batch`.
    pub fn write_batch(&self, batch: &RecordBatch) -> (r: String)
        requires
            batch_complete(*batch),
        ensures
            r@ == fwf_rows(*batch, self.widths@, batch.row_count as nat),
    {
        let mut out: Vec<char> = Vec::new();
        let mut row: usize = 0;
        while row < batch.row_count
            invariant
                row <= batch.row_count,
                batch_complete(*batch),
                out@ == fwf_rows(*batch, self.widths@, row as nat),
            decreases batch.row_count - row,
        {
            let mut values: Vec<Vec<char>> = Vec::new();
            let mut k: usize = 0;
            while k < batch.columns.len()
                invariant
                    k <= batch.columns@.len(),
                    row < batch.row_count,
                    batch_complete(*batch),
                    values@.len() == k,
                    forall|q: int| 0 <= q < k ==> (#[trigger] values@[q])@ == row_texts(*batch, row as int)[q],
                decreases batch.columns@.len() - k,
            {
                let column = &batch.columns[k];
                assert(column.values@.len() >= batch.row_count);
                let text: Vec<char> = match &column.values[row] {
                    CellValue::Missing => Vec::new(),
                    CellValue::Text(v) => chars_of(v.as_str()),
                };
                values.push(text);
                k += 1;
            }
            proof {
                assert(values@.map_values(|v: Vec<char>| v@) =~= row_texts(*batch, row as int));
            }
            let line = line_text(&values, &self.widths);
            push_chars(&mut out, line.as_slice());
            row += 1;
        }
        string_from_chars(out.as_slice())
    }
}

} // verus!
