//! JSON array and JSON Lines rendering of decoded batches.

use vstd::prelude::*;
use crate::decode::RecordBatch;
use crate::error::NesstarError;
use crate::model::CellValue;
use crate::text::{chars_of, push_chars, string_from_chars};

verus! {

/// Whether rows are written as one JSON array or one object per line.
#[derive(Clone, Copy, Debug, PartialEq, Eq, Structural)]
pub enum JsonMode {
    Array,
    Lines,
}

/// The text of a cell: empty when missing.
pub open spec fn cell_text(cell: CellValue) -> Seq<char> {
    match cell {
        CellValue::Missing => Seq::empty(),
        CellValue::Text(s) => s@,
    }
}

/// The lower-case hexadecimal digit of `d < 16`.
pub open spec fn hex_digit(d: nat) -> char {
    if d < 10 {
        ('0' as nat + d) as char
    } else {
        ('a' as nat + d - 10) as char
    }
}

/// The lower-case hexadecimal digit of `d`.
fn hex_char(d: u32) -> (c: char)
    requires
        d < 16,
    ensures
        c == hex_digit(d as nat),
{
    if d < 10 {
        ((48 + d) as u8) as char
    } else {
        ((97 + d - 10) as u8) as char
    }
}

/// How one character is written inside a JSON string.
pub open spec fn json_char(c: char) -> Seq<char> {
    if c == '"' {
        seq!['\\', '"']
    } else if c == '\\' {
        seq!['\\', '\\']
    } else if c == '\n' {
        seq!['\\', 'n']
    } else if c == '\r' {
        seq!['\\', 'r']
    } else if c == '\t' {
        seq!['\\', 't']
    } else if (c as u32) <= 0x1f {
        seq!['\\', 'u', '0', '0', hex_digit((c as u32 / 16) as nat), hex_digit((c as u32 % 16) as nat)]
    } else {
        seq![c]
    }
}

/// The escaped characters of `s`.
pub open spec fn json_escaped(s: Seq<char>) -> Seq<char>
    decreases s.len(),
{
    if s.len() == 0 {
        Seq::empty()
    } else {
        json_escaped(s.drop_last()) + json_char(s.last())
    }
}

/// `s` as a JSON string literal.
pub open spec fn json_string(s: Seq<char>) -> Seq<char> {
    seq!['"'] + json_escaped(s) + seq!['"']
}

/// Append `s` as a JSON string literal to `out`.
pub fn push_json_string(out: &mut Vec<char>, s: &str)
    ensures
        final(out)@ == old(out)@ + json_string(s@),
{
    let chars = chars_of(s);
    let ghost start = out@;
    out.push('"');
    let mut i: usize = 0;
    while i < chars.len()
        invariant
            i <= chars@.len(),
            chars@ == s@,
            out@ == start + seq!['"'] + json_escaped(chars@.take(i as int)),
        decreases chars@.len() - i,
    {
        proof {
            assert(chars@.take(i + 1).drop_last() =~= chars@.take(i as int));
        }
        let c = chars[i];
        let ghost before = out@;
        if c == '"' {
            out.push('\\');
            out.push('"');
        } else if c == '\\' {
            out.push('\\');
            out.push('\\');
        } else if c == '\n' {
            out.push('\\');
            out.push('n');
        } else if c == '\r' {
            out.push('\\');
            out.push('r');
        } else if c == '\t' {
            out.push('\\');
            out.push('t');
        } else if (c as u32) <= 0x1f {
            let v = c as u32;
            let hi = v / 16;
            let lo = v % 16;
            out.push('\\');
            out.push('u');
            out.push('0');
            out.push('0');
            out.push(hex_char(hi));
            out.push(hex_char(lo));
        } else {
            out.push(c);
        }
        proof {
            assert(out@ =~= before + json_char(c));
            assert(start + seq!['"'] + json_escaped(chars@.take(i + 1)) =~= before + json_char(c));
        }
        i += 1;
    }
    proof {
        assert(chars@.take(i as int) =~= s@);
    }
    out.push('"');
    proof {
        assert(out@ =~= start + json_string(s@));
    }
}

/// The members `k .. n` of the JSON object of `row`.
pub open spec fn json_members(headers: Seq<String>, batch: RecordBatch, row: int, n: nat) -> Seq<char>
    decreases n,
{
    if n == 0 {
        Seq::empty()
    } else {
        json_members(headers, batch, row, (n - 1) as nat) + (if n > 1 {
            seq![',']
        } else {
            Seq::empty()
        }) + json_string(headers[n - 1]@) + seq![':'] + json_string(
            cell_text(batch.columns@[n - 1].values@[row]),
        )
    }
}

/// The JSON object of `row`: one member per column, named by its header.
pub open spec fn json_object(headers: Seq<String>, batch: RecordBatch, row: int) -> Seq<char> {
    seq!['{'] + json_members(headers, batch, row, batch.columns@.len()) + seq!['}']
}

/// The text of the first `n` rows of `batch`: objects separated by commas in
/// an array (none before the very first row), or one per line.
pub open spec fn json_rows(
    headers: Seq<String>,
    batch: RecordBatch,
    mode: JsonMode,
    first: bool,
    n: nat,
) -> Seq<char>
    decreases n,
{
    if n == 0 {
        Seq::empty()
    } else {
        let comma = mode == JsonMode::Array && !(first && n == 1);
        json_rows(headers, batch, mode, first, (n - 1) as nat) + (if comma {
            seq![',']
        } else {
            Seq::empty()
        }) + json_object(headers, batch, n - 1) + (if mode == JsonMode::Lines {
            seq!['\n']
        } else {
            Seq::empty()
        })
    }
}

/// Every column of `batch` holds at least `row_count` values.
pub open spec fn batch_complete(batch: RecordBatch) -> bool {
    forall|k: int|
        0 <= k < batch.columns@.len() ==> (#[trigger] batch.columns@[k]).values@.len()
            >= batch.row_count
}

/// The JSON object of `row`.
fn json_object_text(headers: &Vec<String>, batch: &RecordBatch, row: usize) -> (r: Vec<char>)
    requires
        row < batch.row_count,
        batch_complete(*batch),
        batch.columns@.len() == headers@.len(),
    ensures
        r@ == json_object(headers@, *batch, row as int),
{
    let mut out: Vec<char> = Vec::new();
    let ghost mid = out@;
    out.push('{');
    let mut k: usize = 0;
    while k < batch.columns.len()
        invariant
            k <= batch.columns@.len(),
            row < batch.row_count,
            batch_complete(*batch),
            batch.columns@.len() == headers@.len(),
            out@ == mid + seq!['{'] + json_members(headers@, *batch, row as int, k as nat),
        decreases batch.columns@.len() - k,
    {
        let ghost before_member = out@;
        if k != 0 {
            out.push(',');
        }
        let mut name_text: Vec<char> = Vec::new();
        push_json_string(&mut name_text, headers[k].as_str());
        push_chars(&mut out, name_text.as_slice());
        out.push(':');
        let column = &batch.columns[k];
        assert(column.values@.len() >= batch.row_count);
        let value: &str = match &column.values[row] {
            CellValue::Missing => "",
            CellValue::Text(v) => v.as_str(),
        };
        proof {
            reveal_strlit("");
        }
        assert(value@ == cell_text(batch.columns@[k as int].values@[row as int]));
        let mut value_text: Vec<char> = Vec::new();
        push_json_string(&mut value_text, value);
        push_chars(&mut out, value_text.as_slice());
        proof {
            let sep: Seq<char> = if k + 1 > 1 {
                seq![',']
            } else {
                Seq::empty()
            };
            assert(out@ =~= before_member + sep + json_string(headers@[k as int]@)
                + seq![':'] + json_string(cell_text(batch.columns@[k as int].values@[row as int])));
        }
        k += 1;
        proof {
            assert(out@ =~= mid + seq!['{'] + json_members(headers@, *batch, row as int, k as nat));
        }
    }
    out.push('}');
    proof {
    assert(out@ =~= json_object(headers@, *batch, row as int));
    }
    out
}

/// The state of a JSON rendering: the headers, the mode, and whether no row
/// has been written yet.
pub struct JsonOutput {
    pub headers: Vec<String>,
    pub mode: JsonMode,
    pub first: bool,
}

impl JsonOutput {
    /// Start a JSON rendering; the text returned opens the document.
    pub fn create(headers: &Vec<String>, mode: JsonMode) -> (r: (Self, String))
        ensures
            r.0.headers@ == headers@,
            r.0.mode == mode,
            r.0.first,
            r.1@ == if mode == JsonMode::Array {
                "["@
            } else {
                ""@
            },
    {
        let mut copy: Vec<String> = Vec::new();
        let mut i: usize = 0;
        while i < headers.len()
            invariant
                i <= headers@.len(),
                copy@ == headers@.take(i as int),
            decreases headers@.len() - i,
        {
            copy.push(headers[i].clone());
            i += 1;
            proof {
                assert(copy@ =~= headers@.take(i as int));
            }
        }
        proof {
            assert(headers@.take(i as int) =~= headers@);
        }
        let opening = if mode == JsonMode::Array {
            "[".to_owned()
        } else {
            "".to_owned()
        };
        (JsonOutput { headers: copy, mode, first: true }, opening)
    }

    /// The text of the rows of `batch`; refused when its columns do not match
    /// the headers.
    pub fn write_batch(&mut self, batch: &RecordBatch) -> (r: Result<String, NesstarError>)
        requires
            batch_complete(*batch),
        ensures
            final(self).headers == old(self).headers,
            final(self).mode == old(self).mode,
            batch.columns@.len() != old(self).headers@.len() ==> (r matches Err(
                NesstarError::Unsupported(m),
            ) && m@ == "JSON batch schema differs from header"@ && final(self).first == old(
                self,
            ).first),
            batch.columns@.len() == old(self).headers@.len() ==> (r matches Ok(text) && text@
                == json_rows(
                old(self).headers@,
                *batch,
                old(self).mode,
                old(self).first,
                batch.row_count as nat,
            ) && final(self).first == (old(self).first && batch.row_count == 0)),
    {
        if batch.columns.len() != self.headers.len() {
            return Err(NesstarError::Unsupported("JSON batch schema differs from header".to_owned()));
        }
        let ghost first0 = self.first;
        let mut out: Vec<char> = Vec::new();
        let mut row: usize = 0;
        while row < batch.row_count
            invariant
                row <= batch.row_count,
                self.headers == old(self).headers,
                self.mode == old(self).mode,
                batch_complete(*batch),
                batch.columns@.len() == self.headers@.len(),
                self.first == (first0 && row == 0),
                out@ == json_rows(self.headers@, *batch, self.mode, first0, row as nat),
            decreases batch.row_count - row,
        {
            let ghost before = out@;
            if self.mode == JsonMode::Array && !self.first {
                out.push(',');
            }
            self.first = false;
            let object = json_object_text(&self.headers, batch, row);
            push_chars(&mut out, object.as_slice());
            if self.mode == JsonMode::Lines {
                out.push('\n');
            }
            row += 1;
            proof {
                assert(out@ =~= json_rows(self.headers@, *batch, self.mode, first0, row as nat));
            }
        }
        Ok(string_from_chars(out.as_slice()))
    }

    /// The text that closes the document.
    pub fn finish(&self) -> (r: String)
        ensures
            r@ == if self.mode == JsonMode::Array {
                "]\n"@
            } else {
                ""@
            },
    {
        if self.mode == JsonMode::Array {
            "]\n".to_owned()
        } else {
            "".to_owned()
        }
    }
}

} // verus!
