//! Conversion planning: output formats, file names and the choice of block.

use vstd::prelude::*;
use crate::model::{BlockDefinition, SurveyMetadata};
use crate::text::{
    ascii_lower, ascii_upper, chars_of, chars_equal, lower_chars, push_str, string_from_chars,
    upper_chars,
};

verus! {

/// Supported output formats.
#[derive(Clone, Copy, Debug, PartialEq, Eq, Structural)]
pub enum OutputFormat {
    Csv,
    Tsv,
    Parquet,
    Dta,
    Spss,
    Json,
    Jsonl,
    Fwf,
}

/// Why a conversion failed.
#[derive(Debug)]
pub enum PipelineError {
    Failed(String),
    OutputExists(String),
}

/// The text of a pipeline error, as it is shown to a user.
pub open spec fn pipeline_error_text(e: PipelineError) -> Seq<char> {
    match e {
        PipelineError::Failed(why) => "conversion failed: "@ + why@,
        PipelineError::OutputExists(path) => "output already exists: "@ + path@,
    }
}

impl PipelineError {
    /// The text of this error, as it is shown to a user.
    pub fn message(&self) -> (r: String)
        ensures
            r@ == pipeline_error_text(*self),
    {
        let mut m: Vec<char> = Vec::new();
        match self {
            PipelineError::Failed(why) => {
                crate::text::push_str(&mut m, "conversion failed: ");
                crate::text::push_str(&mut m, why.as_str());
            },
            PipelineError::OutputExists(path) => {
                crate::text::push_str(&mut m, "output already exists: ");
                crate::text::push_str(&mut m, path.as_str());
            },
        }
        proof {
            assert(m@ =~= pipeline_error_text(*self));
        }
        crate::text::string_from_chars(m.as_slice())
    }
}

/// `p` without its last character when that is `c`, repeatedly.
pub open spec fn last_index_of(s: Seq<char>, c: char) -> int
    decreases s.len(),
{
    if s.len() == 0 {
        -1
    } else if s.last() == c {
        s.len() - 1
    } else {
        last_index_of(s.drop_last(), c)
    }
}

/// Where the last occurrence of `c` lies.
pub proof fn lemma_last_index_of(s: Seq<char>, c: char)
    ensures
        -1 <= last_index_of(s, c) < s.len(),
        last_index_of(s, c) >= 0 ==> s[last_index_of(s, c)] == c,
        forall|k: int| last_index_of(s, c) < k < s.len() ==> s[k] != c,
    decreases s.len(),
{
    if s.len() > 0 && s.last() != c {
        lemma_last_index_of(s.drop_last(), c);
        assert forall|k: int| last_index_of(s, c) < k < s.len() implies s[k] != c by {
            if k < s.len() - 1 {
                assert(s.drop_last()[k] == s[k]);
            }
        }
    }
}

/// The last component of a `/`-separated path, as `std::path::Path` finds
/// it: trailing separators and `.` components are passed over, and a final
/// `..` (or nothing at all) has no name.
pub open spec fn path_file_name(p: Seq<char>) -> Option<Seq<char>>
    decreases p.len(),
{
    if p.len() == 0 {
        None
    } else if p.last() == '/' {
        path_file_name(p.drop_last())
    } else {
        let k = last_index_of(p, '/');
        let segment = p.subrange(k + 1, p.len() as int);
        if segment == seq!['.'] {
            proof {
                lemma_last_index_of(p, '/');
            }
            path_file_name(p.take(k + 1))
        } else if segment == seq!['.', '.'] {
            None
        } else {
            Some(segment)
        }
    }
}

/// A file name split at its last dot into stem and extension; a name whose
/// only dot leads it, or without a dot, has no extension.
pub open spec fn split_at_dot(name: Seq<char>) -> (Seq<char>, Option<Seq<char>>) {
    let d = last_index_of(name, '.');
    if d <= 0 {
        (name, None)
    } else {
        (name.take(d), Some(name.skip(d + 1)))
    }
}

/// The extension of the path's file name.
pub open spec fn path_extension(p: Seq<char>) -> Option<Seq<char>> {
    match path_file_name(p) {
        None => None,
        Some(name) => split_at_dot(name).1,
    }
}

/// The stem of the path's file name.
pub open spec fn path_stem(p: Seq<char>) -> Option<Seq<char>> {
    match path_file_name(p) {
        None => None,
        Some(name) => Some(split_at_dot(name).0),
    }
}

/// The last index of `c` in `s`, or `None`.
fn find_last(s: &[char], c: char) -> (r: Option<usize>)
    ensures
        match r {
            Some(i) => i as int == last_index_of(s@, c),
            None => last_index_of(s@, c) == -1,
        },
{
    let mut i = s.len();
    proof {
        assert(s@.take(i as int) =~= s@);
    }
    while i > 0
        invariant
            i <= s@.len(),
            last_index_of(s@, c) == last_index_of(s@.take(i as int), c),
        decreases i,
    {
        proof {
            assert(s@.take(i as int).drop_last() =~= s@.take(i - 1));
        }
        if s[i - 1] == c {
            return Some(i - 1);
        }
        i -= 1;
    }
    None
}

/// The file name of a path, as `Path::file_name` gives it.
fn file_name_of(path: &[char]) -> (r: Option<Vec<char>>)
    ensures
        match path_file_name(path@) {
            Some(n) => r matches Some(v) && v@ == n,
            None => r is None,
        },
{
    let mut end = path.len();
    proof {
        assert(path@.take(end as int) =~= path@);
    }
    loop
        invariant
            end <= path@.len(),
            path_file_name(path@) == path_file_name(path@.take(end as int)),
        decreases end,
    {
        let p = vstd::slice::slice_subrange(path, 0, end);
        if end == 0 {
            return None;
        }
        if path[end - 1] == '/' {
            proof {
                assert(p@.drop_last() =~= path@.take(end - 1));
            }
            end -= 1;
            continue;
        }
        proof {
            lemma_last_index_of(p@, '/');
        }
        let start = match find_last(p, '/') {
            Some(k) => k + 1,
            None => 0,
        };
        let len = end - start;
        if len == 1 && path[start] == '.' {
            proof {
                assert(p@.subrange(start as int, end as int) =~= seq!['.']);
                assert(p@.take(start as int) =~= path@.take(start as int));
            }
            end = start;
            continue;
        }
        if len == 2 && path[start] == '.' && path[start + 1] == '.' {
            proof {
                assert(p@.subrange(start as int, end as int) =~= seq!['.', '.']);
            }
            return None;
        }
        let mut name: Vec<char> = Vec::new();
        let mut i = start;
        while i < end
            invariant
                start <= i <= end <= path@.len(),
                name@ == path@.subrange(start as int, i as int),
            decreases end - i,
        {
            name.push(path[i]);
            i += 1;
            proof {
                assert(name@ =~= path@.subrange(start as int, i as int));
            }
        }
        proof {
            assert(p@.subrange(start as int, end as int) =~= name@);
            if len == 1 {
                assert(name@ != seq!['.']) by {
                    assert(name@[0] != '.');
                }
            }
            if len == 2 {
                assert(name@ != seq!['.', '.']) by {
                    assert(name@[0] != '.' || name@[1] != '.');
                }
            }
        }
        return Some(name);
    }
}

/// Split a file name at its last dot.
fn split_name(name: &[char]) -> (r: (Vec<char>, Option<Vec<char>>))
    ensures
        r.0@ == split_at_dot(name@).0,
        match split_at_dot(name@).1 {
            Some(e) => r.1 matches Some(v) && v@ == e,
            None => r.1 is None,
        },
{
    let _n = name.len();
    let d = find_last(name, '.');
    proof {
        lemma_last_index_of(name@, '.');
    }
    let mut stem: Vec<char> = Vec::new();
    let cut = match d {
        Some(k) if k > 0 => k,
        _ => name.len(),
    };
    let mut i: usize = 0;
    while i < cut
        invariant
            i <= cut <= name@.len(),
            stem@ == name@.take(i as int),
        decreases cut - i,
    {
        stem.push(name[i]);
        i += 1;
        proof {
            assert(stem@ =~= name@.take(i as int));
        }
    }
    proof {
        if cut == name@.len() {
            assert(name@.take(cut as int) =~= name@);
        }
    }
    match d {
        Some(k) if k > 0 => {
            let mut ext: Vec<char> = Vec::new();
            let mut j = k + 1;
            while j < name.len()
                invariant
                    k + 1 <= j <= name@.len(),
                    ext@ == name@.subrange(k + 1, j as int),
                decreases name@.len() - j,
            {
                ext.push(name[j]);
                j += 1;
                proof {
                    assert(ext@ =~= name@.subrange(k + 1, j as int));
                }
            }
            proof {
                assert(ext@ =~= name@.skip(k + 1));
            }
            (stem, Some(ext))
        },
        _ => (stem, None),
    }
}

/// The format an extension names, in ASCII lower case; CSV otherwise.
pub open spec fn format_for_extension(ext: Option<Seq<char>>) -> OutputFormat {
    match ext {
        None => OutputFormat::Csv,
        Some(e) => {
            let l = e.map_values(|c: char| ascii_lower(c));
            if l == "txt"@ || l == "tsv"@ {
                OutputFormat::Tsv
            } else if l == "parquet"@ {
                OutputFormat::Parquet
            } else if l == "dta"@ {
                OutputFormat::Dta
            } else if l == "sav"@ {
                OutputFormat::Spss
            } else if l == "json"@ {
                OutputFormat::Json
            } else if l == "jsonl"@ || l == "ndjson"@ {
                OutputFormat::Jsonl
            } else if l == "fwf"@ {
                OutputFormat::Fwf
            } else {
                OutputFormat::Csv
            }
        },
    }
}

/// Whether `v` spells the literal `s`.
fn spells(v: &[char], s: &str) -> (r: bool)
    ensures
        r == (v@ == s@),
{
    crate::text::chars_equal_str(v, s)
}

impl OutputFormat {
    /// Infer the format from a path's extension. Falls back to CSV.
    pub fn from_extension(path: &str) -> (r: Self)
        ensures
            r == format_for_extension(path_extension(path@)),
    {
        let chars = chars_of(path);
        let ext = match file_name_of(chars.as_slice()) {
            None => None,
            Some(name) => split_name(name.as_slice()).1,
        };
        match ext {
            None => OutputFormat::Csv,
            Some(e) => {
                let l = lower_chars(e.as_slice());
                let l = l.as_slice();
                if spells(l, "txt") || spells(l, "tsv") {
                    OutputFormat::Tsv
                } else if spells(l, "parquet") {
                    OutputFormat::Parquet
                } else if spells(l, "dta") {
                    OutputFormat::Dta
                } else if spells(l, "sav") {
                    OutputFormat::Spss
                } else if spells(l, "json") {
                    OutputFormat::Json
                } else if spells(l, "jsonl") || spells(l, "ndjson") {
                    OutputFormat::Jsonl
                } else if spells(l, "fwf") {
                    OutputFormat::Fwf
                } else {
                    OutputFormat::Csv
                }
            },
        }
    }

    /// Human-readable label.
    pub fn label(self) -> (r: &'static str)
        ensures
            r@ == match self {
                OutputFormat::Csv => "CSV"@,
                OutputFormat::Tsv => "TSV (Tab-separated)"@,
                OutputFormat::Parquet => "Parquet"@,
                OutputFormat::Dta => "Stata (.dta)"@,
                OutputFormat::Spss => "SPSS (.sav)"@,
                OutputFormat::Json => "JSON (.json)"@,
                OutputFormat::Jsonl => "JSON Lines (.jsonl)"@,
                OutputFormat::Fwf => "Fixed-Width (.fwf)"@,
            },
    {
        match self {
            OutputFormat::Csv => "CSV",
            OutputFormat::Tsv => "TSV (Tab-separated)",
            OutputFormat::Parquet => "Parquet",
            OutputFormat::Dta => "Stata (.dta)",
            OutputFormat::Spss => "SPSS (.sav)",
            OutputFormat::Json => "JSON (.json)",
            OutputFormat::Jsonl => "JSON Lines (.jsonl)",
            OutputFormat::Fwf => "Fixed-Width (.fwf)",
        }
    }

    /// Default file extension (without leading dot).
    pub fn extension(self) -> (r: &'static str)
        ensures
            r@ == match self {
                OutputFormat::Csv => "csv"@,
                OutputFormat::Tsv => "tsv"@,
                OutputFormat::Parquet => "parquet"@,
                OutputFormat::Dta => "dta"@,
                OutputFormat::Spss => "sav"@,
                OutputFormat::Json => "json"@,
                OutputFormat::Jsonl => "jsonl"@,
                OutputFormat::Fwf => "fwf"@,
            },
    {
        match self {
            OutputFormat::Csv => "csv",
            OutputFormat::Tsv => "tsv",
            OutputFormat::Parquet => "parquet",
            OutputFormat::Dta => "dta",
            OutputFormat::Spss => "sav",
            OutputFormat::Json => "json",
            OutputFormat::Jsonl => "jsonl",
            OutputFormat::Fwf => "fwf",
        }
    }
}

/// An ASCII letter or digit.
pub open spec fn is_ascii_alphanumeric(c: char) -> bool {
    ('a' <= c <= 'z') || ('A' <= c <= 'Z') || ('0' <= c <= '9')
}

/// The extension a format is written with.
pub open spec fn extension_of(f: OutputFormat) -> Seq<char> {
    match f {
        OutputFormat::Csv => "csv"@,
        OutputFormat::Tsv => "tsv"@,
        OutputFormat::Parquet => "parquet"@,
        OutputFormat::Dta => "dta"@,
        OutputFormat::Spss => "sav"@,
        OutputFormat::Json => "json"@,
        OutputFormat::Jsonl => "jsonl"@,
        OutputFormat::Fwf => "fwf"@,
    }
}

/// Every format is the one that its own extension names, in any ASCII case.
pub proof fn extension_names_its_format(f: OutputFormat)
    ensures
        format_for_extension(Some(extension_of(f))) == f,
        format_for_extension(Some(extension_of(f).map_values(|c: char| ascii_upper(c)))) == f,
{
    reveal_strlit("csv");
    reveal_strlit("tsv");
    reveal_strlit("txt");
    reveal_strlit("parquet");
    reveal_strlit("dta");
    reveal_strlit("sav");
    reveal_strlit("json");
    reveal_strlit("jsonl");
    reveal_strlit("ndjson");
    reveal_strlit("fwf");
    let e = extension_of(f);
    let u = e.map_values(|c: char| ascii_upper(c));
    assert(e.map_values(|c: char| ascii_lower(c)) =~= e);
    assert(u.map_values(|c: char| ascii_lower(c)) =~= e);
    assert("csv"@[0] != "txt"@[0]);
    assert("csv"@[0] != "tsv"@[0]);
    assert("csv"@[0] != "dta"@[0]);
    assert("csv"@[0] != "sav"@[0]);
    assert("csv"@[0] != "fwf"@[0]);
    assert("tsv"@[1] != "txt"@[1]);
    assert("tsv"@[0] != "dta"@[0]);
    assert("tsv"@[0] != "sav"@[0]);
    assert("tsv"@[0] != "fwf"@[0]);
    assert("dta"@[0] != "txt"@[0]);
    assert("dta"@[0] != "tsv"@[0]);
    assert("dta"@[0] != "sav"@[0]);
    assert("dta"@[0] != "fwf"@[0]);
    assert("sav"@[0] != "txt"@[0]);
    assert("sav"@[0] != "tsv"@[0]);
    assert("sav"@[0] != "dta"@[0]);
    assert("sav"@[0] != "fwf"@[0]);
    assert("fwf"@[0] != "txt"@[0]);
    assert("fwf"@[0] != "tsv"@[0]);
    assert("fwf"@[0] != "dta"@[0]);
    assert("fwf"@[0] != "sav"@[0]);
}

/// Letters and digits of `s` in lower case, every run of other characters
/// replaced by one underscore; and whether the text ends in such a run.
pub open spec fn sanitize_runs(s: Seq<char>) -> (Seq<char>, bool)
    decreases s.len(),
{
    if s.len() == 0 {
        (Seq::empty(), false)
    } else {
        let (out, under) = sanitize_runs(s.drop_last());
        let c = s.last();
        if is_ascii_alphanumeric(c) {
            (out.push(ascii_lower(c)), false)
        } else if !under {
            (out.push('_'), true)
        } else {
            (out, true)
        }
    }
}

/// `s` without leading `c`.
pub open spec fn strip_leading(s: Seq<char>, c: char) -> Seq<char>
    decreases s.len(),
{
    if s.len() > 0 && s[0] == c {
        strip_leading(s.drop_first(), c)
    } else {
        s
    }
}

/// `s` without trailing `c`.
pub open spec fn strip_trailing_char(s: Seq<char>, c: char) -> Seq<char>
    decreases s.len(),
{
    if s.len() > 0 && s.last() == c {
        strip_trailing_char(s.drop_last(), c)
    } else {
        s
    }
}

/// A name made safe for comparison: lower-case letters and digits joined by
/// single underscores, none at either end.
pub open spec fn sanitize_spec(s: Seq<char>) -> Seq<char> {
    strip_trailing_char(strip_leading(sanitize_runs(s).0, '_'), '_')
}

/// A character of a safe name: a lower-case ASCII letter, a digit or `_`.
pub open spec fn is_safe_char(c: char) -> bool {
    ('a' <= c <= 'z') || ('0' <= c <= '9') || c == '_'
}

/// Safe characters, no two underscores in a row.
pub open spec fn is_clean(t: Seq<char>) -> bool {
    &&& forall|i: int| 0 <= i < t.len() ==> is_safe_char(#[trigger] t[i])
    &&& forall|i: int| 0 < i < t.len() && #[trigger] t[i] == '_' ==> t[i - 1] != '_'
}

/// A safe name: clean, with no underscore at either end.
pub open spec fn is_safe_name(t: Seq<char>) -> bool {
    &&& is_clean(t)
    &&& t.len() > 0 ==> t[0] != '_' && t.last() != '_'
}

proof fn lemma_runs_clean(s: Seq<char>)
    ensures
        is_clean(sanitize_runs(s).0),
        sanitize_runs(s).1 <==> (sanitize_runs(s).0.len() > 0 && sanitize_runs(s).0.last() == '_'),
    decreases s.len(),
{
    if s.len() > 0 {
        lemma_runs_clean(s.drop_last());
        let (out, under) = sanitize_runs(s.drop_last());
        let t = sanitize_runs(s).0;
        assert forall|i: int| 0 <= i < t.len() implies is_safe_char(#[trigger] t[i]) by {
            if i < out.len() {
                assert(t[i] == out[i]);
            }
        }
        assert forall|i: int| 0 < i < t.len() && #[trigger] t[i] == '_' implies t[i - 1] != '_' by {
            if i < out.len() {
                assert(t[i] == out[i] && t[i - 1] == out[i - 1]);
            }
        }
    }
}

proof fn lemma_strip_leading_clean(t: Seq<char>)
    requires
        is_clean(t),
    ensures
        is_clean(strip_leading(t, '_')),
        strip_leading(t, '_').len() > 0 ==> strip_leading(t, '_')[0] != '_',
        strip_leading(t, '_').len() > 0 ==> strip_leading(t, '_').last() == t.last(),
    decreases t.len(),
{
    if t.len() > 0 && t[0] == '_' {
        let u = t.drop_first();
        assert forall|i: int| 0 <= i < u.len() implies is_safe_char(#[trigger] u[i]) by {
            assert(u[i] == t[i + 1]);
        }
        assert forall|i: int| 0 < i < u.len() && #[trigger] u[i] == '_' implies u[i - 1] != '_' by {
            assert(u[i] == t[i + 1] && u[i - 1] == t[i]);
        }
        lemma_strip_leading_clean(u);
    }
}

proof fn lemma_strip_trailing_clean(t: Seq<char>)
    requires
        is_clean(t),
        t.len() > 0 ==> t[0] != '_',
    ensures
        is_safe_name(strip_trailing_char(t, '_')),
    decreases t.len(),
{
    if t.len() > 0 && t.last() == '_' {
        let u = t.drop_last();
        assert forall|i: int| 0 <= i < u.len() implies is_safe_char(#[trigger] u[i]) by {
            assert(u[i] == t[i]);
        }
        assert forall|i: int| 0 < i < u.len() && #[trigger] u[i] == '_' implies u[i - 1] != '_' by {
            assert(u[i] == t[i] && u[i - 1] == t[i - 1]);
        }
        if u.len() > 0 {
            assert(u[0] == t[0]);
        }
        lemma_strip_trailing_clean(u);
    }
}

proof fn lemma_runs_keep_clean(t: Seq<char>)
    requires
        is_clean(t),
    ensures
        sanitize_runs(t).0 == t,
        sanitize_runs(t).1 <==> (t.len() > 0 && t.last() == '_'),
    decreases t.len(),
{
    if t.len() > 0 {
        let u = t.drop_last();
        assert forall|i: int| 0 <= i < u.len() implies is_safe_char(#[trigger] u[i]) by {
            assert(u[i] == t[i]);
        }
        assert forall|i: int| 0 < i < u.len() && #[trigger] u[i] == '_' implies u[i - 1] != '_' by {
            assert(u[i] == t[i] && u[i - 1] == t[i - 1]);
        }
        lemma_runs_keep_clean(u);
        assert(is_safe_char(t[t.len() - 1]));
        if t.last() == '_' && u.len() > 0 {
            assert(t[t.len() - 1] == '_');
        }
        assert(u.push(t.last()) =~= t);
    }
}

/// Sanitizing gives a safe name: lower-case letters and digits joined by
/// single underscores, none at either end.
pub proof fn sanitized_names_are_safe(s: Seq<char>)
    ensures
        is_safe_name(sanitize_spec(s)),
{
    lemma_runs_clean(s);
    lemma_strip_leading_clean(sanitize_runs(s).0);
    lemma_strip_trailing_clean(strip_leading(sanitize_runs(s).0, '_'));
}

/// A safe name is its own sanitized form.
pub proof fn safe_names_are_fixed(t: Seq<char>)
    requires
        is_safe_name(t),
    ensures
        sanitize_spec(t) == t,
{
    lemma_runs_keep_clean(t);
}

/// Sanitizing twice is sanitizing once.
pub proof fn sanitizing_is_idempotent(s: Seq<char>)
    ensures
        sanitize_spec(sanitize_spec(s)) == sanitize_spec(s),
{
    sanitized_names_are_safe(s);
    safe_names_are_fixed(sanitize_spec(s));
}

/// Make a name safe for comparison.
pub fn sanitize_name(name: &str) -> (r: String)
    ensures
        r@ == sanitize_spec(name@),
{
    let chars = chars_of(name);
    let mut safe: Vec<char> = Vec::new();
    let mut last_was_under = false;
    let mut i: usize = 0;
    while i < chars.len()
        invariant
            i <= chars@.len(),
            chars@ == name@,
            (safe@, last_was_under) == sanitize_runs(chars@.take(i as int)),
        decreases chars@.len() - i,
    {
        proof {
            assert(chars@.take(i + 1).drop_last() =~= chars@.take(i as int));
        }
        let c = chars[i];
        if ('a' <= c && c <= 'z') || ('A' <= c && c <= 'Z') || ('0' <= c && c <= '9') {
            safe.push(crate::text::to_ascii_lower(c));
            last_was_under = false;
        } else if !last_was_under {
            safe.push('_');
            last_was_under = true;
        }
        i += 1;
    }
    proof {
        assert(chars@.take(i as int) =~= name@);
    }
    // Trim underscores at both ends.
    let mut start: usize = 0;
    proof {
        assert(safe@.skip(0) =~= safe@);
    }
    while start < safe.len() && safe[start] == '_'
        invariant
            start <= safe@.len(),
            strip_leading(safe@, '_') == strip_leading(safe@.skip(start as int), '_'),
        decreases safe@.len() - start,
    {
        proof {
            assert(safe@.skip(start as int).drop_first() =~= safe@.skip(start + 1));
        }
        start += 1;
    }
    let mut end: usize = safe.len();
    while end > start && safe[end - 1] == '_'
        invariant
            start <= end <= safe@.len(),
            strip_trailing_char(safe@.subrange(start as int, safe@.len() as int), '_')
                == strip_trailing_char(safe@.subrange(start as int, end as int), '_'),
        decreases end - start,
    {
        proof {
            assert(safe@.subrange(start as int, end as int).drop_last() =~= safe@.subrange(
                start as int,
                end - 1,
            ));
        }
        end -= 1;
    }
    let kept = vstd::slice::slice_subrange(safe.as_slice(), start, end);
    proof {
        assert(safe@.skip(start as int) =~= safe@.subrange(start as int, safe@.len() as int));
        lemma_strip_leading_skip(safe@, start as int);
        if end > start {
            assert(safe@[end - 1] != '_');
        }
        assert(kept@ =~= safe@.subrange(start as int, end as int));
    }
    string_from_chars(kept)
}

proof fn lemma_strip_leading_skip(s: Seq<char>, start: int)
    requires
        0 <= start <= s.len(),
        strip_leading(s, '_') == strip_leading(s.skip(start), '_'),
        start == s.len() || s[start] != '_',
    ensures
        strip_leading(s, '_') == s.skip(start),
{
    if start < s.len() {
        assert(s.skip(start)[0] == s[start]);
    } else {
        assert(s.skip(start).len() == 0);
    }
}

/// `needle` occurs somewhere in `hay`.
pub open spec fn is_substring(needle: Seq<char>, hay: Seq<char>) -> bool {
    exists|i: int| 0 <= i <= hay.len() - needle.len() && #[trigger] hay.subrange(i, i + needle.len()) == needle
}

/// Whether `needle` occurs in `hay`.
fn contains_chars(hay: &[char], needle: &[char]) -> (r: bool)
    ensures
        r == is_substring(needle@, hay@),
{
    let hay_len = hay.len();
    if needle.len() > hay_len {
        return false;
    }
    let mut i: usize = 0;
    while i <= hay.len() - needle.len()
        invariant
            needle@.len() <= hay@.len(),
            hay_len == hay@.len(),
            i <= hay@.len() - needle@.len() + 1,
            forall|j: int| 0 <= j < i ==> #[trigger] hay@.subrange(j, j + needle@.len()) != needle@,
        decreases hay@.len() - needle@.len() + 1 - i,
    {
        let mut k: usize = 0;
        let mut same = true;
        while k < needle.len()
            invariant
                k <= needle@.len(),
                i + needle@.len() <= hay@.len(),
                hay_len == hay@.len(),
                same == forall|q: int| 0 <= q < k ==> hay@[i + q] == needle@[q],
            decreases needle@.len() - k,
        {
            if hay[i + k] != needle[k] {
                same = false;
            }
            k += 1;
        }
        if same {
            proof {
                assert(hay@.subrange(i as int, i + needle@.len()) =~= needle@);
            }
            return true;
        }
        proof {
            let q = choose|q: int| 0 <= q < needle@.len() && hay@[i + q] != needle@[q];
            assert(hay@.subrange(i as int, i + needle@.len())[q] != needle@[q]);
        }
        i += 1;
    }
    false
}

/// The block chosen for an output file stem: the first whose name or file id
/// sanitises to the stem's sanitised form, or whose file id (upper case)
/// occurs in the stem (upper case).
pub open spec fn block_matches_stem(block: BlockDefinition, stem: Seq<char>) -> bool {
    ||| sanitize_spec(block.name@) == sanitize_spec(stem)
    ||| sanitize_spec(block.file_id@) == sanitize_spec(stem)
    ||| is_substring(
        block.file_id@.map_values(|c: char| ascii_upper(c)),
        stem.map_values(|c: char| ascii_upper(c)),
    )
}

/// The first block from `from` on for which `matches` holds.
pub open spec fn first_block(
    blocks: Seq<BlockDefinition>,
    matches: spec_fn(BlockDefinition) -> bool,
    from: int,
) -> Option<int>
    decreases blocks.len() - from,
{
    if from < 0 || from >= blocks.len() {
        None
    } else if matches(blocks[from]) {
        Some(from)
    } else {
        first_block(blocks, matches, from + 1)
    }
}

/// The chosen block: the first match, else the first block.
pub open spec fn chosen_block(blocks: Seq<BlockDefinition>, matches: spec_fn(BlockDefinition) -> bool) -> Option<
    int,
> {
    match first_block(blocks, matches, 0) {
        Some(i) => Some(i),
        None => if blocks.len() > 0 {
            Some(0)
        } else {
            None
        },
    }
}

/// The stem of an output path, or nothing.
pub open spec fn output_stem(output_path: Seq<char>) -> Seq<char> {
    match path_stem(output_path) {
        Some(s) => s,
        None => Seq::empty(),
    }
}

/// The stem of a path's file name, or nothing.
fn stem_of(path: &str) -> (r: Vec<char>)
    ensures
        r@ == output_stem(path@),
{
    let chars = chars_of(path);
    match file_name_of(chars.as_slice()) {
        None => Vec::new(),
        Some(name) => split_name(name.as_slice()).0,
    }
}

proof fn lemma_first_block_bound(blocks: Seq<BlockDefinition>, matches: spec_fn(BlockDefinition) -> bool, from: int)
    ensures
        first_block(blocks, matches, from) matches Some(i) ==> 0 <= i < blocks.len(),
    decreases blocks.len() - from,
{
    if 0 <= from < blocks.len() {
        lemma_first_block_bound(blocks, matches, from + 1);
    }
}

/// Choose the block an output file is for: by its stem, else the first.
pub fn pick_block<'m>(metadata: &'m SurveyMetadata, output_path: &str) -> (r: Result<
    &'m BlockDefinition,
    PipelineError,
>)
    ensures
        match chosen_block(
            metadata.blocks@,
            |b: BlockDefinition| block_matches_stem(b, output_stem(output_path@)),
        ) {
            Some(i) => r matches Ok(b) && *b == metadata.blocks@[i],
            None => r matches Err(PipelineError::Failed(m)) && m@ == "DDI has no blocks"@,
        },
{
    let stem = stem_of(output_path);
    let stem_string = string_from_chars(stem.as_slice());
    let stem_clean = sanitize_name(stem_string.as_str());
    let stem_upper = upper_chars(stem.as_slice());
    let ghost matches = |b: BlockDefinition| block_matches_stem(b, output_stem(output_path@));
    let blocks = &metadata.blocks;
    let mut i: usize = 0;
    while i < blocks.len()
        invariant
            i <= blocks@.len(),
            blocks == metadata.blocks,
            stem@ == output_stem(output_path@),
            stem_clean@ == sanitize_spec(stem@),
            stem_upper@ == stem@.map_values(|c: char| ascii_upper(c)),
            matches == |b: BlockDefinition| block_matches_stem(b, output_stem(output_path@)),
            first_block(blocks@, matches, 0) == first_block(blocks@, matches, i as int),
        decreases blocks@.len() - i,
    {
        let b = &blocks[i];
        let by_name = sanitize_name(b.name.as_str()) == stem_clean;
        let by_id = sanitize_name(b.file_id.as_str()) == stem_clean;
        let id_upper = upper_chars(chars_of(b.file_id.as_str()).as_slice());
        let by_contains = contains_chars(stem_upper.as_slice(), id_upper.as_slice());
        if by_name || by_id || by_contains {
            return Ok(b);
        }
        i += 1;
    }
    if blocks.len() == 0 {
        return Err(PipelineError::Failed("DDI has no blocks".to_owned()));
    }
    Ok(&blocks[0])
}

/// Choose the block an output file is for by block name, else the first;
/// the rule of plain CSV conversion.
pub fn pick_block_by_name<'m>(metadata: &'m SurveyMetadata, output_path: &str) -> (r: Result<
    &'m BlockDefinition,
    PipelineError,
>)
    ensures
        match chosen_block(
            metadata.blocks@,
            |b: BlockDefinition| sanitize_spec(b.name@) == sanitize_spec(output_stem(output_path@)),
        ) {
            Some(i) => r matches Ok(b) && *b == metadata.blocks@[i],
            None => r matches Err(PipelineError::Failed(m)) && m@ == "DDI has no blocks"@,
        },
{
    let stem = stem_of(output_path);
    let stem_string = string_from_chars(stem.as_slice());
    let stem_clean = sanitize_name(stem_string.as_str());
    let ghost matches = |b: BlockDefinition|
        sanitize_spec(b.name@) == sanitize_spec(output_stem(output_path@));
    let blocks = &metadata.blocks;
    let mut i: usize = 0;
    while i < blocks.len()
        invariant
            i <= blocks@.len(),
            blocks == metadata.blocks,
            stem@ == output_stem(output_path@),
            stem_clean@ == sanitize_spec(stem@),
            matches == |b: BlockDefinition|
                sanitize_spec(b.name@) == sanitize_spec(output_stem(output_path@)),
            first_block(blocks@, matches, 0) == first_block(blocks@, matches, i as int),
        decreases blocks@.len() - i,
    {
        let b = &blocks[i];
        if sanitize_name(b.name.as_str()) == stem_clean {
            return Ok(b);
        }
        i += 1;
    }
    if blocks.len() == 0 {
        return Err(PipelineError::Failed("DDI has no blocks".to_owned()));
    }
    Ok(&blocks[0])
}

/// The path a conversion writes to before it succeeds.
pub fn partial_path(output: &str) -> (r: String)
    ensures
        r@ == output@ + ".partial"@,
{
    let mut chars = chars_of(output);
    push_str(&mut chars, ".partial");
    string_from_chars(chars.as_slice())
}


/// Where a conversion job stands.
#[derive(Clone, Copy, Debug, PartialEq, Eq, Structural)]
pub enum JobPhase {
    Checking,
    Preparing,
    Writing,
    Finishing,
    Publishing,
    Discarding,
    Done,
}

/// What the runner of a conversion job reports back.
#[derive(Debug)]
pub enum JobEvent {
    /// Whether the output path already exists.
    OutputChecked { exists: bool },
    /// The codebook was read, the source opened, the block and its layout
    /// found and the writer created for its rows; or why not.
    Prepared(Result<usize, String>),
    /// The caller asked to stop before the next batch.
    Cancelled,
    /// The requested rows were decoded and written; or why not.
    BatchDone(Result<(), String>),
    /// The writer was finished; or why not.
    WriterFinished(Result<(), String>),
    /// The finished file was moved to the output path; or why not.
    Published(Result<(), String>),
    /// The unfinished file was removed.
    Discarded,
}

/// What a conversion job asks its runner to do next.
#[derive(Debug)]
pub enum JobAction {
    /// Check whether the output path exists.
    CheckOutput,
    /// Read the codebook, open the source, find the block and its layout,
    /// and create the writer.
    Prepare,
    /// Unless the caller asks to stop, decode and write these rows.
    WriteBatch { start: usize, count: usize },
    /// Finish the writer.
    FinishWriter,
    /// Move the finished file to the output path.
    Publish,
    /// Remove the unfinished file.
    Discard,
    /// The job is over, with this outcome.
    Stop(Result<(), PipelineError>),
}

/// A conversion job: the decisions of a conversion, one event at a time.
/// A job that writes through an unfinished file (`direct` false) publishes
/// it only once every row is written, and removes it on any failure.
pub struct ConvertJob {
    phase: JobPhase,
    output: String,
    direct: bool,
    batch_size: usize,
    rows: usize,
    next: usize,
    failure: String,
}

/// A conversion job as values.
pub struct JobView {
    pub phase: JobPhase,
    pub output: Seq<char>,
    pub direct: bool,
    pub batch_size: nat,
    pub rows: nat,
    pub next: nat,
    pub failure: Seq<char>,
}

/// The job keeps its fields consistent: batches hold at least one row, and
/// only finished jobs have written every row.
pub open spec fn job_wf(j: JobView) -> bool {
    &&& j.batch_size >= 1
    &&& j.next <= j.rows
    &&& j.phase == JobPhase::Writing ==> j.next < j.rows
    &&& (j.phase == JobPhase::Finishing || j.phase == JobPhase::Publishing) ==> j.next == j.rows
    &&& j.rows <= usize::MAX
}

/// The rows of the batch that starts at `next`.
pub open spec fn batch_rows(j: JobView) -> nat {
    if j.rows - j.next < j.batch_size {
        (j.rows - j.next) as nat
    } else {
        j.batch_size
    }
}

/// The job once rows before `next` are written: the next batch, or the
/// writer's finish when none is left.
pub open spec fn write_from(j: JobView, next: nat) -> (JobView, JobAction) {
    let k = JobView { next, ..j };
    if next >= j.rows {
        (JobView { phase: JobPhase::Finishing, ..k }, JobAction::FinishWriter)
    } else {
        (
            JobView { phase: JobPhase::Writing, ..k },
            JobAction::WriteBatch { start: next as usize, count: batch_rows(k) as usize },
        )
    }
}

/// The job after a failure: a job with an unfinished file removes it first.
pub open spec fn fail_with(j: JobView, why: Seq<char>) -> (JobView, JobAction) {
    if j.direct {
        (JobView { phase: JobPhase::Done, ..j }, JobAction::Stop(Err(PipelineError::Failed(why_string(why)))))
    } else {
        (JobView { phase: JobPhase::Discarding, failure: why, ..j }, JobAction::Discard)
    }
}

/// A string with the view `s`.
pub open spec fn why_string(s: Seq<char>) -> String {
    choose|t: String| t@ == s
}

/// The events a job in `phase` can take.
pub open spec fn expects(phase: JobPhase, e: JobEvent) -> bool {
    match phase {
        JobPhase::Checking => e is OutputChecked,
        JobPhase::Preparing => e is Prepared,
        JobPhase::Writing => e is Cancelled || e is BatchDone,
        JobPhase::Finishing => e is WriterFinished,
        JobPhase::Publishing => e is Published,
        JobPhase::Discarding => e is Discarded,
        JobPhase::Done => false,
    }
}

/// What an event does to a job and what the job asks for next.
pub open spec fn job_step(j: JobView, e: JobEvent) -> (JobView, JobAction) {
    match e {
        JobEvent::OutputChecked { exists } => if exists {
            (
                JobView { phase: JobPhase::Done, ..j },
                JobAction::Stop(Err(PipelineError::OutputExists(why_string(j.output)))),
            )
        } else {
            (JobView { phase: JobPhase::Preparing, ..j }, JobAction::Prepare)
        },
        JobEvent::Prepared(Err(m)) => (
            JobView { phase: JobPhase::Done, ..j },
            JobAction::Stop(Err(PipelineError::Failed(m))),
        ),
        JobEvent::Prepared(Ok(rows)) => write_from(JobView { rows: rows as nat, ..j }, 0),
        JobEvent::Cancelled => fail_with(j, "decode cancelled"@),
        JobEvent::BatchDone(Err(m)) => fail_with(j, m@),
        JobEvent::BatchDone(Ok(())) => write_from(j, j.next + batch_rows(j)),
        JobEvent::WriterFinished(Err(m)) => fail_with(j, m@),
        JobEvent::WriterFinished(Ok(())) => if j.direct {
            (JobView { phase: JobPhase::Done, ..j }, JobAction::Stop(Ok(())))
        } else {
            (JobView { phase: JobPhase::Publishing, ..j }, JobAction::Publish)
        },
        JobEvent::Published(Ok(())) => (JobView { phase: JobPhase::Done, ..j }, JobAction::Stop(Ok(()))),
        JobEvent::Published(Err(m)) => (
            JobView { phase: JobPhase::Done, ..j },
            JobAction::Stop(Err(PipelineError::Failed(m))),
        ),
        JobEvent::Discarded => (
            JobView { phase: JobPhase::Done, ..j },
            JobAction::Stop(Err(PipelineError::Failed(why_string(j.failure)))),
        ),
    }
}

/// `a` and `b` are the same action, strings compared by their text.
pub open spec fn same_action(a: JobAction, b: JobAction) -> bool {
    match (a, b) {
        (JobAction::Stop(Err(PipelineError::Failed(x))), JobAction::Stop(Err(PipelineError::Failed(y)))) => x@
            == y@,
        (
            JobAction::Stop(Err(PipelineError::OutputExists(x))),
            JobAction::Stop(Err(PipelineError::OutputExists(y))),
        ) => x@ == y@,
        _ => a == b,
    }
}

impl ConvertJob {
    /// The job as values.
    pub closed spec fn view(&self) -> JobView {
        JobView {
            phase: self.phase,
            output: self.output@,
            direct: self.direct,
            batch_size: self.batch_size as nat,
            rows: self.rows as nat,
            next: self.next as nat,
            failure: self.failure@,
        }
    }

    /// A job that writes `output`, through an unfinished file unless
    /// `direct`, in batches of `batch_size` rows (zero counts as one). It
    /// first asks whether the output exists.
    pub fn new(output: String, direct: bool, batch_size: usize) -> (r: (Self, JobAction))
        ensures
            r.0@ == (JobView {
                phase: JobPhase::Checking,
                output: output@,
                direct,
                batch_size: if batch_size == 0 {
                    1
                } else {
                    batch_size as nat
                },
                rows: 0,
                next: 0,
                failure: Seq::empty(),
            }),
            job_wf(r.0@),
            r.1 is CheckOutput,
    {
        let job = ConvertJob {
            phase: JobPhase::Checking,
            output,
            direct,
            batch_size: if batch_size == 0 {
                1
            } else {
                batch_size
            },
            rows: 0,
            next: 0,
            failure: String::new(),
        };
        (job, JobAction::CheckOutput)
    }

    /// Whether the job can take `event` now.
    pub fn expects(&self, event: &JobEvent) -> (r: bool)
        ensures
            r == expects(self@.phase, *event),
    {
        match self.phase {
            JobPhase::Checking => matches!(event, JobEvent::OutputChecked { .. }),
            JobPhase::Preparing => matches!(event, JobEvent::Prepared(_)),
            JobPhase::Writing => matches!(event, JobEvent::Cancelled | JobEvent::BatchDone(_)),
            JobPhase::Finishing => matches!(event, JobEvent::WriterFinished(_)),
            JobPhase::Publishing => matches!(event, JobEvent::Published(_)),
            JobPhase::Discarding => matches!(event, JobEvent::Discarded),
            JobPhase::Done => false,
        }
    }

    /// The job once rows before `next` are written.
    fn write_from(self, next: usize) -> (r: (Self, JobAction))
        requires
            self@.batch_size >= 1,
            next <= self@.rows,
            self@.rows <= usize::MAX,
        ensures
            r.0@ == write_from(self@, next as nat).0,
            r.1 == write_from(self@, next as nat).1,
    {
        let mut job = self;
        job.next = next;
        if next >= job.rows {
            job.phase = JobPhase::Finishing;
            (job, JobAction::FinishWriter)
        } else {
            let left = job.rows - next;
            let count = if left < job.batch_size {
                left
            } else {
                job.batch_size
            };
            job.phase = JobPhase::Writing;
            (job, JobAction::WriteBatch { start: next, count })
        }
    }

    /// The job after a failure.
    fn fail_with(self, why: String) -> (r: (Self, JobAction))
        ensures
            r.0@ == fail_with(self@, why@).0,
            same_action(r.1, fail_with(self@, why@).1),
    {
        let mut job = self;
        if job.direct {
            job.phase = JobPhase::Done;
            (job, JobAction::Stop(Err(PipelineError::Failed(why))))
        } else {
            job.phase = JobPhase::Discarding;
            job.failure = why;
            (job, JobAction::Discard)
        }
    }

    /// Take one event: the job's next state and what it asks for. The
    /// finished file is only published once every row is written and the
    /// writer finished; batches come in order, each of at least one and at
    /// most `batch_size` rows; a job with an unfinished file removes it
    /// before it reports a failure that came after it was made.
    pub fn step(self, event: JobEvent) -> (r: (Self, JobAction))
        requires
            job_wf(self@),
            expects(self@.phase, event),
        ensures
            r.0@ == job_step(self@, event).0,
            same_action(r.1, job_step(self@, event).1),
            job_wf(r.0@),
            r.1 is Publish ==> r.0@.next == r.0@.rows && !self@.direct,
            r.1 matches JobAction::WriteBatch { start, count } ==> start == r.0@.next && 1 <= count
                <= r.0@.batch_size && start + count <= r.0@.rows,
            r.1 matches JobAction::WriteBatch { start, count: _ } ==> (self@.phase
                == JobPhase::Preparing && start == 0) || start == self@.next + batch_rows(self@),
            self@.direct ==> !(r.1 is Publish) && !(r.1 is Discard),
            (!self@.direct && (self@.phase == JobPhase::Writing || self@.phase
                == JobPhase::Finishing)) ==> !(r.1 is Stop),
    {
        match event {
            JobEvent::OutputChecked { exists } => {
                if exists {
                    let mut job = self;
                    job.phase = JobPhase::Done;
                    let path = job.output.clone();
                    (job, JobAction::Stop(Err(PipelineError::OutputExists(path))))
                } else {
                    let mut job = self;
                    job.phase = JobPhase::Preparing;
                    (job, JobAction::Prepare)
                }
            },
            JobEvent::Prepared(Err(m)) => {
                let mut job = self;
                job.phase = JobPhase::Done;
                (job, JobAction::Stop(Err(PipelineError::Failed(m))))
            },
            JobEvent::Prepared(Ok(rows)) => {
                let mut job = self;
                job.rows = rows;
                job.write_from(0)
            },
            JobEvent::Cancelled => self.fail_with("decode cancelled".to_owned()),
            JobEvent::BatchDone(Err(m)) => self.fail_with(m),
            JobEvent::BatchDone(Ok(())) => {
                let left = self.rows - self.next;
                let count = if left < self.batch_size {
                    left
                } else {
                    self.batch_size
                };
                let next = self.next + count;
                self.write_from(next)
            },
            JobEvent::WriterFinished(Err(m)) => self.fail_with(m),
            JobEvent::WriterFinished(Ok(())) => {
                let mut job = self;
                if job.direct {
                    job.phase = JobPhase::Done;
                    (job, JobAction::Stop(Ok(())))
                } else {
                    job.phase = JobPhase::Publishing;
                    (job, JobAction::Publish)
                }
            },
            JobEvent::Published(Ok(())) => {
                let mut job = self;
                job.phase = JobPhase::Done;
                (job, JobAction::Stop(Ok(())))
            },
            JobEvent::Published(Err(m)) => {
                let mut job = self;
                job.phase = JobPhase::Done;
                (job, JobAction::Stop(Err(PipelineError::Failed(m))))
            },
            JobEvent::Discarded => {
                let mut job = self;
                job.phase = JobPhase::Done;
                let why = job.failure.clone();
                (job, JobAction::Stop(Err(PipelineError::Failed(why))))
            },
        }
    }
}

} // verus!
