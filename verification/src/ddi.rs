//! DDI codebook reading, as a state machine over XML events.
//!
//! [`parse_ddi_bytes`] reads a codebook from its XML text: quick-xml
//! tokenises it (see the `xml` module) and each event goes to
//! [`DdiParser::step`], which decides what it means for the survey model.
//! Element and attribute names are matched by their local name, so
//! namespace prefixes are ignored.

use vstd::prelude::*;
use crate::error::NesstarError;
use crate::xml::{events_cooked, xml_events, xml_tokens};
use crate::model::{BlockDefinition, DeclaredType, NumericRange, SurveyMetadata, VariableDefinition};
use crate::model::{declared_type_spec, ddi_type_key};
use crate::text::{
    char_is_whitespace, chars_of, is_whitespace, push_chars, push_str, string_from_chars, trim,
    trim_chars, utf8, utf8_bytes,
};

verus! {

/// The text of std's integer parse error for an empty string.
pub open spec fn empty_error() -> Seq<char> {
    "cannot parse integer from empty string"@
}

/// The text of std's integer parse error for a bad digit.
pub open spec fn digit_error() -> Seq<char> {
    "invalid digit found in string"@
}

/// The text of std's integer parse error for a value above the type's range.
pub open spec fn overflow_error() -> Seq<char> {
    "number too large to fit in target type"@
}

/// The value of the decimal digits `ds` after `acc`, each digit checked
/// before the value is, or the error of the first digit that fails.
pub open spec fn digits_value(ds: Seq<char>, acc: nat, max: nat) -> Result<nat, Seq<char>>
    decreases ds.len(),
{
    if ds.len() == 0 {
        Ok(acc)
    } else {
        let c = ds[0];
        if !('0' <= c <= '9') {
            Err(digit_error())
        } else if acc * 10 + (c as nat - '0' as nat) > max {
            Err(overflow_error())
        } else {
            digits_value(ds.drop_first(), (acc * 10 + (c as nat - '0' as nat)) as nat, max)
        }
    }
}

/// An unsigned decimal number as std's `parse` reads it, for a type whose
/// largest value is `max`: an optional `+` and at least one digit.
pub open spec fn parse_unsigned(s: Seq<char>, max: nat) -> Result<nat, Seq<char>> {
    if s.len() == 0 {
        Err(empty_error())
    } else if (s[0] == '+' || s[0] == '-') && s.len() == 1 {
        Err(digit_error())
    } else if s[0] == '+' {
        digits_value(s.drop_first(), 0, max)
    } else {
        digits_value(s, 0, max)
    }
}

/// Read an unsigned decimal number no larger than `max`.
fn parse_decimal(s: &[char], max: u64) -> (r: Result<u64, &'static str>)
    ensures
        match parse_unsigned(s@, max as nat) {
            Ok(v) => r == Ok::<u64, &'static str>(v as u64),
            Err(m) => r matches Err(e) && e@ == m,
        },
{
    if s.len() == 0 {
        return Err("cannot parse integer from empty string");
    }
    if (s[0] == '+' || s[0] == '-') && s.len() == 1 {
        return Err("invalid digit found in string");
    }
    let start: usize = if s[0] == '+' {
        1
    } else {
        0
    };
    let ghost ds = if s@[0] == '+' {
        s@.drop_first()
    } else {
        s@
    };
    let mut acc: u64 = 0;
    let mut i: usize = start;
    proof {
        assert(ds == s@.skip(start as int));
    }
    while i < s.len()
        invariant
            start <= i <= s@.len(),
            acc <= max,
            parse_unsigned(s@, max as nat) == digits_value(s@.skip(i as int), acc as nat, max as nat),
        decreases s@.len() - i,
    {
        let c = s[i];
        proof {
            assert(s@.skip(i as int)[0] == c);
            assert(s@.skip(i as int).drop_first() =~= s@.skip(i + 1));
        }
        if !('0' <= c && c <= '9') {
            return Err("invalid digit found in string");
        }
        let d = (c as u32 - '0' as u32) as u64;
        if d > max || acc > (max - d) / 10 {
            proof {
                if d <= max {
                    assert(acc * 10 + d > max) by (nonlinear_arith)
                        requires
                            acc > (max - d) / 10,
                            d <= max,
                    ;
                }
            }
            return Err("number too large to fit in target type");
        }
        proof {
            assert(acc * 10 + d <= max) by (nonlinear_arith)
                requires
                    acc <= (max - d) / 10,
                    d <= max,
            ;
        }
        acc = acc * 10 + d;
        i += 1;
    }
    proof {
        assert(s@.skip(i as int).len() == 0);
    }
    Ok(acc)
}

/// One attribute as the tokeniser read it: its key, its value (or why the
/// value is not UTF-8) and what the value reads as a double (its bit
/// pattern, or why it does not); or an attribute that could not be read.
#[derive(Debug)]
pub enum XmlAttribute {
    Entry { key: Vec<u8>, value: Result<String, String>, number: Result<u64, String> },
    Malformed(String),
}

/// An element tag: its name and its attributes, in document order.
#[derive(Debug)]
pub struct XmlElement {
    pub name: Vec<u8>,
    pub attributes: Vec<XmlAttribute>,
}

/// One XML event.
#[derive(Debug)]
pub enum XmlEvent {
    Start(XmlElement),
    Empty(XmlElement),
    /// Text content, or why it is not UTF-8.
    Text(Result<String, String>),
    End(Vec<u8>),
    Eof,
    /// The tokeniser failed.
    Failed(String),
    /// Anything else (comments, declarations, ...).
    Other,
}

/// What text is being read into.
#[derive(Clone, Copy, Debug, PartialEq, Eq, Structural)]
pub enum TextTarget {
    CaseQuantity,
    Label,
}

/// The part of a name after its last `:`.
pub open spec fn local_name(name: Seq<u8>) -> Seq<u8>
    decreases name.len(),
{
    if name.len() == 0 {
        name
    } else if name.last() == 58 {
        Seq::empty()
    } else {
        local_name(name.drop_last()).push(name.last())
    }
}

/// The part of a name after its last `:`.
fn local_name_of(name: &[u8]) -> (r: Vec<u8>)
    ensures
        r@ == local_name(name@),
{
    let mut start = name.len();
    while start > 0 && name[start - 1] != 58
        invariant
            start <= name@.len(),
            forall|k: int| start <= k < name@.len() ==> name@[k] != 58,
        decreases start,
    {
        start -= 1;
    }
    proof {
        lemma_local_name(name@, start as int);
    }
    let mut r: Vec<u8> = Vec::new();
    let mut i = start;
    while i < name.len()
        invariant
            start <= i <= name@.len(),
            r@ == name@.subrange(start as int, i as int),
        decreases name@.len() - i,
    {
        r.push(name[i]);
        i += 1;
        proof {
            assert(r@ =~= name@.subrange(start as int, i as int));
        }
    }
    r
}

proof fn lemma_local_name(name: Seq<u8>, start: int)
    requires
        0 <= start <= name.len(),
        forall|k: int| start <= k < name.len() ==> name[k] != 58,
        start == 0 || name[start - 1] == 58,
    ensures
        local_name(name) == name.subrange(start, name.len() as int),
    decreases name.len(),
{
    if name.len() > 0 {
        if start == name.len() {
            assert(name.subrange(start, name.len() as int) =~= Seq::<u8>::empty());
        } else {
            lemma_local_name(name.drop_last(), start);
            assert(name.drop_last().subrange(start, name.len() - 1).push(name.last()) =~= name.subrange(
                start,
                name.len() as int,
            ));
        }
    }
}

/// Namespace prefixes are ignored: the local name of `prefix:name` is
/// `name`, the same as that of `name` alone.
pub proof fn local_name_ignores_prefix(prefix: Seq<u8>, name: Seq<u8>)
    requires
        forall|k: int| 0 <= k < name.len() ==> name[k] != 58,
    ensures
        local_name(prefix.push(58) + name) == name,
        local_name(name) == name,
{
    let full = prefix.push(58) + name;
    let start: int = (prefix.len() + 1) as int;
    assert forall|k: int| start <= k < full.len() implies full[k] != 58 by {
        assert(full[k] == name[k - start]);
    }
    lemma_local_name(full, start);
    assert(full.subrange(start, full.len() as int) =~= name);
    lemma_local_name(name, 0);
    assert(name.subrange(0, name.len() as int) =~= name);
}

/// An attribute value as found: its text and its reading as a double.
pub type FoundValue = (Seq<char>, Result<u64, Seq<char>>);

/// The first attribute from `i` on whose local key is `wanted`; an
/// unreadable attribute before it, or a value that is not UTF-8, is an error.
pub open spec fn find_attribute(attrs: Seq<XmlAttribute>, wanted: Seq<u8>, i: nat) -> Result<
    Option<FoundValue>,
    Seq<char>,
>
    decreases attrs.len() - i,
{
    if i >= attrs.len() {
        Ok(None)
    } else {
        match attrs[i as int] {
            XmlAttribute::Malformed(e) => Err("invalid XML attribute: "@ + e@),
            XmlAttribute::Entry { key, value, number } => if local_name(key@) == wanted {
                match value {
                    Ok(v) => Ok(
                        Some(
                            (
                                v@,
                                match number {
                                    Ok(bits) => Ok(bits),
                                    Err(e) => Err(e@),
                                },
                            ),
                        ),
                    ),
                    Err(e) => Err("attribute value is not UTF-8: "@ + e@),
                }
            } else {
                find_attribute(attrs, wanted, i + 1)
            },
        }
    }
}

/// The attribute `wanted` of `element`.
pub open spec fn attribute_of(element: XmlElement, wanted: &str) -> Result<Option<FoundValue>, Seq<char>> {
    find_attribute(element.attributes@, utf8(wanted@), 0)
}

/// An invalid-DDI error with `m` as its reason.
fn invalid(m: Vec<char>) -> (e: NesstarError)
    ensures
        e matches NesstarError::InvalidDdi(s) && s@ == m@,
{
    NesstarError::InvalidDdi(string_from_chars(m.as_slice()))
}

/// An invalid-DDI error with the literal `m` as its reason.
fn invalid_str(m: &str) -> (e: NesstarError)
    ensures
        e matches NesstarError::InvalidDdi(s) && s@ == m@,
{
    NesstarError::InvalidDdi(m.to_owned())
}

/// The text of an attribute value and its reading as a double.
pub struct Found {
    pub text: String,
    pub number: Result<u64, String>,
}

/// The view of a found attribute.
pub open spec fn found_view(f: Option<Found>) -> Option<FoundValue> {
    match f {
        None => None,
        Some(v) => Some(
            (
                v.text@,
                match v.number {
                    Ok(b) => Ok(b),
                    Err(e) => Err(e@),
                },
            ),
        ),
    }
}

/// The attribute `wanted` of `element`.
fn attribute(element: &XmlElement, wanted: &str) -> (r: Result<Option<Found>, NesstarError>)
    ensures
        match attribute_of(*element, wanted) {
            Ok(v) => r matches Ok(f) && found_view(f) == v,
            Err(m) => r matches Err(NesstarError::InvalidDdi(s)) && s@ == m,
        },
{
    let target = utf8_bytes(wanted);
    let attrs = &element.attributes;
    let mut i: usize = 0;
    while i < attrs.len()
        invariant
            i <= attrs@.len(),
            attrs == element.attributes,
            target@ == utf8(wanted@),
            attribute_of(*element, wanted) == find_attribute(attrs@, target@, i as nat),
        decreases attrs@.len() - i,
    {
        match &attrs[i] {
            XmlAttribute::Malformed(e) => {
                let mut m: Vec<char> = Vec::new();
                push_str(&mut m, "invalid XML attribute: ");
                push_str(&mut m, e.as_str());
                return Err(invalid(m));
            },
            XmlAttribute::Entry { key, value, number } => {
                let local = local_name_of(key.as_slice());
                if crate::bytes::bytes_equal(local.as_slice(), target.as_slice()) {
                    match value {
                        Ok(v) => {
                            let n = match number {
                                Ok(b) => Ok(*b),
                                Err(e) => Err(e.clone()),
                            };
                            return Ok(Some(Found { text: v.clone(), number: n }));
                        },
                        Err(e) => {
                            let mut m: Vec<char> = Vec::new();
                            push_str(&mut m, "attribute value is not UTF-8: ");
                            push_str(&mut m, e.as_str());
                            return Err(invalid(m));
                        },
                    }
                }
            },
        }
        i += 1;
    }
    Ok(None)
}

/// A declared type as a value.
pub enum TypeView {
    Character,
    Numeric,
    Other(Seq<char>),
}

/// A variable as a value.
pub struct VarView {
    pub name: Seq<char>,
    pub label: Seq<char>,
    pub declared_type: TypeView,
    pub ddi_width: u32,
    pub decimals: u16,
    pub range: Option<NumericRange>,
    pub files: Seq<Seq<char>>,
}

/// A block as a value.
pub struct BlockView {
    pub file_id: Seq<char>,
    pub file_id_number: u32,
    pub name: Seq<char>,
    pub row_count: u64,
    pub variables: Seq<VarView>,
}

/// A block still being read: file id, name and row count.
pub struct PendingView {
    pub file_id: Seq<char>,
    pub name: Seq<char>,
    pub row_count: u64,
}

/// The value of a declared type.
pub open spec fn type_view(t: DeclaredType) -> TypeView {
    match t {
        DeclaredType::Character => TypeView::Character,
        DeclaredType::Numeric => TypeView::Numeric,
        DeclaredType::Other(s) => TypeView::Other(s@),
    }
}

/// The value of a variable.
pub open spec fn var_view(v: VariableDefinition) -> VarView {
    VarView {
        name: v.name@,
        label: v.label@,
        declared_type: type_view(v.declared_type),
        ddi_width: v.ddi_width,
        decimals: v.decimals,
        range: v.range,
        files: v.referenced_file_ids@.map_values(|f: String| f@),
    }
}

/// The value of a block.
pub open spec fn block_view(b: BlockDefinition) -> BlockView {
    BlockView {
        file_id: b.file_id@,
        file_id_number: b.file_id_number,
        name: b.name@,
        row_count: b.row_count,
        variables: vars_view(b.variables@),
    }
}

/// The value of a list of variables.
pub open spec fn vars_view(vars: Seq<VariableDefinition>) -> Seq<VarView> {
    vars.map_values(|v: VariableDefinition| var_view(v))
}

/// The type a `varFormat` `type` attribute declares.
pub open spec fn ddi_type(value: Option<Seq<char>>) -> TypeView {
    let key = ddi_type_key(value);
    if key == "character"@ || key == "string"@ {
        TypeView::Character
    } else if key == "numeric"@ || key == "number"@ {
        TypeView::Numeric
    } else {
        TypeView::Other(key)
    }
}

/// The position after the last `Name=` in `s`, or zero.
pub open spec fn after_last_name_key(s: Seq<char>) -> int
    decreases s.len(),
{
    if s.len() < 5 {
        0
    } else if s.subrange(s.len() - 5, s.len() as int) == "Name="@ {
        s.len() as int
    } else {
        after_last_name_key(s.drop_last())
    }
}

/// The block name a `URI` attribute gives: what follows its last `Name=`.
pub open spec fn uri_name(uri: Seq<char>) -> Seq<char> {
    uri.skip(after_last_name_key(uri))
}

/// The ASCII digits of `s`.
pub open spec fn ascii_digits(s: Seq<char>) -> Seq<char>
    decreases s.len(),
{
    if s.len() == 0 {
        s
    } else if '0' <= s.last() <= '9' {
        ascii_digits(s.drop_last()).push(s.last())
    } else {
        ascii_digits(s.drop_last())
    }
}

/// The number a file id carries: its digits read as a `u32`, or zero.
pub open spec fn file_id_number_of(file_id: Seq<char>) -> u32 {
    match parse_unsigned(ascii_digits(file_id), u32::MAX as nat) {
        Ok(n) => n as u32,
        Err(_) => 0,
    }
}

/// The words of `s` that white space separates, from position `i` on, with
/// `word` the word being read.
pub open spec fn words_from(s: Seq<char>, i: nat, word: Seq<char>) -> Seq<Seq<char>>
    decreases s.len() - i,
{
    if i >= s.len() {
        if word.len() > 0 {
            seq![word]
        } else {
            Seq::empty()
        }
    } else if is_whitespace(s[i as int]) {
        if word.len() > 0 {
            seq![word] + words_from(s, i + 1, Seq::empty())
        } else {
            words_from(s, i + 1, Seq::empty())
        }
    } else {
        words_from(s, i + 1, word.push(s[i as int]))
    }
}

/// The words of `s` that white space separates.
pub open spec fn words(s: Seq<char>) -> Seq<Seq<char>> {
    words_from(s, 0, Seq::empty())
}

/// The text of an attribute, or nothing.
pub open spec fn text_or_empty(v: Option<FoundValue>) -> Seq<char> {
    match v {
        Some(f) => f.0,
        None => Seq::empty(),
    }
}

/// The block a `fileDscr` tag opens.
pub open spec fn pending_block_of(element: XmlElement) -> Result<PendingView, Seq<char>> {
    match attribute_of(element, "ID") {
        Err(m) => Err(m),
        Ok(id) => match attribute_of(element, "URI") {
            Err(m) => Err(m),
            Ok(uri) => {
                let file_id = text_or_empty(id);
                let name = uri_name(text_or_empty(uri));
                Ok(
                    PendingView {
                        file_id,
                        name: if name.len() > 0 {
                            name
                        } else {
                            file_id
                        },
                        row_count: 0,
                    },
                )
            },
        },
    }
}

/// The block a pending block becomes, with no variables yet.
pub open spec fn finished_block(p: PendingView) -> BlockView {
    BlockView {
        file_id: p.file_id,
        file_id_number: file_id_number_of(p.file_id),
        name: p.name,
        row_count: p.row_count,
        variables: Seq::empty(),
    }
}

/// The variable a `var` tag opens.
pub open spec fn pending_variable_of(element: XmlElement) -> Result<VarView, Seq<char>> {
    match attribute_of(element, "name") {
        Err(m) => Err(m),
        Ok(name) => match attribute_of(element, "files") {
            Err(m) => Err(m),
            Ok(files) => Ok(
                VarView {
                    name: text_or_empty(name),
                    label: Seq::empty(),
                    declared_type: TypeView::Character,
                    ddi_width: 0,
                    decimals: 0,
                    range: None,
                    files: words(text_or_empty(files)),
                },
            ),
        },
    }
}

/// The message of a number that does not parse.
pub open spec fn number_message(context: Seq<char>, value: Seq<char>, error: Seq<char>) -> Seq<char> {
    "invalid "@ + context + " `"@ + value + "`: "@ + error
}

/// A `range` bound: nothing for an absent or blank value, else its double.
pub open spec fn optional_double(v: Option<FoundValue>, context: Seq<char>) -> Result<Option<u64>, Seq<char>> {
    match v {
        None => Ok(None),
        Some(f) => if trim(f.0).len() == 0 {
            Ok(None)
        } else {
            match f.1 {
                Ok(bits) => Ok(Some(bits)),
                Err(e) => Err(number_message(context, f.0, e)),
            }
        },
    }
}

/// Apply a `location` tag to the open variable.
pub open spec fn with_location(v: Option<VarView>, element: XmlElement) -> Result<VarView, Seq<char>> {
    match v {
        None => Err("location outside var"@),
        Some(var) => match attribute_of(element, "width") {
            Err(m) => Err(m),
            Ok(w) => {
                let text = text_or_empty(w);
                match parse_unsigned(text, u32::MAX as nat) {
                    Err(e) => Err(number_message("location width"@, text, e)),
                    Ok(n) => Ok(VarView { ddi_width: n as u32, ..var }),
                }
            },
        },
    }
}

/// Apply a `varFormat` tag to the open variable.
pub open spec fn with_format(v: Option<VarView>, element: XmlElement) -> Result<VarView, Seq<char>> {
    match v {
        None => Err("varFormat outside var"@),
        Some(var) => match attribute_of(element, "type") {
            Err(m) => Err(m),
            Ok(t) => {
                let typed = VarView {
                    declared_type: ddi_type(
                        match t {
                            Some(f) => Some(f.0),
                            None => None,
                        },
                    ),
                    ..var
                };
                match attribute_of(element, "dcml") {
                    Err(m) => Err(m),
                    Ok(None) => Ok(typed),
                    Ok(Some(d)) => match parse_unsigned(d.0, u16::MAX as nat) {
                        Err(e) => Err(number_message("varFormat dcml"@, d.0, e)),
                        Ok(n) => Ok(VarView { decimals: n as u16, ..typed }),
                    },
                }
            },
        },
    }
}

/// Apply a `range` tag to the open variable.
pub open spec fn with_range(v: Option<VarView>, element: XmlElement) -> Result<VarView, Seq<char>> {
    match v {
        None => Err("range outside var"@),
        Some(var) => match attribute_of(element, "min") {
            Err(m) => Err(m),
            Ok(min) => match optional_double(min, "range min"@) {
                Err(m) => Err(m),
                Ok(minimum) => match attribute_of(element, "max") {
                    Err(m) => Err(m),
                    Ok(max) => match optional_double(max, "range max"@) {
                        Err(m) => Err(m),
                        Ok(maximum) => Ok(
                            VarView { range: Some(NumericRange { minimum, maximum }), ..var },
                        ),
                    },
                },
            },
        },
    }
}

/// Add a finished variable to every block whose file id it names, once per
/// naming, the first block with that id taking it; from name `k` on.
pub open spec fn append_variable_from(blocks: Seq<BlockView>, var: VarView, k: nat) -> Seq<BlockView>
    decreases var.files.len() - k,
{
    if k >= var.files.len() {
        blocks
    } else {
        let id = var.files[k as int];
        let added = match first_block_with_id(blocks, id, 0) {
            Some(i) => blocks.update(
                i,
                BlockView { variables: blocks[i].variables.push(var), ..blocks[i] },
            ),
            None => blocks,
        };
        append_variable_from(added, var, k + 1)
    }
}

/// The first block from `i` on whose file id is `id`.
pub open spec fn first_block_with_id(blocks: Seq<BlockView>, id: Seq<char>, i: int) -> Option<int>
    decreases blocks.len() - i,
{
    if i < 0 || i >= blocks.len() {
        None
    } else if blocks[i].file_id == id {
        Some(i)
    } else {
        first_block_with_id(blocks, id, i + 1)
    }
}


/// The words of `s` that white space separates.
fn split_words(s: &[char]) -> (r: Vec<String>)
    ensures
        r@.map_values(|w: String| w@) == words(s@),
{
    let mut out: Vec<String> = Vec::new();
    let mut word: Vec<char> = Vec::new();
    let mut i: usize = 0;
    proof {
        assert(out@.map_values(|w: String| w@) + words_from(s@, 0, word@) =~= words(s@));
    }
    while i < s.len()
        invariant
            i <= s@.len(),
            out@.map_values(|w: String| w@) + words_from(s@, i as nat, word@) == words(s@),
        decreases s@.len() - i,
    {
        let ghost before = out@.map_values(|w: String| w@);
        let c = s[i];
        if char_is_whitespace(c) {
            if word.len() > 0 {
                let w = string_from_chars(word.as_slice());
                out.push(w);
                proof {
                    assert(out@.map_values(|w: String| w@) =~= before.push(word@));
                    assert(before.push(word@) + words_from(s@, (i + 1) as nat, Seq::empty()) =~= before
                        + (seq![word@] + words_from(s@, (i + 1) as nat, Seq::empty())));
                }
                word = Vec::new();
            } else {
                proof {
                    assert(word@ =~= Seq::<char>::empty());
                }
            }
        } else {
            word.push(c);
        }
        i += 1;
    }
    let ghost before = out@.map_values(|w: String| w@);
    if word.len() > 0 {
        let w = string_from_chars(word.as_slice());
        out.push(w);
        proof {
            assert(out@.map_values(|w: String| w@) =~= before + seq![word@]);
        }
    } else {
        proof {
            assert(before + words_from(s@, i as nat, word@) =~= before);
        }
    }
    out
}

/// Whether `s` holds `Name=` just before position `j`.
fn name_key_ends_at(s: &[char], j: usize) -> (r: bool)
    requires
        5 <= j <= s@.len(),
    ensures
        r == (s@.subrange(j - 5, j as int) == "Name="@),
{
    proof {
        reveal_strlit("Name=");
    }
    let r = s[j - 5] == 'N' && s[j - 4] == 'a' && s[j - 3] == 'm' && s[j - 2] == 'e' && s[j - 1]
        == '=';
    proof {
        if r {
            assert(s@.subrange(j - 5, j as int) =~= "Name="@);
        } else {
            if s@.subrange(j - 5, j as int) == "Name="@ {
                assert(s@.subrange(j - 5, j as int)[0] == 'N');
                assert(s@.subrange(j - 5, j as int)[1] == 'a');
                assert(s@.subrange(j - 5, j as int)[2] == 'm');
                assert(s@.subrange(j - 5, j as int)[3] == 'e');
                assert(s@.subrange(j - 5, j as int)[4] == '=');
            }
        }
    }
    r
}

/// What follows the last `Name=` of a `URI` attribute.
fn uri_name_of(uri: &[char]) -> (r: Vec<char>)
    ensures
        r@ == uri_name(uri@),
{
    let mut j = uri.len();
    proof {
        assert(uri@.take(j as int) =~= uri@);
    }
    while j >= 5 && !name_key_ends_at(uri, j)
        invariant
            j <= uri@.len(),
            after_last_name_key(uri@) == after_last_name_key(uri@.take(j as int)),
        decreases j,
    {
        proof {
            assert(uri@.take(j as int).subrange(j - 5, j as int) =~= uri@.subrange(j - 5, j as int));
            assert(uri@.take(j as int).drop_last() =~= uri@.take(j - 1));
        }
        j -= 1;
    }
    let start: usize = if j >= 5 {
        proof {
            assert(uri@.take(j as int).subrange(j - 5, j as int) =~= uri@.subrange(j - 5, j as int));
        }
        j
    } else {
        0
    };
    let mut r: Vec<char> = Vec::new();
    let mut i = start;
    while i < uri.len()
        invariant
            start <= i <= uri@.len(),
            start == after_last_name_key(uri@),
            r@ == uri@.subrange(start as int, i as int),
        decreases uri@.len() - i,
    {
        r.push(uri[i]);
        i += 1;
        proof {
            assert(r@ =~= uri@.subrange(start as int, i as int));
        }
    }
    proof {
        assert(r@ =~= uri@.skip(start as int));
    }
    r
}

/// The ASCII digits of `s`.
fn ascii_digits_of(s: &[char]) -> (r: Vec<char>)
    ensures
        r@ == ascii_digits(s@),
{
    let mut r: Vec<char> = Vec::new();
    let mut i: usize = 0;
    while i < s.len()
        invariant
            i <= s@.len(),
            r@ == ascii_digits(s@.take(i as int)),
        decreases s@.len() - i,
    {
        proof {
            assert(s@.take(i + 1).drop_last() =~= s@.take(i as int));
        }
        if '0' <= s[i] && s[i] <= '9' {
            r.push(s[i]);
        }
        i += 1;
    }
    proof {
        assert(s@.take(i as int) =~= s@);
    }
    r
}

/// The number a file id carries.
fn file_id_number(file_id: &[char]) -> (r: u32)
    ensures
        r == file_id_number_of(file_id@),
{
    let digits = ascii_digits_of(file_id);
    let parsed = parse_decimal(digits.as_slice(), 0xffff_ffff);
    proof {
        lemma_digits_value_bounded(ascii_digits(file_id@), u32::MAX as nat);
    }
    match parsed {
        Ok(n) => n as u32,
        Err(_) => 0,
    }
}

proof fn lemma_digits_from_bounded(ds: Seq<char>, acc: nat, max: nat)
    requires
        acc <= max,
    ensures
        digits_value(ds, acc, max) matches Ok(v) ==> v <= max,
    decreases ds.len(),
{
    if ds.len() > 0 {
        let c = ds[0];
        if '0' <= c <= '9' && acc * 10 + (c as nat - '0' as nat) <= max {
            lemma_digits_from_bounded(ds.drop_first(), (acc * 10 + (c as nat - '0' as nat)) as nat, max);
        }
    }
}

/// A number that parses is no larger than the bound it was parsed with.
proof fn lemma_digits_value_bounded(s: Seq<char>, max: nat)
    ensures
        parse_unsigned(s, max) matches Ok(v) ==> v <= max,
{
    if s.len() > 0 {
        lemma_digits_from_bounded(s, 0, max);
        lemma_digits_from_bounded(s.drop_first(), 0, max);
    }
}

/// The message of a number that does not parse, as characters.
fn number_message_of(context: &str, value: &[char], error: &str) -> (r: Vec<char>)
    ensures
        r@ == number_message(context@, value@, error@),
{
    let mut m: Vec<char> = Vec::new();
    push_str(&mut m, "invalid ");
    push_str(&mut m, context);
    push_str(&mut m, " `");
    push_chars(&mut m, value);
    push_str(&mut m, "`: ");
    push_str(&mut m, error);
    proof {
        assert(m@ =~= number_message(context@, value@, error@));
    }
    m
}


/// A block whose `fileDscr` is still open.
struct PendingBlock {
    file_id: String,
    name: String,
    row_count: u64,
}

/// The value of a pending block.
spec fn pending_view(p: PendingBlock) -> PendingView {
    PendingView { file_id: p.file_id@, name: p.name@, row_count: p.row_count }
}

/// The value of an optional variable.
pub open spec fn opt_var_view(v: Option<VariableDefinition>) -> Option<VarView> {
    match v {
        Some(x) => Some(var_view(x)),
        None => None,
    }
}

/// The text of a found attribute, or nothing.
fn found_text(f: &Option<Found>) -> (r: Vec<char>)
    ensures
        r@ == text_or_empty(found_view(*f)),
{
    match f {
        Some(v) => chars_of(v.text.as_str()),
        None => Vec::new(),
    }
}

/// The block a `fileDscr` tag opens.
fn pending_block(element: &XmlElement) -> (r: Result<PendingBlock, NesstarError>)
    ensures
        match pending_block_of(*element) {
            Ok(p) => r matches Ok(b) && pending_view(b) == p,
            Err(m) => r matches Err(NesstarError::InvalidDdi(s)) && s@ == m,
        },
{
    let id = match attribute(element, "ID") {
        Ok(v) => v,
        Err(e) => return Err(e),
    };
    let uri = match attribute(element, "URI") {
        Ok(v) => v,
        Err(e) => return Err(e),
    };
    let file_id = found_text(&id);
    let uri_text = found_text(&uri);
    let name = uri_name_of(uri_text.as_slice());
    let name_text = if name.len() > 0 {
        string_from_chars(name.as_slice())
    } else {
        string_from_chars(file_id.as_slice())
    };
    Ok(PendingBlock { file_id: string_from_chars(file_id.as_slice()), name: name_text, row_count: 0 })
}

/// The block a pending block becomes, with no variables yet.
fn finish_block(p: PendingBlock) -> (b: BlockDefinition)
    ensures
        block_view(b) == finished_block(pending_view(p)),
{
    let chars = chars_of(p.file_id.as_str());
    let n = file_id_number(chars.as_slice());
    let b = BlockDefinition {
        file_id: p.file_id,
        file_id_number: n,
        name: p.name,
        row_count: p.row_count,
        variables: Vec::new(),
    };
    proof {
        assert(vars_view(b.variables@) =~= Seq::empty());
    }
    b
}

/// The variable a `var` tag opens.
fn pending_variable(element: &XmlElement) -> (r: Result<VariableDefinition, NesstarError>)
    ensures
        match pending_variable_of(*element) {
            Ok(v) => r matches Ok(x) && var_view(x) == v,
            Err(m) => r matches Err(NesstarError::InvalidDdi(s)) && s@ == m,
        },
{
    let name = match attribute(element, "name") {
        Ok(v) => v,
        Err(e) => return Err(e),
    };
    let files = match attribute(element, "files") {
        Ok(v) => v,
        Err(e) => return Err(e),
    };
    let name_text = found_text(&name);
    let files_text = found_text(&files);
    let ids = split_words(files_text.as_slice());
    let v = VariableDefinition {
        name: string_from_chars(name_text.as_slice()),
        label: String::new(),
        declared_type: DeclaredType::Character,
        ddi_width: 0,
        decimals: 0,
        range: None,
        referenced_file_ids: ids,
    };
    proof {
        assert(v.referenced_file_ids@.map_values(|f: String| f@) =~= ids@.map_values(|w: String| w@));
    }
    Ok(v)
}

/// The type a declared type classifies as.
proof fn lemma_declared_type_view(value: Option<Seq<char>>, t: DeclaredType)
    requires
        declared_type_spec(value, t),
    ensures
        type_view(t) == ddi_type(value),
{
}

/// Apply a `location` tag to the open variable.
fn apply_location(var: Option<VariableDefinition>, element: &XmlElement) -> (r: Result<VariableDefinition, NesstarError>)
    ensures
        match with_location(opt_var_view(var), *element) {
            Ok(v) => r matches Ok(x) && var_view(x) == v,
            Err(m) => r matches Err(NesstarError::InvalidDdi(s)) && s@ == m,
        },
{
    let mut v = match var {
        None => return Err(invalid_str("location outside var")),
        Some(v) => v,
    };
    let w = match attribute(element, "width") {
        Ok(w) => w,
        Err(e) => return Err(e),
    };
    let text = found_text(&w);
    match parse_decimal(text.as_slice(), 0xffff_ffff) {
        Err(e) => Err(invalid(number_message_of("location width", text.as_slice(), e))),
        Ok(n) => {
            proof {
                lemma_digits_value_bounded(text@, u32::MAX as nat);
            }
            v.ddi_width = n as u32;
            Ok(v)
        },
    }
}

/// Apply a `varFormat` tag to the open variable.
fn apply_format(var: Option<VariableDefinition>, element: &XmlElement) -> (r: Result<VariableDefinition, NesstarError>)
    ensures
        match with_format(opt_var_view(var), *element) {
            Ok(v) => r matches Ok(x) && var_view(x) == v,
            Err(m) => r matches Err(NesstarError::InvalidDdi(s)) && s@ == m,
        },
{
    let mut v = match var {
        None => return Err(invalid_str("varFormat outside var")),
        Some(v) => v,
    };
    let t = match attribute(element, "type") {
        Ok(t) => t,
        Err(e) => return Err(e),
    };
    let declared = match &t {
        Some(f) => DeclaredType::from_ddi(Some(f.text.as_str())),
        None => DeclaredType::from_ddi(None),
    };
    proof {
        lemma_declared_type_view(
            match found_view(t) {
                Some(f) => Some(f.0),
                None => None,
            },
            declared,
        );
    }
    v.declared_type = declared;
    let d = match attribute(element, "dcml") {
        Ok(d) => d,
        Err(e) => return Err(e),
    };
    match d {
        None => Ok(v),
        Some(f) => {
            let text = chars_of(f.text.as_str());
            match parse_decimal(text.as_slice(), 0xffff) {
                Err(e) => Err(invalid(number_message_of("varFormat dcml", text.as_slice(), e))),
                Ok(n) => {
                    proof {
                        lemma_digits_value_bounded(text@, u16::MAX as nat);
                    }
                    v.decimals = n as u16;
                    Ok(v)
                },
            }
        },
    }
}

/// A `range` bound: nothing for an absent or blank value, else its double.
fn optional_bound(v: Option<Found>, context: &str) -> (r: Result<Option<u64>, NesstarError>)
    ensures
        match optional_double(found_view(v), context@) {
            Ok(b) => r == Ok::<Option<u64>, NesstarError>(b),
            Err(m) => r matches Err(NesstarError::InvalidDdi(s)) && s@ == m,
        },
{
    match v {
        None => Ok(None),
        Some(f) => {
            let chars = chars_of(f.text.as_str());
            let trimmed = trim_chars(chars.as_slice());
            if trimmed.len() == 0 {
                Ok(None)
            } else {
                match f.number {
                    Ok(bits) => Ok(Some(bits)),
                    Err(e) => Err(invalid(number_message_of(context, chars.as_slice(), e.as_str()))),
                }
            }
        },
    }
}

/// Apply a `range` tag to the open variable.
fn apply_range(var: Option<VariableDefinition>, element: &XmlElement) -> (r: Result<VariableDefinition, NesstarError>)
    ensures
        match with_range(opt_var_view(var), *element) {
            Ok(v) => r matches Ok(x) && var_view(x) == v,
            Err(m) => r matches Err(NesstarError::InvalidDdi(s)) && s@ == m,
        },
{
    let mut v = match var {
        None => return Err(invalid_str("range outside var")),
        Some(v) => v,
    };
    let min = match attribute(element, "min") {
        Ok(m) => m,
        Err(e) => return Err(e),
    };
    let minimum = match optional_bound(min, "range min") {
        Ok(m) => m,
        Err(e) => return Err(e),
    };
    let max = match attribute(element, "max") {
        Ok(m) => m,
        Err(e) => return Err(e),
    };
    let maximum = match optional_bound(max, "range max") {
        Ok(m) => m,
        Err(e) => return Err(e),
    };
    v.range = Some(NumericRange { minimum, maximum });
    Ok(v)
}

/// The value of a list of blocks.
pub open spec fn blocks_view(blocks: Seq<BlockDefinition>) -> Seq<BlockView> {
    blocks.map_values(|b: BlockDefinition| block_view(b))
}

/// Add a finished variable to the first block of each file id it names.
fn append_variable(blocks: &mut Vec<BlockDefinition>, var: VariableDefinition)
    ensures
        blocks_view(final(blocks)@) == append_variable_from(blocks_view(old(blocks)@), var_view(var), 0),
{
    let n_files = var.referenced_file_ids.len();
    let mut k: usize = 0;
    while k < n_files
        invariant
            k <= n_files,
            n_files == var.referenced_file_ids@.len(),
            append_variable_from(blocks_view(old(blocks)@), var_view(var), 0) == append_variable_from(
                blocks_view(blocks@),
                var_view(var),
                k as nat,
            ),
        decreases n_files - k,
    {
        let id = chars_of(var.referenced_file_ids[k].as_str());
        let ghost bv = blocks_view(blocks@);
        let mut i: usize = 0;
        let mut found = false;
        while i < blocks.len()
            invariant_except_break
                i <= blocks@.len(),
                bv == blocks_view(blocks@),
                first_block_with_id(bv, id@, 0) == first_block_with_id(bv, id@, i as int),
                !found,
            ensures
                bv == blocks_view(blocks@),
                found ==> i < blocks@.len() && first_block_with_id(bv, id@, 0) == Some(i as int),
                !found ==> first_block_with_id(bv, id@, 0) is None,
            decreases blocks@.len() - i,
        {
            let b_id = chars_of(blocks[i].file_id.as_str());
            proof {
                assert(bv[i as int].file_id == b_id@);
            }
            if crate::text::chars_equal(b_id.as_slice(), id.as_slice()) {
                found = true;
                break;
            }
            i += 1;
        }
        proof {
            assert(var_view(var).files[k as int] == id@);
        }
        if found {
            let mut b = blocks.remove(i);
            let copy = var.clone();
            b.variables.push(copy);
            blocks.insert(i, b);
            proof {
                assert(vars_view(b.variables@) =~= bv[i as int].variables.push(
                    var_view(var),
                ));
                assert(blocks_view(blocks@) =~= bv.update(
                    i as int,
                    BlockView { variables: bv[i as int].variables.push(var_view(var)), ..bv[i as int] },
                ));
            }
        }
        k += 1;
    }
}


/// What the reader holds between events: the blocks read so far, the open
/// block and variable, and what text is read into.
pub struct DdiState {
    pub blocks: Seq<BlockView>,
    pub block: Option<PendingView>,
    pub variable: Option<VarView>,
    pub target: Option<TextTarget>,
}

/// What one event leads to: reading goes on, the document ended, or the
/// document is refused with a reason.
pub enum DdiStep {
    Continue(DdiState),
    Done(DdiState),
    Failed(Seq<char>),
}

/// The state before the first event.
pub open spec fn initial_state() -> DdiState {
    DdiState { blocks: Seq::empty(), block: None, variable: None, target: None }
}

/// The state with the open variable changed as `r` says, or the failure.
pub open spec fn variable_step(s: DdiState, r: Result<VarView, Seq<char>>) -> DdiStep {
    match r {
        Err(m) => DdiStep::Failed(m),
        Ok(v) => DdiStep::Continue(DdiState { variable: Some(v), ..s }),
    }
}

/// A tag that sets an attribute of the open variable, whether it opens an
/// element or is empty; `None` for any other tag.
pub open spec fn variable_tag_step(s: DdiState, n: Seq<u8>, el: XmlElement) -> Option<DdiStep> {
    if n == utf8("location"@) {
        Some(variable_step(s, with_location(s.variable, el)))
    } else if n == utf8("varFormat"@) {
        Some(variable_step(s, with_format(s.variable, el)))
    } else if n == utf8("range"@) {
        Some(variable_step(s, with_range(s.variable, el)))
    } else {
        None
    }
}

/// A start tag.
pub open spec fn start_step(s: DdiState, el: XmlElement) -> DdiStep {
    let n = local_name(el.name@);
    if n == utf8("fileDscr"@) {
        if s.block is Some {
            DdiStep::Failed("nested fileDscr elements are not supported"@)
        } else {
            match pending_block_of(el) {
                Err(m) => DdiStep::Failed(m),
                Ok(p) => DdiStep::Continue(DdiState { block: Some(p), ..s }),
            }
        }
    } else if n == utf8("var"@) {
        if s.variable is Some {
            DdiStep::Failed("nested var elements are not supported"@)
        } else {
            match pending_variable_of(el) {
                Err(m) => DdiStep::Failed(m),
                Ok(v) => DdiStep::Continue(DdiState { variable: Some(v), ..s }),
            }
        }
    } else if variable_tag_step(s, n, el) is Some {
        variable_tag_step(s, n, el)->0
    } else if n == utf8("caseQnty"@) && s.block is Some {
        DdiStep::Continue(DdiState { target: Some(TextTarget::CaseQuantity), ..s })
    } else if n == utf8("labl"@) && s.variable is Some {
        DdiStep::Continue(DdiState { target: Some(TextTarget::Label), ..s })
    } else {
        DdiStep::Continue(s)
    }
}

/// An empty tag.
pub open spec fn empty_step(s: DdiState, el: XmlElement) -> DdiStep {
    let n = local_name(el.name@);
    if n == utf8("fileDscr"@) {
        match pending_block_of(el) {
            Err(m) => DdiStep::Failed(m),
            Ok(p) => DdiStep::Continue(DdiState { blocks: s.blocks.push(finished_block(p)), ..s }),
        }
    } else if n == utf8("var"@) {
        match pending_variable_of(el) {
            Err(m) => DdiStep::Failed(m),
            Ok(v) => DdiStep::Continue(DdiState { blocks: append_variable_from(s.blocks, v, 0), ..s }),
        }
    } else if variable_tag_step(s, n, el) is Some {
        variable_tag_step(s, n, el)->0
    } else {
        DdiStep::Continue(s)
    }
}

/// Text content, trimmed, read into the row count or the label.
pub open spec fn text_step(s: DdiState, t: Result<String, String>) -> DdiStep {
    match t {
        Err(e) => DdiStep::Failed("text is not UTF-8: "@ + e@),
        Ok(x) => {
            let value = trim(x@);
            match s.target {
                None => DdiStep::Continue(s),
                Some(TextTarget::CaseQuantity) => match s.block {
                    None => DdiStep::Failed("caseQnty without fileDscr"@),
                    Some(b) => match parse_unsigned(value, u64::MAX as nat) {
                        Err(e) => DdiStep::Failed(number_message("caseQnty"@, value, e)),
                        Ok(n) => DdiStep::Continue(
                            DdiState { block: Some(PendingView { row_count: n as u64, ..b }), ..s },
                        ),
                    },
                },
                Some(TextTarget::Label) => match s.variable {
                    None => DdiStep::Failed("labl without var"@),
                    Some(v) => DdiStep::Continue(
                        DdiState { variable: Some(VarView { label: v.label + value, ..v }), ..s },
                    ),
                },
            }
        },
    }
}

/// An end tag.
pub open spec fn end_step(s: DdiState, name: Seq<u8>) -> DdiStep {
    let n = local_name(name);
    if n == utf8("fileDscr"@) {
        match s.block {
            None => DdiStep::Failed("closing fileDscr without opening element"@),
            Some(b) => DdiStep::Continue(
                DdiState { blocks: s.blocks.push(finished_block(b)), block: None, ..s },
            ),
        }
    } else if n == utf8("var"@) {
        match s.variable {
            None => DdiStep::Failed("closing var without opening element"@),
            Some(v) => DdiStep::Continue(
                DdiState { blocks: append_variable_from(s.blocks, v, 0), variable: None, ..s },
            ),
        }
    } else if n == utf8("caseQnty"@) || n == utf8("labl"@) {
        DdiStep::Continue(DdiState { target: None, ..s })
    } else {
        DdiStep::Continue(s)
    }
}

/// What one event does to the state.
pub open spec fn ddi_step(s: DdiState, e: XmlEvent) -> DdiStep {
    match e {
        XmlEvent::Start(el) => start_step(s, el),
        XmlEvent::Empty(el) => empty_step(s, el),
        XmlEvent::Text(t) => text_step(s, t),
        XmlEvent::End(name) => end_step(s, name@),
        XmlEvent::Eof => DdiStep::Done(s),
        XmlEvent::Failed(m) => DdiStep::Failed("XML parse error: "@ + m@),
        XmlEvent::Other => DdiStep::Continue(s),
    }
}

/// The blocks' file id numbers, as sort keys.
pub open spec fn block_keys(blocks: Seq<BlockView>) -> Seq<u64> {
    blocks.map_values(|b: BlockView| b.file_id_number as u64)
}

/// The blocks once the document has ended: refused inside an open block or
/// variable, else stably sorted by file id number.
pub open spec fn ddi_finish(s: DdiState) -> Result<Seq<BlockView>, Seq<char>> {
    if s.block is Some || s.variable is Some {
        Err("unexpected end of XML inside a DDI element"@)
    } else {
        Ok(crate::order::reorder(s.blocks, crate::order::stable_order_of(block_keys(s.blocks))))
    }
}

/// The state after the events from `i` on, up to the end of the document
/// or of the list; or the first failure.
pub open spec fn ddi_run(s: DdiState, events: Seq<XmlEvent>, i: nat) -> Result<DdiState, Seq<char>>
    decreases events.len() - i,
{
    if i >= events.len() {
        Ok(s)
    } else {
        match ddi_step(s, events[i as int]) {
            DdiStep::Continue(t) => ddi_run(t, events, i + 1),
            DdiStep::Done(t) => Ok(t),
            DdiStep::Failed(m) => Err(m),
        }
    }
}

/// The blocks a DDI document describes, or why it is refused.
pub open spec fn ddi_result(events: Seq<XmlEvent>) -> Result<Seq<BlockView>, Seq<char>> {
    match ddi_run(initial_state(), events, 0) {
        Err(m) => Err(m),
        Ok(s) => ddi_finish(s),
    }
}


/// Whether the local name `n` is `s`.
fn name_is(n: &Vec<u8>, s: &str) -> (r: bool)
    ensures
        r == (n@ == utf8(s@)),
{
    let target = utf8_bytes(s);
    crate::bytes::bytes_equal(n.as_slice(), target.as_slice())
}

/// A reason built from a literal and a tokeniser message.
fn prefixed(prefix: &str, detail: &String) -> (e: NesstarError)
    ensures
        e matches NesstarError::InvalidDdi(s) && s@ == prefix@ + detail@,
{
    let mut m: Vec<char> = Vec::new();
    push_str(&mut m, prefix);
    push_str(&mut m, detail.as_str());
    invalid(m)
}

/// A copy of a block.
fn clone_block(b: &BlockDefinition) -> (r: BlockDefinition)
    ensures
        block_view(r) == block_view(*b),
{
    let mut variables: Vec<VariableDefinition> = Vec::new();
    let mut i: usize = 0;
    while i < b.variables.len()
        invariant
            i <= b.variables@.len(),
            variables@.len() == i,
            vars_view(variables@) == vars_view(b.variables@.take(i as int)),
        decreases b.variables@.len() - i,
    {
        let v = b.variables[i].clone();
        proof {
            assert(var_view(v) == var_view(b.variables@[i as int]));
        }
        let ghost prev = variables@;
        variables.push(v);
        i += 1;
        proof {
            assert forall|k: int| 0 <= k < i - 1 implies #[trigger] vars_view(variables@)[k] == vars_view(prev)[k] by {
                assert(variables@[k] == prev[k]);
            }
            assert(vars_view(variables@) =~= vars_view(b.variables@.take(i as int)));
        }
    }
    proof {
        assert(b.variables@.take(i as int) =~= b.variables@);
    }
    BlockDefinition {
        file_id: b.file_id.clone(),
        file_id_number: b.file_id_number,
        name: b.name.clone(),
        row_count: b.row_count,
        variables,
    }
}

/// Reads a DDI codebook one XML event at a time.
pub struct DdiParser {
    blocks: Vec<BlockDefinition>,
    block: Option<PendingBlock>,
    variable: Option<VariableDefinition>,
    target: Option<TextTarget>,
}

impl DdiParser {
    /// What the parser holds.
    pub closed spec fn state(&self) -> DdiState {
        DdiState {
            blocks: blocks_view(self.blocks@),
            block: match self.block {
                Some(p) => Some(pending_view(p)),
                None => None,
            },
            variable: opt_var_view(self.variable),
            target: self.target,
        }
    }

    /// A parser before the first event.
    pub fn new() -> (p: Self)
        ensures
            p.state() == initial_state(),
    {
        let p = DdiParser { blocks: Vec::new(), block: None, variable: None, target: None };
        proof {
            assert(blocks_view(p.blocks@) =~= Seq::empty());
        }
        p
    }

    /// Apply a tag that sets an attribute of the open variable.
    fn variable_tag(&mut self, n: &Vec<u8>, el: &XmlElement) -> (r: Option<Result<(), NesstarError>>)
        ensures
            match variable_tag_step(old(self).state(), n@, *el) {
                None => r is None && *final(self) == *old(self),
                Some(DdiStep::Continue(s)) => r == Some(Ok::<(), NesstarError>(())) && final(self).state() == s,
                Some(DdiStep::Done(_)) => false,
                Some(DdiStep::Failed(m)) => r matches Some(Err(NesstarError::InvalidDdi(x))) && x@ == m,
            },
    {
        let ghost s = old(self).state();
        if name_is(n, "location") {
            let v = self.variable.take();
            match apply_location(v, el) {
                Ok(x) => {
                    self.variable = Some(x);
                    Some(Ok(()))
                },
                Err(e) => Some(Err(e)),
            }
        } else if name_is(n, "varFormat") {
            let v = self.variable.take();
            match apply_format(v, el) {
                Ok(x) => {
                    self.variable = Some(x);
                    Some(Ok(()))
                },
                Err(e) => Some(Err(e)),
            }
        } else if name_is(n, "range") {
            let v = self.variable.take();
            match apply_range(v, el) {
                Ok(x) => {
                    self.variable = Some(x);
                    Some(Ok(()))
                },
                Err(e) => Some(Err(e)),
            }
        } else {
            None
        }
    }

    /// A start tag.
    fn start(&mut self, el: &XmlElement) -> (r: Result<(), NesstarError>)
        ensures
            match start_step(old(self).state(), *el) {
                DdiStep::Continue(s) => r is Ok && final(self).state() == s,
                DdiStep::Done(_) => false,
                DdiStep::Failed(m) => r matches Err(NesstarError::InvalidDdi(x)) && x@ == m,
            },
    {
        let n = local_name_of(el.name.as_slice());
        if name_is(&n, "fileDscr") {
            if self.block.is_some() {
                return Err(invalid_str("nested fileDscr elements are not supported"));
            }
            match pending_block(el) {
                Ok(p) => {
                    self.block = Some(p);
                    Ok(())
                },
                Err(e) => Err(e),
            }
        } else if name_is(&n, "var") {
            if self.variable.is_some() {
                return Err(invalid_str("nested var elements are not supported"));
            }
            match pending_variable(el) {
                Ok(v) => {
                    self.variable = Some(v);
                    Ok(())
                },
                Err(e) => Err(e),
            }
        } else {
            match self.variable_tag(&n, el) {
                Some(r) => r,
                None => {
                    if name_is(&n, "caseQnty") && self.block.is_some() {
                        self.target = Some(TextTarget::CaseQuantity);
                    } else if name_is(&n, "labl") && self.variable.is_some() {
                        self.target = Some(TextTarget::Label);
                    }
                    Ok(())
                },
            }
        }
    }

    /// An empty tag.
    fn empty(&mut self, el: &XmlElement) -> (r: Result<(), NesstarError>)
        ensures
            match empty_step(old(self).state(), *el) {
                DdiStep::Continue(s) => r is Ok && final(self).state() == s,
                DdiStep::Done(_) => false,
                DdiStep::Failed(m) => r matches Err(NesstarError::InvalidDdi(x)) && x@ == m,
            },
    {
        let n = local_name_of(el.name.as_slice());
        if name_is(&n, "fileDscr") {
            match pending_block(el) {
                Ok(p) => {
                    let b = finish_block(p);
                    self.blocks.push(b);
                    proof {
                        assert(blocks_view(self.blocks@) =~= blocks_view(old(self).blocks@).push(
                            block_view(b),
                        ));
                    }
                    Ok(())
                },
                Err(e) => Err(e),
            }
        } else if name_is(&n, "var") {
            match pending_variable(el) {
                Ok(v) => {
                    append_variable(&mut self.blocks, v);
                    Ok(())
                },
                Err(e) => Err(e),
            }
        } else {
            match self.variable_tag(&n, el) {
                Some(r) => r,
                None => Ok(()),
            }
        }
    }

    /// Text content.
    fn text(&mut self, t: &Result<String, String>) -> (r: Result<(), NesstarError>)
        ensures
            match text_step(old(self).state(), *t) {
                DdiStep::Continue(s) => r is Ok && final(self).state() == s,
                DdiStep::Done(_) => false,
                DdiStep::Failed(m) => r matches Err(NesstarError::InvalidDdi(x)) && x@ == m,
            },
    {
        match t {
            Err(e) => Err(prefixed("text is not UTF-8: ", e)),
            Ok(x) => {
                let chars = chars_of(x.as_str());
                let value = trim_chars(chars.as_slice());
                match self.target {
                    None => Ok(()),
                    Some(TextTarget::CaseQuantity) => {
                        let b = self.block.take();
                        match b {
                            None => Err(invalid_str("caseQnty without fileDscr")),
                            Some(mut p) => match parse_decimal(value.as_slice(), 0xffff_ffff_ffff_ffff) {
                                Err(e) => Err(invalid(number_message_of("caseQnty", value.as_slice(), e))),
                                Ok(n) => {
                                    p.row_count = n;
                                    self.block = Some(p);
                                    Ok(())
                                },
                            },
                        }
                    },
                    Some(TextTarget::Label) => {
                        let v = self.variable.take();
                        match v {
                            None => Err(invalid_str("labl without var")),
                            Some(mut var) => {
                                let mut label = chars_of(var.label.as_str());
                                push_chars(&mut label, value.as_slice());
                                var.label = string_from_chars(label.as_slice());
                                self.variable = Some(var);
                                Ok(())
                            },
                        }
                    },
                }
            },
        }
    }

    /// An end tag.
    fn end(&mut self, name: &Vec<u8>) -> (r: Result<(), NesstarError>)
        ensures
            match end_step(old(self).state(), name@) {
                DdiStep::Continue(s) => r is Ok && final(self).state() == s,
                DdiStep::Done(_) => false,
                DdiStep::Failed(m) => r matches Err(NesstarError::InvalidDdi(x)) && x@ == m,
            },
    {
        let n = local_name_of(name.as_slice());
        if name_is(&n, "fileDscr") {
            let b = self.block.take();
            match b {
                None => Err(invalid_str("closing fileDscr without opening element")),
                Some(p) => {
                    let done = finish_block(p);
                    self.blocks.push(done);
                    proof {
                        assert(blocks_view(self.blocks@) =~= blocks_view(old(self).blocks@).push(
                            block_view(done),
                        ));
                    }
                    Ok(())
                },
            }
        } else if name_is(&n, "var") {
            let v = self.variable.take();
            match v {
                None => Err(invalid_str("closing var without opening element")),
                Some(var) => {
                    append_variable(&mut self.blocks, var);
                    Ok(())
                },
            }
        } else {
            if name_is(&n, "caseQnty") || name_is(&n, "labl") {
                self.target = None;
            }
            Ok(())
        }
    }

    /// Take one event: `Ok(true)` once the document has ended, `Ok(false)`
    /// while it goes on, or why it is refused.
    pub fn step(&mut self, event: &XmlEvent) -> (r: Result<bool, NesstarError>)
        ensures
            match ddi_step(old(self).state(), *event) {
                DdiStep::Continue(s) => r == Ok::<bool, NesstarError>(false) && final(self).state() == s,
                DdiStep::Done(s) => r == Ok::<bool, NesstarError>(true) && final(self).state() == s,
                DdiStep::Failed(m) => r matches Err(NesstarError::InvalidDdi(x)) && x@ == m,
            },
    {
        match event {
            XmlEvent::Start(el) => match self.start(el) {
                Ok(()) => Ok(false),
                Err(e) => Err(e),
            },
            XmlEvent::Empty(el) => match self.empty(el) {
                Ok(()) => Ok(false),
                Err(e) => Err(e),
            },
            XmlEvent::Text(t) => match self.text(t) {
                Ok(()) => Ok(false),
                Err(e) => Err(e),
            },
            XmlEvent::End(name) => match self.end(name) {
                Ok(()) => Ok(false),
                Err(e) => Err(e),
            },
            XmlEvent::Eof => Ok(true),
            XmlEvent::Failed(m) => Err(prefixed("XML parse error: ", m)),
            XmlEvent::Other => Ok(false),
        }
    }

    /// The survey once the document has ended: refused inside an open
    /// block or variable, else its blocks stably sorted by file id number.
    pub fn finish(self) -> (r: Result<SurveyMetadata, NesstarError>)
        ensures
            match ddi_finish(self.state()) {
                Ok(bs) => r matches Ok(m) && blocks_view(m.blocks@) == bs,
                Err(msg) => r matches Err(NesstarError::InvalidDdi(x)) && x@ == msg,
            },
            r matches Ok(m) ==> blocks_ascending(blocks_view(m.blocks@)),
    {
        if self.block.is_some() || self.variable.is_some() {
            return Err(invalid_str("unexpected end of XML inside a DDI element"));
        }
        let ghost bv = blocks_view(self.blocks@);
        let n = self.blocks.len();
        let mut keys: Vec<u64> = Vec::new();
        let mut i: usize = 0;
        while i < n
            invariant
                i <= n,
                n == self.blocks@.len(),
                bv == blocks_view(self.blocks@),
                keys@ == block_keys(bv).take(i as int),
            decreases n - i,
        {
            keys.push(self.blocks[i].file_id_number as u64);
            i += 1;
            proof {
                assert(keys@ =~= block_keys(bv).take(i as int));
            }
        }
        proof {
            assert(keys@ =~= block_keys(bv));
        }
        let order = crate::order::stable_order(&keys);
        proof {
            crate::order::lemma_is_the_stable_order(keys@, order@);
            lemma_sorted_blocks(bv, order@);
        }
        let mut out: Vec<BlockDefinition> = Vec::new();
        let mut j: usize = 0;
        while j < n
            invariant
                j <= n,
                n == self.blocks@.len(),
                n == order@.len(),
                bv == blocks_view(self.blocks@),
                crate::order::is_stable_order(keys@, order@),
                keys@.len() == n,
                out@.len() == j,
                blocks_view(out@) == crate::order::reorder(bv, order@).take(j as int),
            decreases n - j,
        {
            proof {
                assert(order@[j as int] < n);
            }
            let b = clone_block(&self.blocks[order[j]]);
            proof {
                assert(block_view(b) == bv[order@[j as int] as int]);
                assert(crate::order::reorder(bv, order@)[j as int] == bv[order@[j as int] as int]);
            }
            let ghost prev = out@;
            out.push(b);
            j += 1;
            proof {
                assert forall|k: int| 0 <= k < j - 1 implies #[trigger] blocks_view(out@)[k] == blocks_view(prev)[k] by {
                    assert(out@[k] == prev[k]);
                }
                assert(blocks_view(out@) =~= crate::order::reorder(bv, order@).take(j as int));
            }
        }
        proof {
            assert(crate::order::reorder(bv, order@).take(j as int) =~= crate::order::reorder(bv, order@));
        }
        Ok(SurveyMetadata { blocks: out })
    }
}

/// The blocks are in ascending order of file id number.
pub open spec fn blocks_ascending(blocks: Seq<BlockView>) -> bool {
    forall|i: int, j: int|
        0 <= i < j < blocks.len() ==> (#[trigger] blocks[i]).file_id_number
            <= (#[trigger] blocks[j]).file_id_number
}

/// Reordering by the stable order of the file id numbers sorts the blocks.
proof fn lemma_sorted_blocks(blocks: Seq<BlockView>, order: Seq<usize>)
    requires
        crate::order::is_stable_order(block_keys(blocks), order),
    ensures
        blocks_ascending(crate::order::reorder(blocks, order)),
{
    let sorted = crate::order::reorder(blocks, order);
    assert forall|i: int, j: int| 0 <= i < j < sorted.len() implies (#[trigger] sorted[i]).file_id_number
        <= (#[trigger] sorted[j]).file_id_number by {
        assert(crate::order::key_before(block_keys(blocks), order[i] as int, order[j] as int));
    }
}

/// `r` is what reading a codebook with the events `events` gives: its
/// blocks, or the reason it is not valid DDI.
pub open spec fn ddi_outcome(events: Seq<XmlEvent>, r: Result<SurveyMetadata, NesstarError>) -> bool {
    match ddi_result(events) {
        Ok(bs) => r matches Ok(m) && blocks_view(m.blocks@) == bs,
        Err(msg) => r matches Err(NesstarError::InvalidDdi(x)) && x@ == msg,
    }
}

/// Read a DDI codebook from its XML events, as the tokeniser produced them
/// in document order. The blocks come out in ascending order of file id
/// number, blocks with equal numbers in document order.
pub fn parse_ddi_events(events: &Vec<XmlEvent>) -> (r: Result<SurveyMetadata, NesstarError>)
    ensures
        ddi_outcome(events@, r),
        r matches Ok(m) ==> blocks_ascending(blocks_view(m.blocks@)),
{
    let mut parser = DdiParser::new();
    let mut i: usize = 0;
    while i < events.len()
        invariant
            i <= events@.len(),
            ddi_run(initial_state(), events@, 0) == ddi_run(parser.state(), events@, i as nat),
        decreases events@.len() - i,
    {
        match parser.step(&events[i]) {
            Err(e) => return Err(e),
            Ok(true) => {
                i = events.len();
            },
            Ok(false) => {
                i += 1;
            },
        }
    }
    parser.finish()
}

/// The local names of the elements whose attributes the reader reads.
pub open spec fn reads_attributes(n: Seq<u8>) -> bool {
    ||| n == utf8("fileDscr"@)
    ||| n == utf8("var"@)
    ||| n == utf8("location"@)
    ||| n == utf8("varFormat"@)
    ||| n == utf8("range"@)
}

/// Two attributes that are the same up to the prefix of their keys.
pub open spec fn same_attribute(a: XmlAttribute, b: XmlAttribute) -> bool {
    match (a, b) {
        (
            XmlAttribute::Entry { key: k1, value: v1, number: n1 },
            XmlAttribute::Entry { key: k2, value: v2, number: n2 },
        ) => {
            &&& local_name(k1@) == local_name(k2@)
            &&& match (v1, v2) {
                (Ok(x), Ok(y)) => x@ == y@,
                (Err(x), Err(y)) => x@ == y@,
                _ => false,
            }
            &&& match (n1, n2) {
                (Ok(x), Ok(y)) => x == y,
                (Err(x), Err(y)) => x@ == y@,
                _ => false,
            }
        },
        (XmlAttribute::Malformed(x), XmlAttribute::Malformed(y)) => x@ == y@,
        _ => false,
    }
}

/// Two attribute lists that are the same up to the prefixes of their keys.
pub open spec fn same_attributes(a: Seq<XmlAttribute>, b: Seq<XmlAttribute>) -> bool {
    a.len() == b.len() && forall|i: int| 0 <= i < a.len() ==> same_attribute(#[trigger] a[i], b[i])
}

/// Two tags that are the same up to namespace prefixes: one local name and,
/// on the elements whose attributes are read, attributes that agree up to
/// the prefixes of their keys. Other elements (such as the root, which may
/// carry namespace declarations) may differ in their attributes.
pub open spec fn same_tag(x: XmlElement, y: XmlElement) -> bool {
    &&& local_name(x.name@) == local_name(y.name@)
    &&& reads_attributes(local_name(x.name@)) ==> same_attributes(x.attributes@, y.attributes@)
}

/// Two events that are the same up to namespace prefixes.
pub open spec fn same_event(a: XmlEvent, b: XmlEvent) -> bool {
    match (a, b) {
        (XmlEvent::Start(x), XmlEvent::Start(y)) => same_tag(x, y),
        (XmlEvent::Empty(x), XmlEvent::Empty(y)) => same_tag(x, y),
        (XmlEvent::Text(Ok(x)), XmlEvent::Text(Ok(y))) => x@ == y@,
        (XmlEvent::Text(Err(x)), XmlEvent::Text(Err(y))) => x@ == y@,
        (XmlEvent::End(x), XmlEvent::End(y)) => local_name(x@) == local_name(y@),
        (XmlEvent::Eof, XmlEvent::Eof) => true,
        (XmlEvent::Failed(x), XmlEvent::Failed(y)) => x@ == y@,
        (XmlEvent::Other, XmlEvent::Other) => true,
        _ => false,
    }
}

proof fn lemma_find_attribute_same(a: Seq<XmlAttribute>, b: Seq<XmlAttribute>, wanted: Seq<u8>, i: nat)
    requires
        same_attributes(a, b),
    ensures
        find_attribute(a, wanted, i) == find_attribute(b, wanted, i),
    decreases a.len() - i,
{
    if i < a.len() {
        assert(same_attribute(a[i as int], b[i as int]));
        lemma_find_attribute_same(a, b, wanted, i + 1);
    }
}

proof fn lemma_attributes_same(x: XmlElement, y: XmlElement)
    requires
        same_attributes(x.attributes@, y.attributes@),
    ensures
        forall|w: &str| #[trigger] attribute_of(x, w) == attribute_of(y, w),
{
    assert forall|w: &str| #[trigger] attribute_of(x, w) == attribute_of(y, w) by {
        lemma_find_attribute_same(x.attributes@, y.attributes@, utf8(w@), 0);
    }
}

proof fn lemma_step_same(s: DdiState, a: XmlEvent, b: XmlEvent)
    requires
        same_event(a, b),
    ensures
        ddi_step(s, a) == ddi_step(s, b),
{
    match (a, b) {
        (XmlEvent::Start(x), XmlEvent::Start(y)) => {
            if reads_attributes(local_name(x.name@)) {
                lemma_attributes_same(x, y);
            }
        },
        (XmlEvent::Empty(x), XmlEvent::Empty(y)) => {
            if reads_attributes(local_name(x.name@)) {
                lemma_attributes_same(x, y);
            }
        },
        _ => {},
    }
}

proof fn lemma_run_same(s: DdiState, a: Seq<XmlEvent>, b: Seq<XmlEvent>, i: nat)
    requires
        a.len() == b.len(),
        forall|k: int| 0 <= k < a.len() ==> same_event(#[trigger] a[k], b[k]),
    ensures
        ddi_run(s, a, i) == ddi_run(s, b, i),
    decreases a.len() - i,
{
    if i < a.len() {
        assert(same_event(a[i as int], b[i as int]));
        lemma_step_same(s, a[i as int], b[i as int]);
        match ddi_step(s, a[i as int]) {
            DdiStep::Continue(t) => lemma_run_same(t, a, b, i + 1),
            _ => {},
        }
    }
}

/// Namespace prefixes are ignored: two documents whose events agree up to
/// the prefixes of element names and attribute keys (and the attributes of
/// elements the reader does not read, such as namespace declarations on the
/// root) describe the same blocks, or are refused for the same reason.
pub proof fn prefixes_are_ignored(a: Seq<XmlEvent>, b: Seq<XmlEvent>)
    requires
        a.len() == b.len(),
        forall|k: int| 0 <= k < a.len() ==> same_event(#[trigger] a[k], b[k]),
    ensures
        ddi_result(a) == ddi_result(b),
{
    lemma_run_same(initial_state(), a, b, 0);
}

/// Read a DDI codebook from its XML text. Attribute values are read as
/// numbers by `parse_number` (a double's bit pattern, or why the text is not
/// a number); the blocks come out as [`parse_ddi_events`] gives them on the
/// document's events.
pub fn parse_ddi_bytes<P: Fn(&str) -> Result<u64, String>>(text: &[u8], parse_number: &P) -> (r:
    Result<SurveyMetadata, NesstarError>)
    requires
        forall|t: &str| parse_number.requires((t,)),
    ensures
        exists|events: Seq<XmlEvent>|
            #[trigger] events_cooked(*parse_number, xml_tokens(text@), events) && ddi_outcome(events, r),
        r matches Ok(m) ==> blocks_ascending(blocks_view(m.blocks@)),
{
    let events = xml_events(text, parse_number);
    let r = parse_ddi_events(&events);
    proof {
        assert(events_cooked(*parse_number, xml_tokens(text@), events@));
    }
    r
}

} // verus!
