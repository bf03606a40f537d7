//! The survey model that DDI metadata and the binary layouts share.

use vstd::prelude::*;
use crate::text::{ascii_lower, chars_equal_str, chars_of, lower_chars, string_from_chars, trim, trim_chars};

verus! {

/// The data blocks that a DDI codebook describes.
#[derive(Debug)]
pub struct SurveyMetadata {
    pub blocks: Vec<BlockDefinition>,
}

/// One DDI `fileDscr`: a rectangular dataset.
#[derive(Debug)]
pub struct BlockDefinition {
    pub file_id: String,
    pub file_id_number: u32,
    pub name: String,
    pub row_count: u64,
    pub variables: Vec<VariableDefinition>,
}

/// One DDI `var`.
#[derive(Debug)]
pub struct VariableDefinition {
    pub name: String,
    pub label: String,
    pub declared_type: DeclaredType,
    pub ddi_width: u32,
    pub decimals: u16,
    pub range: Option<NumericRange>,
    /// File IDs from the DDI `files` attribute, in declaration order.
    pub referenced_file_ids: Vec<String>,
}

/// The type declared by DDI's `varFormat` element.
#[derive(Debug, PartialEq, Eq)]
pub enum DeclaredType {
    Character,
    Numeric,
    Other(String),
}

/// Numeric bounds declared by a DDI `range` element. Each bound is kept as
/// the IEEE-754 bit pattern of the double that the DDI text denotes.
#[derive(Clone, Copy, PartialEq, Eq, Structural, Debug)]
pub struct NumericRange {
    pub minimum: Option<u64>,
    pub maximum: Option<u64>,
}

/// One decoded cell.
#[derive(Debug, PartialEq, Eq)]
pub enum CellValue {
    Missing,
    Text(String),
}

impl Clone for DeclaredType {
    fn clone(&self) -> (res: Self)
        ensures
    {
        match self {
            DeclaredType::Character => DeclaredType::Character,
            DeclaredType::Numeric => DeclaredType::Numeric,
            DeclaredType::Other(s) => DeclaredType::Other(s.clone()),
        }
    }
}

impl Clone for CellValue {
    fn clone(&self) -> (res: Self)
        ensures
    {
        match self {
            CellValue::Missing => CellValue::Missing,
            CellValue::Text(s) => CellValue::Text(s.clone()),
        }
    }
}

/// `cell` is missing when `text` is `None`, and otherwise holds `text`.
pub open spec fn cell_holds(cell: CellValue, text: Option<Seq<char>>) -> bool {
    match text {
        None => cell is Missing,
        Some(t) => cell matches CellValue::Text(s) && s@ == t,
    }
}

/// A copy of a list of strings.
pub fn clone_strings(v: &Vec<String>) -> (res: Vec<String>)
    ensures
        res@ == v@,
{
    let mut res: Vec<String> = Vec::new();
    let mut i: usize = 0;
    while i < v.len()
        invariant
            i <= v@.len(),
            res@ == v@.take(i as int),
        decreases v@.len() - i,
    {
        res.push(v[i].clone());
        i += 1;
        proof {
            assert(res@ =~= v@.take(i as int));
        }
    }
    proof {
        assert(v@.take(i as int) =~= v@);
    }
    res
}

/// `a` and `b` describe the same variable, field by field.
pub open spec fn same_variable(a: VariableDefinition, b: VariableDefinition) -> bool {
    &&& a.name == b.name
    &&& a.label == b.label
    &&& a.declared_type == b.declared_type
    &&& a.ddi_width == b.ddi_width
    &&& a.decimals == b.decimals
    &&& a.range == b.range
    &&& a.referenced_file_ids@ == b.referenced_file_ids@
}

impl Clone for VariableDefinition {
    fn clone(&self) -> (res: Self)
        ensures
            res.name == self.name,
            res.label == self.label,
            res.declared_type == self.declared_type,
            res.ddi_width == self.ddi_width,
            res.decimals == self.decimals,
            res.range == self.range,
            res.referenced_file_ids@ == self.referenced_file_ids@,
            same_variable(res, *self),
    {
        VariableDefinition {
            name: self.name.clone(),
            label: self.label.clone(),
            declared_type: self.declared_type.duplicate(),
            ddi_width: self.ddi_width,
            decimals: self.decimals,
            range: self.range,
            referenced_file_ids: clone_strings(&self.referenced_file_ids),
        }
    }
}

/// The normalised DDI type name: trimmed and in ASCII lower case, with an
/// absent type read as `character`.
pub open spec fn ddi_type_key(value: Option<Seq<char>>) -> Seq<char> {
    let raw = match value {
        Some(v) => v,
        None => "character"@,
    };
    trim(raw).map_values(|c: char| ascii_lower(c))
}

/// The declared type that a DDI `varFormat` type names.
pub open spec fn declared_type_spec(value: Option<Seq<char>>, r: DeclaredType) -> bool {
    let key = ddi_type_key(value);
    if key == "character"@ || key == "string"@ {
        r == DeclaredType::Character
    } else if key == "numeric"@ || key == "number"@ {
        r == DeclaredType::Numeric
    } else {
        r matches DeclaredType::Other(s) && s@ == key
    }
}

impl DeclaredType {
    /// Classify a DDI `varFormat` `type` attribute.
    pub fn from_ddi(value: Option<&str>) -> (r: Self)
        ensures
            declared_type_spec(
                match value {
                    Some(v) => Some(v@),
                    None => None,
                },
                r,
            ),
    {
        let raw = match value {
            Some(v) => chars_of(v),
            None => chars_of("character"),
        };
        let trimmed = trim_chars(raw.as_slice());
        let key = lower_chars(trimmed.as_slice());
        if chars_equal_str(key.as_slice(), "character") || chars_equal_str(key.as_slice(), "string") {
            DeclaredType::Character
        } else if chars_equal_str(key.as_slice(), "numeric") || chars_equal_str(
            key.as_slice(),
            "number",
        ) {
            DeclaredType::Numeric
        } else {
            DeclaredType::Other(string_from_chars(key.as_slice()))
        }
    }

    /// A copy of this type.
    pub fn duplicate(&self) -> (r: Self)
        ensures
            r == *self,
    {
        match self {
            DeclaredType::Character => DeclaredType::Character,
            DeclaredType::Numeric => DeclaredType::Numeric,
            DeclaredType::Other(s) => DeclaredType::Other(s.clone()),
        }
    }

    /// Whether this is the numeric type.
    pub fn is_numeric(&self) -> (r: bool)
        ensures
            r == (*self is Numeric),
    {
        match self {
            DeclaredType::Numeric => true,
            _ => false,
        }
    }

    /// Whether this is the character type.
    pub fn is_character(&self) -> (r: bool)
        ensures
            r == (*self is Character),
    {
        match self {
            DeclaredType::Character => true,
            _ => false,
        }
    }
}

} // verus!
