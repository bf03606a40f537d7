//! The error type shared by the output formats.

use vstd::prelude::*;
use crate::text::{push_str, string_from_chars};

verus! {

/// Why a job over a source could not be done.
#[derive(Debug)]
pub enum NesstarError {
    InvalidSource { path: String, reason: String },
    InvalidDdi(String),
    Cancelled,
    Unsupported(String),
}

/// The text of an error, as it is shown to a user.
pub open spec fn nesstar_error_text(e: NesstarError) -> Seq<char> {
    match e {
        NesstarError::InvalidSource { path, reason } => "invalid source "@ + path@ + ": "@ + reason@,
        NesstarError::InvalidDdi(reason) => "invalid DDI: "@ + reason@,
        NesstarError::Cancelled => "operation cancelled"@,
        NesstarError::Unsupported(what) => "unsupported feature: "@ + what@,
    }
}

impl NesstarError {
    /// The text of this error, as it is shown to a user.
    pub fn message(&self) -> (r: String)
        ensures
            r@ == nesstar_error_text(*self),
    {
        let mut m: Vec<char> = Vec::new();
        match self {
            NesstarError::InvalidSource { path, reason } => {
                push_str(&mut m, "invalid source ");
                push_str(&mut m, path.as_str());
                push_str(&mut m, ": ");
                push_str(&mut m, reason.as_str());
            },
            NesstarError::InvalidDdi(reason) => {
                push_str(&mut m, "invalid DDI: ");
                push_str(&mut m, reason.as_str());
            },
            NesstarError::Cancelled => {
                push_str(&mut m, "operation cancelled");
            },
            NesstarError::Unsupported(what) => {
                push_str(&mut m, "unsupported feature: ");
                push_str(&mut m, what.as_str());
            },
        }
        proof {
            assert(m@ =~= nesstar_error_text(*self));
        }
        string_from_chars(m.as_slice())
    }
}

} // verus!
