//! Read-only access to the bytes of a Nesstar container.

use vstd::prelude::*;
use crate::text::{nat_text, push_nat, push_str, string_from_chars};

verus! {

/// The eight bytes every Nesstar container starts with.
pub open spec fn nesstar_magic() -> Seq<u8> {
    seq![0x4Eu8, 0x45, 0x53, 0x53, 0x54, 0x41, 0x52, 0x54]
}

/// Why a source cannot be used.
#[derive(Debug)]
pub enum SourceError {
    Invalid { path: String, reason: String },
    OutOfBounds { path: String, context: &'static str, start: usize, end: usize, length: usize },
}

/// A read-only source held for the conversion job's lifetime.
pub struct ReadOnlySource {
    path: String,
    bytes: Vec<u8>,
}

/// Why bytes without the Nesstar magic are refused.
pub open spec fn magic_reason(bytes: Seq<u8>) -> Seq<char> {
    if bytes.len() < 8 {
        "file is shorter than the NESSTART header"@
    } else {
        "first eight bytes are not NESSTART"@
    }
}

/// The text of a source error, as it is shown to a user.
pub open spec fn source_error_text(e: SourceError) -> Seq<char> {
    match e {
        SourceError::Invalid { path, reason } => "invalid source `"@ + path@ + "`: "@ + reason@,
        SourceError::OutOfBounds { path, context, start, end, length } => "source `"@ + path@ + "` "@
            + context@ + ": range "@ + nat_text(start as nat) + ".."@ + nat_text(end as nat)
            + " exceeds "@ + nat_text(length as nat) + " bytes"@,
    }
}

impl SourceError {
    /// The text of this error, as it is shown to a user.
    pub fn message(&self) -> (r: String)
        ensures
            r@ == source_error_text(*self),
    {
        let mut m: Vec<char> = Vec::new();
        match self {
            SourceError::Invalid { path, reason } => {
                push_str(&mut m, "invalid source `");
                push_str(&mut m, path.as_str());
                push_str(&mut m, "`: ");
                push_str(&mut m, reason.as_str());
            },
            SourceError::OutOfBounds { path, context, start, end, length } => {
                push_str(&mut m, "source `");
                push_str(&mut m, path.as_str());
                push_str(&mut m, "` ");
                push_str(&mut m, context);
                push_str(&mut m, ": range ");
                push_nat(&mut m, *start as u64);
                push_str(&mut m, "..");
                push_nat(&mut m, *end as u64);
                push_str(&mut m, " exceeds ");
                push_nat(&mut m, *length as u64);
                push_str(&mut m, " bytes");
            },
        }
        proof {
            assert(m@ =~= source_error_text(*self));
        }
        string_from_chars(m.as_slice())
    }
}

/// `bytes` begin with the Nesstar magic.
pub open spec fn has_magic(bytes: Seq<u8>) -> bool {
    bytes.len() >= 8 && bytes.take(8) == nesstar_magic()
}

impl ReadOnlySource {
    /// The bytes of the source.
    pub closed spec fn data(&self) -> Seq<u8> {
        self.bytes@
    }

    /// The name the source was opened under.
    pub closed spec fn path_string(&self) -> String {
        self.path
    }

    /// The name the source was opened under, as characters.
    pub open spec fn name(&self) -> Seq<char> {
        self.path_string()@
    }

    /// The error, if any, of taking `length` bytes at `start`.
    pub open spec fn slice_error(&self, start: usize, length: usize, context: &'static str) -> Option<
        SourceError,
    > {
        if start + length > usize::MAX {
            Some(
                SourceError::OutOfBounds {
                    path: self.path_string(),
                    context,
                    start,
                    end: usize::MAX,
                    length: self.data().len() as usize,
                },
            )
        } else if start + length > self.data().len() {
            Some(
                SourceError::OutOfBounds {
                    path: self.path_string(),
                    context,
                    start,
                    end: (start + length) as usize,
                    length: self.data().len() as usize,
                },
            )
        } else {
            None
        }
    }

    /// A source over `bytes` that were read from `path`; refused unless the
    /// bytes begin with `NESSTART`.
    pub fn with_path(path: String, bytes: Vec<u8>) -> (r: Result<Self, SourceError>)
        ensures
            has_magic(bytes@) ==> (r matches Ok(s) && s.data() == bytes@ && s.name() == path@),
            !has_magic(bytes@) ==> (r matches Err(SourceError::Invalid { path: p, reason }) && p@
                == path@ && reason@ == magic_reason(bytes@)),
    {
        let source = ReadOnlySource { path, bytes };
        match source.validate_magic() {
            Ok(()) => Ok(source),
            Err(e) => Err(e),
        }
    }

    /// A source over bytes already in memory.
    pub fn from_bytes(bytes: Vec<u8>) -> (r: Result<Self, SourceError>)
        ensures
            has_magic(bytes@) ==> (r matches Ok(s) && s.data() == bytes@ && s.name()
                == "in-memory.Nesstar"@),
            !has_magic(bytes@) ==> (r matches Err(SourceError::Invalid { path, reason }) && path@
                == "in-memory.Nesstar"@ && reason@ == magic_reason(bytes@)),
    {
        Self::with_path("in-memory.Nesstar".to_owned(), bytes)
    }

    /// The name the source was opened under.
    pub fn path(&self) -> (r: &str)
        ensures
            r@ == self.name(),
    {
        self.path.as_str()
    }

    /// The number of bytes.
    pub fn len(&self) -> (r: usize)
        ensures
            r == self.data().len(),
    {
        self.bytes.len()
    }

    /// Whether the source holds no bytes.
    pub fn is_empty(&self) -> (r: bool)
        ensures
            r == (self.data().len() == 0),
    {
        self.bytes.len() == 0
    }

    /// All bytes of the source.
    pub fn bytes(&self) -> (r: &[u8])
        ensures
            r@ == self.data(),
    {
        self.bytes.as_slice()
    }

    /// The `length` bytes at `start`, or where they are not all inside.
    pub fn slice(&self, start: usize, length: usize, context: &'static str) -> (r: Result<
        &[u8],
        SourceError,
    >)
        ensures
            match self.slice_error(start, length, context) {
                Some(e) => r == Err::<&[u8], SourceError>(e),
                None => r matches Ok(s) && s@ == self.data().subrange(
                    start as int,
                    start + length,
                ),
            },
    {
        if start > usize::MAX - length {
            return Err(
                SourceError::OutOfBounds {
                    path: self.path.clone(),
                    context,
                    start,
                    end: usize::MAX,
                    length: self.bytes.len(),
                },
            );
        }
        let end = start + length;
        if end > self.bytes.len() {
            return Err(
                SourceError::OutOfBounds {
                    path: self.path.clone(),
                    context,
                    start,
                    end,
                    length: self.bytes.len(),
                },
            );
        }
        Ok(vstd::slice::slice_subrange(self.bytes.as_slice(), start, end))
    }

    fn validate_magic(&self) -> (r: Result<(), SourceError>)
        ensures
            has_magic(self.data()) ==> r is Ok,
            !has_magic(self.data()) ==> (r matches Err(SourceError::Invalid { path, reason })
                && path@ == self.name() && reason@ == magic_reason(self.data())),
    {
        if self.bytes.len() < 8 {
            return Err(
                SourceError::Invalid {
                    path: self.path.clone(),
                    reason: "file is shorter than the NESSTART header".to_owned(),
                },
            );
        }
        let magic: [u8; 8] = [0x4E, 0x45, 0x53, 0x53, 0x54, 0x41, 0x52, 0x54];
        let mut i: usize = 0;
        while i < 8
            invariant
                i <= 8,
                self.bytes@.len() >= 8,
                magic@ == nesstar_magic(),
                forall|k: int| 0 <= k < i ==> self.bytes@[k] == nesstar_magic()[k],
            decreases 8 - i,
        {
            if self.bytes[i] != magic[i] {
                proof {
                    assert(self.bytes@.take(8)[i as int] != nesstar_magic()[i as int]);
                }
                return Err(
                    SourceError::Invalid {
                        path: self.path.clone(),
                        reason: "first eight bytes are not NESSTART".to_owned(),
                    },
                );
            }
            i += 1;
        }
        proof {
            assert(self.bytes@.take(8) =~= nesstar_magic());
        }
        Ok(())
    }
}

} // verus!
