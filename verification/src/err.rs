use vstd::prelude::*;

verus! {

/// The ways in which an operation of this crate can fail.
#[derive(Debug, Clone, Copy, PartialEq, Eq, Structural)]
pub enum ErrKind {
    /// Inversion of, or division by, the zero element of the field.
    DivisionByZero,
    /// A base64 text whose length is not a multiple of four.
    InvalidLength,
    /// A symbol outside the base64 alphabet, or a value that has no symbol.
    InvalidCharacter,
    /// A shard text that is not one index and one payload around a single `-`.
    MalformedShard,
    /// A shard index that is not a decimal number between 0 and 255.
    InvalidIndex,
    /// Shards whose payloads differ in length.
    LengthMismatch,
}

/// The error that the operations of this crate return.
#[derive(Debug, Clone, Copy, PartialEq, Eq, Structural)]
pub struct SsssErr {
    pub kind: ErrKind,
}

/// The error of the given kind.
pub open spec fn err(kind: ErrKind) -> SsssErr {
    SsssErr { kind }
}

impl SsssErr {
    /// The error of the given kind.
    pub fn new(kind: ErrKind) -> (error: SsssErr)
        ensures
            error == err(kind),
    {
        SsssErr { kind }
    }

    /// A short description of the failure, for display.
    pub fn to_string(&self) -> (text: String)
        ensures
            text@ == match self.kind {
                ErrKind::DivisionByZero => "division by zero in GF(256)"@,
                ErrKind::InvalidLength => "base64 length is not a multiple of four"@,
                ErrKind::InvalidCharacter => "symbol outside the base64 alphabet"@,
                ErrKind::MalformedShard => "cannot parse shard"@,
                ErrKind::InvalidIndex => "shard index is not a number from 0 to 255"@,
                ErrKind::LengthMismatch => "shards differ in payload length"@,
            },
    {
        match self.kind {
            ErrKind::DivisionByZero => "division by zero in GF(256)".to_owned(),
            ErrKind::InvalidLength => "base64 length is not a multiple of four".to_owned(),
            ErrKind::InvalidCharacter => "symbol outside the base64 alphabet".to_owned(),
            ErrKind::MalformedShard => "cannot parse shard".to_owned(),
            ErrKind::InvalidIndex => "shard index is not a number from 0 to 255".to_owned(),
            ErrKind::LengthMismatch => "shards differ in payload length".to_owned(),
        }
    }
}

} // verus!
