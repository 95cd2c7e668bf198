//! The library's error type. Nothing here panics on malformed input: the reader returns an error.
use crate::text::{append, push_decimal, push_hex_list};
use vstd::prelude::*;

verus! {

/// Everything that can go wrong.
#[derive(Debug, Clone, Copy, PartialEq, Eq)]
pub enum Error {
    /// An `.ink` buffer did not start with the `INK1` magic.
    BadMagic { found: [u8; 4], expected: [u8; 4] },
    /// The `.ink` format version is not one that this build understands.
    UnsupportedVersion(u16, u16),
    /// The buffer ended mid-record: truncated or corrupt.
    Truncated { offset: usize, needed: usize, available: usize },
    /// A weights blob was malformed: bad magic, unsupported version, or a tensor whose declared
    /// shape does not match its byte length.
    BadWeights(&'static str),
}

/// What an [`Error`] says to a person.
pub open spec fn message_of(e: Error) -> Seq<char> {
    match e {
        Error::BadMagic { found, expected } => "not an .ink file: bad magic "@
            + crate::text::hex_list(found@) + " (expected "@ + crate::text::hex_list(expected@)
            + ")"@,
        Error::UnsupportedVersion(found, supported) => "unsupported .ink version "@
            + crate::text::decimal(found as nat) + " (this build supports "@
            + crate::text::decimal(supported as nat) + ")"@,
        Error::Truncated { offset, needed, available } => "truncated .ink: needed "@
            + crate::text::decimal(needed as nat) + " more bytes at offset "@
            + crate::text::decimal(offset as nat) + ", had "@ + crate::text::decimal(
            available as nat,
        ),
        Error::BadWeights(what) => "malformed weights blob: "@ + what@,
    }
}

impl Error {
    /// What the error says to a person.
    pub fn message(&self) -> (r: String)
        ensures
            r@ == message_of(*self),
    {
        let mut out: Vec<char> = Vec::new();
        match self {
            Error::BadMagic { found, expected } => {
                append(&mut out, "not an .ink file: bad magic ");
                push_hex_list(&mut out, found);
                append(&mut out, " (expected ");
                push_hex_list(&mut out, expected);
                append(&mut out, ")");
            },
            Error::UnsupportedVersion(found, supported) => {
                append(&mut out, "unsupported .ink version ");
                push_decimal(&mut out, *found as u64);
                append(&mut out, " (this build supports ");
                push_decimal(&mut out, *supported as u64);
                append(&mut out, ")");
            },
            Error::Truncated { offset, needed, available } => {
                append(&mut out, "truncated .ink: needed ");
                push_decimal(&mut out, *needed as u64);
                append(&mut out, " more bytes at offset ");
                push_decimal(&mut out, *offset as u64);
                append(&mut out, ", had ");
                push_decimal(&mut out, *available as u64);
            },
            Error::BadWeights(what) => {
                append(&mut out, "malformed weights blob: ");
                append(&mut out, what);
            },
        }
        crate::text::text_of(&out)
    }
}

} // verus!
