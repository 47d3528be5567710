//! The crate's error type.
//!
//! Every failure of parsing, compiling or decoding is one of these
//! variants; `message` renders the exact diagnostic line stated by
//! `message_text`.

use vstd::prelude::*;
use vstd::string::StringExecFns;

use crate::numtext::append_u64_dec;
use crate::numtext::dec_str;

verus! {

/// What went wrong while parsing a token list or decoding a value.
#[derive(Debug)]
pub enum HexError {
    /// The byte-order word is neither "little"/"le" nor "big"/"be".
    InvalidByteOrder { given: String },
    /// A token names a type outside the supported set.
    UnknownType { given: String },
    /// A token of the form `type:` with nothing after the colon.
    EmptyFieldName { token: String },
    /// A `.`-token whose remainder is not a decimal number.
    InvalidSkipSyntax { token: String },
    /// A skip of zero bits.
    SkipSizeZero,
    /// A skip whose bit count is not a multiple of eight.
    SkipNotByteAligned { bits: u64 },
    /// A skip that would move the cursor past the end of the buffer.
    SkipPastEnd { bytes: u64, offset: usize, buffer_len: usize },
    /// A scalar whose bytes run past the end of the buffer.
    ScalarPastEnd { name: String, offset: usize, needed: usize, available: usize },
    /// A decode called with fewer bytes than the type needs.
    NotEnoughBytes { needed: usize, got: usize },
}

impl HexError {
    /// The diagnostic line for this error.
    pub open spec fn message_text(self) -> Seq<char> {
        match self {
            HexError::InvalidByteOrder { given } => "Invalid byte order: "@ + given@
                + ". Use 'little' or 'big'"@,
            HexError::UnknownType { given } => "Unknown type: "@ + given@,
            HexError::EmptyFieldName { token } => "Field name cannot be empty in '"@ + token@
                + "'"@,
            HexError::InvalidSkipSyntax { token } => "Invalid skip syntax in '"@ + token@
                + "': expected '.' followed by a decimal bit count"@,
            HexError::SkipSizeZero => "Skip size cannot be 0"@,
            HexError::SkipNotByteAligned { bits } => "Skip size must be a multiple of 8 bits, got "@
                + dec_str(bits as nat),
            HexError::SkipPastEnd { bytes, offset, buffer_len } => "Not enough data: cannot skip "@
                + dec_str(bytes as nat) + " bytes at offset "@ + dec_str(offset as nat)
                + ", buffer has "@ + dec_str(buffer_len as nat) + " bytes"@,
            HexError::ScalarPastEnd { name, offset, needed, available } => "Not enough data: "@
                + name@ + " at offset "@ + dec_str(offset as nat) + " needs "@ + dec_str(
                needed as nat,
            ) + " bytes, but only "@ + dec_str(available as nat) + " available"@,
            HexError::NotEnoughBytes { needed, got } => "Not enough bytes: need "@ + dec_str(
                needed as nat,
            ) + ", got "@ + dec_str(got as nat),
        }
    }

    /// Renders the diagnostic line.
    pub fn message(&self) -> (r: String)
        ensures
            r@ == self.message_text(),
    {
        let mut s = String::new();
        match self {
            HexError::InvalidByteOrder { given } => {
                s.append("Invalid byte order: ");
                s.append(given.as_str());
                s.append(". Use 'little' or 'big'");
            },
            HexError::UnknownType { given } => {
                s.append("Unknown type: ");
                s.append(given.as_str());
            },
            HexError::EmptyFieldName { token } => {
                s.append("Field name cannot be empty in '");
                s.append(token.as_str());
                s.append("'");
            },
            HexError::InvalidSkipSyntax { token } => {
                s.append("Invalid skip syntax in '");
                s.append(token.as_str());
                s.append("': expected '.' followed by a decimal bit count");
            },
            HexError::SkipSizeZero => {
                s.append("Skip size cannot be 0");
            },
            HexError::SkipNotByteAligned { bits } => {
                s.append("Skip size must be a multiple of 8 bits, got ");
                append_u64_dec(&mut s, *bits);
            },
            HexError::SkipPastEnd { bytes, offset, buffer_len } => {
                s.append("Not enough data: cannot skip ");
                append_u64_dec(&mut s, *bytes);
                s.append(" bytes at offset ");
                append_u64_dec(&mut s, *offset as u64);
                s.append(", buffer has ");
                append_u64_dec(&mut s, *buffer_len as u64);
                s.append(" bytes");
            },
            HexError::ScalarPastEnd { name, offset, needed, available } => {
                s.append("Not enough data: ");
                s.append(name.as_str());
                s.append(" at offset ");
                append_u64_dec(&mut s, *offset as u64);
                s.append(" needs ");
                append_u64_dec(&mut s, *needed as u64);
                s.append(" bytes, but only ");
                append_u64_dec(&mut s, *available as u64);
                s.append(" available");
            },
            HexError::NotEnoughBytes { needed, got } => {
                s.append("Not enough bytes: need ");
                append_u64_dec(&mut s, *needed as u64);
                s.append(", got ");
                append_u64_dec(&mut s, *got as u64);
            },
        }
        proof {
            assert(s@ =~= self.message_text());
        }
        s
    }
}

} // verus!
