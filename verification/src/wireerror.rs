//! Why something could not be written in the wire format, or not be read: the kinds
//! of failure that `postcard` tells apart.

use vstd::prelude::*;

verus! {

/// A failure of the wire format, by the name that `postcard` gives it.
#[derive(Debug, Clone, Copy, PartialEq, Eq, Structural)]
pub enum WireError {
    /// A feature that the format will never have.
    WontImplement,
    /// A feature that the format does not have yet.
    NotYetImplemented,
    /// There is no room for what is written.
    SerializeBufferFull,
    /// The length of a list is not known when it is written.
    SerializeSeqLengthUnknown,
    /// The bytes end too early.
    DeserializeUnexpectedEnd,
    /// A number does not end, or is too large for its width.
    DeserializeBadVarint,
    /// A flag is neither 0 nor 1.
    DeserializeBadBool,
    /// A character is none.
    DeserializeBadChar,
    /// A text is not UTF-8.
    DeserializeBadUtf8,
    /// The byte before an optional value is neither 0 nor 1.
    DeserializeBadOption,
    /// A tag is too large.
    DeserializeBadEnum,
    /// The bytes are not well encoded.
    DeserializeBadEncoding,
    /// A checksum is wrong.
    DeserializeBadCrc,
    /// A value refuses to be written.
    SerdeSerCustom,
    /// What was read breaks a rule of its type: a tag that means nothing, or a text that
    /// is no path.
    SerdeDeCustom,
    /// A text could not be gathered while it was written.
    CollectStrError,
}

impl WireError {
    /// What the failure says.
    pub open spec fn text(self) -> Seq<char> {
        match self {
            WireError::WontImplement => "This is a feature that PostCard will never implement"@,
            WireError::NotYetImplemented => {
                "This is a feature that Postcard intends to support, but does not yet"@
            },
            WireError::SerializeBufferFull => "The serialize buffer is full"@,
            WireError::SerializeSeqLengthUnknown => "The length of a sequence must be known"@,
            WireError::DeserializeUnexpectedEnd => "Hit the end of buffer, expected more data"@,
            WireError::DeserializeBadVarint => {
                "Found a varint that didn't terminate. Is the usize too big for this platform?"@
            },
            WireError::DeserializeBadBool => "Found a bool that wasn't 0 or 1"@,
            WireError::DeserializeBadChar => "Found an invalid unicode char"@,
            WireError::DeserializeBadUtf8 => "Tried to parse invalid utf-8"@,
            WireError::DeserializeBadOption => "Found an Option discriminant that wasn't 0 or 1"@,
            WireError::DeserializeBadEnum => {
                "Found an enum discriminant that was > u32::max_value()"@
            },
            WireError::DeserializeBadEncoding => "The original data was not well encoded"@,
            WireError::DeserializeBadCrc => "Bad CRC while deserializing"@,
            WireError::SerdeSerCustom => "Serde Serialization Error"@,
            WireError::SerdeDeCustom => "Serde Deserialization Error"@,
            WireError::CollectStrError => {
                "Error while processing `collect_str` during serialization"@
            },
        }
    }

    /// The message of this failure.
    pub fn message(&self) -> (m: &'static str)
        ensures
            m@ == self.text(),
    {
        match self {
            WireError::WontImplement => "This is a feature that PostCard will never implement",
            WireError::NotYetImplemented => {
                "This is a feature that Postcard intends to support, but does not yet"
            },
            WireError::SerializeBufferFull => "The serialize buffer is full",
            WireError::SerializeSeqLengthUnknown => "The length of a sequence must be known",
            WireError::DeserializeUnexpectedEnd => "Hit the end of buffer, expected more data",
            WireError::DeserializeBadVarint => {
                "Found a varint that didn't terminate. Is the usize too big for this platform?"
            },
            WireError::DeserializeBadBool => "Found a bool that wasn't 0 or 1",
            WireError::DeserializeBadChar => "Found an invalid unicode char",
            WireError::DeserializeBadUtf8 => "Tried to parse invalid utf-8",
            WireError::DeserializeBadOption => "Found an Option discriminant that wasn't 0 or 1",
            WireError::DeserializeBadEnum => {
                "Found an enum discriminant that was > u32::max_value()"
            },
            WireError::DeserializeBadEncoding => "The original data was not well encoded",
            WireError::DeserializeBadCrc => "Bad CRC while deserializing",
            WireError::SerdeSerCustom => "Serde Serialization Error",
            WireError::SerdeDeCustom => "Serde Deserialization Error",
            WireError::CollectStrError => {
                "Error while processing `collect_str` during serialization"
            },
        }
    }
}

} // verus!
