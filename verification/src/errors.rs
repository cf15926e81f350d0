use vstd::prelude::*;

verus! {

/// Everything that can go wrong while decoding a wire message or
/// interpreting a decoded command.
///
/// A decode error is fatal to the connection that produced it: the protocol
/// has no resynchronization marker, so the driver drops the connection
/// rather than guess where the next message starts.
#[derive(Debug, Clone, Copy, PartialEq, Eq, Structural)]
pub enum RESPError {
    /// The buffer ran out in the middle of a structure the decoder had
    /// already committed to (an array promised more elements than the
    /// input holds).
    UnexpectedEnd,
    /// The leading marker byte is none of `* $ + - :`.
    UnknownStartingByte,
    /// A length field or integer payload is not valid decimal text for the
    /// expected integer type.
    IntParseFailure,
    /// A bulk-string length was negative and not the `-1` null sentinel.
    BadBulkStringSize(i64),
    /// An array length was negative and not the `-1` null sentinel.
    BadArraySize(i64),
    /// The top-level value is not an array, the array is empty, or its
    /// first element is not a recognized command name.
    InvalidCommand,
    /// A recognized command was given the wrong number of arguments, or an
    /// argument of the wrong type where a string is required.
    InvalidArguments,
}

impl RESPError {
    /// A human-readable description, for the driver's log line.
    pub fn message(&self) -> (r: String)
        ensures
            r@ == match self {
                RESPError::UnexpectedEnd => "unexpected end of input"@,
                RESPError::UnknownStartingByte => "unknown starting byte"@,
                RESPError::IntParseFailure => "failed to parse integer"@,
                RESPError::BadBulkStringSize(_) => "invalid bulk string size"@,
                RESPError::BadArraySize(_) => "invalid array size"@,
                RESPError::InvalidCommand => "invalid command"@,
                RESPError::InvalidArguments => "invalid arguments"@,
            },
    {
        broadcast use vstd::string::to_string_from_display_ensures_for_str;

        match self {
            RESPError::UnexpectedEnd => "unexpected end of input".to_string(),
            RESPError::UnknownStartingByte => "unknown starting byte".to_string(),
            RESPError::IntParseFailure => "failed to parse integer".to_string(),
            RESPError::BadBulkStringSize(_) => "invalid bulk string size".to_string(),
            RESPError::BadArraySize(_) => "invalid array size".to_string(),
            RESPError::InvalidCommand => "invalid command".to_string(),
            RESPError::InvalidArguments => "invalid arguments".to_string(),
        }
    }
}

} // verus!
