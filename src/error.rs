use vstd::prelude::*;
use vstd::string::*;

verus! {

/// The shape that a node of the value tree has, or that a reader asked for.
#[derive(Debug, Clone, Copy, PartialEq, Eq, Structural)]
pub enum Shape {
    Record,
    Scalar,
    Sequence,
    Variant,
    Integer,
    Boolean,
    Unset,
}

/// Why a node of the value tree was poisoned while the tree was built.
#[derive(Debug, Clone, Copy, PartialEq, Eq, Structural)]
pub enum Conflict {
    /// Two values were written at the same key path.
    DuplicateKey,
    /// A nested key was written below a node that already holds a value.
    NotARecord,
}

/// Why a segment of the input could not be decoded.
#[derive(Debug, Clone, Copy, PartialEq, Eq, Structural)]
pub enum DecodeCause {
    /// A `%` not followed by two hexadecimal digits.
    MalformedEscape,
    /// The percent-decoded bytes are not well-formed UTF-8.
    InvalidUtf8,
}

/// Errors of the codec. Key paths are dot-joined.
#[derive(Debug)]
pub enum Error {
    /// A failure described in words.
    Custom(String),
    /// Malformed key syntax at the given byte offset.
    Parse(String, usize),
    /// A segment that could not be decoded, at the given byte offset.
    Decode(usize, DecodeCause),
    /// The node at this key path received conflicting writes.
    Ambiguous(String, Conflict),
    /// The node at this key path has another shape than the one asked for
    /// (expected, actual).
    ShapeMismatch(String, Shape, Shape),
    /// The text at this key path does not spell a value of the given shape.
    InvalidValue(String, Shape),
    /// A required field at this key path was never written.
    MissingField(String),
    /// The node at this key path was already handed out.
    AlreadyConsumed(String),
    /// The value cannot be written in this format.
    Unsupported,
}

impl Error {
    /// An error for a value that cannot stand at the top level of a query string.
    pub fn top_level(object: &str) -> (r: Error)
        ensures
            r matches Error::Custom(m) && m@ == "cannot deserialize "@ + object@
                + " at the top level"@,
    {
        let m = String::from_str("cannot deserialize ").concat(object).concat(" at the top level");
        Error::Custom(m)
    }

    /// A structural parse error at byte offset `position`.
    pub fn parse_error(msg: &str, position: usize) -> (r: Error)
        ensures
            r matches Error::Parse(m, p) && m@ == msg@ && p == position,
    {
        Error::Parse(msg.to_owned(), position)
    }
}

} // verus!
