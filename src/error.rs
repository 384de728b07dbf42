use vstd::prelude::*;

verus! {

/// The two shapes a rendered value can take, chosen by the caller.
#[derive(Clone, Copy, Debug, PartialEq, Eq, Structural)]
pub enum SerializationContext {
    /// SQL literal text, used when binding query parameters.
    TextLiteral,
    /// Protocol-native bytes, used when inserting or reading rows.
    NativeBinary,
}

/// What a render call produces: text in literal mode, bytes in binary mode.
#[derive(Clone, Debug)]
pub enum Rendered {
    Text(String),
    Binary(Vec<u8>),
}

/// Errors of the codec layer.
#[derive(Clone, Copy, Debug, PartialEq, Eq, Structural)]
pub enum CodecError {
    /// The instant (seconds since the epoch) does not fit the target's
    /// fixed width; the target type is `DateTime`.
    Range { instant: i64 },
    /// The plane count or a plane length disagrees with the declared shape.
    Shape,
    /// A plane byte outside {0, 1}: the first such byte, by plane then offset.
    Format { plane: usize, offset: usize },
    /// Literal text that does not follow `YYYY-MM-DD HH:MM:SS`, or names no
    /// real date and time.
    MalformedLiteral,
    /// A Nullable presence byte other than 0 (present) or 1 (absent).
    InvalidNullFlag,
    /// The input ends before the value does.
    Truncated,
}

} // verus!
