//! The errors of the library.

use vstd::prelude::*;

verus! {

/// Declares `std::io::Error` so that an error can carry one; its values are
/// opaque and nothing is claimed about them.
#[verifier::external_type_specification]
#[verifier::external_body]
pub struct ExIoError(std::io::Error);

/// Why a text is not an unsigned integer (the kinds `u32::from_str` reports).
#[derive(Debug, Clone, Copy, PartialEq, Eq, Structural)]
pub enum IntErrorKind {
    /// The text is empty.
    Empty,
    /// A character is not a decimal digit (or a sign stands alone).
    InvalidDigit,
    /// The number does not fit in the target type.
    PosOverflow,
}

/// A text that is not an unsigned integer.
#[derive(Debug, Clone, Copy, PartialEq, Eq, Structural)]
pub struct IntError {
    pub kind: IntErrorKind,
}

/// Why a text is not a floating-point literal (the kinds `f64::from_str` reports).
#[derive(Debug, Clone, Copy, PartialEq, Eq, Structural)]
pub enum FloatErrorKind {
    /// The text is empty.
    Empty,
    /// The text is not empty and does not follow the grammar of a float literal.
    Invalid,
}

/// A text that is not a floating-point literal.
#[derive(Debug, Clone, Copy, PartialEq, Eq, Structural)]
pub struct FloatError {
    pub kind: FloatErrorKind,
}

/// A text that is neither `true` nor `false`.
#[derive(Debug, Clone, Copy, PartialEq, Eq, Structural)]
pub struct BoolError;

/// Everything that can go wrong while reading arguments, parsing the data or
/// writing the result.
#[derive(Debug)]
pub enum AppError {
    Usage(String),
    MissingField(String),
    UnexpectedField(String),
    InvalidHeader(String),
    InvalidId(IntError),
    InvalidActive(BoolError),
    InvalidAmount(FloatError),
    IoError(std::io::Error),
}

/// The message `ParseIntError` displays for each kind.
pub open spec fn int_error_text(k: IntErrorKind) -> Seq<char> {
    match k {
        IntErrorKind::Empty => "cannot parse integer from empty string"@,
        IntErrorKind::InvalidDigit => "invalid digit found in string"@,
        IntErrorKind::PosOverflow => "number too large to fit in target type"@,
    }
}

/// The message `ParseFloatError` displays for each kind.
pub open spec fn float_error_text(k: FloatErrorKind) -> Seq<char> {
    match k {
        FloatErrorKind::Empty => "cannot parse float from empty string"@,
        FloatErrorKind::Invalid => "invalid float literal"@,
    }
}

/// The message `ParseBoolError` displays.
pub open spec fn bool_error_text() -> Seq<char> {
    "provided string was not `true` or `false`"@
}

impl IntError {
    /// The message this error is shown with.
    pub fn message(&self) -> (m: String)
        ensures
            m@ == int_error_text(self.kind),
    {
        match self.kind {
            IntErrorKind::Empty => String::from_str("cannot parse integer from empty string"),
            IntErrorKind::InvalidDigit => String::from_str("invalid digit found in string"),
            IntErrorKind::PosOverflow => String::from_str("number too large to fit in target type"),
        }
    }
}

impl FloatError {
    /// The message this error is shown with.
    pub fn message(&self) -> (m: String)
        ensures
            m@ == float_error_text(self.kind),
    {
        match self.kind {
            FloatErrorKind::Empty => String::from_str("cannot parse float from empty string"),
            FloatErrorKind::Invalid => String::from_str("invalid float literal"),
        }
    }
}

impl BoolError {
    /// The message this error is shown with.
    pub fn message(&self) -> (m: String)
        ensures
            m@ == bool_error_text(),
    {
        String::from_str("provided string was not `true` or `false`")
    }
}

impl AppError {
    /// The message this error is shown with: a prefix naming the kind of
    /// error, then what went wrong.
    pub fn message(&self) -> (m: String)
        ensures
            match self {
                AppError::Usage(msg) => m@ == "Usage error: "@ + msg@,
                AppError::MissingField(field) => m@ == "Format error: Missing field: "@ + field@,
                AppError::UnexpectedField(line) => m@
                    == "Format error: Unexpected extra field in line: "@ + line@,
                AppError::InvalidHeader(header) => m@ == "Format error: Invalid header: "@
                    + header@,
                AppError::InvalidId(e) => m@ == "ID error: "@ + int_error_text(e.kind),
                AppError::InvalidActive(_) => m@ == "Active state error: "@ + bool_error_text(),
                AppError::InvalidAmount(e) => m@ == "Amount error: "@ + float_error_text(e.kind),
                AppError::IoError(e) => exists|t: String|
                    vstd::string::to_string_from_display_ensures::<std::io::Error>(e, t) && m@
                        == "IO error: "@ + t@,
            },
    {
        match self {
            AppError::Usage(msg) => String::from_str("Usage error: ").concat(msg.as_str()),
            AppError::MissingField(field) => String::from_str("Format error: Missing field: ").concat(
                field.as_str(),
            ),
            AppError::UnexpectedField(line) => String::from_str(
                "Format error: Unexpected extra field in line: ",
            ).concat(line.as_str()),
            AppError::InvalidHeader(header) => String::from_str(
                "Format error: Invalid header: ",
            ).concat(header.as_str()),
            AppError::InvalidId(e) => String::from_str("ID error: ").concat(e.message().as_str()),
            AppError::InvalidActive(e) => String::from_str("Active state error: ").concat(
                e.message().as_str(),
            ),
            AppError::InvalidAmount(e) => String::from_str("Amount error: ").concat(
                e.message().as_str(),
            ),
            AppError::IoError(e) => {
                let t = e.to_string();
                String::from_str("IO error: ").concat(t.as_str())
            },
        }
    }
}

impl From<IntError> for AppError {
    fn from(err: IntError) -> (r: Self) {
        AppError::InvalidId(err)
    }
}

impl vstd::std_specs::convert::FromSpecImpl<IntError> for AppError {
    open spec fn obeys_from_spec() -> bool {
        true
    }

    open spec fn from_spec(v: IntError) -> Self {
        AppError::InvalidId(v)
    }
}

impl From<FloatError> for AppError {
    fn from(err: FloatError) -> (r: Self) {
        AppError::InvalidAmount(err)
    }
}

impl vstd::std_specs::convert::FromSpecImpl<FloatError> for AppError {
    open spec fn obeys_from_spec() -> bool {
        true
    }

    open spec fn from_spec(v: FloatError) -> Self {
        AppError::InvalidAmount(v)
    }
}

impl From<BoolError> for AppError {
    fn from(err: BoolError) -> (r: Self) {
        AppError::InvalidActive(err)
    }
}

impl vstd::std_specs::convert::FromSpecImpl<BoolError> for AppError {
    open spec fn obeys_from_spec() -> bool {
        true
    }

    open spec fn from_spec(v: BoolError) -> Self {
        AppError::InvalidActive(v)
    }
}

impl From<std::io::Error> for AppError {
    fn from(err: std::io::Error) -> (r: Self) {
        AppError::IoError(err)
    }
}

impl vstd::std_specs::convert::FromSpecImpl<std::io::Error> for AppError {
    open spec fn obeys_from_spec() -> bool {
        true
    }

    open spec fn from_spec(v: std::io::Error) -> Self {
        AppError::IoError(v)
    }
}

} // verus!
