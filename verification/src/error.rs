use vstd::prelude::*;
use vstd::std_specs::convert::FromSpecImpl;

verus! {

/// The error of a failed read or write of the underlying transport.
#[verifier::external_type_specification]
#[verifier::external_body]
pub struct ExIoError(std::io::Error);

/// The error that says where a byte sequence stops being UTF-8.
#[verifier::external_type_specification]
#[verifier::external_body]
pub struct ExUtf8Error(core::str::Utf8Error);

/// Why a frame could not be read.
#[derive(Debug)]
pub enum ReadError {
    /// The transport failed.
    IO(std::io::Error),
    /// A header line is not valid UTF-8.
    Encoding(core::str::Utf8Error),
    /// The bytes break the frame grammar; the text says how.
    Format(String),
    /// The body of the previous frame is still outstanding.
    Busy,
}

/// What went wrong, as a plain value: the kind of a read error, and for a
/// grammar violation its text.
pub enum Fault {
    Transport,
    Encoding,
    Format(Seq<char>),
    Busy,
}

impl View for ReadError {
    type V = Fault;

    open spec fn view(&self) -> Fault {
        match self {
            ReadError::IO(_) => Fault::Transport,
            ReadError::Encoding(_) => Fault::Encoding,
            ReadError::Format(text) => Fault::Format(text@),
            ReadError::Busy => Fault::Busy,
        }
    }
}

/// The latch of a gate was already taken.
#[derive(Debug, Clone, Copy)]
pub struct LatchError;

/// The text of a latch error.
pub open spec fn latch_text() -> Seq<char> {
    "latch already locked"@
}

/// The description of a transport error. Wraps the `Display` output of
/// `std::io::Error`, of which nothing is claimed.
#[verifier::external_body]
fn io_error_text(e: &std::io::Error) -> String {
    format!("{}", e)
}

/// The description of an encoding error. Wraps the `Display` output of
/// `core::str::Utf8Error`, of which nothing is claimed.
#[verifier::external_body]
fn utf8_error_text(e: &core::str::Utf8Error) -> String {
    format!("{}", e)
}

impl LatchError {
    /// A short description of the error.
    pub fn message(&self) -> (text: String)
        ensures
            text@ == latch_text(),
    {
        "latch already locked".to_owned()
    }
}

impl ReadError {
    /// A format error with the given text.
    pub fn format(text: &str) -> (e: ReadError)
        ensures
            e@ == Fault::Format(text@),
    {
        ReadError::Format(text.to_owned())
    }

    /// Whether this is a format error with the given text.
    pub open spec fn is_format(self, text: Seq<char>) -> bool {
        self@ == Fault::Format(text)
    }

    /// A short description of the error. For a grammar violation it is the
    /// text the error carries; for a transport or encoding error it is the
    /// description of the underlying cause.
    pub fn message(&self) -> (text: String)
        ensures
            self is Format ==> text@ == self->Format_0@,
            self is Busy ==> text@ == latch_text(),
    {
        match self {
            ReadError::IO(e) => io_error_text(e),
            ReadError::Encoding(e) => utf8_error_text(e),
            ReadError::Format(s) => s.clone(),
            ReadError::Busy => "latch already locked".to_owned(),
        }
    }
}

impl From<std::io::Error> for ReadError {
    fn from(error: std::io::Error) -> (e: ReadError) {
        ReadError::IO(error)
    }
}

impl FromSpecImpl<std::io::Error> for ReadError {
    open spec fn obeys_from_spec() -> bool {
        true
    }

    open spec fn from_spec(error: std::io::Error) -> ReadError {
        ReadError::IO(error)
    }
}

impl From<core::str::Utf8Error> for ReadError {
    fn from(error: core::str::Utf8Error) -> (e: ReadError) {
        ReadError::Encoding(error)
    }
}

impl FromSpecImpl<core::str::Utf8Error> for ReadError {
    open spec fn obeys_from_spec() -> bool {
        true
    }

    open spec fn from_spec(error: core::str::Utf8Error) -> ReadError {
        ReadError::Encoding(error)
    }
}

impl From<LatchError> for ReadError {
    fn from(error: LatchError) -> (e: ReadError) {
        ReadError::Busy
    }
}

impl FromSpecImpl<LatchError> for ReadError {
    open spec fn obeys_from_spec() -> bool {
        true
    }

    open spec fn from_spec(error: LatchError) -> ReadError {
        ReadError::Busy
    }
}

} // verus!
