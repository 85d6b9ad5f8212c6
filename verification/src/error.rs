//! The error every fallible operation of the library reports.
use crate::text::{code_name, hex, hex_text, number, number_text, shown_code};
use vstd::prelude::*;

verus! {

/// What kind of failure an error is.
#[derive(Debug, Clone, Copy, PartialEq, Eq, Structural)]
pub enum ErrorCode {
    /// The input is not a structurally valid instance of its format.
    Malformed,
    /// The input is valid but uses a feature outside the implemented subset.
    Unsupported,
    /// A caller passed an argument outside its documented range.
    InvalidArgument,
    /// The image exceeds a limit the caller set.
    LimitExceeded,
}

/// A failure: its kind, and what happened in words.
#[derive(Debug, Clone)]
pub struct PixelsError {
    code: ErrorCode,
    detail: String,
}

/// The result of a fallible operation.
pub type Outcome<T> = Result<T, PixelsError>;

/// What a failure says.
#[verifier::ext_equal]
pub struct Fault {
    /// Its kind.
    pub kind: ErrorCode,
    /// Its words.
    pub words: Seq<char>,
}

/// A failure about structurally invalid input.
pub open spec fn malformed(words: Seq<char>) -> Fault {
    Fault { kind: ErrorCode::Malformed, words }
}

/// A failure about a valid but unimplemented feature.
pub open spec fn unsupported(words: Seq<char>) -> Fault {
    Fault { kind: ErrorCode::Unsupported, words }
}

impl PixelsError {
    /// The kind of this failure.
    pub closed spec fn kind(self) -> ErrorCode {
        self.code
    }

    /// The failure in words.
    pub closed spec fn words(self) -> Seq<char> {
        self.detail@
    }

    /// What this failure says.
    pub open spec fn fault(self) -> Fault {
        Fault { kind: self.kind(), words: self.words() }
    }

    /// An error about structurally invalid input.
    pub fn malformed(detail: &str) -> (e: PixelsError)
        ensures
            e.kind() == ErrorCode::Malformed,
            e.words() == detail@,
    {
        PixelsError { code: ErrorCode::Malformed, detail: detail.to_owned() }
    }

    /// An error about a valid but unimplemented feature.
    pub fn unsupported(detail: &str) -> (e: PixelsError)
        ensures
            e.kind() == ErrorCode::Unsupported,
            e.words() == detail@,
    {
        PixelsError { code: ErrorCode::Unsupported, detail: detail.to_owned() }
    }

    /// An error about an argument outside its documented range.
    pub fn invalid_argument(detail: &str) -> (e: PixelsError)
        ensures
            e.kind() == ErrorCode::InvalidArgument,
            e.words() == detail@,
    {
        PixelsError { code: ErrorCode::InvalidArgument, detail: detail.to_owned() }
    }

    /// An error about an image larger than the caller allows.
    pub fn limit_exceeded(detail: &str) -> (e: PixelsError)
        ensures
            e.kind() == ErrorCode::LimitExceeded,
            e.words() == detail@,
    {
        PixelsError { code: ErrorCode::LimitExceeded, detail: detail.to_owned() }
    }

    /// The kind of this failure.
    pub fn code(&self) -> (c: ErrorCode)
        ensures
            c == self.kind(),
    {
        self.code
    }

    /// The failure in words.
    pub fn to_string(&self) -> (r: String)
        ensures
            r@ == self.words(),
    {
        self.detail.as_str().to_owned()
    }
}

/// The words of a failure, while they are put together.
pub struct Message {
    text: String,
}

impl View for Message {
    type V = Seq<char>;

    closed spec fn view(&self) -> Seq<char> {
        self.text@
    }
}

impl Message {
    /// A message that starts with these words.
    pub fn new(words: &str) -> (r: Message)
        ensures
            r@ == words@,
    {
        Message { text: words.to_owned() }
    }

    /// A message that starts with a number.
    pub fn counting(n: u64) -> (r: Message)
        ensures
            r@ == number(n as int),
    {
        Message { text: number_text(n as u128) }
    }

    /// The message, followed by these words.
    pub fn then_text(self, words: &str) -> (r: Message)
        ensures
            r@ == self@ + words@,
    {
        let mut text = self.text;
        text.append(words);
        Message { text }
    }

    /// The message, followed by a number.
    pub fn then_number(self, n: u64) -> (r: Message)
        ensures
            r@ == self@ + number(n as int),
    {
        self.then_sum(n as u128)
    }

    /// The message, followed by a number that need not fit in 64 bits.
    pub fn then_sum(self, n: u128) -> (r: Message)
        ensures
            r@ == self@ + number(n as int),
    {
        self.then_text(number_text(n).as_str())
    }

    /// The message, followed by a byte in hexadecimal.
    pub fn then_hex(self, b: u8) -> (r: Message)
        ensures
            r@ == self@ + hex(b),
    {
        self.then_text(hex_text(b).as_str())
    }

    /// The message, followed by a four-character code.
    pub fn then_code(self, code: &[u8; 4]) -> (r: Message)
        ensures
            r@ == self@ + code_name(code@),
    {
        self.then_text(shown_code(code).as_str())
    }

    /// The message, as an error about structurally invalid input.
    pub fn malformed(self) -> (e: PixelsError)
        ensures
            e.kind() == ErrorCode::Malformed,
            e.words() == self@,
    {
        PixelsError { code: ErrorCode::Malformed, detail: self.text }
    }

    /// The message, as an error about a valid but unimplemented feature.
    pub fn unsupported(self) -> (e: PixelsError)
        ensures
            e.kind() == ErrorCode::Unsupported,
            e.words() == self@,
    {
        PixelsError { code: ErrorCode::Unsupported, detail: self.text }
    }

    /// The message, as an error about an argument outside its documented range.
    pub fn invalid_argument(self) -> (e: PixelsError)
        ensures
            e.kind() == ErrorCode::InvalidArgument,
            e.words() == self@,
    {
        PixelsError { code: ErrorCode::InvalidArgument, detail: self.text }
    }
}

/// The words of a read of a row where all `height` have been read.
pub open spec fn rows_fault(height: int) -> Seq<char> {
    "all "@ + number(height) + " rows have already been read"@
}

/// The words of a read of a row of `row_bytes` bytes into a buffer of `len`.
pub open spec fn buffer_fault(len: int, row_bytes: int) -> Seq<char> {
    "row buffer is "@ + number(len) + " bytes, expected "@ + number(row_bytes)
}

/// Whether `r` is an error of kind `code` in these words.
pub open spec fn fails_saying<T>(r: Outcome<T>, code: ErrorCode, words: Seq<char>) -> bool {
    r is Err && r->Err_0.kind() == code && r->Err_0.words() == words
}

} // verus!
