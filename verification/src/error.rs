//! Errors reported by the pattern compiler and by the matcher.

use vstd::prelude::*;
use vstd::string::StringExecFns;

verus! {

/// Everything that can go wrong while compiling or running a pattern.
#[derive(Debug, Clone, PartialEq, Eq)]
pub enum RegexError {
    /// The compiler met a construct it has no lowering for.
    CompileError(String),
    /// Groups nest too deeply, or too many alternations are pending.
    TooComplex,
    /// A parenthesis is badly placed.
    UnmatchedParenthesis,
    /// `\x` is not followed by two hexadecimal digits naming an ASCII value.
    BadHexEscape,
    /// A back-reference names register zero or is not a number.
    BadBackReference,
    /// An operator stands where the dialect forbids it.
    BadSpecialChar,
    /// The pattern stops in the middle of an escape or of a character class.
    PrematureEnd,
    /// The compiler ran out of memory.
    OutOfMemory,
    /// The matcher used up its instruction budget.
    Timeout,
    /// The matcher met malformed bytecode or filled its backtracking stack.
    ExecutionError,
    /// The input is not valid UTF-8.
    InvalidUtf8,
}

impl RegexError {
    /// The text of the message, as a sequence of characters.
    pub open spec fn spec_message(self) -> Seq<char> {
        match self {
            RegexError::CompileError(msg) => "Regex compilation error: "@ + msg@,
            RegexError::TooComplex => "Regular expression too complex"@,
            RegexError::UnmatchedParenthesis => "Badly placed parenthesis"@,
            RegexError::BadHexEscape => "Bad hexadecimal number"@,
            RegexError::BadBackReference => "Bad match register number"@,
            RegexError::BadSpecialChar => "Badly placed special character"@,
            RegexError::PrematureEnd => "Regular expression ends prematurely"@,
            RegexError::OutOfMemory => "Out of memory"@,
            RegexError::Timeout => "Regex execution timed out"@,
            RegexError::ExecutionError => "Regex execution error"@,
            RegexError::InvalidUtf8 => "Invalid UTF-8 in input"@,
        }
    }

    /// A human-readable description of the error.
    pub fn message(&self) -> (text: String)
        ensures
            text@ == self.spec_message(),
    {
        match self {
            RegexError::CompileError(msg) => {
                String::from_str("Regex compilation error: ").concat(msg.as_str())
            },
            RegexError::TooComplex => String::from_str("Regular expression too complex"),
            RegexError::UnmatchedParenthesis => String::from_str("Badly placed parenthesis"),
            RegexError::BadHexEscape => String::from_str("Bad hexadecimal number"),
            RegexError::BadBackReference => String::from_str("Bad match register number"),
            RegexError::BadSpecialChar => String::from_str("Badly placed special character"),
            RegexError::PrematureEnd => String::from_str("Regular expression ends prematurely"),
            RegexError::OutOfMemory => String::from_str("Out of memory"),
            RegexError::Timeout => String::from_str("Regex execution timed out"),
            RegexError::ExecutionError => String::from_str("Regex execution error"),
            RegexError::InvalidUtf8 => String::from_str("Invalid UTF-8 in input"),
        }
    }
}

} // verus!
