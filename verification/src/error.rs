use vstd::prelude::*;

verus! {

/// The errors of the library: an unexpected condition, a missing file name, a file that
/// does not exist, and a language-model client that was never registered.
#[derive(Debug, Clone, PartialEq, Eq)]
pub enum ChapError {
    Unexpected(String),
    NoFilePath,
    FileNotFound(String),
    LLMNotRegistered(String),
}

/// The message of an error.
pub open spec fn error_text(e: ChapError) -> Seq<char> {
    match e {
        ChapError::Unexpected(s) => "Unexpected: "@ + s@,
        ChapError::NoFilePath => "Please enter a file name, example: `chap file.txt`"@,
        ChapError::FileNotFound(s) => "File not found: "@ + s@,
        ChapError::LLMNotRegistered(s) => "LLM api not registered: "@ + s@,
    }
}

impl ChapError {
    /// The message of the error.
    pub fn to_text(&self) -> (r: String)
        ensures
            r@ == error_text(*self),
    {
        match self {
            ChapError::Unexpected(s) => {
                let mut out = String::from_str("Unexpected: ");
                crate::text_util::push_str(&mut out, s.as_str());
                out
            },
            ChapError::NoFilePath => String::from_str("Please enter a file name, example: `chap file.txt`"),
            ChapError::FileNotFound(s) => {
                let mut out = String::from_str("File not found: ");
                crate::text_util::push_str(&mut out, s.as_str());
                out
            },
            ChapError::LLMNotRegistered(s) => {
                let mut out = String::from_str("LLM api not registered: ");
                crate::text_util::push_str(&mut out, s.as_str());
                out
            },
        }
    }

    /// An unexpected condition described by `msg`.
    pub fn from_message(msg: &str) -> (r: ChapError)
        ensures
            r matches ChapError::Unexpected(s) && s@ == msg@,
    {
        ChapError::Unexpected(msg.to_string())
    }
}

} // verus!
