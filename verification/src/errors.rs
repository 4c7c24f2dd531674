//! The one error type of the editing core.
use vstd::prelude::*;

verus! {

/// Why a request was refused. Every variant carries the sentence a user sees.
#[derive(Debug)]
pub enum IngestError {
    /// The bytes do not form the image they claim to be.
    Decode(String),
    /// The request is outside of what this build does.
    Unsupported(String),
    /// The device or the streaming pipeline failed.
    Pipeline(String),
}

impl IngestError {
    /// The sentence without the kind.
    pub open spec fn detail(self) -> Seq<char> {
        match self {
            IngestError::Decode(m) => m@,
            IngestError::Unsupported(m) => m@,
            IngestError::Pipeline(m) => m@,
        }
    }

    /// The kind's prefix.
    pub open spec fn prefix(self) -> Seq<char> {
        match self {
            IngestError::Decode(_) => "decode: "@,
            IngestError::Unsupported(_) => "unsupported: "@,
            IngestError::Pipeline(_) => "pipeline: "@,
        }
    }

    /// Whether this is a decode error with the given sentence.
    pub open spec fn is_decode(self, sentence: Seq<char>) -> bool {
        self is Decode && self.detail() == sentence
    }

    /// Whether this is a refusal with the given sentence.
    pub open spec fn is_unsupported(self, sentence: Seq<char>) -> bool {
        self is Unsupported && self.detail() == sentence
    }

    /// The error as one line of text, kind first.
    pub fn to_text(&self) -> (text: String)
        ensures
            text@ == self.prefix() + self.detail(),
    {
        match self {
            IngestError::Decode(m) => {
                let mut s: String = "decode: ".to_owned();
                s.append(m.as_str());
                s
            },
            IngestError::Unsupported(m) => {
                let mut s: String = "unsupported: ".to_owned();
                s.append(m.as_str());
                s
            },
            IngestError::Pipeline(m) => {
                let mut s: String = "pipeline: ".to_owned();
                s.append(m.as_str());
                s
            },
        }
    }
}

/// A refusal with a fixed sentence.
pub fn unsupported(sentence: &str) -> (e: IngestError)
    ensures
        e.is_unsupported(sentence@),
{
    IngestError::Unsupported(sentence.to_owned())
}

/// A decode error with a fixed sentence.
pub fn undecodable(sentence: &str) -> (e: IngestError)
    ensures
        e.is_decode(sentence@),
{
    IngestError::Decode(sentence.to_owned())
}

} // verus!
