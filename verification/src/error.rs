//! The ways in which a conversion fails.

use vstd::prelude::*;
use vstd::string::StringExecFns;

verus! {

/// Where an offending character was found.
#[derive(Clone, Copy, Debug, PartialEq, Eq)]
pub enum Place {
    Key,
    Value,
}

/// A failed conversion.
#[derive(Debug, PartialEq, Eq)]
pub enum ConvertError {
    /// The input could not be read; the reader's diagnostic is kept.
    IoRead(String),
    /// An object key holds a carriage return or a line feed; the key is kept
    /// as it was found.
    KeyNewline(String),
    /// A key or a string value holds a NUL character.
    NulChar(Place),
    /// The input is not a JSON document; the parser's diagnostic is kept.
    JsonParse(String),
}

/// The model of an [`ConvertError`].
pub enum Fault {
    IoRead(Seq<char>),
    KeyNewline(Seq<char>),
    NulChar(Place),
    JsonParse(Seq<char>),
}

impl Fault {
    /// What went wrong, in words.
    pub open spec fn description(self) -> Seq<char> {
        match self {
            Fault::IoRead(diagnostic) => diagnostic,
            Fault::KeyNewline(key) => "Key contains newline character: "@ + key,
            Fault::NulChar(Place::Key) => "Key contains null character"@,
            Fault::NulChar(Place::Value) => "Value contains null character"@,
            Fault::JsonParse(diagnostic) => diagnostic,
        }
    }

    /// The line that reports the failure to the user.
    pub open spec fn report(self) -> Seq<char> {
        match self {
            Fault::IoRead(diagnostic) => "Error reading input: "@ + diagnostic,
            Fault::JsonParse(diagnostic) => "Error parsing JSON: "@ + diagnostic,
            _ => "Error: "@ + self.description(),
        }
    }
}

impl View for ConvertError {
    type V = Fault;

    open spec fn view(&self) -> Fault {
        match self {
            ConvertError::IoRead(diagnostic) => Fault::IoRead(diagnostic@),
            ConvertError::KeyNewline(key) => Fault::KeyNewline(key@),
            ConvertError::NulChar(place) => Fault::NulChar(*place),
            ConvertError::JsonParse(diagnostic) => Fault::JsonParse(diagnostic@),
        }
    }
}

impl ConvertError {
    /// What went wrong, in words.
    pub fn description(&self) -> (text: String)
        ensures
            text@ == self@.description(),
    {
        match self {
            ConvertError::IoRead(diagnostic) => diagnostic.clone(),
            ConvertError::KeyNewline(key) => {
                let mut text = "Key contains newline character: ".to_owned();
                text.append(key.as_str());
                text
            },
            ConvertError::NulChar(Place::Key) => "Key contains null character".to_owned(),
            ConvertError::NulChar(Place::Value) => "Value contains null character".to_owned(),
            ConvertError::JsonParse(diagnostic) => diagnostic.clone(),
        }
    }

    /// The line that reports the failure to the user.
    pub fn report(&self) -> (text: String)
        ensures
            text@ == self@.report(),
    {
        match self {
            ConvertError::IoRead(diagnostic) => {
                let mut text = "Error reading input: ".to_owned();
                text.append(diagnostic.as_str());
                text
            },
            ConvertError::JsonParse(diagnostic) => {
                let mut text = "Error parsing JSON: ".to_owned();
                text.append(diagnostic.as_str());
                text
            },
            _ => {
                let mut text = "Error: ".to_owned();
                let description = self.description();
                text.append(description.as_str());
                text
            },
        }
    }
}

} // verus!
