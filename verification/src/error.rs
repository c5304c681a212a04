//! The errors that the runner reports.

use vstd::prelude::*;

verus! {

/// An error of the operating system, carried through as it came.
#[verifier::external_type_specification]
#[verifier::external_body]
pub struct ExIoError(std::io::Error);

/// What can go wrong before and during a chat.
#[derive(Debug)]
pub enum PocketError {
    IoError(std::io::Error),
    ConfigError(String),
    EngineError(String),
    MemoryInsufficient(String),
}

impl From<std::io::Error> for PocketError {
    fn from(error: std::io::Error) -> (wrapped: PocketError) {
        PocketError::IoError(error)
    }
}

impl vstd::std_specs::convert::FromSpecImpl<std::io::Error> for PocketError {
    open spec fn obeys_from_spec() -> bool {
        true
    }

    open spec fn from_spec(error: std::io::Error) -> PocketError {
        PocketError::IoError(error)
    }
}

impl PocketError {
    /// The words in front of an error's own text.
    pub open spec fn label(&self) -> Seq<char> {
        match self {
            PocketError::IoError(_) => "I/O Error: "@,
            PocketError::ConfigError(_) => "Configuration Error: "@,
            PocketError::EngineError(_) => "Engine Inference Error: "@,
            PocketError::MemoryInsufficient(_) => "Insufficient System RAM: "@,
        }
    }

    /// The error as one text: its label, then its own text. What the operating system says
    /// of an I/O error is left to it.
    pub fn message(&self) -> (text: String)
        ensures
            match self {
                PocketError::IoError(_) => text@.len() >= self.label().len() && text@.take(
                    self.label().len() as int,
                ) == self.label(),
                PocketError::ConfigError(detail) => text@ == self.label() + detail@,
                PocketError::EngineError(detail) => text@ == self.label() + detail@,
                PocketError::MemoryInsufficient(detail) => text@ == self.label() + detail@,
            },
    {
        let mut text: String = String::new();
        match self {
            PocketError::IoError(error) => {
                text = io_message(io_error_text(error).as_str());
                assert(text@.take(self.label().len() as int) =~= self.label());
            },
            PocketError::ConfigError(detail) => {
                text.append("Configuration Error: ");
                text.append(detail.as_str());
            },
            PocketError::EngineError(detail) => {
                text.append("Engine Inference Error: ");
                text.append(detail.as_str());
            },
            PocketError::MemoryInsufficient(detail) => {
                text.append("Insufficient System RAM: ");
                text.append(detail.as_str());
            },
        }
        text
    }
}

/// An I/O error as one text, of which the operating system says `detail`.
pub fn io_message(detail: &str) -> (text: String)
    ensures
        text@ == "I/O Error: "@ + detail@,
{
    let mut text: String = "I/O Error: ".to_owned();
    text.append(detail);
    text
}

/// The text of an I/O error, as `std::io::Error` displays it. The words come from the
/// operating system, so nothing is claimed of them.
#[verifier::external_body]
fn io_error_text(error: &std::io::Error) -> (text: String) {
    error.to_string()
}

/// Each kind of error is told by its own words.
pub proof fn law_errors_are_told_by_their_kind(error: PocketError)
    ensures
        match error {
            PocketError::IoError(_) => error.label() == "I/O Error: "@,
            PocketError::ConfigError(_) => error.label() == "Configuration Error: "@,
            PocketError::EngineError(_) => error.label() == "Engine Inference Error: "@,
            PocketError::MemoryInsufficient(_) => error.label() == "Insufficient System RAM: "@,
        },
{
}

} // verus!
