//! The ways a conversion can fail, and the one-line messages shown for them.
use vstd::prelude::*;

verus! {

/// A failure already put into words for a person to read.
pub struct HumanError(pub String);

impl HumanError {
    pub fn new(error: String) -> (r: Self)
        ensures
            r.0@ == error@,
    {
        Self(error)
    }

    /// The text of the message.
    pub fn message(&self) -> (r: String)
        ensures
            r@ == self.0@,
    {
        self.0.clone()
    }
}

/// Why a conversion stopped. Each kind carries the path it concerns and the
/// underlying cause as text.
pub enum ConversionError {
    /// The input file could not be read as text.
    ReadError { path: String, cause: String },
    /// The output file could not be created, opened or truncated.
    CreateError { path: String, cause: String },
    /// Writing to the output file failed.
    WriteError { path: String, cause: String },
    /// Forcing the written data to storage failed.
    SyncError { path: String, cause: String },
}

/// The message shown for `e`: its kind, the path it concerns and the cause.
pub open spec fn message_of(e: ConversionError) -> Seq<char> {
    match e {
        ConversionError::ReadError { path, cause } => "Error when reading '"@ + path@ + "': "@
            + cause@,
        ConversionError::CreateError { path, cause } => "Error when creating file '"@ + path@
            + "': "@ + cause@,
        ConversionError::WriteError { path, cause } => "Error when writing '"@ + path@ + "': "@
            + cause@,
        ConversionError::SyncError { path, cause } => "Cannot sync '"@ + path@ + "' with disk: "@
            + cause@,
    }
}

impl ConversionError {
    /// The one-line message for this failure.
    pub fn message(&self) -> (r: String)
        ensures
            r@ == message_of(*self),
    {
        match self {
            ConversionError::ReadError { path, cause } => {
                let mut s = String::from_str("Error when reading '");
                s.append(path.as_str());
                s.append("': ");
                s.append(cause.as_str());
                s
            },
            ConversionError::CreateError { path, cause } => {
                let mut s = String::from_str("Error when creating file '");
                s.append(path.as_str());
                s.append("': ");
                s.append(cause.as_str());
                s
            },
            ConversionError::WriteError { path, cause } => {
                let mut s = String::from_str("Error when writing '");
                s.append(path.as_str());
                s.append("': ");
                s.append(cause.as_str());
                s
            },
            ConversionError::SyncError { path, cause } => {
                let mut s = String::from_str("Cannot sync '");
                s.append(path.as_str());
                s.append("' with disk: ");
                s.append(cause.as_str());
                s
            },
        }
    }

    /// This failure as a message for a person.
    pub fn to_human(&self) -> (r: HumanError)
        ensures
            r.0@ == message_of(*self),
    {
        HumanError::new(self.message())
    }
}

/// Process exit status for a finished run: `0` on success, `1` on any failure.
pub fn exit_code(outcome: &Result<(), ConversionError>) -> (r: i32)
    ensures
        outcome is Ok ==> r == 0,
        outcome is Err ==> r == 1,
{
    match outcome {
        Ok(()) => 0,
        Err(_) => 1,
    }
}

} // verus!
