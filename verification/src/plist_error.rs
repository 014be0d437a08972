//! The failures that an operation on a property list can report.

use vstd::prelude::*;

verus! {

/// Why an operation failed.
#[derive(Debug, Clone, Copy, PartialEq, Eq, Structural)]
pub enum PlistError {
    /// An argument was malformed or named nothing usable.
    InvalidArg,
    /// A serialized document was structurally invalid.
    Format,
    /// A serialized document could not be tokenized.
    Parse,
    /// Node storage was exhausted.
    NoMemory,
    /// An unclassified failure of the codec.
    Unknown,
    /// A handle was used although it no longer reaches a live node.
    Dealloc,
}

/// The status code with which the codec reports success.
pub const ERR_SUCCESS: i32 = 0;

/// The status code with which the codec reports an invalid argument.
pub const ERR_INVALID_ARG: i32 = -1;

/// The status code with which the codec reports an invalid format.
pub const ERR_FORMAT: i32 = -2;

/// The status code with which the codec reports a parse failure.
pub const ERR_PARSE: i32 = -3;

/// The status code with which the codec reports exhausted memory.
pub const ERR_NO_MEM: i32 = -4;

impl PlistError {
    /// The error that a codec status code stands for: none for the success
    /// code, and `Unknown` for every failure code that is not one of the four
    /// classified ones.
    pub open spec fn of_code(code: i32) -> Option<PlistError> {
        if code == ERR_SUCCESS {
            None
        } else if code == ERR_INVALID_ARG {
            Some(PlistError::InvalidArg)
        } else if code == ERR_FORMAT {
            Some(PlistError::Format)
        } else if code == ERR_PARSE {
            Some(PlistError::Parse)
        } else if code == ERR_NO_MEM {
            Some(PlistError::NoMemory)
        } else {
            Some(PlistError::Unknown)
        }
    }

    /// The text that describes this error.
    pub open spec fn text(self) -> Seq<char> {
        match self {
            PlistError::InvalidArg => "Invalid argument"@,
            PlistError::Format => "Invalid format"@,
            PlistError::Parse => "Parse failed"@,
            PlistError::NoMemory => "No memory"@,
            PlistError::Dealloc => "Dealloc plist_t"@,
            PlistError::Unknown => "Unknown"@,
        }
    }

    /// Maps a codec status code to the error it stands for.
    pub fn from(error: i32) -> (r: Option<PlistError>)
        ensures
            r == Self::of_code(error),
    {
        if error == ERR_SUCCESS {
            None
        } else if error == ERR_INVALID_ARG {
            Some(PlistError::InvalidArg)
        } else if error == ERR_FORMAT {
            Some(PlistError::Format)
        } else if error == ERR_PARSE {
            Some(PlistError::Parse)
        } else if error == ERR_NO_MEM {
            Some(PlistError::NoMemory)
        } else {
            Some(PlistError::Unknown)
        }
    }

    /// Turns a codec status code into a result: `Ok` for the success code
    /// alone, `Err` for every other code.
    pub fn try_from(error: i32) -> (r: Result<(), PlistError>)
        ensures
            r == match Self::of_code(error) {
                Some(e) => Err::<(), PlistError>(e),
                None => Ok::<(), PlistError>(()),
            },
    {
        match Self::from(error) {
            Some(e) => Err(e),
            None => Ok(()),
        }
    }

    /// The text that describes this error.
    pub fn message(&self) -> (s: String)
        ensures
            s@ == self.text(),
    {
        match self {
            PlistError::InvalidArg => "Invalid argument".to_owned(),
            PlistError::Format => "Invalid format".to_owned(),
            PlistError::Parse => "Parse failed".to_owned(),
            PlistError::NoMemory => "No memory".to_owned(),
            PlistError::Dealloc => "Dealloc plist_t".to_owned(),
            PlistError::Unknown => "Unknown".to_owned(),
        }
    }
}

} // verus!
