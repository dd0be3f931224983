//! What can be wrong with a `.graph` file.

use vstd::prelude::*;

verus! {

/// A defect of a `.graph` file.
#[derive(Debug)]
pub enum MirError {
    InvalidGraph(String),
    MissingSection(&'static str),
}

pub type Result<T> = std::result::Result<T, MirError>;

/// The call failed because the file is invalid, for the reason `why`.
pub open spec fn invalid_because<T>(r: Result<T>, why: Seq<char>) -> bool {
    r matches Err(MirError::InvalidGraph(text)) && text@ == why
}

impl MirError {
    /// The message that a reader of the error sees.
    pub open spec fn text(&self) -> Seq<char> {
        match *self {
            MirError::InvalidGraph(why) => "invalid .graph: "@ + why@,
            MirError::MissingSection(name) => "missing section `"@ + name@ + "`"@,
        }
    }

    /// Writes the message that a reader of the error sees.
    pub fn message(&self) -> (r: String)
        ensures
            r@ == self.text(),
    {
        match self {
            MirError::InvalidGraph(why) => {
                String::from_str("invalid .graph: ").concat(why.as_str())
            },
            MirError::MissingSection(name) => {
                String::from_str("missing section `").concat(name).concat("`")
            },
        }
    }
}

} // verus!
