//! What can go wrong, as a sentence for the reader.

use vstd::prelude::*;

verus! {

/// A failure, told in words.
#[derive(Debug)]
pub enum Error {
    Message(String),
}

impl Error {
    /// The words of the failure.
    pub open spec fn text(self) -> Seq<char> {
        match self {
            Error::Message(text) => text@,
        }
    }

    /// A failure with the given words.
    pub fn message(text: String) -> (r: Self)
        ensures
            r.text() == text@,
    {
        Error::Message(text)
    }

    /// The words of the failure, to be shown.
    pub fn to_text(&self) -> (r: String)
        ensures
            r@ == self.text(),
    {
        match self {
            Error::Message(text) => text.clone(),
        }
    }
}

/// The words of a result that failed, if it failed.
pub open spec fn failure<T>(r: Result<T, Error>) -> Option<Seq<char>> {
    match r {
        Ok(_) => None,
        Err(error) => Some(error.text()),
    }
}

} // verus!
