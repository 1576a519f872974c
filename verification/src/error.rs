use vstd::prelude::*;

verus! {

/// What can go wrong in the library.
#[derive(Debug)]
pub enum Error {
    /// A failure described in words.
    Message(String),
    /// A choice was made twice for one question.
    ChoiceAlreadySet,
    /// A question was left without a choice.
    NoChoiceMade,
    /// A secret was asked for and none was given.
    NoSecretEntered,
}

impl Error {
    /// The error `Message(message)`.
    pub fn new(message: &str) -> (e: Error)
        ensures
            e matches Error::Message(m) && m@ == message@,
    {
        Error::Message(message.to_owned())
    }

    /// The words of a `Message` error.
    pub open spec fn says(self, words: Seq<char>) -> bool {
        self matches Error::Message(m) && m@ == words
    }
}

} // verus!
