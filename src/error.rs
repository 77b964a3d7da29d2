use vstd::prelude::*;

verus! {

/// The one failure of the wire-format decoder: the bytes do not form a message it accepts.
/// The text says what was wrong with them.
#[derive(Debug, PartialEq)]
pub struct ParseError {
    message: String,
}

impl ParseError {
    /// The text that this error carries.
    pub closed spec fn spec_message(&self) -> Seq<char> {
        self.message@
    }

    pub fn new(message: String) -> (r: ParseError)
        ensures
            r.spec_message() == message@,
    {
        ParseError { message }
    }

    /// Builds an error from a fixed description.
    pub(crate) fn describe(message: &str) -> (r: ParseError)
        ensures
            r.spec_message() == message@,
    {
        ParseError { message: message.to_owned() }
    }

    pub fn message(&self) -> (r: &String)
        ensures
            r@ == self.spec_message(),
    {
        &self.message
    }

    /// The description, as an owned string.
    pub fn to_string(&self) -> (r: String)
        ensures
            r@ == self.spec_message(),
    {
        self.message.clone()
    }
}

} // verus!
