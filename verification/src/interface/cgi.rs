//! What can go wrong when a CGI program runs, and how it reads.

use vstd::prelude::*;

verus! {

/// The kind of failure of a CGI program.
pub enum ErrorStatus {
    /// The program could not be started.
    Execution,
    /// The program ran and reported an error.
    Program,
    /// The program's output is not valid UTF-8.
    ByteConversion,
}

/// A failed CGI run: its kind and a message.
pub struct Error {
    status: ErrorStatus,
    message: String,
}

/// The description of a kind of failure.
pub open spec fn spec_status_text(status: ErrorStatus) -> Seq<char> {
    match status {
        ErrorStatus::Execution => "can't execute the program"@,
        ErrorStatus::ByteConversion => "the program has been succesfully executed but can't convert the result into a string"@,
        ErrorStatus::Program => "the program returned an error"@,
    }
}

impl Error {
    /// The kind of failure.
    pub closed spec fn kind(&self) -> ErrorStatus {
        self.status
    }

    /// The message.
    pub closed spec fn text(&self) -> Seq<char> {
        self.message@
    }

    pub fn new(status: ErrorStatus, message: String) -> (r: Self)
        ensures
            r.kind() == status,
            r.text() == message@,
    {
        Self { status, message }
    }

    /// How the error reads: the description of its kind, ` : `, then the
    /// message.
    pub fn to_text(&self) -> (r: String)
        ensures
            r@ == spec_status_text(self.kind()) + " : "@ + self.text(),
    {
        let mut r = match self.status {
            ErrorStatus::Execution => String::from_str("can't execute the program"),
            ErrorStatus::ByteConversion => String::from_str(
                "the program has been succesfully executed but can't convert the result into a string",
            ),
            ErrorStatus::Program => String::from_str("the program returned an error"),
        };
        r.append(" : ");
        r.append(self.message.as_str());
        r
    }
}

} // verus!
