//! The general error of Gitlet, with an optional message to print.

use vstd::prelude::*;

verus! {

/// A Gitlet exception; its message, when there is one, is what to print.
#[derive(Debug)]
pub struct GitletException {
    message: Option<String>,
}

impl GitletException {
    /// The exception's message, taken by its characters.
    pub closed spec fn text(self) -> Option<Seq<char>> {
        match self.message {
            Some(m) => Some(m@),
            None => None,
        }
    }

    /// An exception without a message.
    pub fn new() -> (r: GitletException)
        ensures
            r.text() == None::<Seq<char>>,
    {
        GitletException { message: None }
    }

    /// An exception with the message `msg`.
    pub fn with_message(msg: String) -> (r: GitletException)
        ensures
            r.text() == Some(msg@),
    {
        GitletException { message: Some(msg) }
    }

    /// The exception's message, if any.
    pub fn message(&self) -> (r: Option<&str>)
        ensures
            match r {
                Some(m) => self.text() == Some(m@),
                None => self.text() == None::<Seq<char>>,
            },
    {
        match &self.message {
            Some(m) => Some(m.as_str()),
            None => None,
        }
    }

    /// The text that the exception displays: its message, or
    /// "Gitlet exception" when it has none.
    pub fn display(&self) -> (r: String)
        ensures
            r@ == match self.text() {
                Some(m) => m,
                None => "Gitlet exception"@,
            },
    {
        match &self.message {
            Some(m) => m.clone(),
            None => String::from_str("Gitlet exception"),
        }
    }
}

impl Default for GitletException {
    fn default() -> (r: Self)
        ensures
            r.text() == None::<Seq<char>>,
    {
        Self::new()
    }
}

impl Clone for GitletException {
    fn clone(&self) -> (r: Self)
        ensures
            r.text() == self.text(),
    {
        match &self.message {
            Some(m) => GitletException { message: Some(m.clone()) },
            None => GitletException { message: None },
        }
    }
}

} // verus!
