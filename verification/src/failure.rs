//! Errors as people read them.

use vstd::prelude::*;

use crate::strings;
use crate::text;

verus! {

/// An error: what went wrong, and what it went wrong in, outermost first.
#[derive(Debug)]
pub struct Failure {
    pub chain: Vec<String>,
}

impl View for Failure {
    type V = Seq<Seq<char>>;

    open spec fn view(&self) -> Seq<Seq<char>> {
        text::texts(self.chain@)
    }
}

impl Failure {
    pub fn new(message: String) -> (r: Failure)
        ensures
            r@ == seq![message@],
    {
        let ghost said = message@;
        let mut chain: Vec<String> = Vec::new();
        chain.push(message);
        assert(text::texts(chain@) =~= seq![said]);
        Failure { chain }
    }

    /// The same error, with what was being done when it came up.
    pub fn context(self, message: String) -> (r: Failure)
        ensures
            r@ == seq![message@] + self@,
    {
        let ghost said = message@;
        let ghost before = text::texts(self.chain@);
        let mut chain = self.chain;
        chain.insert(0, message);
        assert(text::texts(chain@) =~= seq![said] + before);
        Failure { chain }
    }

    /// The outermost message.
    pub fn message(&self) -> (r: String)
        ensures
            self@.len() > 0 ==> r@ == self@[0],
            self@.len() == 0 ==> r@.len() == 0,
    {
        if self.chain.len() == 0 {
            String::new()
        } else {
            assert(self@[0] == self.chain@[0]@);
            self.chain[0].as_str().to_owned()
        }
    }

    /// All messages on one line.
    pub fn full(&self) -> (r: String)
        ensures
            r@ == text::join(self@, ": "@),
    {
        strings::join(&self.chain, ": ")
    }
}

/// The outcome of something that gives a text.
pub open spec fn said(r: Result<String, Failure>) -> Result<Seq<char>, Seq<Seq<char>>> {
    match r {
        Ok(s) => Ok(s@),
        Err(f) => Err(f@),
    }
}

/// The outcome of something that only succeeds or fails.
pub open spec fn done(r: Result<(), Failure>) -> Result<(), Seq<Seq<char>>> {
    match r {
        Ok(_) => Ok(()),
        Err(f) => Err(f@),
    }
}

} // verus!
