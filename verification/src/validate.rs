//! The rule on the words of an alphabet: all are as long as the first.

use vstd::prelude::*;
use vstd::string::*;

verus! {

/// Checks the words of an alphabet one after the other.
pub struct WordValidator {
    pub len: Option<usize>,
}

/// The number of bytes that a string takes, as `str::len` gives it.
pub open spec fn byte_len(s: Seq<char>) -> usize {
    vstd::utf8::encode_utf8(s).len() as usize
}

impl WordValidator {
    /// A validator that has seen no word yet.
    pub fn new() -> (validator: WordValidator)
        ensures
            validator.len is None,
    {
        WordValidator { len: None }
    }

    /// Accepts the first word, whatever its length, and remembers the
    /// length; accepts every later word of that length, and rejects every
    /// other with a message.
    pub fn validate(&mut self, s: &String) -> (res: Result<(), String>)
        ensures
            final(self).len == Some(
                match old(self).len {
                    Some(l) => l,
                    None => byte_len(s@),
                },
            ),
            res is Ok <==> (old(self).len matches Some(l) ==> byte_len(s@) == l),
            res matches Err(message) ==> message@
                == "words of the alphabet must have the same length"@,
    {
        match self.len {
            Some(l) => {
                if s.as_str().len() != l {
                    Err(String::from_str("words of the alphabet must have the same length"))
                } else {
                    Ok(())
                }
            },
            None => {
                self.len = Some(s.as_str().len());
                Ok(())
            },
        }
    }
}

} // verus!
