//! Token counting.

use vstd::prelude::*;

use crate::text::to_chars;

verus! {

/// Counts the tokens of a text.
pub trait Counter {
    /// How many tokens a text is counted as. A counter that is to be verified
    /// says so here.
    open spec fn tokens(&self, text: Seq<char>) -> nat {
        arbitrary()
    }

    fn count(&self, text: &str) -> (r: usize)
        ensures
            r == self.tokens(text@),
    ;
}

/// How many characters make one token, on average.
pub const CHARS_PER_TOKEN: usize = 4;

/// Estimates token counts from text length, without a tokenizer's vocabulary:
/// one token for every four characters, rounded up.
#[derive(Debug, Clone, Copy)]
pub struct Estimator;

/// One token for every [`CHARS_PER_TOKEN`] characters, rounded up.
pub open spec fn estimate(text: Seq<char>) -> nat {
    if text.len() % (CHARS_PER_TOKEN as nat) == 0 {
        text.len() / (CHARS_PER_TOKEN as nat)
    } else {
        text.len() / (CHARS_PER_TOKEN as nat) + 1
    }
}

impl Estimator {
    pub fn new() -> (r: Estimator)
        ensures
            r == Estimator,
    {
        Estimator
    }
}

impl Counter for Estimator {
    open spec fn tokens(&self, text: Seq<char>) -> nat {
        estimate(text)
    }

    fn count(&self, text: &str) -> (r: usize) {
        let n: usize = to_chars(text).len();
        if n % CHARS_PER_TOKEN == 0 {
            n / CHARS_PER_TOKEN
        } else {
            n / CHARS_PER_TOKEN + 1
        }
    }
}

} // verus!
