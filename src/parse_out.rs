//! The output of one step of post parsing, with the text left over.

use vstd::prelude::*;

verus! {

/// What a parsing step produced, and the text that follows it.
#[derive(PartialEq, Eq, Debug)]
pub struct ParseOut<T> {
    pub output: T,
    pub remainder: String,
}

impl<T> ParseOut<T> {
    pub fn new(remainder: &str, output: T) -> (r: Self)
        ensures
            r.remainder@ == remainder@,
            r.output == output,
    {
        ParseOut { output, remainder: remainder.to_owned() }
    }
}

} // verus!
