use vstd::prelude::*;

verus! {

/// An error met while reading a color from text; `msg` says what went wrong.
#[derive(Clone, Debug)]
pub struct ParseError {
    pub msg: String,
}

} // verus!
