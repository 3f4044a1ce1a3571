//! The text that the `stdin` template helper writes.
use crate::text::{trim_end, trim_end_str};
use vstd::prelude::*;
use vstd::string::StringExecFns;

verus! {

/// What the helper emits for the captured standard input: the input without trailing
/// whitespace, so a final newline does not reach the output.
pub fn helper_text(contents: &str) -> (r: String)
    ensures
        r@ == trim_end(contents@),
{
    String::from_str(trim_end_str(contents))
}

} // verus!
