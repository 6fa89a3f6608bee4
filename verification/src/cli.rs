use vstd::prelude::*;

pub mod args;
pub mod command;
pub mod input;
pub mod laws;
pub mod numbers;
pub mod parse;
pub mod usage;

verus! {

/// The usage text of the command-line interface.
pub fn usage_text() -> (r: &'static str)
    ensures
        r@ == usage::usage_spec(),
{
    usage::usage_text()
}

} // verus!
