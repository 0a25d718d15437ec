//! The one-line usage hint that error messages carry.

use vstd::prelude::*;

verus! {

/// The hint appended to argument errors.
pub open spec fn short_help_text() -> Seq<char> {
    "Use \"todo0 help\" or \"todo0 --help\" to see the usage."@
}

/// Returns the one-line usage hint.
pub fn short_help() -> (r: String)
    ensures
        r@ == short_help_text(),
{
    "Use \"todo0 help\" or \"todo0 --help\" to see the usage.".to_owned()
}

} // verus!
