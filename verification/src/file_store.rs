use vstd::prelude::*;

use crate::rule::Rule;

verus! {

/// A stored path with the rule that produced it, if one did.
#[derive(Debug)]
pub struct File<'a> {
    /// The file's path.
    pub path: String,
    /// The rule that produced this file, when it was derived by one.
    pub rule: Option<&'a Rule>,
}

} // verus!
