use vstd::prelude::*;

use crate::rule::Rule;

verus! {

/// A discovered path paired with the rule that applies to it.
#[derive(Debug, PartialEq)]
pub struct File<'a> {
    /// The file's path.
    pub path: String,
    /// The rule that produced or claims this file.
    pub rule: &'a Rule,
}

} // verus!
