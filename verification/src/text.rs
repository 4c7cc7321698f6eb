use vstd::prelude::*;

verus! {

/// The token list that splitting a string on whitespace yields.
pub uninterp spec fn ws_split(s: Seq<char>) -> Seq<Seq<char>>;

/// The string obtained by replacing every non-overlapping occurrence of
/// `pat` in `s` with `rep`.
pub uninterp spec fn str_replaced(s: Seq<char>, pat: Seq<char>, rep: Seq<char>) -> Seq<char>;

/// Relies on str::split_whitespace: the token list depends on the string
/// alone; the tokens are maximal runs of non-whitespace characters, so none
/// of them is empty.
#[verifier::external_body]
pub(crate) fn split_whitespace_vec(s: &str) -> (r: Vec<String>)
    ensures
        r@.map_values(|t: String| t@) == ws_split(s@),
        forall|i: int| 0 <= i < r@.len() ==> #[trigger] r@[i]@.len() > 0,
{
    s.split_whitespace().map(|t| t.to_string()).collect()
}

/// Relies on str::replace: the result depends on the receiver, the pattern
/// and the replacement alone.
#[verifier::external_body]
pub(crate) fn replace_str(s: &str, pat: &str, rep: &str) -> (r: String)
    ensures
        r@ == str_replaced(s@, pat@, rep@),
{
    s.replace(pat, rep)
}

} // verus!
