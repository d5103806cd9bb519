//! The boundary to the comparison of texts without regard to case.

use unicase::UniCase;
use vstd::prelude::*;

verus! {

/// Whether `a` and `b` are equal when case is left out of account, by Unicode case folding.
pub uninterp spec fn caseless_eq(a: Seq<char>, b: Seq<char>) -> bool;

/// Whether `a` comes before `b` when case is left out of account.
pub uninterp spec fn caseless_before(a: Seq<char>, b: Seq<char>) -> bool;

/// `==` on `UniCase`.
#[verifier::external_body]
pub(crate) fn same_caseless(a: &str, b: &str) -> (res: bool)
    ensures
        res == caseless_eq(a@, b@),
{
    UniCase::new(a) == UniCase::new(b)
}

/// `<` on `UniCase`.
#[verifier::external_body]
pub(crate) fn before_caseless(a: &str, b: &str) -> (res: bool)
    ensures
        res == caseless_before(a@, b@),
{
    UniCase::new(a) < UniCase::new(b)
}

} // verus!
