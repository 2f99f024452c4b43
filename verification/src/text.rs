//! Short codes, read without regard to case.

use vstd::prelude::*;
use vstd::string::*;

verus! {

/// The text in capitals, as `str::to_uppercase` of std gives it.
pub uninterp spec fn uppercase_of(text: Seq<char>) -> Seq<char>;

/// `str::to_uppercase`: the text with every character replaced by its
/// capital, by the rules of Unicode. The result is a function of the text
/// alone; it is named, not spelt out.
#[verifier::external_body]
pub(crate) fn to_uppercase(text: &str) -> (upper: String)
    ensures
        upper@ == uppercase_of(text@),
{
    text.to_uppercase()
}

/// `text` is `code`, in capitals or not: in capitals it is `code`.
pub open spec fn names(text: Seq<char>, code: Seq<char>) -> bool {
    uppercase_of(text) == code
}

/// Whether two texts are the same, character by character.
pub fn is_same_text(left: &str, right: &str) -> (same: bool)
    ensures
        same == (left@ == right@),
{
    let n = left.unicode_len();
    if n != right.unicode_len() {
        return false;
    }
    let mut i: usize = 0;
    while i < n
        invariant
            i <= n,
            n == left@.len(),
            n == right@.len(),
            forall|k: int| 0 <= k < i ==> left@[k] == right@[k],
        decreases n - i,
    {
        if left.get_char(i) != right.get_char(i) {
            return false;
        }
        i += 1;
    }
    assert(left@ =~= right@);
    true
}

/// Whether `text` is `code`, in capitals or not.
pub fn matches_code(text: &str, code: &str) -> (same: bool)
    ensures
        same == names(text@, code@),
{
    let upper = to_uppercase(text);
    is_same_text(upper.as_str(), code)
}

} // verus!
