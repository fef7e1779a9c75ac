use vstd::prelude::*;
use crate::alphabet::is_letter;

verus! {

/// A lowercase ASCII letter `a`..`z`.
pub open spec fn is_lower_ascii(c: char) -> bool {
    97 <= (c as u32) && (c as u32) <= 122
}

/// What one character contributes to normalized text: an uppercase letter
/// stays, a lowercase ASCII letter becomes its uppercase form, anything else
/// is dropped.
pub open spec fn fold_letter(c: char) -> Seq<char> {
    if is_letter(c) {
        seq![c]
    } else if is_lower_ascii(c) {
        seq![((c as u32) - 32) as char]
    } else {
        Seq::empty()
    }
}

/// The ASCII letters of `t`, in order and in uppercase.
pub open spec fn normalize(t: Seq<char>) -> Seq<char>
    decreases t.len(),
{
    if t.len() == 0 {
        Seq::empty()
    } else {
        normalize(t.drop_last()) + fold_letter(t.last())
    }
}

/// What `str::to_uppercase` makes of a text.
pub uninterp spec fn upper_of(s: Seq<char>) -> Seq<char>;

/// Relies on `str::to_uppercase`, whose result depends on the characters
/// alone; the result is spelled out as its characters.
#[verifier::external_body]
pub(crate) fn uppercase_chars(s: &str) -> (r: Vec<char>)
    ensures
        r@ == upper_of(s@),
{
    s.to_uppercase().chars().collect()
}

/// Relies on `String`'s `FromIterator<&char>`: collecting characters into a
/// `String` keeps them, in order.
#[verifier::external_body]
pub(crate) fn string_from_chars(v: &Vec<char>) -> (r: String)
    ensures
        r@ == v@,
{
    v.iter().collect()
}

} // verus!
