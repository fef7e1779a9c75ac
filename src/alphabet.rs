use vstd::prelude::*;

verus! {

/// Failures of construction or of the alphabet boundary.
#[derive(Debug, Clone, Copy, PartialEq, Eq, Structural)]
pub enum EnigmaError {
    /// A character that is not one of the uppercase letters `A`..`Z`.
    InvalidCharacter,
    /// A letter that appears in more than one plugboard pair.
    DuplicateOrConflictingPair,
    /// Reflector pairs that are not 13 disjoint pairs covering the alphabet.
    InvalidReflectorConfiguration,
}

/// An uppercase letter `A`..`Z`.
pub open spec fn is_letter(c: char) -> bool {
    65 <= (c as u32) && (c as u32) <= 90
}

/// The zero-based position of a letter in the alphabet.
pub open spec fn index_of(c: char) -> int {
    (c as u32) - 65
}

/// The letter at a zero-based position of the alphabet.
pub open spec fn letter_at(i: int) -> char {
    (i + 65) as char
}

pub proof fn lemma_letter_index(c: char)
    requires
        is_letter(c),
    ensures
        0 <= index_of(c) < 26,
        letter_at(index_of(c)) == c,
{
}

pub proof fn lemma_index_letter(i: int)
    requires
        0 <= i < 26,
    ensures
        is_letter(letter_at(i)),
        index_of(letter_at(i)) == i,
{
}

/// Twenty-six distinct uppercase letters: a rotor wiring.
pub open spec fn is_wiring(w: Seq<char>) -> bool {
    &&& w.len() == 26
    &&& forall|i: int| 0 <= i < 26 ==> is_letter(#[trigger] w[i])
    &&& forall|i: int, k: int| 0 <= i < 26 && 0 <= k < 26 && i != k ==> w[i] != w[k]
    &&& forall|j: int| 0 <= j < 26 ==> #[trigger] w.contains(letter_at(j))
}

/// Converts a letter to its position in the alphabet.
pub fn get_char_digit(c: char) -> (r: Result<usize, EnigmaError>)
    ensures
        is_letter(c) ==> r == Ok::<usize, EnigmaError>(index_of(c) as usize),
        !is_letter(c) ==> r == Err::<usize, EnigmaError>(EnigmaError::InvalidCharacter),
{
    let v = c as u32;
    if 65 <= v && v <= 90 {
        Ok((v - 65) as usize)
    } else {
        Err(EnigmaError::InvalidCharacter)
    }
}

/// Tests whether `c` is an uppercase letter `A`..`Z`.
pub fn is_upper_letter(c: char) -> (r: bool)
    ensures
        r == is_letter(c),
{
    let v = c as u32;
    65 <= v && v <= 90
}

/// Converts a position in the alphabet back to its letter.
pub fn letter_of(i: usize) -> (c: char)
    requires
        i < 26,
    ensures
        c == letter_at(i as int),
        is_letter(c),
{
    ((i as u8) + 65u8) as char
}

} // verus!
