use vstd::prelude::*;
use crate::alphabet::{is_letter, index_of, letter_at, get_char_digit, letter_of, lemma_letter_index, EnigmaError};
use crate::random::shuffled_alphabet;
use crate::pairs::{split_pairs, all_letters, pairs_disjoint, pairs_mapping, pair_mapping, lemma_pairs_involution};
use crate::perm::is_involution;

verus! {

/// The letter that wiring `m` sends `c` to.
pub open spec fn wire(m: Seq<usize>, c: char) -> char {
    letter_at(m[index_of(c)] as int)
}

/// A fixed letter-swap wiring applied before and after the rotors.
#[derive(Debug)]
pub struct Plugboard {
    mapping: Vec<usize>,
}

impl View for Plugboard {
    type V = Seq<usize>;

    /// Where each position `0..26` is sent.
    closed spec fn view(&self) -> Seq<usize> {
        self.mapping@
    }
}

impl Plugboard {
    /// The wiring swaps letters in pairs.
    pub open spec fn wf(&self) -> bool {
        is_involution(self@)
    }

    /// Wires the given disjoint letter pairs; every other letter maps to itself.
    pub fn new(pairs: &[(char, char)]) -> (r: Result<Plugboard, EnigmaError>)
        ensures
            !all_letters(pairs@) ==> r == Err::<Plugboard, EnigmaError>(EnigmaError::InvalidCharacter),
            all_letters(pairs@) && !pairs_disjoint(pairs@) ==> r == Err::<Plugboard, EnigmaError>(
                EnigmaError::DuplicateOrConflictingPair,
            ),
            all_letters(pairs@) && pairs_disjoint(pairs@) ==> r is Ok && r->Ok_0@ == pairs_mapping(
                pairs@,
            ),
            r is Ok ==> r->Ok_0.wf(),
    {
        match pair_mapping(pairs) {
            Ok(mapping) => {
                proof {
                    lemma_pairs_involution(pairs@);
                }
                Ok(Plugboard { mapping })
            },
            Err(e) => Err(e),
        }
    }

    /// A plugboard that swaps `num_pairs` random disjoint letter pairs.
    pub fn new_rand(num_pairs: usize) -> (r: Plugboard)
        requires
            num_pairs < 13,
        ensures
            r.wf(),
            exists|pairs: Seq<(char, char)>|
                #![trigger pairs_mapping(pairs)]
                pairs.len() == num_pairs && all_letters(pairs) && pairs_disjoint(pairs) && r@
                    == pairs_mapping(pairs),
    {
        let letters = shuffled_alphabet();
        let swappings = split_pairs(&letters, num_pairs);
        match Plugboard::new(swappings.as_slice()) {
            Ok(p) => p,
            Err(_) => {
                proof {
                    assert(false);
                }
                Plugboard { mapping: Vec::new() }
            },
        }
    }

    /// Sends a letter through the plugboard.
    pub fn run(&self, c: char) -> (r: char)
        requires
            self.wf(),
            is_letter(c),
        ensures
            r == wire(self@, c),
            is_letter(r),
    {
        proof {
            lemma_letter_index(c);
        }
        let i = get_char_digit(c).unwrap();
        letter_of(self.mapping[i])
    }

    /// The letters that `A`..`Z` are sent to, in alphabet order.
    pub fn wiring(&self) -> (r: Vec<char>)
        requires
            self.wf(),
        ensures
            r@.len() == 26,
            forall|i: int| 0 <= i < 26 ==> #[trigger] r@[i] == letter_at(self@[i] as int),
    {
        letters_of(&self.mapping)
    }
}

/// Spells out a wiring of `0..26` as letters.
pub fn letters_of(m: &Vec<usize>) -> (r: Vec<char>)
    requires
        m@.len() == 26,
        forall|i: int| 0 <= i < 26 ==> #[trigger] m@[i] < 26,
    ensures
        r@.len() == 26,
        forall|i: int| 0 <= i < 26 ==> #[trigger] r@[i] == letter_at(m@[i] as int),
{
    let mut r: Vec<char> = Vec::new();
    let mut i: usize = 0;
    while i < 26
        invariant
            0 <= i <= 26,
            m@.len() == 26,
            forall|k: int| 0 <= k < 26 ==> #[trigger] m@[k] < 26,
            r@.len() == i,
            forall|k: int| 0 <= k < i ==> #[trigger] r@[k] == letter_at(m@[k] as int),
        decreases 26 - i,
    {
        r.push(letter_of(m[i]));
        i = i + 1;
    }
    r
}

} // verus!
