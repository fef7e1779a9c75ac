use vstd::prelude::*;
use crate::alphabet::{lemma_index_letter, is_letter, letter_at, get_char_digit, letter_of, lemma_letter_index, EnigmaError};
use crate::random::shuffled_alphabet;
use crate::pairs::{split_pairs, touches, all_letters, pairs_disjoint, pairs_mapping, pair_mapping, covered, lemma_pairs_involution};
use crate::perm::{is_involution, no_fixed_point};
use crate::plugboard::{wire, letters_of};

verus! {

/// Thirteen disjoint letter pairs that together name every letter.
pub open spec fn reflector_pairs_ok(pairs: Seq<(char, char)>) -> bool {
    &&& pairs.len() == 13
    &&& all_letters(pairs)
    &&& pairs_disjoint(pairs)
    &&& forall|j: int| 0 <= j < 26 ==> #[trigger] covered(pairs, j)
}

/// The fixed wiring between the forward and the backward pass through the rotors.
#[derive(Debug)]
pub struct Reflector {
    mapping: Vec<usize>,
}

impl View for Reflector {
    type V = Seq<usize>;

    /// Where each position `0..26` is sent.
    closed spec fn view(&self) -> Seq<usize> {
        self.mapping@
    }
}

impl Reflector {
    /// The wiring swaps letters in pairs and sends no letter to itself.
    pub open spec fn wf(&self) -> bool {
        is_involution(self@) && no_fixed_point(self@)
    }

    /// Wires thirteen letter pairs that cover the alphabet.
    pub fn from_pairs(pairs: &[(char, char)]) -> (r: Result<Reflector, EnigmaError>)
        ensures
            pairs@.len() == 13 && !all_letters(pairs@) ==> r == Err::<Reflector, EnigmaError>(
                EnigmaError::InvalidCharacter,
            ),
            (pairs@.len() != 13 || (all_letters(pairs@) && !reflector_pairs_ok(pairs@))) ==> r
                == Err::<Reflector, EnigmaError>(EnigmaError::InvalidReflectorConfiguration),
            reflector_pairs_ok(pairs@) ==> r is Ok && r->Ok_0@ == pairs_mapping(pairs@),
            r is Ok ==> r->Ok_0.wf(),
    {
        if pairs.len() != 13 {
            return Err(EnigmaError::InvalidReflectorConfiguration);
        }
        let mapping = match pair_mapping(pairs) {
            Ok(m) => m,
            Err(EnigmaError::InvalidCharacter) => return Err(EnigmaError::InvalidCharacter),
            Err(_) => return Err(EnigmaError::InvalidReflectorConfiguration),
        };
        proof {
            lemma_pairs_involution(pairs@);
        }
        let mut j: usize = 0;
        while j < 26
            invariant
                0 <= j <= 26,
                pairs@.len() == 13,
                all_letters(pairs@),
                pairs_disjoint(pairs@),
                is_involution(pairs_mapping(pairs@)),
                mapping@ == pairs_mapping(pairs@),
                forall|k: int| 0 <= k < j ==> #[trigger] covered(pairs@, k),
                forall|k: int| 0 <= k < 26 ==> (#[trigger] pairs_mapping(pairs@)[k] != k <==> covered(pairs@, k)),
            decreases 26 - j,
        {
            if mapping[j] == j {
                return Err(EnigmaError::InvalidReflectorConfiguration);
            }
            j = j + 1;
        }
        Ok(Reflector { mapping })
    }

    /// A reflector wired from thirteen random pairs that cover the alphabet.
    pub fn new_rand() -> (r: Reflector)
        ensures
            r.wf(),
            exists|pairs: Seq<(char, char)>|
                #![trigger pairs_mapping(pairs)]
                reflector_pairs_ok(pairs) && r@ == pairs_mapping(pairs),
    {
        let letters = shuffled_alphabet();
        let pairs = split_pairs(&letters, 13);
        proof {
            assert forall|j: int| 0 <= j < 26 implies #[trigger] covered(pairs@, j) by {
                assert(letters@.contains(letter_at(j)));
                let a = choose|a: int| 0 <= a < 26 && letters@[a] == letter_at(j);
                lemma_index_letter(j);
                if a < 13 {
                    assert(touches(pairs@[a], j));
                } else {
                    assert(touches(pairs@[a - 13], j));
                }
            }
        }
        match Reflector::from_pairs(pairs.as_slice()) {
            Ok(r) => r,
            Err(_) => {
                proof {
                    assert(false);
                }
                Reflector { mapping: Vec::new() }
            },
        }
    }

    /// Sends a letter through the reflector.
    pub fn run(&self, c: char) -> (r: char)
        requires
            self.wf(),
            is_letter(c),
        ensures
            r == wire(self@, c),
            is_letter(r),
    {
        proof {
            lemma_letter_index(c);
        }
        let i = get_char_digit(c).unwrap();
        letter_of(self.mapping[i])
    }

    /// The letters that `A`..`Z` are sent to, in alphabet order.
    pub fn wiring(&self) -> (r: Vec<char>)
        requires
            self.wf(),
        ensures
            r@.len() == 26,
            forall|i: int| 0 <= i < 26 ==> #[trigger] r@[i] == letter_at(self@[i] as int),
    {
        letters_of(&self.mapping)
    }
}

} // verus!
