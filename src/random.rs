use vstd::prelude::*;
use rand::seq::SliceRandom;
use crate::alphabet::{is_letter, is_wiring, letter_at, letter_of, lemma_index_letter};

verus! {

broadcast use vstd::seq_lib::group_to_multiset_ensures;

/// Relies on `rand::seq::SliceRandom::shuffle` with the thread's generator:
/// it only swaps elements, so the result rearranges the input.
#[verifier::external_body]
fn shuffle_chars(v: &mut Vec<char>)
    ensures
        final(v)@.len() == old(v)@.len(),
        final(v)@.to_multiset() == old(v)@.to_multiset(),
{
    v.shuffle(&mut rand::thread_rng());
}

/// The letters `A`..`Z` in a random order.
pub fn shuffled_alphabet() -> (r: Vec<char>)
    ensures
        is_wiring(r@),
{
    let mut v: Vec<char> = Vec::new();
    let mut i: usize = 0;
    while i < 26
        invariant
            0 <= i <= 26,
            v@.len() == i,
            forall|k: int| 0 <= k < i ==> #[trigger] v@[k] == letter_at(k),
        decreases 26 - i,
    {
        v.push(letter_of(i));
        i = i + 1;
    }
    let ghost a = v@;
    proof {
        assert forall|k: int, l: int| 0 <= k < 26 && 0 <= l < 26 && k != l implies a[k] != a[l] by {
            lemma_index_letter(k);
            lemma_index_letter(l);
        }
        assert(a.no_duplicates());
        a.lemma_multiset_has_no_duplicates();
    }
    shuffle_chars(&mut v);
    proof {
        let r = v@;
        assert forall|x: char| r.to_multiset().contains(x) implies r.to_multiset().count(x) == 1 by {
            assert(a.to_multiset().count(x) > 0);
        }
        r.lemma_multiset_has_no_duplicates_conv();
        assert forall|i: int| 0 <= i < 26 implies is_letter(#[trigger] r[i]) by {
            assert(r.to_multiset().count(r[i]) > 0);
            assert(a.contains(r[i]));
            let k = choose|k: int| 0 <= k < 26 && a[k] == r[i];
            lemma_index_letter(k);
        }
        assert forall|j: int| 0 <= j < 26 implies #[trigger] r.contains(letter_at(j)) by {
            assert(a[j] == letter_at(j));
            assert(a.to_multiset().count(letter_at(j)) > 0);
        }
        assert forall|i: int, k: int| 0 <= i < 26 && 0 <= k < 26 && i != k implies r[i] != r[k] by {}
    }
    v
}

} // verus!
