use vstd::prelude::*;
use crate::perm::is_involution;
use crate::alphabet::{is_wiring, is_letter, index_of, lemma_letter_index, get_char_digit, is_upper_letter, EnigmaError};

verus! {

/// Every letter named in `pairs` is an uppercase letter.
pub open spec fn all_letters(pairs: Seq<(char, char)>) -> bool {
    forall|k: int| 0 <= k < pairs.len() ==> is_letter(#[trigger] pairs[k].0) && is_letter(pairs[k].1)
}

/// The pair joins position `j` to something.
pub open spec fn touches(pair: (char, char), j: int) -> bool {
    index_of(pair.0) == j || index_of(pair.1) == j
}

/// Some pair of `pairs` joins position `j`.
pub open spec fn covered(pairs: Seq<(char, char)>, j: int) -> bool {
    exists|k: int| 0 <= k < pairs.len() && #[trigger] touches(pairs[k], j)
}

/// No letter is paired with itself and no letter occurs in two pairs.
pub open spec fn pairs_disjoint(pairs: Seq<(char, char)>) -> bool {
    &&& forall|k: int| 0 <= k < pairs.len() ==> (#[trigger] pairs[k]).0 != pairs[k].1
    &&& forall|k: int, l: int|
        0 <= k < pairs.len() && 0 <= l < pairs.len() && k != l ==> #[trigger] apart(
            pairs[k],
            pairs[l],
        )
}

/// Neither letter of `p` is joined by `q`.
pub open spec fn apart(p: (char, char), q: (char, char)) -> bool {
    !touches(q, index_of(p.0)) && !touches(q, index_of(p.1))
}

/// Where position `j` goes when the pairs are wired one after the other,
/// a later pair overriding an earlier one.
pub open spec fn swap_through(pairs: Seq<(char, char)>, j: int) -> int
    decreases pairs.len(),
{
    if pairs.len() == 0 {
        j
    } else {
        let p = pairs.last();
        if index_of(p.0) == j {
            index_of(p.1)
        } else if index_of(p.1) == j {
            index_of(p.0)
        } else {
            swap_through(pairs.drop_last(), j)
        }
    }
}

/// The wiring of positions `0..26` that `pairs` describe.
pub open spec fn pairs_mapping(pairs: Seq<(char, char)>) -> Seq<usize> {
    Seq::new(26, |j: int| swap_through(pairs, j) as usize)
}

/// Disjoint letter pairs wire an involution: covered positions are swapped
/// with their partner, the others stay put.
pub proof fn lemma_swap_through(pairs: Seq<(char, char)>, j: int)
    requires
        all_letters(pairs),
        pairs_disjoint(pairs),
        0 <= j < 26,
    ensures
        0 <= swap_through(pairs, j) < 26,
        covered(pairs, swap_through(pairs, j)) == covered(pairs, j),
        !covered(pairs, j) ==> swap_through(pairs, j) == j,
        covered(pairs, j) ==> swap_through(pairs, j) != j,
        swap_through(pairs, swap_through(pairs, j)) == j,
    decreases pairs.len(),
{
    if pairs.len() > 0 {
        let n = pairs.len() - 1;
        let rest = pairs.drop_last();
        let p = pairs.last();
        lemma_letter_index(p.0);
        lemma_letter_index(p.1);
        assert(p.0 != p.1);
        assert forall|k: int| 0 <= k < rest.len() implies is_letter(#[trigger] rest[k].0)
            && is_letter(rest[k].1) by {
            assert(rest[k] == pairs[k]);
        }
        assert forall|k: int, l: int|
            0 <= k < rest.len() && 0 <= l < rest.len() && k != l implies #[trigger] apart(rest[k], rest[l]) by {
            assert(rest[k] == pairs[k] && rest[l] == pairs[l]);
        }
        assert forall|k: int| 0 <= k < rest.len() implies (#[trigger] rest[k]).0 != rest[k].1 by {
            assert(rest[k] == pairs[k]);
        }
        // a position is covered by all the pairs iff by the last one or by the others
        assert forall|x: int| #[trigger] covered(pairs, x) == (touches(p, x) || covered(rest, x)) by {
            if covered(pairs, x) {
                let k = choose|k: int| 0 <= k < pairs.len() && #[trigger] touches(pairs[k], x);
                if k < n {
                    assert(rest[k] == pairs[k]);
                }
            }
            if covered(rest, x) {
                let k = choose|k: int| 0 <= k < rest.len() && #[trigger] touches(rest[k], x);
                assert(rest[k] == pairs[k]);
            }
            if touches(p, x) {
                assert(touches(pairs[n], x));
            }
        }
        // the last pair is disjoint from every other pair
        assert forall|x: int| touches(p, x) implies !#[trigger] covered(rest, x) by {
            if covered(rest, x) {
                let k = choose|k: int| 0 <= k < rest.len() && #[trigger] touches(rest[k], x);
                assert(rest[k] == pairs[k]);
                assert(apart(pairs[n], pairs[k]));
            }
        }
        if index_of(p.0) == j {
        } else if index_of(p.1) == j {
        } else {
            lemma_swap_through(rest, j);
            assert(!touches(p, swap_through(rest, j)));
        }
    }
}

/// The wiring of disjoint letter pairs is an involution that moves exactly
/// the letters that some pair names.
pub proof fn lemma_pairs_involution(pairs: Seq<(char, char)>)
    requires
        all_letters(pairs),
        pairs_disjoint(pairs),
    ensures
        is_involution(pairs_mapping(pairs)),
        forall|j: int| 0 <= j < 26 ==> (#[trigger] pairs_mapping(pairs)[j] != j <==> covered(pairs, j)),
{
    assert forall|j: int| 0 <= j < 26 implies #[trigger] pairs_mapping(pairs)[j] < 26 && pairs_mapping(
        pairs,
    )[pairs_mapping(pairs)[j] as int] == j && (pairs_mapping(pairs)[j] != j <==> covered(pairs, j)) by {
        lemma_swap_through(pairs, j);
    }
}

/// Pairs the i-th letter of a wiring with the (13 + i)-th, for the first
/// `count` values of i.
pub fn split_pairs(w: &Vec<char>, count: usize) -> (r: Vec<(char, char)>)
    requires
        is_wiring(w@),
        count <= 13,
    ensures
        r@.len() == count,
        all_letters(r@),
        pairs_disjoint(r@),
        forall|k: int| 0 <= k < count ==> #[trigger] r@[k] == (w@[k], w@[13 + k]),
{
    let mut r: Vec<(char, char)> = Vec::new();
    let mut i: usize = 0;
    while i < count
        invariant
            0 <= i <= count <= 13,
            is_wiring(w@),
            r@.len() == i,
            forall|k: int| 0 <= k < i ==> #[trigger] r@[k] == (w@[k], w@[13 + k]),
        decreases count - i,
    {
        r.push((w[i], w[13 + i]));
        i = i + 1;
    }
    proof {
        assert forall|a: int, b: int| 0 <= a < 26 && 0 <= b < 26 && index_of(w@[a]) == index_of(w@[b]) implies a == b by {
            lemma_letter_index(w@[a]);
            lemma_letter_index(w@[b]);
        }
        assert forall|k: int, l: int| 0 <= k < r@.len() && 0 <= l < r@.len() && k != l implies #[trigger] apart(r@[k], r@[l]) by {
            assert(r@[k] == (w@[k], w@[13 + k]));
            assert(r@[l] == (w@[l], w@[13 + l]));
        }
        assert forall|k: int| 0 <= k < r@.len() implies (#[trigger] r@[k]).0 != r@[k].1 by {
            assert(r@[k] == (w@[k], w@[13 + k]));
        }
        assert forall|k: int| 0 <= k < r@.len() implies is_letter(#[trigger] r@[k].0) && is_letter(r@[k].1) by {
            assert(r@[k] == (w@[k], w@[13 + k]));
        }
    }
    r
}

/// Tests whether every character named in `pairs` is an uppercase letter.
pub fn pairs_are_letters(pairs: &[(char, char)]) -> (r: bool)
    ensures
        r == all_letters(pairs@),
{
    let mut i: usize = 0;
    while i < pairs.len()
        invariant
            0 <= i <= pairs@.len(),
            all_letters(pairs@.take(i as int)),
        decreases pairs@.len() - i,
    {
        let (a, b) = pairs[i];
        if !is_upper_letter(a) || !is_upper_letter(b) {
            assert(pairs@[i as int] == (a, b));
            return false;
        }
        assert(pairs@.take(i + 1)[i as int] == (a, b));
        assert forall|k: int| 0 <= k < i + 1 implies is_letter(#[trigger] pairs@.take(i + 1)[k].0)
            && is_letter(pairs@.take(i + 1)[k].1) by {
            if k < i {
                assert(pairs@.take(i + 1)[k] == pairs@.take(i as int)[k]);
            }
        }
        i = i + 1;
    }
    assert(pairs@.take(i as int) =~= pairs@);
    true
}

/// Wires positions `0..26` from letter pairs; unpaired letters map to themselves.
pub fn pair_mapping(pairs: &[(char, char)]) -> (r: Result<Vec<usize>, EnigmaError>)
    ensures
        !all_letters(pairs@) ==> r == Err::<Vec<usize>, EnigmaError>(EnigmaError::InvalidCharacter),
        all_letters(pairs@) && !pairs_disjoint(pairs@) ==> r == Err::<Vec<usize>, EnigmaError>(
            EnigmaError::DuplicateOrConflictingPair,
        ),
        all_letters(pairs@) && pairs_disjoint(pairs@) ==> r is Ok && r->Ok_0@ == pairs_mapping(
            pairs@,
        ),
{
    if !pairs_are_letters(pairs) {
        return Err(EnigmaError::InvalidCharacter);
    }
    let mut mapping: Vec<usize> = Vec::new();
    let mut j: usize = 0;
    while j < 26
        invariant
            0 <= j <= 26,
            mapping@.len() == j,
            forall|x: int| 0 <= x < j ==> #[trigger] mapping@[x] == x,
        decreases 26 - j,
    {
        mapping.push(j);
        j = j + 1;
    }
    let mut seen: Vec<bool> = vec![false; 26];
    let mut i: usize = 0;
    while i < pairs.len()
        invariant
            all_letters(pairs@),
            0 <= i <= pairs@.len(),
            mapping@.len() == 26,
            seen@.len() == 26,
            pairs_disjoint(pairs@.take(i as int)),
            forall|x: int| 0 <= x < 26 ==> #[trigger] mapping@[x] == swap_through(pairs@.take(i as int), x),
            forall|x: int| 0 <= x < 26 ==> #[trigger] seen@[x] == covered(pairs@.take(i as int), x),
        decreases pairs@.len() - i,
    {
        let ghost done = pairs@.take(i as int);
        let ghost next = pairs@.take(i + 1);
        let (a, b) = pairs[i];
        proof {
            lemma_letter_index(a);
            lemma_letter_index(b);
            assert(next.drop_last() =~= done);
            assert(next.last() == pairs@[i as int]);
        }
        let x = get_char_digit(a).unwrap();
        let y = get_char_digit(b).unwrap();
        if x == y || seen[x] || seen[y] {
            proof {
                if x == y {
                    assert(pairs@[i as int].0 == pairs@[i as int].1);
                } else {
                    let z = if seen@[x as int] { x as int } else { y as int };
                    let k = choose|k: int| 0 <= k < done.len() && #[trigger] touches(done[k], z);
                    assert(done[k] == pairs@[k]);
                    assert(!apart(pairs@[i as int], pairs@[k]));
                }
                assert(!pairs_disjoint(pairs@));
            }
            return Err(EnigmaError::DuplicateOrConflictingPair);
        }
        mapping.set(x, y);
        mapping.set(y, x);
        seen.set(x, true);
        seen.set(y, true);
        proof {
            assert forall|z: int| 0 <= z < 26 implies #[trigger] seen@[z] == covered(next, z) by {
                if covered(done, z) {
                    let k = choose|k: int| 0 <= k < done.len() && #[trigger] touches(done[k], z);
                    assert(next[k] == done[k]);
                }
                if covered(next, z) {
                    let k = choose|k: int| 0 <= k < next.len() && #[trigger] touches(next[k], z);
                    if k < i {
                        assert(next[k] == done[k]);
                    }
                }
                if z == x || z == y {
                    assert(touches(next[i as int], z));
                }
            }
            assert forall|k: int| 0 <= k < next.len() implies (#[trigger] next[k]).0 != next[k].1 by {
                if k < i {
                    assert(next[k] == done[k]);
                }
            }
            assert forall|k: int, l: int|
                0 <= k < next.len() && 0 <= l < next.len() && k != l implies #[trigger] apart(next[k], next[l]) by {
                if k < i && l < i {
                    assert(next[k] == done[k] && next[l] == done[l]);
                } else if k < i {
                    assert(next[k] == done[k]);
                    assert(touches(done[k], index_of(done[k].0)));
                    assert(touches(done[k], index_of(done[k].1)));
                } else {
                    assert(next[l] == done[l]);
                    assert(!covered(done, x as int) && !covered(done, y as int));
                    if touches(done[l], x as int) || touches(done[l], y as int) {
                        assert(false);
                    }
                }
            }
        }
        i = i + 1;
    }
    assert(pairs@.take(i as int) =~= pairs@);
    assert(mapping@ =~= pairs_mapping(pairs@));
    Ok(mapping)
}

} // verus!
