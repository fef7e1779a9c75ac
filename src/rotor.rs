use vstd::prelude::*;
use crate::alphabet::{is_wiring, is_letter, index_of, letter_at, get_char_digit, letter_of, lemma_letter_index, lemma_index_letter};
use crate::perm::{is_perm, is_inverse, hits, invert, lemma_inverse_is_perm, lemma_inverse_unique};
use crate::random::shuffled_alphabet;
use crate::plugboard::{wire, letters_of};

verus! {

/// What a rotor is at one moment: its position and its current wiring both ways.
pub struct RotorState {
    pub rotation: nat,
    pub mapping: Seq<usize>,
    pub inverted: Seq<usize>,
}

/// A rotor position in `0..26` with a wiring and its exact inverse.
pub open spec fn rotor_ok(s: RotorState) -> bool {
    s.rotation < 26 && is_inverse(s.mapping, s.inverted)
}

/// The state after one step: the wiring array shifts down by one place,
/// its first entry moving to the end.
pub open spec fn stepped(s: RotorState) -> RotorState {
    RotorState {
        rotation: (s.rotation + 1) % 26,
        mapping: Seq::new(26, |i: int| s.mapping[(i + 1) % 26]),
        inverted: Seq::new(26, |j: int| ((s.inverted[j] + 25) % 26) as usize),
    }
}

/// A step carries into the next rotor when the position wraps round.
pub open spec fn carries(s: RotorState) -> bool {
    s.rotation == 25
}

/// The state of the same rotor turned directly to position `t`.
pub open spec fn turned_to(s: RotorState, t: nat) -> RotorState {
    let d = (t + 26 - s.rotation) % 26;
    RotorState {
        rotation: t,
        mapping: Seq::new(26, |i: int| s.mapping[(i + d) % 26]),
        inverted: Seq::new(26, |j: int| ((s.inverted[j] + 26 - d) % 26) as usize),
    }
}

/// The state after `k` steps.
pub open spec fn stepped_n(s: RotorState, k: nat) -> RotorState
    decreases k,
{
    if k == 0 {
        s
    } else {
        stepped(stepped_n(s, (k - 1) as nat))
    }
}

pub proof fn lemma_stepped_ok(s: RotorState)
    requires
        rotor_ok(s),
    ensures
        rotor_ok(stepped(s)),
{
    let t = stepped(s);
    assert forall|i: int| 0 <= i < 26 implies #[trigger] t.inverted[t.mapping[i] as int] == i by {
        assert(s.inverted[s.mapping[(i + 1) % 26] as int] == (i + 1) % 26);
    }
    assert forall|j: int| 0 <= j < 26 implies #[trigger] t.mapping[t.inverted[j] as int] == j by {
        assert(s.mapping[s.inverted[j] as int] == j);
    }
    assert forall|i: int| 0 <= i < 26 implies #[trigger] t.mapping[i] < 26 by {
        assert(s.mapping[(i + 1) % 26] < 26);
    }
}

pub proof fn lemma_turned_ok(s: RotorState, target: nat)
    requires
        rotor_ok(s),
        target < 26,
    ensures
        rotor_ok(turned_to(s, target)),
{
    let d = (target + 26 - s.rotation) % 26;
    let t = turned_to(s, target);
    assert forall|i: int| 0 <= i < 26 implies #[trigger] t.inverted[t.mapping[i] as int] == i by {
        assert(s.inverted[s.mapping[(i + d) % 26] as int] == (i + d) % 26);
    }
    assert forall|j: int| 0 <= j < 26 implies #[trigger] t.mapping[t.inverted[j] as int] == j by {
        assert(s.mapping[s.inverted[j] as int] == j);
    }
    assert forall|i: int| 0 <= i < 26 implies #[trigger] t.mapping[i] < 26 by {
        assert(s.mapping[(i + d) % 26] < 26);
    }
}

/// The positions of the letters of a wiring.
pub fn wiring_indices(w: &[char]) -> (m: Vec<usize>)
    requires
        is_wiring(w@),
    ensures
        is_perm(m@),
        forall|i: int| 0 <= i < 26 ==> #[trigger] m@[i] == index_of(w@[i]),
{
    let mut m: Vec<usize> = Vec::new();
    let mut i: usize = 0;
    while i < 26
        invariant
            0 <= i <= 26,
            is_wiring(w@),
            m@.len() == i,
            forall|k: int| 0 <= k < i ==> #[trigger] m@[k] == index_of(w@[k]),
        decreases 26 - i,
    {
        proof {
            lemma_letter_index(w@[i as int]);
        }
        m.push(get_char_digit(w[i]).unwrap());
        i = i + 1;
    }
    proof {
        assert forall|k: int| 0 <= k < 26 implies #[trigger] m@[k] < 26 by {
            lemma_letter_index(w@[k]);
        }
        assert forall|k: int, l: int| 0 <= k < 26 && 0 <= l < 26 && k != l implies m@[k] != m@[l] by {
            lemma_letter_index(w@[k]);
            lemma_letter_index(w@[l]);
        }
        assert forall|j: int| 0 <= j < 26 implies #[trigger] hits(m@, j) by {
            assert(w@.contains(letter_at(j)));
            let k = choose|k: int| 0 <= k < 26 && #[trigger] w@[k] == letter_at(j);
            lemma_index_letter(j);
            assert(m@[k] == j);
        }
    }
    m
}

/// A rotating substitution wheel: its position and its current wiring both ways.
#[derive(Debug)]
pub struct Rotor {
    rotation: usize,
    mapping: Vec<usize>,
    inverted: Vec<usize>,
}

impl View for Rotor {
    type V = RotorState;

    closed spec fn view(&self) -> RotorState {
        RotorState { rotation: self.rotation as nat, mapping: self.mapping@, inverted: self.inverted@ }
    }
}

impl Rotor {
    pub open spec fn wf(&self) -> bool {
        rotor_ok(self@)
    }

    /// A rotor whose current wiring is `mapping`, standing at position `rotation`.
    /// The wiring is taken as it is, not turned to `rotation`.
    pub fn new(mapping: [char; 26], rotation: usize) -> (r: Rotor)
        requires
            is_wiring(mapping@),
            rotation < 26,
        ensures
            r.wf(),
            r@.rotation == rotation,
            forall|i: int| 0 <= i < 26 ==> #[trigger] r@.mapping[i] == index_of(mapping@[i]),
    {
        let m = wiring_indices(mapping.as_slice());
        let inverted = invert(&m);
        Rotor { rotation, mapping: m, inverted }
    }

    /// A rotor at position 0 with a randomly shuffled wiring.
    pub fn new_rand() -> (r: Rotor)
        ensures
            r.wf(),
            r@.rotation == 0,
    {
        let letters = shuffled_alphabet();
        let m = wiring_indices(letters.as_slice());
        let inverted = invert(&m);
        Rotor { rotation: 0, mapping: m, inverted }
    }

    /// Advances the rotor one position; says whether the position wrapped round.
    pub fn rotate(&mut self) -> (carry: bool)
        requires
            old(self).wf(),
        ensures
            final(self)@ == stepped(old(self)@),
            carry == carries(old(self)@),
            final(self).wf(),
    {
        let ghost s = self@;
        let mut overflow = false;
        self.rotation = self.rotation + 1;
        if self.rotation == 26 {
            overflow = true;
            self.rotation = 0;
        }
        let tmp = self.mapping[0];
        let mut i: usize = 0;
        while i < 25
            invariant
                0 <= i <= 25,
                rotor_ok(s),
                self.rotation == (s.rotation + 1) % 26,
                overflow == carries(s),
                self.mapping@.len() == 26,
                forall|k: int| 0 <= k < i ==> #[trigger] self.mapping@[k] == s.mapping[k + 1],
                forall|k: int| i <= k < 26 ==> #[trigger] self.mapping@[k] == s.mapping[k],
                tmp == s.mapping[0],
            decreases 25 - i,
        {
            let next = self.mapping[i + 1];
            self.mapping.set(i, next);
            i = i + 1;
        }
        self.mapping.set(25, tmp);
        proof {
            lemma_stepped_ok(s);
            assert(self.mapping@ =~= stepped(s).mapping);
            lemma_inverse_is_perm(self.mapping@, stepped(s).inverted);
        }
        let inverted = invert(&self.mapping);
        proof {
            lemma_inverse_unique(self.mapping@, inverted@, stepped(s).inverted);
        }
        self.inverted = inverted;
        overflow
    }

    /// Turns the rotor directly to position `rotation`.
    pub fn set_rotation(&mut self, rotation: usize)
        requires
            old(self).wf(),
            rotation < 26,
        ensures
            final(self)@ == turned_to(old(self)@, rotation as nat),
            final(self).wf(),
    {
        let ghost s = self@;
        let delta = (26 + self.rotation - rotation) % 26;
        let mut mapping: Vec<usize> = Vec::new();
        let mut i: usize = 0;
        while i < 26
            invariant
                0 <= i <= 26,
                self@ == s,
                rotor_ok(s),
                delta == (26 + s.rotation - rotation) % 26,
                mapping@.len() == i,
                forall|k: int| 0 <= k < i ==> #[trigger] mapping@[k] == s.mapping[(k + 26 - delta) % 26],
            decreases 26 - i,
        {
            mapping.push(self.mapping[(i + 26 - delta) % 26]);
            i = i + 1;
        }
        proof {
            lemma_turned_ok(s, rotation as nat);
            let t = turned_to(s, rotation as nat);
            assert forall|k: int| 0 <= k < 26 implies mapping@[k] == t.mapping[k] by {
                assert((k + 26 - delta) % 26 == (k + (rotation + 26 - s.rotation) % 26) % 26);
            }
            assert(mapping@ =~= t.mapping);
            lemma_inverse_is_perm(mapping@, t.inverted);
        }
        let inverted = invert(&mapping);
        proof {
            lemma_inverse_unique(mapping@, inverted@, turned_to(s, rotation as nat).inverted);
        }
        self.mapping = mapping;
        self.inverted = inverted;
        self.rotation = rotation;
    }

    /// Sends a letter through the rotor towards the reflector.
    pub fn forward(&self, c: char) -> (r: char)
        requires
            self.wf(),
            is_letter(c),
        ensures
            r == wire(self@.mapping, c),
            is_letter(r),
    {
        proof {
            lemma_letter_index(c);
        }
        letter_of(self.mapping[get_char_digit(c).unwrap()])
    }

    /// Sends a letter back through the rotor, away from the reflector.
    pub fn reverse(&self, c: char) -> (r: char)
        requires
            self.wf(),
            is_letter(c),
        ensures
            r == wire(self@.inverted, c),
            is_letter(r),
    {
        proof {
            lemma_letter_index(c);
        }
        letter_of(self.inverted[get_char_digit(c).unwrap()])
    }

    /// The rotor's current position.
    pub fn rotation(&self) -> (r: usize)
        ensures
            r == self@.rotation,
    {
        self.rotation
    }

    /// The letters that `A`..`Z` are sent to on the forward pass, in alphabet order.
    pub fn wiring(&self) -> (r: Vec<char>)
        requires
            self.wf(),
        ensures
            r@.len() == 26,
            forall|i: int| 0 <= i < 26 ==> #[trigger] r@[i] == letter_at(self@.mapping[i] as int),
    {
        letters_of(&self.mapping)
    }

    /// The letters that `A`..`Z` are sent to on the backward pass, in alphabet order.
    pub fn inverse_wiring(&self) -> (r: Vec<char>)
        requires
            self.wf(),
        ensures
            r@.len() == 26,
            forall|i: int| 0 <= i < 26 ==> #[trigger] r@[i] == letter_at(self@.inverted[i] as int),
    {
        letters_of(&self.inverted)
    }
}

/// In every rotor state, the backward pass undoes the forward pass.
pub proof fn law_rotor_inverse(s: RotorState, c: char)
    requires
        rotor_ok(s),
        is_letter(c),
    ensures
        wire(s.inverted, wire(s.mapping, c)) == c,
        wire(s.mapping, wire(s.inverted, c)) == c,
{
    lemma_letter_index(c);
    lemma_index_letter(s.mapping[index_of(c)] as int);
    lemma_index_letter(s.inverted[index_of(c)] as int);
}

/// One step is turning the rotor to the next position.
pub proof fn lemma_step_is_turn(s: RotorState)
    requires
        rotor_ok(s),
    ensures
        stepped(s) == turned_to(s, (s.rotation + 1) % 26),
{
    let a = stepped(s);
    let b = turned_to(s, (s.rotation + 1) % 26);
    assert(a.mapping =~= b.mapping);
    assert(a.inverted =~= b.inverted);
}

proof fn lemma_mod26(x: int)
    requires
        0 <= x < 78,
    ensures
        x % 26 == if x < 26 {
            x
        } else if x < 52 {
            x - 26
        } else {
            x - 52
        },
{
}

pub proof fn lemma_shift_sum(i: int, d1: int, d2: int)
    requires
        0 <= i < 26,
        0 <= d1 < 26,
        0 <= d2 < 26,
    ensures
        ((i + d2) % 26 + d1) % 26 == (i + (d1 + d2) % 26) % 26,
        ((i + 26 - d1) % 26 + 26 - d2) % 26 == (i + 26 - (d1 + d2) % 26) % 26,
{
    lemma_mod26(i + d2);
    lemma_mod26(d1 + d2);
    lemma_mod26((i + d2) % 26 + d1);
    lemma_mod26(i + (d1 + d2) % 26);
    lemma_mod26(i + 26 - d1);
    lemma_mod26((i + 26 - d1) % 26 + 26 - d2);
    lemma_mod26(i + 26 - (d1 + d2) % 26);
}

/// Turning twice is turning once to the last position.
pub proof fn lemma_turn_twice(s: RotorState, x: nat, y: nat)
    requires
        rotor_ok(s),
        x < 26,
        y < 26,
    ensures
        turned_to(turned_to(s, x), y) == turned_to(s, y),
{
    let a = turned_to(turned_to(s, x), y);
    let b = turned_to(s, y);
    let d1 = (x + 26 - s.rotation) % 26;
    let d2 = (y + 26 - x) % 26;
    assert((d1 + d2) % 26 == (y + 26 - s.rotation) % 26);
    assert forall|i: int| 0 <= i < 26 implies a.mapping[i] == b.mapping[i] by {
        lemma_shift_sum(i, d1, d2);
    }
    assert forall|j: int| 0 <= j < 26 implies a.inverted[j] == b.inverted[j] by {
        assert(s.inverted[j] < 26);
        lemma_shift_sum(s.inverted[j] as int, d1, d2);
    }
    assert(a.mapping =~= b.mapping);
    assert(a.inverted =~= b.inverted);
}

/// Turning a rotor to where it stands changes nothing.
pub proof fn lemma_turn_in_place(s: RotorState)
    requires
        rotor_ok(s),
    ensures
        turned_to(s, s.rotation) == s,
{
    let a = turned_to(s, s.rotation);
    assert forall|j: int| 0 <= j < 26 implies a.inverted[j] == s.inverted[j] by {
        assert(s.inverted[j] < 26);
    }
    assert(a.mapping =~= s.mapping);
    assert(a.inverted =~= s.inverted);
}

/// Stepping a rotor `k` times leaves it as turning it directly to
/// `(r + k) mod 26` does.
pub proof fn law_steps_match_turn(s: RotorState, k: nat)
    requires
        rotor_ok(s),
    ensures
        rotor_ok(stepped_n(s, k)),
        stepped_n(s, k) == turned_to(s, (s.rotation + k) % 26),
    decreases k,
{
    if k == 0 {
        lemma_turn_in_place(s);
    } else {
        let k1 = (k - 1) as nat;
        law_steps_match_turn(s, k1);
        let t = stepped_n(s, k1);
        let x: nat = ((s.rotation + k1) % 26) as nat;
        let y: nat = ((x + 1) % 26) as nat;
        assert(t == turned_to(s, x));
        assert(t.rotation == x);
        vstd::arithmetic::div_mod::lemma_add_mod_noop_right(1, (s.rotation + k1) as int, 26);
        assert(y == (s.rotation + k) % 26);
        lemma_stepped_ok(t);
        lemma_step_is_turn(t);
        assert(stepped(t) == turned_to(t, y));
        lemma_turn_twice(s, x, y);
        assert(stepped_n(s, k) == stepped(t));
    }
}

} // verus!
