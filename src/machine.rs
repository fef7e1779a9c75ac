use vstd::prelude::*;
use crate::alphabet::{is_letter, index_of, letter_at, is_upper_letter, lemma_letter_index, lemma_index_letter, EnigmaError};
use crate::perm::{is_involution, no_fixed_point};
use crate::plugboard::Plugboard;
use crate::reflector::Reflector;
use crate::text::{normalize, fold_letter, upper_of, uppercase_chars, string_from_chars};
use crate::rotor::{Rotor, RotorState, rotor_ok, stepped, carries, turned_to};

verus! {

/// What a machine is at one moment: its fixed wirings and its rotor states,
/// in signal order.
pub struct MachineState {
    pub plugboard: Seq<usize>,
    pub rotors: Seq<RotorState>,
    pub reflector: Seq<usize>,
}

/// Plugboard and reflector swap letters in pairs, the reflector fixes no
/// letter, and every rotor is well formed.
pub open spec fn machine_ok(m: MachineState) -> bool {
    &&& is_involution(m.plugboard)
    &&& is_involution(m.reflector)
    &&& no_fixed_point(m.reflector)
    &&& forall|i: int| 0 <= i < m.rotors.len() ==> rotor_ok(#[trigger] m.rotors[i])
}

/// A position sent forward through the first `n` rotors.
pub open spec fn forward_through(rs: Seq<RotorState>, n: nat, x: int) -> int
    decreases n,
{
    if n == 0 {
        x
    } else {
        rs[n - 1].mapping[forward_through(rs, (n - 1) as nat, x)] as int
    }
}

/// A position sent backward through the first `n` rotors, last rotor first.
pub open spec fn backward_through(rs: Seq<RotorState>, n: nat, x: int) -> int
    decreases n,
{
    if n == 0 {
        x
    } else {
        backward_through(rs, (n - 1) as nat, rs[n - 1].inverted[x] as int)
    }
}

/// The position that position `x` comes out as, for machine state `m`:
/// plugboard, rotors, reflector, rotors backwards, plugboard.
pub open spec fn signal(m: MachineState, x: int) -> int {
    let n = m.rotors.len();
    let inward = forward_through(m.rotors, n, m.plugboard[x] as int);
    let outward = backward_through(m.rotors, n, m.reflector[inward] as int);
    m.plugboard[outward] as int
}

/// One odometer step of the rotor stack: the first rotor always steps, and
/// each rotor that wraps round steps the next one.
pub open spec fn advance_stack(rs: Seq<RotorState>) -> Seq<RotorState>
    decreases rs.len(),
{
    if rs.len() == 0 {
        rs
    } else if carries(rs[0]) {
        seq![stepped(rs[0])] + advance_stack(rs.drop_first())
    } else {
        rs.update(0, stepped(rs[0]))
    }
}

/// The machine after its rotor stack steps once.
pub open spec fn advance(m: MachineState) -> MachineState {
    MachineState { rotors: advance_stack(m.rotors), ..m }
}

/// The machine after its rotor stack steps `k` times.
pub open spec fn advance_n(m: MachineState, k: nat) -> MachineState
    decreases k,
{
    if k == 0 {
        m
    } else {
        advance(advance_n(m, (k - 1) as nat))
    }
}

/// The letters that `xs` encode to, one after the other, from state `m`.
pub open spec fn encode_all(m: MachineState, xs: Seq<char>) -> Seq<char>
    decreases xs.len(),
{
    if xs.len() == 0 {
        Seq::empty()
    } else {
        encode_all(m, xs.drop_last()).push(
            letter_at(signal(advance_n(m, (xs.len() - 1) as nat), index_of(xs.last()))),
        )
    }
}

/// The machine with the first rotors turned to `positions`, paired in order;
/// rotors beyond the positions given stay as they are.
pub open spec fn reset(m: MachineState, positions: Seq<usize>) -> MachineState {
    MachineState {
        rotors: Seq::new(
            m.rotors.len(),
            |i: int|
                if i < positions.len() {
                    turned_to(m.rotors[i], positions[i] as nat)
                } else {
                    m.rotors[i]
                },
        ),
        ..m
    }
}

/// The rotor positions of a machine state, in stack order.
pub open spec fn positions_of(m: MachineState) -> Seq<usize> {
    Seq::new(m.rotors.len(), |i: int| m.rotors[i].rotation as usize)
}

/// The stack after the first `i` rotors stepped.
pub open spec fn stepped_prefix(rs: Seq<RotorState>, i: int) -> Seq<RotorState> {
    Seq::new(i as nat, |k: int| stepped(rs[k]))
}

/// A plugboard, a stack of rotors and a reflector.
#[derive(Debug)]
pub struct Enigma {
    plugboard: Plugboard,
    rotors: Vec<Rotor>,
    reflector: Reflector,
}

impl View for Enigma {
    type V = MachineState;

    closed spec fn view(&self) -> MachineState {
        MachineState {
            plugboard: self.plugboard@,
            rotors: self.rotors@.map_values(|r: Rotor| r@),
            reflector: self.reflector@,
        }
    }
}

impl Enigma {
    pub open spec fn wf(&self) -> bool {
        machine_ok(self@)
    }

    proof fn lemma_parts(&self)
        requires
            self.wf(),
        ensures
            self.plugboard.wf(),
            self.reflector.wf(),
            forall|i: int| 0 <= i < self.rotors@.len() ==> (#[trigger] self.rotors@[i]).wf(),
            self@.rotors.len() == self.rotors@.len(),
            forall|i: int| 0 <= i < self.rotors@.len() ==> #[trigger] self@.rotors[i] == self.rotors@[i]@,
    {
        assert forall|i: int| 0 <= i < self.rotors@.len() implies (#[trigger] self.rotors@[i]).wf() by {
            assert(rotor_ok(self@.rotors[i]));
        }
    }

    /// Builds a machine; the rotors are in signal order.
    pub fn new(plugboard: Plugboard, rotors: Vec<Rotor>, reflector: Reflector) -> (r: Enigma)
        requires
            plugboard.wf(),
            reflector.wf(),
            forall|i: int| 0 <= i < rotors@.len() ==> (#[trigger] rotors@[i]).wf(),
        ensures
            r.wf(),
            r@.plugboard == plugboard@,
            r@.reflector == reflector@,
            r@.rotors == rotors@.map_values(|x: Rotor| x@),
    {
        let r = Enigma { plugboard, rotors, reflector };
        assert forall|i: int| 0 <= i < r@.rotors.len() implies rotor_ok(#[trigger] r@.rotors[i]) by {
            assert(r.rotors@[i].wf());
        }
        r
    }

    /// Turns the i-th rotor to the i-th position, for as many as both have.
    pub fn reset_positions(&mut self, positions: &[usize])
        requires
            old(self).wf(),
            forall|i: int| 0 <= i < positions@.len() ==> #[trigger] positions@[i] < 26,
        ensures
            final(self).wf(),
            final(self)@ == reset(old(self)@, positions@),
    {
        let ghost m = self@;
        proof {
            self.lemma_parts();
        }
        let mut i: usize = 0;
        while i < self.rotors.len() && i < positions.len()
            invariant
                0 <= i <= self.rotors@.len(),
                i <= positions@.len(),
                self.rotors@.len() == m.rotors.len(),
                self.plugboard@ == m.plugboard,
                self.reflector@ == m.reflector,
                machine_ok(m),
                forall|i: int| 0 <= i < positions@.len() ==> #[trigger] positions@[i] < 26,
                forall|k: int| 0 <= k < self.rotors@.len() ==> (#[trigger] self.rotors@[k]).wf(),
                forall|k: int|
                    0 <= k < self.rotors@.len() ==> #[trigger] self.rotors@[k]@ == if k < i {
                        turned_to(m.rotors[k], positions@[k] as nat)
                    } else {
                        m.rotors[k]
                    },
            decreases self.rotors@.len() - i,
        {
            let p = positions[i];
            self.rotors[i].set_rotation(p);
            i = i + 1;
        }
        proof {
            assert forall|k: int| 0 <= k < self@.rotors.len() implies #[trigger] self@.rotors[k] == reset(
                m,
                positions@,
            ).rotors[k] by {
                assert(self@.rotors[k] == self.rotors@[k]@);
                assert(i == positions@.len() || i == self.rotors@.len());
                if k < i {
                    assert(self.rotors@[k]@ == turned_to(m.rotors[k], positions@[k] as nat));
                } else {
                    assert(self.rotors@[k]@ == m.rotors[k]);
                }
            }
            assert(self@.rotors =~= reset(m, positions@).rotors);
            assert forall|k: int| 0 <= k < self@.rotors.len() implies rotor_ok(#[trigger] self@.rotors[k]) by {
                assert(self.rotors@[k].wf());
            }
        }
    }

    /// Steps the rotor stack once, odometer fashion.
    pub fn rotate_rotors(&mut self)
        requires
            old(self).wf(),
        ensures
            final(self).wf(),
            final(self)@ == advance(old(self)@),
    {
        let ghost m = self@;
        let ghost rs = m.rotors;
        proof {
            self.lemma_parts();
        }
        let mut i: usize = 0;
        let mut carry = true;
        proof {
            assert(stepped_prefix(rs, 0) + rs.skip(0) =~= rs.skip(0));
            assert(rs.skip(0) =~= rs);
        }
        while carry && i < self.rotors.len()
            invariant
                0 <= i <= self.rotors@.len(),
                self.rotors@.len() == rs.len(),
                self.plugboard@ == m.plugboard,
                self.reflector@ == m.reflector,
                machine_ok(m),
                rs == m.rotors,
                forall|k: int| 0 <= k < rs.len() ==> #[trigger] rs[k] == m.rotors[k],
                forall|k: int| 0 <= k < self.rotors@.len() ==> (#[trigger] self.rotors@[k]).wf(),
                carry ==> forall|k: int|
                    0 <= k < rs.len() ==> #[trigger] self.rotors@[k]@ == if k < i {
                        stepped(rs[k])
                    } else {
                        rs[k]
                    },
                carry ==> advance_stack(rs) == stepped_prefix(rs, i as int) + advance_stack(
                    rs.skip(i as int),
                ),
                !carry ==> advance_stack(rs).len() == rs.len(),
                !carry ==> forall|k: int|
                    0 <= k < rs.len() ==> #[trigger] self.rotors@[k]@ == advance_stack(rs)[k],
            decreases self.rotors@.len() - i, if carry { 1int } else { 0int },
        {
            let c = self.rotors[i].rotate();
            proof {
                let tail = rs.skip(i as int);
                assert(tail[0] == rs[i as int]);
                assert(tail.drop_first() =~= rs.skip(i + 1));
                if c {
                    assert(stepped_prefix(rs, i as int) + (seq![stepped(rs[i as int])] + advance_stack(
                        rs.skip(i + 1),
                    )) =~= stepped_prefix(rs, i + 1) + advance_stack(rs.skip(i + 1)));
                } else {
                    assert(advance_stack(tail) == tail.update(0, stepped(tail[0])));
                    assert forall|k: int| 0 <= k < rs.len() implies #[trigger] self.rotors@[k]@
                        == advance_stack(rs)[k] by {
                        if k < i {
                            assert(stepped_prefix(rs, i as int)[k] == stepped(rs[k]));
                        } else {
                            assert(advance_stack(tail)[k - i] == advance_stack(rs)[k]);
                        }
                    }
                }
            }
            carry = c;
            if carry {
                i = i + 1;
            }
        }
        proof {
            if carry {
                assert(rs.skip(i as int) =~= Seq::<RotorState>::empty());
                assert(advance_stack(rs) =~= stepped_prefix(rs, i as int));
            }
            assert(self@.rotors =~= advance_stack(rs));
            assert forall|k: int| 0 <= k < self@.rotors.len() implies rotor_ok(#[trigger] self@.rotors[k]) by {
                assert(self.rotors@[k].wf());
            }
        }
    }

    /// Encodes one letter: plugboard, rotors, reflector, rotors backwards;
    /// then the rotor stack steps, and the plugboard is applied again.
    pub fn encypher(&mut self, c: char) -> (r: Result<char, EnigmaError>)
        requires
            old(self).wf(),
        ensures
            final(self).wf(),
            is_letter(c) ==> r == Ok::<char, EnigmaError>(letter_at(signal(old(self)@, index_of(c))))
                && final(self)@ == advance(old(self)@),
            !is_letter(c) ==> r == Err::<char, EnigmaError>(EnigmaError::InvalidCharacter)
                && final(self)@ == old(self)@,
    {
        if !is_upper_letter(c) {
            return Err(EnigmaError::InvalidCharacter);
        }
        let ghost m = self@;
        let ghost rs = m.rotors;
        proof {
            self.lemma_parts();
            lemma_letter_index(c);
        }
        let p = self.plugboard.run(c);
        proof {
            lemma_index_letter(m.plugboard[index_of(c)] as int);
        }
        let n = self.rotors.len();
        let mut x = p;
        let mut i: usize = 0;
        while i < n
            invariant
                0 <= i <= n,
                n == self.rotors@.len(),
                self@ == m,
                machine_ok(m),
                forall|k: int| 0 <= k < n ==> (#[trigger] self.rotors@[k]).wf(),
                forall|k: int| 0 <= k < n ==> #[trigger] rs[k] == self.rotors@[k]@,
                rs.len() == n,
                rs == m.rotors,
                is_letter(x),
                index_of(x) == forward_through(rs, i as nat, index_of(p)),
            decreases n - i,
        {
            proof {
                lemma_letter_index(x);
                assert(rotor_ok(rs[i as int]));
                lemma_index_letter(rs[i as int].mapping[index_of(x)] as int);
            }
            x = self.rotors[i].forward(x);
            i = i + 1;
        }
        proof {
            lemma_letter_index(x);
            lemma_index_letter(m.reflector[index_of(x)] as int);
        }
        let y = self.reflector.run(x);
        let mut z = y;
        let mut j: usize = n;
        while j > 0
            invariant
                0 <= j <= n,
                n == self.rotors@.len(),
                self@ == m,
                machine_ok(m),
                forall|k: int| 0 <= k < n ==> (#[trigger] self.rotors@[k]).wf(),
                forall|k: int| 0 <= k < n ==> #[trigger] rs[k] == self.rotors@[k]@,
                rs.len() == n,
                rs == m.rotors,
                is_letter(z),
                backward_through(rs, j as nat, index_of(z)) == backward_through(
                    rs,
                    n as nat,
                    index_of(y),
                ),
            decreases j,
        {
            proof {
                lemma_letter_index(z);
                assert(rotor_ok(rs[j - 1]));
                lemma_index_letter(rs[j - 1].inverted[index_of(z)] as int);
            }
            z = self.rotors[j - 1].reverse(z);
            j = j - 1;
        }
        self.rotate_rotors();
        proof {
            lemma_letter_index(z);
            lemma_index_letter(m.plugboard[index_of(z)] as int);
            self.lemma_parts();
        }
        Ok(self.plugboard.run(z))
    }

    /// Encodes the ASCII letters of `text`, folded to uppercase, one after the
    /// other; every other character is skipped.
    pub fn encypher_text(&mut self, text: &[char]) -> (r: Vec<char>)
        requires
            old(self).wf(),
        ensures
            final(self).wf(),
            r@ == encode_all(old(self)@, normalize(text@)),
            final(self)@ == advance_n(old(self)@, normalize(text@).len()),
    {
        let ghost m = self@;
        let mut out: Vec<char> = Vec::new();
        let mut i: usize = 0;
        while i < text.len()
            invariant
                0 <= i <= text@.len(),
                self.wf(),
                out@ == encode_all(m, normalize(text@.take(i as int))),
                self@ == advance_n(m, normalize(text@.take(i as int)).len()),
            decreases text@.len() - i,
        {
            let ghost done = normalize(text@.take(i as int));
            let c = text[i];
            proof {
                assert(text@.take(i + 1).drop_last() =~= text@.take(i as int));
                assert(text@.take(i + 1).last() == c);
            }
            let letter = if is_upper_letter(c) {
                Some(c)
            } else if 97 <= c as u32 && c as u32 <= 122 {
                Some(((c as u32 - 32) as u8) as char)
            } else {
                None
            };
            match letter {
                Some(l) => {
                    proof {
                        assert(fold_letter(c) == seq![l]);
                        assert(done + seq![l] =~= done.push(l));
                        assert(done.push(l).drop_last() =~= done);
                    }
                    match self.encypher(l) {
                        Ok(e) => out.push(e),
                        Err(_) => {},
                    }
                },
                None => {
                    proof {
                        assert(done + fold_letter(c) =~= done);
                    }
                },
            }
            i = i + 1;
        }
        proof {
            assert(text@.take(i as int) =~= text@);
        }
        out
    }

    /// Normalizes `s` (uppercase, ASCII letters only) and encodes the result.
    pub fn encypher_str(&mut self, s: &str) -> (r: String)
        requires
            old(self).wf(),
        ensures
            final(self).wf(),
            r@ == encode_all(old(self)@, normalize(upper_of(s@))),
            final(self)@ == advance_n(old(self)@, normalize(upper_of(s@)).len()),
    {
        let up = uppercase_chars(s);
        let out = self.encypher_text(up.as_slice());
        string_from_chars(&out)
    }

    /// The rotor positions, in stack order.
    pub fn positions(&self) -> (r: Vec<usize>)
        requires
            self.wf(),
        ensures
            r@ == positions_of(self@),
    {
        proof {
            self.lemma_parts();
        }
        let mut r: Vec<usize> = Vec::new();
        let mut i: usize = 0;
        while i < self.rotors.len()
            invariant
                0 <= i <= self.rotors@.len(),
                self@.rotors.len() == self.rotors@.len(),
                forall|k: int| 0 <= k < self.rotors@.len() ==> #[trigger] self@.rotors[k] == self.rotors@[k]@,
                r@.len() == i,
                forall|k: int| 0 <= k < i ==> #[trigger] r@[k] == positions_of(self@)[k],
            decreases self.rotors@.len() - i,
        {
            r.push(self.rotors[i].rotation());
            i = i + 1;
        }
        assert(r@ =~= positions_of(self@));
        r
    }

    /// The plugboard.
    pub fn plugboard(&self) -> (r: &Plugboard)
        requires
            self.wf(),
        ensures
            r@ == self@.plugboard,
            r.wf(),
    {
        &self.plugboard
    }

    /// The reflector.
    pub fn reflector(&self) -> (r: &Reflector)
        requires
            self.wf(),
        ensures
            r@ == self@.reflector,
            r.wf(),
    {
        &self.reflector
    }

    /// The rotors, in stack order.
    pub fn rotors(&self) -> (r: &Vec<Rotor>)
        requires
            self.wf(),
        ensures
            r@.len() == self@.rotors.len(),
            forall|i: int| 0 <= i < r@.len() ==> #[trigger] r@[i]@ == self@.rotors[i] && r@[i].wf(),
    {
        proof {
            self.lemma_parts();
        }
        &self.rotors
    }
}

} // verus!
