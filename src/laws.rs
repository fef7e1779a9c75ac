use vstd::prelude::*;
use crate::alphabet::{is_letter, index_of, letter_at, lemma_letter_index, lemma_index_letter};
use crate::perm::is_involution;
use crate::plugboard::{wire, Plugboard};
use crate::reflector::Reflector;
use crate::machine::{MachineState, machine_ok, forward_through, backward_through, signal, advance_stack, advance, advance_n, encode_all, reset, positions_of};
use crate::rotor::{RotorState, carries, rotor_ok, stepped, turned_to, lemma_stepped_ok, lemma_step_is_turn, lemma_turn_twice, lemma_turn_in_place};

verus! {

/// Sending a letter through the plugboard twice gives the letter back.
pub proof fn law_plugboard_involution(p: &Plugboard, c: char)
    requires
        p.wf(),
        is_letter(c),
    ensures
        wire(p@, wire(p@, c)) == c,
{
    lemma_wire_involution(p@, c);
}

/// Sending a letter through the reflector twice gives the letter back.
pub proof fn law_reflector_involution(r: &Reflector, c: char)
    requires
        r.wf(),
        is_letter(c),
    ensures
        wire(r@, wire(r@, c)) == c,
{
    lemma_wire_involution(r@, c);
}

proof fn lemma_wire_involution(m: Seq<usize>, c: char)
    requires
        is_involution(m),
        is_letter(c),
    ensures
        is_letter(wire(m, c)),
        wire(m, wire(m, c)) == c,
{
    lemma_letter_index(c);
    lemma_index_letter(m[index_of(c)] as int);
}

/// The reflector sends no letter to itself.
pub proof fn law_reflector_no_fixed_point(r: &Reflector, c: char)
    requires
        r.wf(),
        is_letter(c),
    ensures
        wire(r@, c) != c,
{
    lemma_letter_index(c);
    lemma_index_letter(r@[index_of(c)] as int);
}

/// Each rotor of a stepped stack either stays or steps once.
proof fn lemma_advance_stack_shape(rs: Seq<RotorState>)
    ensures
        advance_stack(rs).len() == rs.len(),
        forall|i: int|
            0 <= i < rs.len() ==> #[trigger] advance_stack(rs)[i] == rs[i] || advance_stack(rs)[i]
                == stepped(rs[i]),
    decreases rs.len(),
{
    if rs.len() > 0 && carries(rs[0]) {
        lemma_advance_stack_shape(rs.drop_first());
        assert forall|i: int| 0 <= i < rs.len() implies #[trigger] advance_stack(rs)[i] == rs[i]
            || advance_stack(rs)[i] == stepped(rs[i]) by {
            if i > 0 {
                assert(advance_stack(rs)[i] == advance_stack(rs.drop_first())[i - 1]);
                assert(rs.drop_first()[i - 1] == rs[i]);
            }
        }
    }
}

/// Stepping keeps a machine well formed.
proof fn lemma_advance_ok(m: MachineState)
    requires
        machine_ok(m),
    ensures
        machine_ok(advance(m)),
        advance(m).rotors.len() == m.rotors.len(),
{
    lemma_advance_stack_shape(m.rotors);
    assert forall|i: int| 0 <= i < advance(m).rotors.len() implies rotor_ok(
        #[trigger] advance(m).rotors[i],
    ) by {
        assert(rotor_ok(m.rotors[i]));
        lemma_stepped_ok(m.rotors[i]);
        assert(advance_stack(m.rotors)[i] == m.rotors[i] || advance_stack(m.rotors)[i] == stepped(
            m.rotors[i],
        ));
    }
}

pub proof fn lemma_advance_n_ok(m: MachineState, k: nat)
    requires
        machine_ok(m),
    ensures
        machine_ok(advance_n(m, k)),
        advance_n(m, k).rotors.len() == m.rotors.len(),
        advance_n(m, k).plugboard == m.plugboard,
        advance_n(m, k).reflector == m.reflector,
    decreases k,
{
    if k > 0 {
        lemma_advance_n_ok(m, (k - 1) as nat);
        lemma_advance_ok(advance_n(m, (k - 1) as nat));
    }
}

/// Passing forward then backward through the same rotors returns the position.
proof fn lemma_through(rs: Seq<RotorState>, n: nat, x: int)
    requires
        n <= rs.len(),
        forall|i: int| 0 <= i < rs.len() ==> rotor_ok(#[trigger] rs[i]),
        0 <= x < 26,
    ensures
        0 <= forward_through(rs, n, x) < 26,
        0 <= backward_through(rs, n, x) < 26,
        backward_through(rs, n, forward_through(rs, n, x)) == x,
        forward_through(rs, n, backward_through(rs, n, x)) == x,
    decreases n,
{
    if n > 0 {
        let n1 = (n - 1) as nat;
        let r = rs[n - 1];
        assert(rotor_ok(r));
        lemma_through(rs, n1, x);
        let y = r.inverted[x] as int;
        lemma_through(rs, n1, y);
    }
}

/// One pass of the machine undoes itself and never keeps a letter.
pub proof fn law_signal_reciprocal(m: MachineState, x: int)
    requires
        machine_ok(m),
        0 <= x < 26,
    ensures
        0 <= signal(m, x) < 26,
        signal(m, signal(m, x)) == x,
        signal(m, x) != x,
{
    let n = m.rotors.len();
    let rs = m.rotors;
    let p = m.plugboard[x] as int;
    lemma_through(rs, n, p);
    let f = forward_through(rs, n, p);
    let q = m.reflector[f] as int;
    lemma_through(rs, n, q);
    let b = backward_through(rs, n, q);
    let y = signal(m, x);
    assert(y == m.plugboard[b] as int);
    lemma_through(rs, n, b);
    assert(forward_through(rs, n, b) == q);
    assert(m.reflector[q] as int == f);
}

/// The i-th letter encoded is the i-th input sent through the machine after
/// i steps.
proof fn lemma_encode_all(m: MachineState, xs: Seq<char>)
    ensures
        encode_all(m, xs).len() == xs.len(),
        forall|k: int|
            0 <= k < xs.len() ==> #[trigger] encode_all(m, xs)[k] == letter_at(
                signal(advance_n(m, k as nat), index_of(xs[k])),
            ),
    decreases xs.len(),
{
    if xs.len() > 0 {
        let init = xs.drop_last();
        lemma_encode_all(m, init);
        assert forall|k: int| 0 <= k < xs.len() implies #[trigger] encode_all(m, xs)[k] == letter_at(
            signal(advance_n(m, k as nat), index_of(xs[k])),
        ) by {
            if k < init.len() {
                assert(init[k] == xs[k]);
            }
        }
    }
}

/// Encoding the output again from the same starting state gives back the
/// letters that were encoded.
pub proof fn law_encode_twice(m: MachineState, xs: Seq<char>)
    requires
        machine_ok(m),
        forall|k: int| 0 <= k < xs.len() ==> is_letter(#[trigger] xs[k]),
    ensures
        encode_all(m, encode_all(m, xs)) == xs,
        forall|k: int| 0 <= k < xs.len() ==> #[trigger] encode_all(m, xs)[k] != xs[k],
{
    let ys = encode_all(m, xs);
    lemma_encode_all(m, xs);
    lemma_encode_all(m, ys);
    assert forall|k: int| 0 <= k < xs.len() implies #[trigger] encode_all(m, ys)[k] == xs[k]
        && ys[k] != xs[k] by {
        let mk = advance_n(m, k as nat);
        lemma_advance_n_ok(m, k as nat);
        lemma_letter_index(xs[k]);
        law_signal_reciprocal(mk, index_of(xs[k]));
        lemma_index_letter(signal(mk, index_of(xs[k])));
    }
    assert(encode_all(m, ys) =~= xs);
}

/// `t` is rotor `s` turned to some position.
spec fn same_wheel(s: RotorState, t: RotorState) -> bool {
    rotor_ok(t) && t.rotation < 26 && t == turned_to(s, t.rotation)
}

proof fn lemma_advance_n_same_wheels(m: MachineState, k: nat)
    requires
        machine_ok(m),
    ensures
        forall|i: int| 0 <= i < m.rotors.len() ==> same_wheel(m.rotors[i], #[trigger] advance_n(m, k).rotors[i]),
    decreases k,
{
    lemma_advance_n_ok(m, k);
    if k == 0 {
        assert forall|i: int| 0 <= i < m.rotors.len() implies same_wheel(m.rotors[i], #[trigger] advance_n(m, k).rotors[i]) by {
            assert(rotor_ok(m.rotors[i]));
            lemma_turn_in_place(m.rotors[i]);
        }
    } else {
        let k1 = (k - 1) as nat;
        let prev = advance_n(m, k1);
        lemma_advance_n_same_wheels(m, k1);
        lemma_advance_n_ok(m, k1);
        lemma_advance_stack_shape(prev.rotors);
        assert forall|i: int| 0 <= i < m.rotors.len() implies same_wheel(m.rotors[i], #[trigger] advance_n(m, k).rotors[i]) by {
            let s = m.rotors[i];
            let t = prev.rotors[i];
            assert(same_wheel(s, t));
            assert(rotor_ok(s));
            assert(advance_n(m, k).rotors[i] == advance_stack(prev.rotors)[i]);
            if advance_stack(prev.rotors)[i] == stepped(t) {
                lemma_step_is_turn(t);
                lemma_stepped_ok(t);
                lemma_turn_twice(s, t.rotation, (t.rotation + 1) % 26);
            }
        }
    }
}

/// After any number of steps, turning the rotors back to the starting
/// positions restores the starting state.
pub proof fn law_reset_restores(m: MachineState, k: nat)
    requires
        machine_ok(m),
    ensures
        reset(advance_n(m, k), positions_of(m)) == m,
{
    lemma_advance_n_same_wheels(m, k);
    lemma_advance_n_ok(m, k);
    let r = reset(advance_n(m, k), positions_of(m));
    assert forall|i: int| 0 <= i < m.rotors.len() implies #[trigger] r.rotors[i] == m.rotors[i] by {
        let s = m.rotors[i];
        let t = advance_n(m, k).rotors[i];
        assert(same_wheel(s, t));
        assert(rotor_ok(s));
        lemma_turn_twice(s, t.rotation, s.rotation);
        lemma_turn_in_place(s);
    }
    assert(r.rotors =~= m.rotors);
}

/// Encoding letters, turning the rotors back to where they started, and
/// encoding the output gives back the letters.
pub proof fn law_round_trip(m: MachineState, xs: Seq<char>)
    requires
        machine_ok(m),
        forall|k: int| 0 <= k < xs.len() ==> is_letter(#[trigger] xs[k]),
    ensures
        reset(advance_n(m, xs.len()), positions_of(m)) == m,
        encode_all(reset(advance_n(m, xs.len()), positions_of(m)), encode_all(m, xs)) == xs,
{
    law_reset_restores(m, xs.len());
    law_encode_twice(m, xs);
}

} // verus!
