use vstd::prelude::*;
use crate::machine::{MachineState, machine_ok, advance_stack, advance_n};
use crate::rotor::{RotorState, rotor_ok, stepped, carries};
use crate::laws::lemma_advance_n_ok;

verus! {

/// The rotor positions read as a number in base 26, the first rotor being
/// the least significant digit.
pub open spec fn odometer(rs: Seq<RotorState>) -> int
    decreases rs.len(),
{
    if rs.len() == 0 {
        0
    } else {
        rs[0].rotation + 26 * odometer(rs.drop_first())
    }
}

/// 26 to the power `n`.
pub open spec fn pow26(n: nat) -> int
    decreases n,
{
    if n == 0 {
        1
    } else {
        26 * pow26((n - 1) as nat)
    }
}

proof fn lemma_odometer_range(rs: Seq<RotorState>)
    requires
        forall|i: int| 0 <= i < rs.len() ==> rotor_ok(#[trigger] rs[i]),
    ensures
        0 <= odometer(rs) < pow26(rs.len()),
    decreases rs.len(),
{
    if rs.len() > 0 {
        assert(rotor_ok(rs[0]));
        assert forall|i: int| 0 <= i < rs.drop_first().len() implies rotor_ok(#[trigger] rs.drop_first()[i]) by {
            assert(rotor_ok(rs[i + 1]));
        }
        lemma_odometer_range(rs.drop_first());
    }
}

/// One step of the stack adds one to its odometer reading, wrapping round
/// to zero after the largest reading.
pub proof fn law_odometer_step(rs: Seq<RotorState>)
    requires
        forall|i: int| 0 <= i < rs.len() ==> rotor_ok(#[trigger] rs[i]),
    ensures
        odometer(advance_stack(rs)) == (odometer(rs) + 1) % pow26(rs.len()),
    decreases rs.len(),
{
    lemma_odometer_range(rs);
    if rs.len() > 0 {
        let tail = rs.drop_first();
        assert forall|i: int| 0 <= i < tail.len() implies rotor_ok(#[trigger] tail[i]) by {
            assert(rotor_ok(rs[i + 1]));
        }
        assert(rotor_ok(rs[0]));
        lemma_odometer_range(tail);
        let p = pow26(tail.len());
        let v = odometer(rs);
        if carries(rs[0]) {
            law_odometer_step(tail);
            let a = advance_stack(rs);
            assert(a.drop_first() =~= advance_stack(tail));
            assert(a[0] == stepped(rs[0]));
            if odometer(tail) + 1 == p {
                assert((odometer(tail) + 1) % p == 0) by {
                    vstd::arithmetic::div_mod::lemma_mod_self_0(p);
                }
                assert(v + 1 == 26 * p);
                vstd::arithmetic::div_mod::lemma_mod_self_0(26 * p);
            } else {
                vstd::arithmetic::div_mod::lemma_small_mod((odometer(tail) + 1) as nat, p as nat);
                vstd::arithmetic::div_mod::lemma_small_mod((v + 1) as nat, (26 * p) as nat);
            }
        } else {
            let a = advance_stack(rs);
            assert(a.drop_first() =~= tail);
            vstd::arithmetic::div_mod::lemma_small_mod((v + 1) as nat, (26 * p) as nat);
        }
    }
}

proof fn lemma_odometer_n(m: MachineState, k: nat)
    requires
        machine_ok(m),
    ensures
        odometer(advance_n(m, k).rotors) == (odometer(m.rotors) + k) % pow26(m.rotors.len()),
    decreases k,
{
    let p = pow26(m.rotors.len());
    lemma_odometer_range(m.rotors);
    lemma_advance_n_ok(m, k);
    if k == 0 {
        vstd::arithmetic::div_mod::lemma_small_mod(odometer(m.rotors) as nat, p as nat);
    } else {
        let k1 = (k - 1) as nat;
        let prev = advance_n(m, k1);
        lemma_odometer_n(m, k1);
        lemma_advance_n_ok(m, k1);
        law_odometer_step(prev.rotors);
        vstd::arithmetic::div_mod::lemma_add_mod_noop_right(1, odometer(m.rotors) + k1, p);
    }
}

proof fn lemma_odometer_three(rs: Seq<RotorState>)
    requires
        rs.len() == 3,
    ensures
        odometer(rs) == rs[0].rotation + 26 * rs[1].rotation + 676 * rs[2].rotation,
{
    let t1 = rs.drop_first();
    let t2 = t1.drop_first();
    let t3 = t2.drop_first();
    assert(odometer(t3) == 0);
    assert(t2[0] == rs[2]);
    assert(t1[0] == rs[1]);
    assert(odometer(t2) == rs[2].rotation);
    assert(odometer(t1) == rs[1].rotation + 26 * rs[2].rotation);
}

/// With three rotors, 26 steps bring the first rotor back and move the
/// second on by one; 26 * 26 steps bring the first two back and move the
/// third on by one.
pub proof fn law_carry_three(m: MachineState)
    requires
        machine_ok(m),
        m.rotors.len() == 3,
    ensures
        advance_n(m, 26).rotors[0].rotation == m.rotors[0].rotation,
        advance_n(m, 26).rotors[1].rotation == (m.rotors[1].rotation + 1) % 26,
        advance_n(m, 676).rotors[0].rotation == m.rotors[0].rotation,
        advance_n(m, 676).rotors[1].rotation == m.rotors[1].rotation,
        advance_n(m, 676).rotors[2].rotation == (m.rotors[2].rotation + 1) % 26,
{
    assert(pow26(3) == 17576) by {
        reveal_with_fuel(pow26, 4);
    }
    let r0 = m.rotors[0].rotation;
    let r1 = m.rotors[1].rotation;
    let r2 = m.rotors[2].rotation;
    assert(rotor_ok(m.rotors[0]) && rotor_ok(m.rotors[1]) && rotor_ok(m.rotors[2]));
    lemma_odometer_three(m.rotors);
    let a = advance_n(m, 26);
    let b = advance_n(m, 676);
    lemma_advance_n_ok(m, 26);
    lemma_advance_n_ok(m, 676);
    lemma_odometer_n(m, 26);
    lemma_odometer_n(m, 676);
    lemma_odometer_three(a.rotors);
    lemma_odometer_three(b.rotors);
    assert(rotor_ok(a.rotors[0]) && rotor_ok(a.rotors[1]) && rotor_ok(a.rotors[2]));
    assert(rotor_ok(b.rotors[0]) && rotor_ok(b.rotors[1]) && rotor_ok(b.rotors[2]));
    let a0 = a.rotors[0].rotation;
    let a1 = a.rotors[1].rotation;
    let a2 = a.rotors[2].rotation;
    let b0 = b.rotors[0].rotation;
    let b1 = b.rotors[1].rotation;
    let b2 = b.rotors[2].rotation;
    let v = r0 + 26 * r1 + 676 * r2;
    assert(a0 + 26 * a1 + 676 * a2 == (v + 26) % 17576);
    assert(b0 + 26 * b1 + 676 * b2 == (v + 676) % 17576);
    assert(a0 == r0 && a1 == (r1 + 1) % 26) by (nonlinear_arith)
        requires
            a0 + 26 * a1 + 676 * a2 == (v + 26) % 17576,
            v == r0 + 26 * r1 + 676 * r2,
            r0 < 26, r1 < 26, r2 < 26, a0 < 26, a1 < 26, a2 < 26,
    ;
    assert(b0 == r0 && b1 == r1 && b2 == (r2 + 1) % 26) by (nonlinear_arith)
        requires
            b0 + 26 * b1 + 676 * b2 == (v + 676) % 17576,
            v == r0 + 26 * r1 + 676 * r2,
            r0 < 26, r1 < 26, r2 < 26, b0 < 26, b1 < 26, b2 < 26,
    ;
}

} // verus!
