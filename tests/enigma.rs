use enigma::{get_char_digit, letter_of, Enigma, EnigmaError, Plugboard, Reflector, Rotor};

const ALPHABET: &str = "ABCDEFGHIJKLMNOPQRSTUVWXYZ";

fn wiring(s: &str) -> [char; 26] {
    let mut w = ['A'; 26];
    for (i, c) in s.chars().enumerate() {
        w[i] = c;
    }
    w
}

fn example_reflector_pairs() -> Vec<(char, char)> {
    vec![
        ('A', 'Z'), ('B', 'Y'), ('C', 'X'), ('D', 'W'), ('E', 'V'), ('F', 'U'), ('G', 'T'),
        ('H', 'S'), ('I', 'R'), ('J', 'Q'), ('K', 'P'), ('L', 'O'), ('M', 'N'),
    ]
}

fn example_rotors() -> Vec<Rotor> {
    vec![
        Rotor::new(wiring("QFZEKDSCXTWVYRGAMBNPJLOIUH"), 3),
        Rotor::new(wiring("DTBFHQZRJUVYLKSWNAPEMXIGOC"), 17),
        Rotor::new(wiring("SAHFPYTQMOIRUKBZCDJVWXEGNL"), 5),
    ]
}

fn example_machine() -> Enigma {
    let plugboard = Plugboard::new(&[('A', 'R'), ('H', 'J'), ('N', 'X')]).unwrap();
    let reflector = Reflector::from_pairs(&example_reflector_pairs()).unwrap();
    Enigma::new(plugboard, example_rotors(), reflector)
}

#[test]
fn todo() {}

#[test]
fn char_digit_of_letters() {
    assert_eq!(get_char_digit('A'), Ok(0));
    assert_eq!(get_char_digit('Z'), Ok(25));
    assert_eq!(get_char_digit('M'), Ok(12));
    assert_eq!(letter_of(0), 'A');
    assert_eq!(letter_of(25), 'Z');
}

#[test]
fn char_digit_rejects_non_letters() {
    assert_eq!(get_char_digit('a'), Err(EnigmaError::InvalidCharacter));
    assert_eq!(get_char_digit('0'), Err(EnigmaError::InvalidCharacter));
    assert_eq!(get_char_digit(' '), Err(EnigmaError::InvalidCharacter));
    assert_eq!(get_char_digit('['), Err(EnigmaError::InvalidCharacter));
    assert_eq!(get_char_digit('@'), Err(EnigmaError::InvalidCharacter));
}

#[test]
fn plugboard_swaps_pairs() {
    let p = Plugboard::new(&[('A', 'R'), ('H', 'J'), ('N', 'X')]).unwrap();
    assert_eq!(p.run('A'), 'R');
    assert_eq!(p.run('R'), 'A');
    assert_eq!(p.run('J'), 'H');
    assert_eq!(p.run('X'), 'N');
    assert_eq!(p.run('B'), 'B');
    let w: String = p.wiring().into_iter().collect();
    assert_eq!(w, "RBCDEFGJIHKLMXOPQASTUVWNYZ");
}

#[test]
fn plugboard_without_pairs_is_identity() {
    let p = Plugboard::new(&[]).unwrap();
    for c in ALPHABET.chars() {
        assert_eq!(p.run(c), c);
    }
}

#[test]
fn plugboard_involution_all_letters() {
    let p = Plugboard::new(&[('A', 'R'), ('H', 'J'), ('N', 'X'), ('Q', 'Z')]).unwrap();
    for c in ALPHABET.chars() {
        assert_eq!(p.run(p.run(c)), c);
    }
}

#[test]
fn plugboard_rejects_repeated_letter() {
    assert_eq!(
        Plugboard::new(&[('A', 'R'), ('R', 'J')]).unwrap_err(),
        EnigmaError::DuplicateOrConflictingPair
    );
    assert_eq!(Plugboard::new(&[('A', 'A')]).unwrap_err(), EnigmaError::DuplicateOrConflictingPair);
    assert_eq!(
        Plugboard::new(&[('A', 'B'), ('A', 'B')]).unwrap_err(),
        EnigmaError::DuplicateOrConflictingPair
    );
}

#[test]
fn plugboard_rejects_non_letters() {
    assert_eq!(Plugboard::new(&[('a', 'R')]).unwrap_err(), EnigmaError::InvalidCharacter);
    assert_eq!(
        Plugboard::new(&[('A', 'A'), ('B', '1')]).unwrap_err(),
        EnigmaError::InvalidCharacter
    );
}

#[test]
fn plugboard_thirteen_pairs() {
    let p = Plugboard::new(&example_reflector_pairs()).unwrap();
    assert_eq!(p.run('A'), 'Z');
    assert_eq!(p.run('M'), 'N');
}

#[test]
fn random_plugboard_is_involution() {
    for n in 0..13 {
        let p = Plugboard::new_rand(n);
        let mut moved = 0;
        for c in ALPHABET.chars() {
            assert_eq!(p.run(p.run(c)), c);
            if p.run(c) != c {
                moved += 1;
            }
        }
        assert_eq!(moved, 2 * n);
    }
}

#[test]
fn reflector_example() {
    let r = Reflector::from_pairs(&example_reflector_pairs()).unwrap();
    assert_eq!(r.run('A'), 'Z');
    assert_eq!(r.run('Z'), 'A');
    assert_eq!(r.run('H'), 'S');
    let w: String = r.wiring().into_iter().collect();
    assert_eq!(w, "ZYXWVUTSRQPONMLKJIHGFEDCBA");
}

#[test]
fn reflector_involution_and_no_fixed_point() {
    let r = Reflector::from_pairs(&example_reflector_pairs()).unwrap();
    for c in ALPHABET.chars() {
        assert_eq!(r.run(r.run(c)), c);
        assert_ne!(r.run(c), c);
    }
}

#[test]
fn reflector_rejects_wrong_count() {
    let mut pairs = example_reflector_pairs();
    pairs.pop();
    assert_eq!(Reflector::from_pairs(&pairs).unwrap_err(), EnigmaError::InvalidReflectorConfiguration);
    assert_eq!(Reflector::from_pairs(&[]).unwrap_err(), EnigmaError::InvalidReflectorConfiguration);
    let mut more = example_reflector_pairs();
    more.push(('A', 'Z'));
    assert_eq!(Reflector::from_pairs(&more).unwrap_err(), EnigmaError::InvalidReflectorConfiguration);
}

#[test]
fn reflector_rejects_overlap_and_self_pair() {
    let mut pairs = example_reflector_pairs();
    pairs[12] = ('M', 'A');
    assert_eq!(Reflector::from_pairs(&pairs).unwrap_err(), EnigmaError::InvalidReflectorConfiguration);
    let mut pairs = example_reflector_pairs();
    pairs[12] = ('M', 'M');
    assert_eq!(Reflector::from_pairs(&pairs).unwrap_err(), EnigmaError::InvalidReflectorConfiguration);
}

#[test]
fn reflector_rejects_non_letters() {
    let mut pairs = example_reflector_pairs();
    pairs[0] = ('a', 'Z');
    assert_eq!(Reflector::from_pairs(&pairs).unwrap_err(), EnigmaError::InvalidCharacter);
}

#[test]
fn random_reflector_is_valid() {
    let r = Reflector::new_rand();
    for c in ALPHABET.chars() {
        assert_eq!(r.run(r.run(c)), c);
        assert_ne!(r.run(c), c);
    }
}

#[test]
fn rotor_forward_and_reverse() {
    let r = Rotor::new(wiring("BCDEFGHIJKLMNOPQRSTUVWXYZA"), 0);
    assert_eq!(r.forward('A'), 'B');
    assert_eq!(r.forward('Z'), 'A');
    assert_eq!(r.reverse('B'), 'A');
    assert_eq!(r.reverse('A'), 'Z');
    let inv: String = r.inverse_wiring().into_iter().collect();
    assert_eq!(inv, "ZABCDEFGHIJKLMNOPQRSTUVWXY");
}

#[test]
fn rotor_constructor_keeps_wiring_as_given() {
    let r = Rotor::new(wiring("QFZEKDSCXTWVYRGAMBNPJLOIUH"), 3);
    assert_eq!(r.rotation(), 3);
    let w: String = r.wiring().into_iter().collect();
    assert_eq!(w, "QFZEKDSCXTWVYRGAMBNPJLOIUH");
}

#[test]
fn rotor_inverse_in_every_state() {
    let mut r = Rotor::new(wiring("QFZEKDSCXTWVYRGAMBNPJLOIUH"), 0);
    for _ in 0..30 {
        for c in ALPHABET.chars() {
            assert_eq!(r.reverse(r.forward(c)), c);
            assert_eq!(r.forward(r.reverse(c)), c);
        }
        r.rotate();
    }
}

#[test]
fn rotor_rotate_shifts_wiring() {
    let mut r = Rotor::new(wiring("BCDEFGHIJKLMNOPQRSTUVWXYZA"), 0);
    assert!(!r.rotate());
    assert_eq!(r.rotation(), 1);
    let w: String = r.wiring().into_iter().collect();
    assert_eq!(w, "CDEFGHIJKLMNOPQRSTUVWXYZAB");
    let inv: String = r.inverse_wiring().into_iter().collect();
    assert_eq!(inv, "YZABCDEFGHIJKLMNOPQRSTUVWX");
}

#[test]
fn rotor_carries_on_wrap() {
    let mut r = Rotor::new(wiring("BCDEFGHIJKLMNOPQRSTUVWXYZA"), 24);
    assert!(!r.rotate());
    assert_eq!(r.rotation(), 25);
    assert!(r.rotate());
    assert_eq!(r.rotation(), 0);
}

#[test]
fn rotor_set_rotation_realigns() {
    let mut r = Rotor::new(wiring("BCDEFGHIJKLMNOPQRSTUVWXYZA"), 5);
    r.set_rotation(8);
    assert_eq!(r.rotation(), 8);
    let w: String = r.wiring().into_iter().collect();
    assert_eq!(w, "EFGHIJKLMNOPQRSTUVWXYZABCD");
    let inv: String = r.inverse_wiring().into_iter().collect();
    assert_eq!(inv, "WXYZABCDEFGHIJKLMNOPQRSTUV");
}

#[test]
fn rotor_steps_match_set_rotation() {
    for start in [0usize, 7, 25] {
        for k in [0usize, 1, 5, 25, 26, 40] {
            let mut stepped = Rotor::new(wiring("QFZEKDSCXTWVYRGAMBNPJLOIUH"), start);
            for _ in 0..k {
                stepped.rotate();
            }
            let mut turned = Rotor::new(wiring("QFZEKDSCXTWVYRGAMBNPJLOIUH"), start);
            turned.set_rotation((start + k) % 26);
            assert_eq!(stepped.rotation(), turned.rotation());
            assert_eq!(stepped.wiring(), turned.wiring());
            assert_eq!(stepped.inverse_wiring(), turned.inverse_wiring());
        }
    }
}

#[test]
fn random_rotor_is_permutation() {
    let r = Rotor::new_rand();
    assert_eq!(r.rotation(), 0);
    let mut w = r.wiring();
    w.sort();
    let s: String = w.into_iter().collect();
    assert_eq!(s, ALPHABET);
}

#[test]
fn machine_single_letter() {
    let mut m = example_machine();
    assert_eq!(m.encypher('A'), Ok('T'));
    assert_eq!(m.positions(), vec![4, 17, 5]);
}

#[test]
fn machine_rejects_invalid_letter() {
    let mut m = example_machine();
    assert_eq!(m.encypher('a'), Err(EnigmaError::InvalidCharacter));
    assert_eq!(m.encypher('!'), Err(EnigmaError::InvalidCharacter));
    assert_eq!(m.positions(), vec![3, 17, 5]);
}

#[test]
fn hello_world_scenario() {
    let mut m = example_machine();
    let c = m.encypher_str("hello world");
    assert_eq!(c, "RLRUMZTZHW");
    assert_eq!(m.positions(), vec![13, 17, 5]);
    m.reset_positions(&[3, 17, 5]);
    assert_eq!(m.encypher_str(&c), "HELLOWORLD");
}

#[test]
fn hello_world_never_keeps_a_letter() {
    let mut m = example_machine();
    let input: Vec<char> = "HELLOWORLD".chars().collect();
    let out = m.encypher_text(&input);
    assert_eq!(out.len(), input.len());
    for (a, b) in input.iter().zip(out.iter()) {
        assert_ne!(a, b);
    }
}

#[test]
fn encypher_text_skips_and_folds() {
    let mut a = example_machine();
    let mut b = example_machine();
    let text: Vec<char> = "he l-lo".chars().collect();
    let plain: Vec<char> = "HELLO".chars().collect();
    assert_eq!(a.encypher_text(&text), b.encypher_text(&plain));
    assert_eq!(a.positions(), b.positions());
}

#[test]
fn encypher_str_uses_unicode_uppercase() {
    let mut a = example_machine();
    let mut b = example_machine();
    assert_eq!(a.encypher_str("ß"), b.encypher_str("SS"));
    assert_eq!(a.encypher_str("ß").len(), 2);
}

#[test]
fn encypher_str_of_nothing() {
    let mut m = example_machine();
    assert_eq!(m.encypher_str("123 !?"), "");
    assert_eq!(m.positions(), vec![3, 17, 5]);
}

#[test]
fn reset_with_fewer_positions() {
    let mut m = example_machine();
    m.encypher_str("ABCDEFG");
    m.reset_positions(&[0]);
    assert_eq!(m.positions(), vec![0, 17, 5]);
    m.reset_positions(&[1, 2, 3, 4]);
    assert_eq!(m.positions(), vec![1, 2, 3]);
}

#[test]
fn carry_propagation_three_rotors() {
    let mut m = example_machine();
    for _ in 0..26 {
        m.rotate_rotors();
    }
    assert_eq!(m.positions(), vec![3, 18, 5]);
    let mut m = example_machine();
    for _ in 0..676 {
        m.rotate_rotors();
    }
    assert_eq!(m.positions(), vec![3, 17, 6]);
}

#[test]
fn odometer_wraps_all_rotors() {
    let plugboard = Plugboard::new(&[]).unwrap();
    let reflector = Reflector::from_pairs(&example_reflector_pairs()).unwrap();
    let rotors = vec![
        Rotor::new(wiring("QFZEKDSCXTWVYRGAMBNPJLOIUH"), 25),
        Rotor::new(wiring("DTBFHQZRJUVYLKSWNAPEMXIGOC"), 25),
    ];
    let mut m = Enigma::new(plugboard, rotors, reflector);
    m.rotate_rotors();
    assert_eq!(m.positions(), vec![0, 0]);
}

#[test]
fn round_trip_random_machine() {
    let plugboard = Plugboard::new_rand(6);
    let reflector = Reflector::new_rand();
    let rotors = vec![Rotor::new_rand(), Rotor::new_rand(), Rotor::new_rand(), Rotor::new_rand()];
    let mut m = Enigma::new(plugboard, rotors, reflector);
    m.reset_positions(&[25, 24, 3, 0]);
    let text = "THEQUICKBROWNFOXJUMPSOVERTHELAZYDOGTHEQUICKBROWNFOXJUMPSOVERTHELAZYDOG";
    let c = m.encypher_str(text);
    assert_eq!(c.len(), text.len());
    m.reset_positions(&[25, 24, 3, 0]);
    assert_eq!(m.encypher_str(&c), text);
}

#[test]
fn machine_without_rotors() {
    let plugboard = Plugboard::new(&[('A', 'B')]).unwrap();
    let reflector = Reflector::from_pairs(&example_reflector_pairs()).unwrap();
    let mut m = Enigma::new(plugboard, vec![], reflector);
    assert_eq!(m.encypher('A'), Ok('Y'));
    assert_eq!(m.encypher('Y'), Ok('A'));
}

#[test]
fn arrow_straight_down() {
    assert_eq!(enigma::trace::arrow(2, 2), "    |\n    |");
    assert_eq!(enigma::trace::arrow(0, 0), "|\n|");
}

#[test]
fn arrow_to_the_right() {
    assert_eq!(enigma::trace::arrow(1, 3), "  |___\n      |");
}

#[test]
fn arrow_to_the_left() {
    assert_eq!(enigma::trace::arrow(3, 1), "   ___|\n  |");
}
