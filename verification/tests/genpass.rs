use rcli::{
    allowed_alphabet, conforms_to, draw_required, fill_remaining, generate, process_genpass,
    CharClass, GenPassError, GenPassOpts,
};

const UPPER: &str = "ABCDEFGHJKLMNOPQRSTUVWXYZ";
const LOWER: &str = "abcdefghijkmnpqrstuvwxyz";
const NUMBER: &str = "23456789";
const SYMBOL: &str = "!@#$%^&*_";

fn opts(length: u8, uppercase: bool, lowercase: bool, number: bool, symbol: bool) -> GenPassOpts {
    GenPassOpts { length, uppercase, lowercase, number, symbol }
}

fn every_switch() -> Vec<(bool, bool, bool, bool)> {
    let mut all = Vec::new();
    for bits in 0u8..16 {
        all.push((bits & 1 != 0, bits & 2 != 0, bits & 4 != 0, bits & 8 != 0));
    }
    all
}

fn count(switches: (bool, bool, bool, bool)) -> u8 {
    switches.0 as u8 + switches.1 as u8 + switches.2 as u8 + switches.3 as u8
}

fn holds_one_of(password: &str, class: &str) -> bool {
    password.chars().any(|c| class.contains(c))
}

#[test]
fn classes_have_their_characters() {
    assert_eq!(CharClass::Upper.pool(), UPPER.as_bytes());
    assert_eq!(CharClass::Lower.pool(), LOWER.as_bytes());
    assert_eq!(CharClass::Number.pool(), NUMBER.as_bytes());
    assert_eq!(CharClass::Symbol.pool(), SYMBOL.as_bytes());
}

#[test]
fn ambiguous_characters_are_left_out() {
    assert!(!UPPER.contains('I'));
    assert!(!LOWER.contains('l'));
    assert!(!LOWER.contains('o'));
    assert!(!CharClass::Number.pool().contains(&b'0'));
    assert!(!CharClass::Number.pool().contains(&b'1'));
}

#[test]
fn alphabet_is_the_enabled_classes_in_order() {
    let all = allowed_alphabet(&opts(8, true, true, true, true));
    assert_eq!(all, format!("{UPPER}{LOWER}{NUMBER}{SYMBOL}").into_bytes());
    let some = allowed_alphabet(&opts(8, false, true, false, true));
    assert_eq!(some, format!("{LOWER}{SYMBOL}").into_bytes());
    let none = allowed_alphabet(&opts(8, false, false, false, false));
    assert_eq!(none, Vec::<u8>::new());
}

#[test]
fn counts_the_enabled_classes() {
    for s in every_switch() {
        let o = opts(4, s.0, s.1, s.2, s.3);
        assert_eq!(o.enabled_classes(), count(s));
        assert_eq!(o.enables(CharClass::Upper), s.0);
        assert_eq!(o.enables(CharClass::Lower), s.1);
        assert_eq!(o.enables(CharClass::Number), s.2);
        assert_eq!(o.enables(CharClass::Symbol), s.3);
    }
}

#[test]
fn eight_characters_of_all_classes() {
    let (password, score) = process_genpass(8, true, true, true, true).unwrap();
    assert_eq!(password.chars().count(), 8);
    assert!(holds_one_of(&password, UPPER));
    assert!(holds_one_of(&password, LOWER));
    assert!(holds_one_of(&password, NUMBER));
    assert!(holds_one_of(&password, SYMBOL));
    assert!(score <= 4);
}

#[test]
fn no_class_is_refused_whatever_the_length() {
    for length in [0u8, 1, 4, 16, 255] {
        assert_eq!(
            process_genpass(length, false, false, false, false),
            Err(GenPassError::NoClassSelected)
        );
        assert_eq!(
            opts(length, false, false, false, false).validate(),
            Err(GenPassError::NoClassSelected)
        );
    }
}

#[test]
fn too_short_a_length_is_refused() {
    assert_eq!(process_genpass(2, true, true, true, true), Err(GenPassError::LengthTooShort));
    assert_eq!(process_genpass(3, true, true, true, true), Err(GenPassError::LengthTooShort));
    assert_eq!(process_genpass(0, true, false, false, false), Err(GenPassError::LengthTooShort));
    assert_eq!(process_genpass(1, false, true, false, true), Err(GenPassError::LengthTooShort));
}

#[test]
fn validation_follows_length_and_classes() {
    for s in every_switch() {
        for length in 0u8..8 {
            let expected = if count(s) == 0 {
                Err(GenPassError::NoClassSelected)
            } else if length < count(s) {
                Err(GenPassError::LengthTooShort)
            } else {
                Ok(())
            };
            assert_eq!(opts(length, s.0, s.1, s.2, s.3).validate(), expected);
        }
    }
}

#[test]
fn every_served_password_conforms() {
    let mut rng = rand::rng();
    for s in every_switch() {
        if count(s) == 0 {
            continue;
        }
        for length in [count(s), count(s) + 1, 16, 255] {
            let o = opts(length, s.0, s.1, s.2, s.3);
            let password = generate(&o, &mut rng).unwrap();
            assert_eq!(password.len(), length as usize);
            assert!(conforms_to(&o, &password));
            let alphabet = String::from_utf8(allowed_alphabet(&o)).unwrap();
            assert!(password.chars().all(|c| alphabet.contains(c)));
            assert_eq!(holds_one_of(&password, UPPER), s.0);
            assert_eq!(holds_one_of(&password, LOWER), s.1);
            assert_eq!(holds_one_of(&password, NUMBER), s.2);
            assert_eq!(holds_one_of(&password, SYMBOL), s.3);
        }
    }
}

#[test]
fn length_equal_to_the_classes_is_served() {
    let (password, _) = process_genpass(4, true, true, true, true).unwrap();
    assert!(conforms_to(&opts(4, true, true, true, true), &password));
    let (password, _) = process_genpass(1, false, false, true, false).unwrap();
    assert_eq!(password.len(), 1);
    assert!(NUMBER.contains(&password));
}

#[test]
fn two_passwords_differ() {
    let (one, _) = process_genpass(32, true, true, true, true).unwrap();
    let (two, _) = process_genpass(32, true, true, true, true).unwrap();
    assert_ne!(one, two);
}

#[test]
fn guaranteed_characters_do_not_stay_in_front() {
    let mut moved = false;
    for _ in 0..64 {
        let (password, _) = process_genpass(8, true, true, true, true).unwrap();
        let front: Vec<char> = password.chars().take(4).collect();
        let in_order = UPPER.contains(front[0])
            && LOWER.contains(front[1])
            && NUMBER.contains(front[2])
            && SYMBOL.contains(front[3]);
        if !in_order {
            moved = true;
        }
    }
    assert!(moved);
}

#[test]
fn strength_is_rated_from_zero_to_four() {
    let (_, weak) = process_genpass(1, true, false, false, false).unwrap();
    assert_eq!(weak, 0);
    let (_, strong) = process_genpass(64, true, true, true, true).unwrap();
    assert_eq!(strong, 4);
}

#[test]
fn required_characters_come_one_per_class_in_order() {
    let mut rng = rand::rng();
    for _ in 0..16 {
        let buf = draw_required(&opts(9, true, true, true, true), &mut rng);
        assert_eq!(buf.len(), 4);
        assert!(UPPER.as_bytes().contains(&buf[0]));
        assert!(LOWER.as_bytes().contains(&buf[1]));
        assert!(NUMBER.as_bytes().contains(&buf[2]));
        assert!(SYMBOL.as_bytes().contains(&buf[3]));
        let buf = draw_required(&opts(9, false, true, false, true), &mut rng);
        assert_eq!(buf.len(), 2);
        assert!(LOWER.as_bytes().contains(&buf[0]));
        assert!(SYMBOL.as_bytes().contains(&buf[1]));
    }
    assert_eq!(draw_required(&opts(9, false, false, false, false), &mut rng), Vec::<u8>::new());
}

#[test]
fn filling_keeps_the_front_and_draws_from_the_pool() {
    let mut rng = rand::rng();
    let mut buf = b"Aa".to_vec();
    fill_remaining(&mut buf, b"xyz", 10, &mut rng);
    assert_eq!(buf.len(), 10);
    assert_eq!(&buf[..2], b"Aa");
    assert!(buf[2..].iter().all(|b| b"xyz".contains(b)));
}

#[test]
fn filling_leaves_a_long_buffer_alone() {
    let mut rng = rand::rng();
    let mut buf = b"abcdef".to_vec();
    fill_remaining(&mut buf, b"x", 6, &mut rng);
    assert_eq!(buf, b"abcdef".to_vec());
    fill_remaining(&mut buf, b"x", 3, &mut rng);
    assert_eq!(buf, b"abcdef".to_vec());
    fill_remaining(&mut buf, b"", 6, &mut rng);
    assert_eq!(buf, b"abcdef".to_vec());
    fill_remaining(&mut buf, b"x", 8, &mut rng);
    assert_eq!(buf, b"abcdefxx".to_vec());
}

#[test]
fn conformance_is_decided_exactly() {
    let all = opts(8, true, true, true, true);
    assert!(conforms_to(&all, "Ab2!Ab2!"));
    assert!(conforms_to(&all, "!!!!2bAA"));
    assert!(!conforms_to(&all, "Ab2!Ab2"));
    assert!(!conforms_to(&all, "Ab2!Ab2!!"));
    assert!(!conforms_to(&all, "AbcdAb2a"));
    assert!(!conforms_to(&all, "ab2!ab2!"));
    assert!(!conforms_to(&all, "AB2!AB2!"));
    assert!(!conforms_to(&all, "Abc!Abc!"));
    assert!(!conforms_to(&all, "Ab2!Ab1!"));
    assert!(!conforms_to(&all, "Ab2!Ab0!"));
    assert!(!conforms_to(&all, "Ib2!Ab2!"));
    assert!(!conforms_to(&all, "Al2!Ab2!"));
    assert!(!conforms_to(&all, "Ab2!Ab2?"));
    assert!(!conforms_to(&all, "Ab2!Ab2\u{e9}"));
    let digits = opts(3, false, false, true, false);
    assert!(conforms_to(&digits, "234"));
    assert!(!conforms_to(&digits, "23a"));
    assert!(!conforms_to(&digits, "23"));
    let nothing = opts(0, false, false, false, false);
    assert!(conforms_to(&nothing, ""));
    assert!(!conforms_to(&nothing, "a"));
}
