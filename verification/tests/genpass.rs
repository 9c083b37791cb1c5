use rcli::genpass::{can_estimate, report, strength_line};
use rcli::{password_report, GenPassOpts, StrengthError};

#[test]
fn options_reach_the_generator_in_order() {
    let opts = GenPassOpts {
        length: 16,
        uppercase: true,
        lowercase: false,
        number: true,
        symbol: false,
    };
    assert_eq!(opts.generator_args(), (16, true, false, true, false));
}

#[test]
fn strength_goes_to_stderr() {
    let r = password_report("Imaginative-Say-Shoulder-Dish-0".to_string());
    assert_eq!(r.stdout, "Imaginative-Say-Shoulder-Dish-0");
    assert_eq!(r.stderr, Ok("Password strength: 4".to_string()));
    let weak = password_report("password".to_string());
    assert_eq!(weak.stdout, "password");
    assert_eq!(weak.stderr, Ok("Password strength: 0".to_string()));
}

#[test]
fn blank_password_has_no_strength() {
    let r = password_report(String::new());
    assert_eq!(r.stdout, "");
    assert_eq!(r.stderr, Err(StrengthError::BlankPassword));
}

#[test]
fn report_of_an_outcome() {
    let r = report("pw".to_string(), Ok(3));
    assert_eq!((r.stdout.as_str(), r.stderr), ("pw", Ok("Password strength: 3".to_string())));
    let r = report("pw".to_string(), Err(StrengthError::DurationOutOfRange));
    assert_eq!(r.stdout, "pw");
    assert_eq!(r.stderr, Err(StrengthError::DurationOutOfRange));
    assert_eq!(strength_line(10), "Password strength: 10");
}

#[test]
fn passwords_within_reach() {
    for ok in [
        "",
        "password",
        "correct horse battery staple",
        "11111111111111111111",
        "Xk#9vQ&2mZ@7pR^4sT%6wB*8nC(3dF)5",
        "qwqwqwqwqwqwqwqwqwqwqwqwqwqwqwqw",
        "1212121212121212121",
        "пароль-пароль-пароль-пароль-пар",
    ] {
        assert!(can_estimate(ok), "{}", ok);
        let r = password_report(ok.to_string());
        assert_eq!(r.stdout, ok);
        assert_eq!(r.stderr.is_ok(), !ok.is_empty());
    }
}

#[test]
fn passwords_out_of_reach() {
    for far in [
        "qw".repeat(17),
        "12".repeat(15),
        "x".repeat(33),
        "1x".repeat(13),
        "\u{130}".to_string(),
    ] {
        assert!(!can_estimate(&far), "{}", far);
    }
    // Keypad keys, and the characters that match by themselves, count up to their bounds.
    assert!(can_estimate(&format!("{}abcd", "7".repeat(28))));
    assert!(!can_estimate(&format!("{}abc", "7".repeat(29))));
    assert!(can_estimate(&format!("{}{}", "i".repeat(5), "x".repeat(27))));
    assert!(!can_estimate(&format!("{}{}", "i".repeat(6), "x".repeat(26))));
}

#[test]
fn long_passwords_are_reported_by_their_outcome() {
    let long = "x".repeat(33);
    let score = zxcvbn::zxcvbn(&long, &[]).unwrap().score();
    let r = report(long.clone(), Ok(score));
    assert_eq!(r.stdout, long);
    assert_eq!(r.stderr, Ok(format!("Password strength: {}", score)));
}
