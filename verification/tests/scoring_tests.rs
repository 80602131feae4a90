use zxcvbn_rs::scoring::{factorial, nCk, estimate_guesses, sat_mul, sat_add};
use zxcvbn_rs::matches::{BaseMatch, MatchData};

#[test]
fn factorial_test() {
    assert!(factorial(0) == 1);
    assert!(factorial(1) == 1);
    assert!(factorial(2) == 2);
    assert!(factorial(3) == 6);
    assert!(factorial(10) == 3628800);
}

#[test]
#[allow(non_snake_case)]
fn nCk_test() {
    assert!(nCk(2, 1) == 2);
    assert!(nCk(2, 2) == 1);
    assert!(nCk(2, 3) == 0);
    assert!(nCk(85, 5) == 32801517);
}

#[test]
fn factorial_saturates() {
    assert_eq!(factorial(20), 2432902008176640000);
    assert_eq!(factorial(21), u64::MAX);
    assert_eq!(factorial(1000), u64::MAX);
}

#[test]
fn saturating_arithmetic() {
    assert_eq!(sat_mul(3, 5), 15);
    assert_eq!(sat_mul(u64::MAX, 2), u64::MAX);
    assert_eq!(sat_add(u64::MAX, 1), u64::MAX);
    assert_eq!(sat_add(40, 2), 42);
}

#[test]
fn bruteforce_guess_formula() {
    // a bruteforce fill over four characters costs 10^4 guesses
    let m = BaseMatch {
        pattern: "Bruteforce".to_string(),
        start: 0,
        end: 3,
        token: "abcd".to_string(),
        data: MatchData::Plain,
    };
    assert_eq!(estimate_guesses(&m, "abcdefgh", 2017), 10000);
}

#[test]
fn dictionary_guess_formula() {
    // rank times case variations, doubled when reversed
    let m = BaseMatch {
        pattern: "Dictionary".to_string(),
        start: 0,
        end: 7,
        token: "drowssap".to_string(),
        data: MatchData::Dictionary {
            matched_word: "password".to_string(),
            rank: 3,
            dictionary_name: "Passwords".to_string(),
            reversed: true,
            l33t: None,
        },
    };
    // covers the whole password, so no submatch floor: 3 * 1 * 2
    assert_eq!(estimate_guesses(&m, "drowssap", 2017), 6);
}

#[test]
fn sequence_guess_formula() {
    // first char '1' is an obvious start: 4 guesses, ascending, nine chars
    let m = BaseMatch {
        pattern: "Sequence".to_string(),
        start: 0,
        end: 8,
        token: "123456789".to_string(),
        data: MatchData::Sequence { name: "digits".to_string(), space: 10, ascending: true },
    };
    assert_eq!(estimate_guesses(&m, "123456789", 2017), 4 * 9);
}

#[test]
fn regex_guess_formula() {
    // |year - reference| with a floor of twenty
    let m = BaseMatch {
        pattern: "Regex".to_string(),
        start: 0,
        end: 3,
        token: "1956".to_string(),
        data: MatchData::Regex { name: "recent year".to_string() },
    };
    assert_eq!(estimate_guesses(&m, "1956", 2017), 61);
    let m2 = BaseMatch {
        pattern: "Regex".to_string(),
        start: 0,
        end: 3,
        token: "2016".to_string(),
        data: MatchData::Regex { name: "recent year".to_string() },
    };
    assert_eq!(estimate_guesses(&m2, "2016", 2017), 20);
}
