use std::collections::HashSet;
use zxcvbn_rs::matching::omnimatch;
use zxcvbn_rs::matches::MatchData;
use zxcvbn_rs::scoring::most_guessable_match_sequence;
use zxcvbn_rs::result::{get_feedback, PasswordScore};
use zxcvbn_rs::wordlists::default_dictionaries;
use zxcvbn_rs::datematch::{date_match, date_match_at};
use zxcvbn_rs::regexes::regex_match;

#[test]
fn no_duplicates_smart() {
    let dicts = default_dictionaries();
    let mut map: HashSet<String> = HashSet::new();
    for (_, words) in dicts.iter() {
        for word in words.iter() {
            assert!(!map.contains(word), "Failed {} appears more than once", word);
            map.insert(word.clone());
        }
    }
}

#[test]
fn dedup_gives_word_to_best_rank() {
    // "james" and "thomas" head the male-name list, so the surname list
    // must no longer carry them
    let dicts = default_dictionaries();
    let male = &dicts[1];
    let surnames = &dicts[2];
    assert_eq!(male.0, "Male names");
    assert_eq!(surnames.0, "Surnames");
    assert!(male.1.iter().any(|w| w == "james"));
    assert!(male.1.iter().any(|w| w == "thomas"));
    assert!(!surnames.1.iter().any(|w| w == "james"));
    assert!(!surnames.1.iter().any(|w| w == "thomas"));
    assert!(surnames.1.iter().any(|w| w == "smith"));
}

#[test]
fn common_password_scores_very_weak() {
    // "password" sits at rank one of the Passwords list
    let matches = omnimatch("password");
    let mut found = false;
    for m in matches.iter() {
        if let MatchData::Dictionary { matched_word, rank, dictionary_name, reversed, l33t } =
            &m.data
        {
            if m.start == 0 && m.end == 7 && dictionary_name == "Passwords" {
                assert_eq!(*rank, 1);
                assert_eq!(matched_word, "password");
                assert!(!reversed);
                assert!(l33t.is_none());
                found = true;
            }
        }
    }
    assert!(found);
    let result = most_guessable_match_sequence("password".to_string(), matches, false);
    assert!(result.guesses <= 2);
    assert_eq!(get_feedback(result.guesses), PasswordScore::VeryWeak);
}

#[test]
fn reversed_password_is_found() {
    let matches = omnimatch("drowssap");
    let mut found = false;
    for m in matches.iter() {
        if let MatchData::Dictionary { matched_word, reversed, .. } = &m.data {
            if m.start == 0 && m.end == 7 && *reversed {
                assert_eq!(matched_word, "password");
                found = true;
            }
        }
    }
    assert!(found);
}

#[test]
fn l33t_password_is_found() {
    let matches = omnimatch("pa$$w0rd");
    let mut found = false;
    for m in matches.iter() {
        if let MatchData::Dictionary { matched_word, l33t, .. } = &m.data {
            if m.start == 0 && m.end == 7 && l33t.is_some() {
                assert_eq!(matched_word, "password");
                let subs = &l33t.as_ref().unwrap().l33t_subs;
                assert!(subs.iter().any(|(c, s)| *c == '$' && s == "s"));
                assert!(subs.iter().any(|(c, s)| *c == '0' && s == "o"));
                found = true;
            }
        }
    }
    assert!(found);
}

#[test]
fn bruteforce_password_needs_many_guesses() {
    // eight characters that hit no word list, walk, run or date
    let password = "zqvkwpxu";
    let matches = omnimatch(password);
    let result = most_guessable_match_sequence(password.to_string(), matches, false);
    assert!(result.guesses >= 100_000_000);
    assert!(result.sequence.len() >= 1);
    for m in result.sequence.iter() {
        assert_eq!(m.pattern, "Bruteforce");
    }
}

#[test]
fn optimal_sequence_covers_password() {
    let password = "correcthorse42";
    let n = password.chars().count();
    let matches = omnimatch(password);
    let result = most_guessable_match_sequence(password.to_string(), matches, false);
    assert!(result.guesses >= 1);
    let seq = &result.sequence;
    assert!(seq.len() >= 1);
    assert_eq!(seq[0].start, 0);
    assert_eq!(seq[seq.len() - 1].end, n - 1);
    for w in 1..seq.len() {
        assert_eq!(seq[w].start, seq[w - 1].end + 1);
    }
    for m in seq.iter() {
        let token: String = password.chars().skip(m.start).take(m.end + 1 - m.start).collect();
        assert_eq!(m.token, token);
    }
}

#[test]
fn score_buckets_follow_thresholds() {
    assert_eq!(get_feedback(1), PasswordScore::VeryWeak);
    assert_eq!(get_feedback(1004), PasswordScore::VeryWeak);
    assert_eq!(get_feedback(1005), PasswordScore::Weak);
    assert_eq!(get_feedback(1_000_004), PasswordScore::Weak);
    assert_eq!(get_feedback(1_000_005), PasswordScore::Medium);
    assert_eq!(get_feedback(100_000_004), PasswordScore::Medium);
    assert_eq!(get_feedback(100_000_005), PasswordScore::Strong);
    assert_eq!(get_feedback(10_000_000_004), PasswordScore::Strong);
    assert_eq!(get_feedback(10_000_000_005), PasswordScore::VeryStrong);
}

#[test]
fn empty_password_scores_one_guess() {
    let matches = omnimatch("");
    let result = most_guessable_match_sequence(String::new(), matches, false);
    assert_eq!(result.guesses, 1);
    assert_eq!(result.sequence.len(), 0);
    assert_eq!(get_feedback(result.guesses), PasswordScore::VeryWeak);
}

#[test]
fn separated_date_is_read() {
    let matches = date_match_at("13.8.1997", 2017);
    assert!(matches.len() >= 1);
    let mut found = false;
    for m in matches.iter() {
        if let MatchData::Date { separator, date } = &m.data {
            if m.start == 0 && m.end == 8 {
                assert_eq!(*separator, '.');
                assert_eq!(date.year, 1997);
                assert_eq!(date.month, 8);
                assert_eq!(date.day, 13);
                found = true;
            }
        }
    }
    assert!(found);
}

#[test]
fn bare_digit_date_is_read() {
    // of the two readable splits, 11-9-(200)7 lies closest to the
    // reference year and wins
    let matches = date_match_at("1197", 2017);
    assert!(matches.len() >= 1);
    let m = &matches[0];
    if let MatchData::Date { separator, date } = &m.data {
        assert_eq!(*separator, '\0');
        assert_eq!(date.year, 2007);
        assert_eq!(date.month, 9);
        assert_eq!(date.day, 11);
    } else {
        assert!(false);
    }
}

#[test]
fn recent_year_is_found() {
    let matches = regex_match("xx2016yy");
    assert_eq!(matches.len(), 1);
    let m = &matches[0];
    assert_eq!(m.start, 2);
    assert_eq!(m.end, 5);
    assert_eq!(m.token, "2016");
    if let MatchData::Regex { name } = &m.data {
        assert_eq!(name, "recent year");
    } else {
        assert!(false);
    }
}

#[test]
fn feedback_names_the_weakness() {
    let matches = omnimatch("password");
    let mut result = most_guessable_match_sequence("password".to_string(), matches, false);
    result.get_feedback();
    assert_eq!(result.score, Some(PasswordScore::VeryWeak));
    let feedback = result.feedback.unwrap();
    assert_eq!(feedback.advice, "This is a top-10 common password");
}

#[test]
fn date_match_uses_the_clock() {
    // whatever year the clock shows, the separated triple reads as a date
    let matches = date_match("13.8.1997");
    assert!(matches.len() >= 1);
    let mut found = false;
    for m in matches.iter() {
        if let MatchData::Date { date, .. } = &m.data {
            if m.start == 0 && m.end == 8 {
                assert_eq!(date.year, 1997);
                found = true;
            }
        }
    }
    assert!(found);
}
