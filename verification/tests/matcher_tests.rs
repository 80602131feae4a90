use zxcvbn_rs::dictionary::{dictionary_match, reverse_dictionary_match};
use zxcvbn_rs::l33t::l33t_match;
use zxcvbn_rs::matches::MatchData;
use zxcvbn_rs::sequence::sequence_match;
use zxcvbn_rs::keyboard::spatial_match;
use zxcvbn_rs::repeats::repeat_match;

#[test]
fn dictionary_test() {
    let dict = ["pass".to_string(), "password".to_string(), "dave".to_string()];
    let m = dictionary_match("password", "test", &dict);
    assert_eq!(m.len(), 2);
    for temp in m.iter() {
        match &temp.data {
            MatchData::Dictionary { matched_word, .. } => assert!(matched_word != "dave"),
            _ => assert!(false),
        }
    }
}

#[test]
fn reverse_test() {
    let dict = ["password".to_string()];
    let m = reverse_dictionary_match("drowssap", "test", &dict);
    assert_eq!(m.len(), 1);

    let temp = &m[0];
    assert_eq!("drowssap", temp.token);
    match &temp.data {
        MatchData::Dictionary { matched_word, rank, reversed, l33t, .. } => {
            assert_eq!(*reversed, true);
            assert_eq!(*matched_word, "password");
            assert_eq!(*rank, 1);
            assert!(l33t.is_none());
        }
        _ => assert!(false),
    }
}

#[test]
fn l33t_match_test() {
    let dict = ["password".to_string(), "pass".to_string()];
    let m = l33t_match("pa$$w0rd", "t3st", &dict);
    assert_eq!(m.len(), 2);

    for temp in m.iter() {
        println!("{:?}\n", temp);
        match &temp.data {
            MatchData::Dictionary { l33t, .. } => {
                assert!(l33t.is_some());
            }
            _ => assert!(false),
        }
    }

    let dict = ["illusion".to_string()];
    let m = l33t_match("!llus1on", "t3st", &dict);
    assert_eq!(m.len(), 0);
}

#[test]
fn sequence_test() {
    let pass = "123456789";
    let matches = sequence_match(pass);
    assert_eq!(1, matches.len());
    let m = matches.iter().nth(0).unwrap();
    assert_eq!(m.pattern, "Sequence");
    assert_eq!(m.start, 0);
    assert_eq!(m.end, 8);
    assert_eq!(m.token, "123456789");
    match &m.data {
        MatchData::Sequence { name, space, ascending } => {
            assert_eq!(*name, "digits");
            assert_eq!(*space, 10);
            assert_eq!(*ascending, true);
        }
        _ => assert!(false),
    }
}

#[test]
fn date_match_test() {}

#[test]
fn repeat_match_test() {
    let test = "aabaabaabaab";
    let result = repeat_match(test);
    assert_eq!(result.len(), 1);

    let first = result.iter().nth(0).unwrap();
    assert_eq!(first.pattern, "Repeat");
    assert_eq!(first.start, 0);
    assert_eq!(first.end, test.chars().count() - 1);
    assert_eq!(first.token, test);
    match &first.data {
        MatchData::Repeat { base_token, repeat_count, .. } => {
            assert_eq!(*repeat_count, 4);
            assert_eq!(*base_token, "aab");
        }
        _ => assert!(false),
    };
}

#[test]
fn test_spatial_match() {
    let password = "mNbVcvBnM,.?";
    let matches = spatial_match(password);
    assert_eq!(matches.len(), 1);
    let mat = matches.iter().nth(0).unwrap();
    match &mat.data {
        MatchData::Spatial { graph, turns, shifted_count } => {
            assert_eq!(*graph, "qwerty");
            assert_eq!(*turns, 2);
            assert_eq!(*shifted_count, 5);
        }
        _ => assert!(false),
    }
}
