use number_words::{default_config, Config, DfsParser, ParseError};
use std::collections::HashSet;

fn set_of(words: &[String]) -> HashSet<&str> {
    words.iter().map(|s| &s[..]).collect()
}

fn expected_set<'a>(words: &[&'a str]) -> HashSet<&'a str> {
    words.iter().cloned().collect()
}

#[test]
fn dfs_empty_input_has_the_empty_word() {
    let parser = DfsParser::new(&default_config());
    assert_eq!(parser.parse(""), Ok(vec![String::new()]));
}

#[test]
fn dfs_one_two_three_four() {
    let parser = DfsParser::new(&default_config());
    let words = parser.parse("1234").unwrap();
    assert_eq!(set_of(&words), expected_set(&["ABCD", "AWD", "LCD"]));
    assert_eq!(words.len(), 3);
}

#[test]
fn dfs_fifteen() {
    let parser = DfsParser::new(&default_config());
    let words = parser.parse("15").unwrap();
    assert_eq!(set_of(&words), expected_set(&["AE", "O"]));
}

#[test]
fn dfs_three_ones() {
    let parser = DfsParser::new(&default_config());
    let words = parser.parse("111").unwrap();
    assert_eq!(set_of(&words), expected_set(&["AAA", "AK", "KA"]));
}

#[test]
fn dfs_tens() {
    let parser = DfsParser::new(&default_config());
    assert_eq!(parser.parse("20"), Ok(vec!["T".to_string()]));
    assert_eq!(parser.parse("10"), Ok(vec!["J".to_string()]));
}

#[test]
fn dfs_lone_zero_has_no_word() {
    let parser = DfsParser::new(&default_config());
    assert_eq!(parser.parse("0"), Ok(vec![]));
}

#[test]
fn dfs_leading_zero_has_no_word() {
    let parser = DfsParser::new(&default_config());
    assert_eq!(parser.parse("01"), Ok(vec![]));
}

#[test]
fn dfs_rejects_a_letter() {
    let parser = DfsParser::new(&default_config());
    assert_eq!(parser.parse("A"), Err(ParseError::InvalidCharacter('A')));
}

#[test]
fn dfs_rejects_the_first_invalid_character() {
    let parser = DfsParser::new(&default_config());
    assert_eq!(parser.parse("1 2"), Err(ParseError::InvalidCharacter(' ')));
}

#[test]
fn dfs_words_come_by_ascending_first_token() {
    let parser = DfsParser::new(&default_config());
    assert_eq!(
        parser.parse("1234"),
        Ok(vec!["ABCD".to_string(), "AWD".to_string(), "LCD".to_string()])
    );
}

#[test]
fn dfs_keeps_equal_words_of_different_cuts() {
    let config: Config = vec![
        ("1".to_string(), 'A'),
        ("11".to_string(), 'B'),
        ("111".to_string(), 'A'),
    ];
    let parser = DfsParser::new(&config);
    assert_eq!(
        parser.parse("111"),
        Ok(vec!["AAA".to_string(), "AB".to_string(), "BA".to_string(), "A".to_string()])
    );
}

#[test]
fn dfs_tokens_of_other_characters() {
    let config: Config = vec![
        ("ab".to_string(), 'x'),
        ("a".to_string(), 'y'),
        ("b".to_string(), 'z'),
        ("é".to_string(), 'e'),
    ];
    let parser = DfsParser::new(&config);
    assert_eq!(parser.parse("abé"), Ok(vec!["yze".to_string(), "xe".to_string()]));
    assert_eq!(parser.parse("abc"), Err(ParseError::InvalidCharacter('c')));
}
