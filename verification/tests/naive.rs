use number_words::{default_config, Config, ParseError, Parser};
use std::collections::{HashSet, VecDeque};

fn set_of(words: &[String]) -> HashSet<&str> {
    words.iter().map(|s| &s[..]).collect()
}

fn expected_set<'a>(words: &[&'a str]) -> HashSet<&'a str> {
    words.iter().cloned().collect()
}

#[test]
fn it_works() {
    let parser = Parser::new(&default_config());

    let expected = ["ABCD", "AWD", "LCD"];
    let expected_set = expected.iter().cloned().collect::<HashSet<&str>>();

    let actual = parser.parse("1234").unwrap();
    let actual_set = actual.iter().map(|s| &s[..]).collect::<HashSet<&str>>();

    assert_eq!(actual_set, expected_set)
}

#[test]
fn naive_empty_input_has_the_empty_word() {
    let parser = Parser::new(&default_config());
    assert_eq!(parser.parse(""), Ok(vec![String::new()]));
}

#[test]
fn naive_fifteen() {
    let parser = Parser::new(&default_config());
    let words = parser.parse("15").unwrap();
    assert_eq!(set_of(&words), expected_set(&["AE", "O"]));
}

#[test]
fn naive_three_ones() {
    let parser = Parser::new(&default_config());
    let words = parser.parse("111").unwrap();
    assert_eq!(set_of(&words), expected_set(&["AAA", "AK", "KA"]));
}

#[test]
fn naive_tens() {
    let parser = Parser::new(&default_config());
    assert_eq!(parser.parse("20"), Ok(vec!["T".to_string()]));
    assert_eq!(parser.parse("10"), Ok(vec!["J".to_string()]));
}

#[test]
fn naive_lone_zero_has_no_word() {
    let parser = Parser::new(&default_config());
    assert_eq!(parser.parse("0"), Ok(vec![]));
}

#[test]
fn naive_leading_zero_has_no_word() {
    let parser = Parser::new(&default_config());
    assert_eq!(parser.parse("01"), Ok(vec![]));
}

#[test]
fn naive_rejects_a_letter() {
    let parser = Parser::new(&default_config());
    assert_eq!(parser.parse("A"), Err(ParseError::InvalidCharacter('A')));
}

#[test]
fn naive_rejects_the_first_invalid_character() {
    let parser = Parser::new(&default_config());
    assert_eq!(parser.parse("1 2"), Err(ParseError::InvalidCharacter(' ')));
    assert_eq!(parser.parse("12x y"), Err(ParseError::InvalidCharacter('x')));
}

#[test]
fn naive_words_come_by_ascending_first_token() {
    let parser = Parser::new(&default_config());
    assert_eq!(
        parser.parse("1234"),
        Ok(vec!["ABCD".to_string(), "AWD".to_string(), "LCD".to_string()])
    );
    assert_eq!(
        parser.parse("111"),
        Ok(vec!["AAA".to_string(), "AK".to_string(), "KA".to_string()])
    );
}

#[test]
fn naive_parse_list_builds_deques() {
    let parser = Parser::new(&default_config());
    let words = parser.parse_list(&['1', '5']);
    let expected: Vec<VecDeque<char>> = vec![
        VecDeque::from(vec!['A', 'E']),
        VecDeque::from(vec!['O']),
    ];
    assert_eq!(words, expected);
    assert_eq!(parser.parse_list(&[]), vec![VecDeque::new()]);
    assert_eq!(parser.parse_list(&['x']), Vec::<VecDeque<char>>::new());
}

#[test]
fn naive_keeps_equal_words_of_different_cuts() {
    let config: Config = vec![
        ("1".to_string(), 'A'),
        ("11".to_string(), 'B'),
        ("111".to_string(), 'A'),
        ("1111".to_string(), 'B'),
    ];
    let parser = Parser::new(&config);
    let words = parser.parse("111").unwrap();
    // cuts 1+1+1, 1+11, 11+1 and 111
    assert_eq!(
        words,
        vec!["AAA".to_string(), "AB".to_string(), "BA".to_string(), "A".to_string()]
    );
    let four = parser.parse("1111").unwrap();
    assert_eq!(four.len(), 8);
    assert_eq!(four.iter().filter(|w| w.as_str() == "AA").count(), 2);
}

#[test]
fn naive_empty_configuration() {
    let parser = Parser::new(&Vec::new());
    assert_eq!(parser.parse(""), Ok(vec![String::new()]));
    assert_eq!(parser.parse("1"), Err(ParseError::InvalidCharacter('1')));
}
