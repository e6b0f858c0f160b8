use number_words::{default_config, Config, ParseError, Table};

#[test]
fn default_config_maps_numerals_to_letters() {
    let config = default_config();
    assert_eq!(config.len(), 26);
    assert_eq!(config[0], ("1".to_string(), 'A'));
    assert_eq!(config[8], ("9".to_string(), 'I'));
    assert_eq!(config[9], ("10".to_string(), 'J'));
    assert_eq!(config[19], ("20".to_string(), 'T'));
    assert_eq!(config[25], ("26".to_string(), 'Z'));
    let expected: Config = (b'A'..=b'Z')
        .map(|b| ((b - b'A' + 1).to_string(), b as char))
        .collect();
    assert_eq!(config, expected);
}

#[test]
fn lookup_finds_tokens_only() {
    let table = Table::new(&default_config());
    assert_eq!(table.lookup(&['1']), Some('A'));
    assert_eq!(table.lookup(&['2', '6']), Some('Z'));
    assert_eq!(table.lookup(&['2', '7']), None);
    assert_eq!(table.lookup(&['0']), None);
    assert_eq!(table.lookup(&['0', '1']), None);
    assert_eq!(table.lookup(&[]), None);
    assert_eq!(table.lookup(&['1', '2', '3']), None);
}

#[test]
fn max_lookahead_is_the_longest_token() {
    assert_eq!(Table::new(&default_config()).max_lookahead(), 2);
    assert_eq!(Table::new(&Vec::new()).max_lookahead(), 0);
    let config: Config = vec![
        ("abc".to_string(), 'x'),
        ("ééééé".to_string(), 'y'),
        ("z".to_string(), 'z'),
    ];
    assert_eq!(Table::new(&config).max_lookahead(), 5);
}

#[test]
fn last_pair_of_a_token_wins() {
    let config: Config = vec![
        ("1".to_string(), 'A'),
        ("2".to_string(), 'B'),
        ("1".to_string(), 'C'),
    ];
    let table = Table::new(&config);
    assert_eq!(table.lookup(&['1']), Some('C'));
    assert_eq!(table.lookup(&['2']), Some('B'));
}

#[test]
fn validate_names_the_first_character_outside_the_alphabet() {
    let table = Table::new(&default_config());
    assert_eq!(table.validate(&[]), Ok(()));
    assert_eq!(table.validate(&['0', '9', '5']), Ok(()));
    assert_eq!(
        table.validate(&['1', ' ', 'x']),
        Err(ParseError::InvalidCharacter(' '))
    );
    assert_eq!(table.validate(&['A']), Err(ParseError::InvalidCharacter('A')));
}

#[test]
fn alphabet_is_made_of_characters_not_tokens() {
    let config: Config = vec![("ab".to_string(), 'x')];
    let table = Table::new(&config);
    assert_eq!(table.validate(&['b', 'a', 'b']), Ok(()));
    assert_eq!(table.lookup(&['b']), None);
}

#[test]
fn empty_token_is_never_matched() {
    let config: Config = vec![("".to_string(), 'x'), ("1".to_string(), 'A')];
    let table = Table::new(&config);
    assert_eq!(table.max_lookahead(), 1);
    assert_eq!(table.lookup(&[]), Some('x'));
    assert_eq!(table.validate(&['1']), Ok(()));
}
