use number_words::{
    default_config, Config, DecodeGraph, Edge, MemoizedParser, ParseError, Table,
};
use std::collections::HashSet;

fn set_of(words: &[String]) -> HashSet<&str> {
    words.iter().map(|s| &s[..]).collect()
}

fn expected_set<'a>(words: &[&'a str]) -> HashSet<&'a str> {
    words.iter().cloned().collect()
}

fn chars(text: &str) -> Vec<char> {
    text.chars().collect()
}

#[test]
fn memoized_empty_input_has_the_empty_word() {
    let parser = MemoizedParser::new(&default_config());
    assert_eq!(parser.parse(""), Ok(vec![String::new()]));
}

#[test]
fn memoized_one_two_three_four() {
    let parser = MemoizedParser::new(&default_config());
    let words = parser.parse("1234").unwrap();
    assert_eq!(set_of(&words), expected_set(&["ABCD", "AWD", "LCD"]));
    assert_eq!(words.len(), 3);
}

#[test]
fn memoized_fifteen() {
    let parser = MemoizedParser::new(&default_config());
    let words = parser.parse("15").unwrap();
    assert_eq!(set_of(&words), expected_set(&["AE", "O"]));
}

#[test]
fn memoized_three_ones() {
    let parser = MemoizedParser::new(&default_config());
    let words = parser.parse("111").unwrap();
    assert_eq!(set_of(&words), expected_set(&["AAA", "AK", "KA"]));
}

#[test]
fn memoized_tens() {
    let parser = MemoizedParser::new(&default_config());
    assert_eq!(parser.parse("20"), Ok(vec!["T".to_string()]));
    assert_eq!(parser.parse("10"), Ok(vec!["J".to_string()]));
}

#[test]
fn memoized_lone_zero_has_no_word() {
    let parser = MemoizedParser::new(&default_config());
    assert_eq!(parser.parse("0"), Ok(vec![]));
}

#[test]
fn memoized_leading_zero_has_no_word() {
    let parser = MemoizedParser::new(&default_config());
    assert_eq!(parser.parse("01"), Ok(vec![]));
}

#[test]
fn memoized_rejects_a_letter() {
    let parser = MemoizedParser::new(&default_config());
    assert_eq!(parser.parse("A"), Err(ParseError::InvalidCharacter('A')));
}

#[test]
fn memoized_rejects_the_first_invalid_character() {
    let parser = MemoizedParser::new(&default_config());
    assert_eq!(parser.parse("1 2"), Err(ParseError::InvalidCharacter(' ')));
}

#[test]
fn completion_counts_of_three_ones() {
    let table = Table::new(&default_config());
    let graph = DecodeGraph::build(&table, &chars("111"));
    assert_eq!(graph.completion_counts(), vec![3, 2, 1, 1]);
}

#[test]
fn completion_counts_with_a_dead_end() {
    let table = Table::new(&default_config());
    // Neither "0" nor "01" nor "30" is a token: nothing completes from
    // position 2, and so nothing from the positions before it.
    let graph = DecodeGraph::build(&table, &chars("1301"));
    assert_eq!(graph.completion_counts(), vec![0, 0, 0, 1, 1]);
    // Here "10" leads from position 1 past the dead end at position 2.
    let graph = DecodeGraph::build(&table, &chars("2101"));
    assert_eq!(graph.completion_counts(), vec![1, 1, 0, 1, 1]);
}

#[test]
fn completion_counts_of_the_empty_input() {
    let table = Table::new(&default_config());
    let graph = DecodeGraph::build(&table, &[]);
    assert_eq!(graph.completion_counts(), vec![1]);
    assert_eq!(graph.generate(1), vec![String::new()]);
}

#[test]
fn generation_gives_as_many_words_as_counted() {
    let table = Table::new(&default_config());
    for text in ["", "1", "1234", "111", "0", "01", "1212121212", "2626262626", "1010101"] {
        let graph = DecodeGraph::build(&table, &chars(text));
        let counts = graph.completion_counts();
        let words = graph.generate(counts[0]);
        assert_eq!(words.len(), counts[0]);
    }
}

#[test]
fn completion_counts_follow_fibonacci_on_ones() {
    let table = Table::new(&default_config());
    let graph = DecodeGraph::build(&table, &chars("1111111111"));
    assert_eq!(
        graph.completion_counts(),
        vec![89, 55, 34, 21, 13, 8, 5, 3, 2, 1, 1]
    );
}

#[test]
fn completion_counts_saturate() {
    let table = Table::new(&default_config());
    let ones = "1".repeat(200);
    let graph = DecodeGraph::build(&table, &chars(&ones));
    let counts = graph.completion_counts();
    assert_eq!(counts.len(), 201);
    assert_eq!(counts[0], usize::MAX);
    assert_eq!(counts[200], 1);
    assert_eq!(counts[190], 89);
}

#[test]
fn generation_ignores_a_wrong_capacity() {
    let table = Table::new(&default_config());
    let graph = DecodeGraph::build(&table, &chars("1234"));
    let expected = vec!["ABCD".to_string(), "AWD".to_string(), "LCD".to_string()];
    assert_eq!(graph.generate(0), expected);
    assert_eq!(graph.generate(usize::MAX), expected);
}

#[test]
fn memoized_keeps_equal_words_of_different_cuts() {
    let config: Config = vec![
        ("1".to_string(), 'A'),
        ("11".to_string(), 'B'),
        ("111".to_string(), 'A'),
    ];
    let parser = MemoizedParser::new(&config);
    assert_eq!(
        parser.parse("111"),
        Ok(vec!["AAA".to_string(), "AB".to_string(), "BA".to_string(), "A".to_string()])
    );
}

#[test]
fn graph_has_an_edge_for_each_token() {
    let table = Table::new(&default_config());
    let graph = DecodeGraph::build(&table, &chars("1204"));
    assert_eq!(graph.positions(), 5);
    assert_eq!(
        graph.edges_from(0),
        Some(&vec![
            Edge { symbol: 'A', target: 1 },
            Edge { symbol: 'L', target: 2 },
        ])
    );
    assert_eq!(
        graph.edges_from(1),
        Some(&vec![
            Edge { symbol: 'B', target: 2 },
            Edge { symbol: 'T', target: 3 },
        ])
    );
    assert_eq!(graph.edges_from(2), Some(&vec![]));
    assert_eq!(graph.edges_from(3), Some(&vec![Edge { symbol: 'D', target: 4 }]));
    assert_eq!(graph.edges_from(4), Some(&vec![]));
    assert_eq!(graph.edges_from(5), None);
    assert_eq!(graph.completion_counts(), vec![1, 1, 0, 1, 1]);
    assert_eq!(graph.generate(1), vec!["ATD".to_string()]);
}

#[test]
fn graph_looks_no_further_than_the_longest_token() {
    let config: Config = vec![("1".to_string(), 'A'), ("111".to_string(), 'C')];
    let table = Table::new(&config);
    let graph = DecodeGraph::build(&table, &chars("1111"));
    assert_eq!(
        graph.edges_from(0),
        Some(&vec![
            Edge { symbol: 'A', target: 1 },
            Edge { symbol: 'C', target: 3 },
        ])
    );
    assert_eq!(graph.edges_from(2), Some(&vec![Edge { symbol: 'A', target: 3 }]));
    assert_eq!(graph.completion_counts(), vec![3, 2, 1, 1, 1]);
    assert_eq!(
        graph.generate(3),
        vec!["AAAA".to_string(), "AC".to_string(), "CA".to_string()]
    );
}
