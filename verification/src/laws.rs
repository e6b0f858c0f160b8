//! What holds of the parsers among themselves.

use crate::decoding::{decodings, is_parse_of};
use crate::dfs::DfsParser;
use crate::error::ParseError;
use crate::graph::{
    count_from, decode_graph, lemma_paths_are_decodings, lemma_paths_count, paths_from, saturated,
    Edge,
};
use crate::memoized::MemoizedParser;
use crate::naive::Parser;
use crate::partition::{
    decoded, is_partition, lemma_partition_is_listed, lemma_partitions_decode,
    lemma_partitions_distinct, partitions,
};
use crate::table::{all_in_alphabet, first_invalid_at, in_alphabet, token_symbols};
use vstd::prelude::*;

verus! {

/// What an outcome says, with each word as a sequence of characters.
pub open spec fn outcome_view(outcome: Result<Vec<String>, ParseError>) -> Result<
    Seq<Seq<char>>,
    ParseError,
> {
    match outcome {
        Ok(words) => Ok(words.deep_view()),
        Err(error) => Err(error),
    }
}

/// What an outcome says, with the words as a set.
pub open spec fn outcome_set(outcome: Result<Vec<String>, ParseError>) -> Result<
    Set<Seq<char>>,
    ParseError,
> {
    match outcome {
        Ok(words) => Ok(words.deep_view().to_set()),
        Err(error) => Err(error),
    }
}

/// A digit string has at most one first character outside the alphabet.
pub proof fn lemma_first_invalid_unique(
    pairs: Seq<(Seq<char>, char)>,
    digits: Seq<char>,
    j: int,
    k: int,
)
    requires
        first_invalid_at(pairs, digits, j),
        first_invalid_at(pairs, digits, k),
    ensures
        j == k,
{
    if j < k {
        assert(in_alphabet(pairs, digits[j]));
    } else if k < j {
        assert(in_alphabet(pairs, digits[k]));
    }
}

/// A configuration and a digit string leave `parse` no choice: two outcomes
/// that it may return hold the same words in the same order, or the same
/// error.
pub proof fn lemma_outcome_unique(
    pairs: Seq<(Seq<char>, char)>,
    digits: Seq<char>,
    first: Result<Vec<String>, ParseError>,
    second: Result<Vec<String>, ParseError>,
)
    requires
        is_parse_of(pairs, digits, first),
        is_parse_of(pairs, digits, second),
    ensures
        outcome_view(first) == outcome_view(second),
{
    match (first, second) {
        (Ok(_), Ok(_)) => {},
        (Err(ParseError::InvalidCharacter(c)), Err(ParseError::InvalidCharacter(d))) => {
            let j = choose|j: int| first_invalid_at(pairs, digits, j) && digits[j] == c;
            let k = choose|k: int| first_invalid_at(pairs, digits, k) && digits[k] == d;
            lemma_first_invalid_unique(pairs, digits, j, k);
        },
        (Ok(_), Err(ParseError::InvalidCharacter(d))) => {
            let k = choose|k: int| first_invalid_at(pairs, digits, k) && digits[k] == d;
            assert(all_in_alphabet(pairs, digits));
            assert(in_alphabet(pairs, digits[k]));
        },
        (Err(ParseError::InvalidCharacter(c)), Ok(_)) => {
            let j = choose|j: int| first_invalid_at(pairs, digits, j) && digits[j] == c;
            assert(all_in_alphabet(pairs, digits));
            assert(in_alphabet(pairs, digits[j]));
        },
    }
}

/// The three strategies agree: parsers of one configuration return, for the
/// same digits, the same set of words, or the same error. They even return
/// the words in the same order.
pub proof fn lemma_strategies_agree(
    naive: Parser,
    dfs: DfsParser,
    memoized: MemoizedParser,
    digits: Seq<char>,
    by_naive: Result<Vec<String>, ParseError>,
    by_dfs: Result<Vec<String>, ParseError>,
    by_memoized: Result<Vec<String>, ParseError>,
)
    requires
        naive@ == dfs@,
        dfs@ == memoized@,
        is_parse_of(naive@, digits, by_naive),
        is_parse_of(dfs@, digits, by_dfs),
        is_parse_of(memoized@, digits, by_memoized),
    ensures
        outcome_set(by_naive) == outcome_set(by_dfs),
        outcome_set(by_dfs) == outcome_set(by_memoized),
        outcome_view(by_naive) == outcome_view(by_dfs),
        outcome_view(by_dfs) == outcome_view(by_memoized),
{
    lemma_outcome_unique(naive@, digits, by_naive, by_dfs);
    lemma_outcome_unique(dfs@, digits, by_dfs, by_memoized);
}

/// Parsing is deterministic: two calls with the same digits on one parser,
/// whose configuration is `pairs`, return the same set of words, or the
/// same error.
pub proof fn lemma_parse_deterministic(
    pairs: Seq<(Seq<char>, char)>,
    digits: Seq<char>,
    first: Result<Vec<String>, ParseError>,
    second: Result<Vec<String>, ParseError>,
)
    requires
        is_parse_of(pairs, digits, first),
        is_parse_of(pairs, digits, second),
    ensures
        outcome_set(first) == outcome_set(second),
        outcome_view(first) == outcome_view(second),
{
    lemma_outcome_unique(pairs, digits, first, second);
}

/// A successful parse lists the partitions of the digits: it holds one word
/// for each partition, the decoding of that partition, and no partition is
/// left out or taken twice, also where two partitions decode to the same
/// word.
pub proof fn lemma_parse_lists_partitions(
    pairs: Seq<(Seq<char>, char)>,
    digits: Seq<char>,
    words: Vec<String>,
)
    requires
        is_parse_of(pairs, digits, Ok(words)),
    ensures
        words@.len() == partitions(token_symbols(pairs), digits).len(),
        forall|i: int|
            0 <= i < words@.len() ==> (#[trigger] words@[i])@ == decoded(
                token_symbols(pairs),
                digits,
                partitions(token_symbols(pairs), digits)[i],
            ),
        forall|cuts: Seq<int>|
            is_partition(token_symbols(pairs), digits, cuts) <==> partitions(
                token_symbols(pairs),
                digits,
            ).contains(cuts),
        partitions(token_symbols(pairs), digits).no_duplicates(),
{
    let symbols = token_symbols(pairs);
    lemma_partitions_decode(symbols, digits);
    lemma_partitions_distinct(symbols, digits);
    assert forall|i: int| 0 <= i < words@.len() implies (#[trigger] words@[i])@ == decoded(
        symbols,
        digits,
        partitions(symbols, digits)[i],
    ) by {
        assert(words.deep_view()[i] == words@[i]@);
    }
    assert forall|cuts: Seq<int>| is_partition(symbols, digits, cuts) implies partitions(
        symbols,
        digits,
    ).contains(cuts) by {
        lemma_partition_is_listed(symbols, digits, cuts);
    }
}

/// The completion count of the first position of a decode graph is the
/// number of words of the digits, whichever parser lists them.
pub proof fn lemma_count_is_number_of_words(symbols: Map<Seq<char>, char>, digits: Seq<char>)
    requires
        digits.len() <= usize::MAX,
    ensures
        count_from(decode_graph(symbols, digits), 0) == decodings(symbols, digits).len(),
{
    lemma_paths_are_decodings(symbols, digits, 0);
    lemma_paths_count(decode_graph(symbols, digits), 0);
    assert(digits.skip(0) =~= digits);
}

/// Generation fills what was reserved: the walk over a graph yields exactly
/// as many words as the completion count of its first position says, the
/// count as it is held in a `usize`.
pub proof fn lemma_generation_matches_count(
    graph: Seq<Seq<Edge>>,
    counts: Seq<usize>,
    words: Vec<String>,
)
    requires
        counts.len() == graph.len() > 0,
        counts[0] == saturated(count_from(graph, 0)),
        words.deep_view() == paths_from(graph, 0),
    ensures
        words@.len() == counts[0],
{
    lemma_paths_count(graph, 0);
    assert(words@.len() == words.len());
}

} // verus!
