//! The naive parser: it builds the words of each suffix anew.

use crate::config::Config;
use crate::decoding::{
    decodings, decodings_up_to, decodings_with_first, is_parse_of, lemma_decodings_beyond_bound,
    prefix_each,
};
use crate::error::ParseError;
use crate::table::{lemma_token_length, token_symbols, Table};
use crate::text::{chars_of, string_of_deque};
use std::collections::VecDeque;
use vstd::prelude::*;
use vstd::slice::slice_subrange;

verus! {

/// The words that `words` hold, each front to back.
pub open spec fn deque_words(words: Seq<VecDeque<char>>) -> Seq<Seq<char>> {
    Seq::new(words.len(), |i: int| words[i]@)
}

/// A parser that decodes a suffix by decoding each shorter suffix again.
pub struct Parser {
    table: Table,
}

impl View for Parser {
    type V = Seq<(Seq<char>, char)>;

    /// The configuration that the parser was built from.
    closed spec fn view(&self) -> Seq<(Seq<char>, char)> {
        self.table@
    }
}

impl Parser {
    /// Builds the parser of `config`.
    pub fn new(config: &Config) -> (parser: Parser)
        ensures
            parser@ == config.deep_view(),
    {
        Parser { table: Table::new(config) }
    }

    /// Decodes `digits`: all its words, or the first character that occurs
    /// in no token.
    pub fn parse(&self, digits: &str) -> (outcome: Result<Vec<String>, ParseError>)
        ensures
            is_parse_of(self@, digits@, outcome),
    {
        let chars = chars_of(digits);
        match self.table.validate(chars.as_slice()) {
            Err(error) => Err(error),
            Ok(_) => {
                let parsed = self.parse_list(chars.as_slice());
                let ghost expected = deque_words(parsed@);
                let mut words: Vec<String> = Vec::new();
                for word in it: parsed
                    invariant
                        it.seq().len() == expected.len(),
                        forall|i: int|
                            0 <= i < expected.len() ==> (#[trigger] it.seq()[i])@ == expected[i],
                        words.deep_view() == expected.take(it.index() as int),
                {
                    let text = string_of_deque(&word);
                    words.push(text);
                    assert(expected.take(it.index() + 1) =~= expected.take(it.index() as int).push(
                        text@,
                    ));
                }
                assert(expected.take(expected.len() as int) =~= expected);
                Ok(words)
            },
        }
    }

    /// The words of `ds`, each under construction from its end: the symbol
    /// of a first token goes in front of each word of the rest.
    pub fn parse_list(&self, ds: &[char]) -> (words: Vec<VecDeque<char>>)
        ensures
            deque_words(words@) == decodings(token_symbols(self@), ds@),
        decreases ds@.len(),
    {
        let ghost symbols = token_symbols(self@);
        let mut words: Vec<VecDeque<char>> = Vec::new();
        if ds.len() == 0 {
            words.push(VecDeque::new());
            return words;
        }
        let max_lookahead = self.table.max_lookahead();
        let reach = if max_lookahead < ds.len() {
            max_lookahead
        } else {
            ds.len()
        };
        let mut len: usize = 0;
        while len < reach
            invariant
                len <= reach <= ds.len(),
                symbols == token_symbols(self@),
                deque_words(words@) == decodings_up_to(symbols, ds@, len as int),
            decreases reach - len,
        {
            len += 1;
            let ghost before = deque_words(words@);
            match self.table.lookup(slice_subrange(ds, 0, len)) {
                Some(symbol) => {
                    let rest = self.parse_list(slice_subrange(ds, len, ds.len()));
                    let ghost tails = deque_words(rest@);
                    assert(decodings_with_first(symbols, ds@, len as int) == prefix_each(
                        seq![symbol],
                        tails,
                    ));
                    let ghost heads = prefix_each(seq![symbol], tails);
                    for word in it: rest
                        invariant
                            it.seq().len() == tails.len(),
                            forall|i: int|
                                0 <= i < tails.len() ==> (#[trigger] it.seq()[i])@ == tails[i],
                            heads == prefix_each(seq![symbol], tails),
                            deque_words(words@) == before + heads.take(it.index() as int),
                    {
                        let ghost earlier = deque_words(words@);
                        let mut word = word;
                        word.push_front(symbol);
                        words.push(word);
                        assert(deque_words(words@) =~= earlier.push(word@));
                    }
                },
                None => {
                    assert(deque_words(words@) =~= before + decodings_with_first(
                        symbols,
                        ds@,
                        len as int,
                    ));
                },
            }
        }
        proof {
            assert forall|token: Seq<char>| symbols.dom().contains(token) implies token.len()
                <= max_lookahead by {
                lemma_token_length(self@, token);
            }
            if reach < ds.len() {
                lemma_decodings_beyond_bound(symbols, ds@, reach as int, ds.len() as int);
            }
        }
        words
    }
}

} // verus!
